//! Errors, and the messages by which a response reports them.

use vstd::prelude::*;
use vstd::string::*;

use crate::text::{debug_text, plain_name, quoted, quoted_text};

verus! {

/// Why a request, or a part of it, was not carried out.
#[derive(Debug)]
pub enum GraphQLError {
    /// The document asks for something that is not allowed.
    Validation { message: String },
    /// A field is selected that its type does not have.
    FieldNotFound { field: String, on_type: String },
    /// Building or running the work behind a field failed.
    Execution { message: String },
}

pub type GraphQLResult<T> = Result<T, GraphQLError>;

/// One entry of a response's list of errors.
#[derive(Debug)]
pub struct ErrorMessage {
    pub message: String,
}

/// An error as the contracts speak of it.
pub enum ErrorView {
    Validation(Seq<char>),
    FieldNotFound { field: Seq<char>, on_type: Seq<char> },
    Execution(Seq<char>),
}

impl ErrorView {
    /// The text that reports the error.
    pub open spec fn text(self) -> Seq<char> {
        match self {
            ErrorView::Validation(message) => message,
            ErrorView::FieldNotFound { field, on_type } => unknown_field_text(field, on_type),
            ErrorView::Execution(message) => message,
        }
    }
}

impl View for GraphQLError {
    type V = ErrorView;

    open spec fn view(&self) -> ErrorView {
        match self {
            GraphQLError::Validation { message } => ErrorView::Validation(message@),
            GraphQLError::FieldNotFound { field, on_type } => ErrorView::FieldNotFound {
                field: field@,
                on_type: on_type@,
            },
            GraphQLError::Execution { message } => ErrorView::Execution(message@),
        }
    }
}

/// The message for a field that is not on its type.
pub open spec fn unknown_field_text(field: Seq<char>, on_type: Seq<char>) -> Seq<char> {
    "Unknown field "@ + quoted_text(field) + " on type "@ + on_type
}

/// The message for a field that is not on its type.
pub fn unknown_field_message(field: &String, on_type: &String) -> (r: String)
    ensures
        r@ == unknown_field_text(field@, on_type@),
{
    let mut message = "Unknown field ".to_owned();
    let name = quoted(field.as_str());
    message.append(name.as_str());
    message.append(" on type ");
    message.append(on_type.as_str());
    message
}

impl GraphQLError {
    /// A document that is not allowed, for the reason that `message` gives.
    pub fn validation(message: &str) -> (r: GraphQLError)
        ensures
            r@ == ErrorView::Validation(message@),
    {
        GraphQLError::Validation { message: message.to_owned() }
    }

    /// A field that is not on its type.
    pub fn field_not_found(field: &str, on_type: &str) -> (r: GraphQLError)
        ensures
            r@ == (ErrorView::FieldNotFound { field: field@, on_type: on_type@ }),
    {
        GraphQLError::FieldNotFound { field: field.to_owned(), on_type: on_type.to_owned() }
    }

    /// The text that reports this error.
    pub fn message(&self) -> (r: String)
        ensures
            r@ == self@.text(),
    {
        match self {
            GraphQLError::Validation { message } => message.clone(),
            GraphQLError::FieldNotFound { field, on_type } => unknown_field_message(
                field,
                on_type,
            ),
            GraphQLError::Execution { message } => message.clone(),
        }
    }
}

/// An error is seen as what it is, with all that it holds.
pub proof fn law_error_is_seen_whole(error: GraphQLError)
    ensures
        error matches GraphQLError::Validation { message } ==> error@ == ErrorView::Validation(
            message@,
        ),
        error matches GraphQLError::Execution { message } ==> error@ == ErrorView::Execution(
            message@,
        ),
        error matches GraphQLError::FieldNotFound { field, on_type } ==> error@ == (
        ErrorView::FieldNotFound { field: field@, on_type: on_type@ }),
{
}

/// An error that has a message is reported by that message and nothing else, and a field that
/// is not found is reported with its name and that of its type.
pub proof fn law_error_is_reported_by_its_message(
    message: Seq<char>,
    field: Seq<char>,
    on_type: Seq<char>,
)
    ensures
        ErrorView::Validation(message).text() == message,
        ErrorView::Execution(message).text() == message,
        (ErrorView::FieldNotFound { field, on_type }).text() == unknown_field_text(field, on_type),
{
}

/// A message on an unknown field ends with the name of the type as it is, and begins, whatever
/// the type, with the same words on the field.
pub proof fn law_unknown_field_message_ends_with_the_type(
    field: Seq<char>,
    on_type: Seq<char>,
    more: Seq<char>,
)
    ensures
        unknown_field_text(field, on_type + more) == unknown_field_text(field, on_type) + more,
{
    assert(unknown_field_text(field, on_type + more) =~= unknown_field_text(field, on_type) + more);
}

/// A field of a GraphQL name that is not on its type is reported with both names, the field's
/// between quotation marks.
pub proof fn law_unknown_field_is_named(field: Seq<char>, on_type: Seq<char>)
    requires
        forall|i: int|
            0 <= i < field.len() ==> ('a' <= #[trigger] field[i] <= 'z') || ('A' <= field[i] <= 'Z')
                || ('0' <= field[i] <= '9') || field[i] == '_',
    ensures
        unknown_field_text(field, on_type) == "Unknown field \""@ + field + "\" on type "@
            + on_type,
{
    reveal_strlit("Unknown field \"");
    reveal_strlit("Unknown field ");
    reveal_strlit("\" on type ");
    reveal_strlit(" on type ");
    assert(unknown_field_text(field, on_type) =~= "Unknown field \""@ + field + "\" on type "@
        + on_type);
}

/// Any other field that is not on its type is reported as `{:?}` renders it.
pub proof fn law_odd_unknown_field_is_rendered(field: Seq<char>, i: int)
    requires
        0 <= i < field.len(),
        !('a' <= field[i] <= 'z') && !('A' <= field[i] <= 'Z') && !('0' <= field[i] <= '9')
            && field[i] != '_',
    ensures
        unknown_field_text(field, Seq::empty()) == "Unknown field "@ + debug_text(field)
            + " on type "@,
{
    assert(!plain_name(field)) by {
        if plain_name(field) {
            let c = field[i];
            assert(('a' <= c <= 'z') || ('A' <= c <= 'Z') || ('0' <= c <= '9') || c == '_');
        }
    }
    assert(unknown_field_text(field, Seq::empty()) =~= "Unknown field "@ + debug_text(field)
        + " on type "@);
}

} // verus!
