//! Responses to requests.

use vstd::prelude::*;

use crate::error::ErrorMessage;
use crate::json::{json_view, JsonView};

verus! {

/// A part of a response that may be left out of it.
#[derive(Debug)]
pub enum Omit<T> {
    Omitted,
    Present(T),
}

/// The response to a request.
#[derive(Debug)]
pub struct GraphQLResponse {
    pub data: Omit<serde_json::Value>,
    pub errors: Omit<Vec<ErrorMessage>>,
}

/// A response as the contracts speak of it: its data, and the texts of its errors.
pub struct ResponseView {
    pub data: Omit<JsonView>,
    pub errors: Omit<Seq<Seq<char>>>,
}

/// The texts of a list of errors.
pub open spec fn error_texts(errors: Seq<ErrorMessage>) -> Seq<Seq<char>> {
    Seq::new(errors.len(), |i: int| errors[i].message@)
}

impl View for GraphQLResponse {
    type V = ResponseView;

    open spec fn view(&self) -> ResponseView {
        ResponseView {
            data: match self.data {
                Omit::Omitted => Omit::Omitted,
                Omit::Present(value) => Omit::Present(json_view(value)),
            },
            errors: match self.errors {
                Omit::Omitted => Omit::Omitted,
                Omit::Present(errors) => Omit::Present(error_texts(errors@)),
            },
        }
    }
}

/// No data, and one error.
pub open spec fn refused(text: Seq<char>) -> ResponseView {
    ResponseView { data: Omit::Omitted, errors: Omit::Present(seq![text]) }
}

/// The response to a request of which nothing is carried out.
pub fn refusal(message: String) -> (r: GraphQLResponse)
    ensures
        r@ == refused(message@),
{
    let mut errors: Vec<ErrorMessage> = Vec::new();
    errors.push(ErrorMessage { message });
    assert(error_texts(errors@) =~= seq![message@]);
    GraphQLResponse { data: Omit::Omitted, errors: Omit::Present(errors) }
}

/// A response is seen whole: its data or that it has none, and every one of its errors in order
/// or that it has none.
pub proof fn law_response_is_seen_whole(response: GraphQLResponse)
    ensures
        response@.data is Omitted <==> response.data is Omitted,
        response.data matches Omit::Present(value) ==> response@.data == Omit::Present(
            json_view(value),
        ),
        response@.errors is Omitted <==> response.errors is Omitted,
        response.errors matches Omit::Present(errors) ==> {
            &&& response@.errors matches Omit::Present(texts)
            &&& texts.len() == errors@.len()
            &&& forall|i: int|
                0 <= i < errors@.len() ==> #[trigger] texts[i] == errors@[i].message@
        },
{
}

/// A refusal holds no data, and nothing but its message.
pub proof fn law_refusal_is_its_message(text: Seq<char>)
    ensures
        refused(text).data is Omitted,
        refused(text).errors matches Omit::Present(texts) && texts.len() == 1 && texts[0] == text,
{
}

} // verus!
