//! The root types of a schema, as far as they decide how a field is answered.

use vstd::hash_map::StringHashMap;
use vstd::prelude::*;

verus! {

/// The field that every object type has, and whose value is the name of the type.
pub const TYPENAME: &'static str = "__typename";

/// What a field gives, after lists and non-null markers are taken off.
#[derive(Debug, Clone, Copy)]
pub enum FieldType {
    /// A page of the rows of a table.
    Connection,
    /// A row of any table, found by its global id.
    NodeInterface,
    /// A row of one table.
    Node,
    /// A type of the schema itself.
    Type,
    /// The schema itself.
    Schema,
    /// The rows that an insert made.
    InsertResponse,
    /// The rows that an update changed.
    UpdateResponse,
    /// The rows that a delete took away.
    DeleteResponse,
    /// Anything else.
    Other,
}

/// A field of an object type.
#[derive(Debug)]
pub struct FieldDefinition {
    pub name: String,
    pub unmodified_type: FieldType,
}

/// An object type: its name, and what its fields give, by their names.
pub struct ObjectType {
    name: String,
    fields: StringHashMap<FieldType>,
}

/// An object type as the contracts speak of it.
pub struct ObjectTypeView {
    pub name: Seq<char>,
    pub fields: Map<Seq<char>, FieldType>,
}

/// The names of a list of fields are different.
pub open spec fn distinct_names(fields: Seq<FieldDefinition>) -> bool {
    forall|i: int, j: int|
        0 <= i < j < fields.len() ==> #[trigger] fields[i].name@ != #[trigger] fields[j].name@
}

/// The fields of a list by their names, the last where two have one name.
pub open spec fn field_map(fields: Seq<FieldDefinition>) -> Map<Seq<char>, FieldType>
    decreases fields.len(),
{
    if fields.len() == 0 {
        Map::empty()
    } else {
        field_map(fields.drop_last()).insert(fields.last().name@, fields.last().unmodified_type)
    }
}

/// Where the names are different, every field is found under its name, and nothing else is.
proof fn lemma_field_map(fields: Seq<FieldDefinition>)
    requires
        distinct_names(fields),
    ensures
        forall|i: int|
            0 <= i < fields.len() ==> field_map(fields).dom().contains(
                #[trigger] fields[i].name@,
            ) && field_map(fields)[fields[i].name@] == fields[i].unmodified_type,
        forall|name: Seq<char>| #[trigger]
            field_map(fields).dom().contains(name) ==> exists|i: int|
                0 <= i < fields.len() && #[trigger] fields[i].name@ == name,
    decreases fields.len(),
{
    if fields.len() > 0 {
        let before = fields.drop_last();
        assert forall|i: int, j: int| 0 <= i < j < before.len() implies #[trigger] before[i].name@
            != #[trigger] before[j].name@ by {
            assert(fields[i].name@ != fields[j].name@);
        }
        lemma_field_map(before);
        assert forall|i: int| 0 <= i < fields.len() implies field_map(fields).dom().contains(
            #[trigger] fields[i].name@,
        ) && field_map(fields)[fields[i].name@] == fields[i].unmodified_type by {
            if i < before.len() {
                assert(before[i].name@ == fields[i].name@);
                assert(fields[i].name@ != fields[fields.len() - 1].name@);
            }
        }
        assert forall|name: Seq<char>| #[trigger]
            field_map(fields).dom().contains(name) implies exists|i: int|
            0 <= i < fields.len() && #[trigger] fields[i].name@ == name by {
            if name == fields.last().name@ {
                assert(fields[fields.len() - 1].name@ == name);
            } else {
                assert(field_map(before).dom().contains(name));
                let i = choose|i: int| 0 <= i < before.len() && #[trigger] before[i].name@ == name;
                assert(fields[i].name@ == name);
            }
        }
    }
}

/// What the field of that name gives, if there is one.
pub open spec fn field_type(fields: Map<Seq<char>, FieldType>, name: Seq<char>) -> Option<
    FieldType,
> {
    if fields.dom().contains(name) {
        Some(fields[name])
    } else {
        None
    }
}

impl View for ObjectType {
    type V = ObjectTypeView;

    closed spec fn view(&self) -> ObjectTypeView {
        ObjectTypeView { name: self.name@, fields: self.fields@ }
    }
}

impl ObjectType {
    /// A type with the fields of the list, the last where two have one name.
    pub fn new(name: String, fields: Vec<FieldDefinition>) -> (r: ObjectType)
        ensures
            r@ == (ObjectTypeView { name: name@, fields: field_map(fields@) }),
    {
        let ghost all = fields@;
        let mut by_name: StringHashMap<FieldType> = StringHashMap::new();
        for field in it: fields
            invariant
                it.seq() == all,
                by_name@ == field_map(all.take(it.index())),
        {
            proof {
                let next = all.take(it.index() + 1);
                assert(next.drop_last() =~= all.take(it.index()));
                assert(next.last() == field);
            }
            by_name.insert(field.name, field.unmodified_type);
        }
        assert(all.take(all.len() as int) =~= all);
        ObjectType { name, fields: by_name }
    }

    /// The name of the type.
    pub fn name(&self) -> (r: &String)
        ensures
            r@ == self@.name,
    {
        &self.name
    }

    /// What the field of that name gives, if there is one.
    pub fn find_field(&self, name: &String) -> (r: Option<FieldType>)
        ensures
            r == field_type(self@.fields, name@),
    {
        match self.fields.get(name.as_str()) {
            Some(unmodified_type) => Some(*unmodified_type),
            None => None,
        }
    }
}

/// In a list of different names every field is found under its name, wherever it stands.
pub proof fn law_field_is_found(fields: Seq<FieldDefinition>, i: int)
    requires
        distinct_names(fields),
        0 <= i < fields.len(),
    ensures
        field_type(field_map(fields), fields[i].name@) == Some(fields[i].unmodified_type),
{
    lemma_field_map(fields);
}

/// Two lists of the same fields, each of different names, make the same type, whatever the
/// order.
pub proof fn law_order_of_fields_is_irrelevant(
    left: Seq<FieldDefinition>,
    right: Seq<FieldDefinition>,
)
    requires
        distinct_names(left),
        distinct_names(right),
        forall|field: FieldDefinition| left.contains(field) <==> right.contains(field),
    ensures
        field_map(left) == field_map(right),
{
    lemma_field_map(left);
    lemma_field_map(right);
    lemma_fields_carry_over(left, right);
    lemma_fields_carry_over(right, left);
    assert(field_map(left) =~= field_map(right));
}

/// What one list gives for a name, another that has all its fields gives too.
proof fn lemma_fields_carry_over(left: Seq<FieldDefinition>, right: Seq<FieldDefinition>)
    requires
        distinct_names(left),
        distinct_names(right),
        forall|field: FieldDefinition| left.contains(field) ==> right.contains(field),
    ensures
        forall|name: Seq<char>| #[trigger]
            field_map(left).dom().contains(name) ==> field_map(right).dom().contains(name)
                && field_map(right)[name] == field_map(left)[name],
{
    lemma_field_map(left);
    lemma_field_map(right);
    assert forall|name: Seq<char>| #[trigger]
        field_map(left).dom().contains(name) implies field_map(right).dom().contains(name)
        && field_map(right)[name] == field_map(left)[name] by {
        let i = choose|i: int| 0 <= i < left.len() && #[trigger] left[i].name@ == name;
        assert(left.contains(left[i]));
        let j = choose|j: int| 0 <= j < right.len() && right[j] == left[i];
        assert(right[j].name@ == name);
    }
}

/// Whether a name is that text.
pub fn is_named(name: &String, text: &str) -> (r: bool)
    ensures
        r == (name@ == text@),
{
    let text = text.to_owned();
    *name == text
}

/// The last field of a name in a list is the one that is found under it.
pub proof fn law_last_field_of_a_name_is_found(fields: Seq<FieldDefinition>, i: int)
    requires
        0 <= i < fields.len(),
        forall|j: int| i < j < fields.len() ==> #[trigger] fields[j].name@ != fields[i].name@,
    ensures
        field_map(fields).dom().contains(fields[i].name@),
        field_map(fields)[fields[i].name@] == fields[i].unmodified_type,
        field_type(field_map(fields), fields[i].name@) == Some(fields[i].unmodified_type),
    decreases fields.len(),
{
    let before = fields.drop_last();
    if i < before.len() {
        assert forall|j: int| i < j < before.len() implies #[trigger] before[j].name@
            != before[i].name@ by {
            assert(fields[j].name@ != fields[i].name@);
        }
        law_last_field_of_a_name_is_found(before, i);
        assert(fields[fields.len() - 1].name@ != fields[i].name@);
    }
}

/// Under a name that no field of a list has, nothing is found.
pub proof fn law_absent_field_is_not_found(fields: Seq<FieldDefinition>, name: Seq<char>)
    requires
        forall|i: int| 0 <= i < fields.len() ==> #[trigger] fields[i].name@ != name,
    ensures
        !field_map(fields).dom().contains(name),
        field_type(field_map(fields), name) is None,
    decreases fields.len(),
{
    if fields.len() > 0 {
        let before = fields.drop_last();
        assert forall|i: int| 0 <= i < before.len() implies #[trigger] before[i].name@ != name by {
            assert(fields[i].name@ != name);
        }
        law_absent_field_is_not_found(before, name);
        assert(fields[fields.len() - 1].name@ != name);
    }
}

/// A field is found exactly where there is one, and gives what it is said to give.
pub proof fn law_field_gives_its_type(fields: Map<Seq<char>, FieldType>, name: Seq<char>)
    ensures
        field_type(fields, name) is Some <==> fields.dom().contains(name),
        fields.dom().contains(name) ==> field_type(fields, name) == Some(fields[name]),
{
}

} // verus!
