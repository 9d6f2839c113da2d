//! JSON values, which `serde_json` holds and builds.

use vstd::prelude::*;

verus! {

/// A JSON value as the contracts speak of it.
pub enum JsonView {
    Null,
    Bool(bool),
    /// A number by its decimal text.
    Number(Seq<char>),
    Text(Seq<char>),
    Array(Seq<JsonView>),
    Object(Map<Seq<char>, JsonView>),
}

/// `serde_json::Value`, opaque: what a value holds is [`json_view`].
#[verifier::external_type_specification]
#[verifier::external_body]
pub struct ExValue(serde_json::Value);

/// `serde_json::Map`, opaque: what a map of JSON values holds is [`json_entries`].
#[verifier::external_type_specification]
#[verifier::external_body]
#[verifier::reject_recursive_types(K)]
#[verifier::reject_recursive_types(V)]
pub struct ExMap<K, V>(serde_json::Map<K, V>);

/// What a `serde_json::Value` holds.
pub uninterp spec fn json_view(value: serde_json::Value) -> JsonView;

/// The entries of a `serde_json::Map` from strings to values.
pub uninterp spec fn json_entries(map: serde_json::Map<String, serde_json::Value>) -> Map<
    Seq<char>,
    JsonView,
>;

/// `serde_json::Value::is_object` tells objects from every other kind of value.
pub assume_specification[ serde_json::Value::is_object ](value: &serde_json::Value) -> (b: bool)
    ensures
        b == (json_view(*value) is Object),
;

/// `serde_json::Value::as_object` gives the map of an object, with the entries of the
/// object, and nothing for any other kind of value.
pub assume_specification[ serde_json::Value::as_object ](value: &serde_json::Value) -> (r: Option<
    &serde_json::Map<String, serde_json::Value>,
>)
    ensures
        match json_view(*value) {
            JsonView::Object(entries) => r is Some && json_entries(*r->0) == entries,
            _ => r is None,
        },
;

/// `serde_json::Map::is_empty` holds of a map that has no entry.
pub assume_specification[ serde_json::Map::<String, serde_json::Value>::is_empty ](
    map: &serde_json::Map<String, serde_json::Value>,
) -> (b: bool)
    ensures
        b == (json_entries(*map).dom() == Set::<Seq<char>>::empty()),
;

/// `serde_json::Map::new` in a `serde_json::Value::Object` is the object without entries.
#[verifier::external_body]
pub(crate) fn empty_object() -> (r: serde_json::Value)
    ensures
        json_view(r) == JsonView::Object(Map::empty()),
{
    serde_json::Value::Object(serde_json::Map::new())
}

/// `serde_json::Value::Null` is the null value.
#[verifier::external_body]
pub(crate) fn null_value() -> (r: serde_json::Value)
    ensures
        json_view(r) == JsonView::Null,
{
    serde_json::Value::Null
}

/// `serde_json::Value::String` holds the text that it is given.
#[verifier::external_body]
pub(crate) fn text_value(text: String) -> (r: serde_json::Value)
    ensures
        json_view(r) == JsonView::Text(text@),
{
    serde_json::Value::String(text)
}

/// Assignment through `serde_json::Value`'s index operator, on an object: the entry of
/// `key` becomes `value`, whether or not there was one, and the other entries stay. On
/// anything but an object or null the operator panics.
#[verifier::external_body]
pub(crate) fn set_entry(object: &mut serde_json::Value, key: String, value: serde_json::Value)
    requires
        json_view(*old(object)) is Object,
    ensures
        json_view(*final(object)) == JsonView::Object(
            json_view(*old(object))->Object_0.insert(key@, json_view(value)),
        ),
{
    object[key] = value;
}

} // verus!
