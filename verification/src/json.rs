//! JSON documents of the shape the reports use: an object whose fields hold
//! a leaf (a boolean, a number, a text or a list of texts) or a list of
//! records, each record an object of leaves. `serde_json` writes them out.
use vstd::prelude::*;
use crate::paths::views;

verus! {

/// A JSON value that holds no object.
pub enum JsonLeaf {
    Bool(bool),
    Number(u64),
    Text(String),
    Texts(Vec<String>),
}

/// The value of a field of a document: a leaf, or a list of records.
pub enum JsonField {
    Leaf(JsonLeaf),
    Records(Vec<Vec<(String, JsonLeaf)>>),
}

/// The model of a leaf.
pub enum LeafView {
    Bool(bool),
    Number(nat),
    Text(Seq<char>),
    Texts(Seq<Seq<char>>),
}

/// The model of a field value.
pub enum FieldView {
    Leaf(LeafView),
    Records(Seq<Seq<(Seq<char>, LeafView)>>),
}

/// The model of a leaf value.
pub open spec fn leaf_view(l: JsonLeaf) -> LeafView {
    match l {
        JsonLeaf::Bool(b) => LeafView::Bool(b),
        JsonLeaf::Number(n) => LeafView::Number(n as nat),
        JsonLeaf::Text(t) => LeafView::Text(t@),
        JsonLeaf::Texts(ts) => LeafView::Texts(views(ts@)),
    }
}

/// The model of a record: its field names and leaves, in order.
pub open spec fn record_view(r: Seq<(String, JsonLeaf)>) -> Seq<(Seq<char>, LeafView)> {
    r.map_values(|e: (String, JsonLeaf)| (e.0@, leaf_view(e.1)))
}

/// The model of a field value.
pub open spec fn field_view(f: JsonField) -> FieldView {
    match f {
        JsonField::Leaf(l) => FieldView::Leaf(leaf_view(l)),
        JsonField::Records(rs) => FieldView::Records(
            rs@.map_values(|r: Vec<(String, JsonLeaf)>| record_view(r@)),
        ),
    }
}

/// The model of a document: its field names and values, in order.
pub open spec fn document_view(d: Seq<(String, JsonField)>) -> Seq<(Seq<char>, FieldView)> {
    d.map_values(|e: (String, JsonField)| (e.0@, field_view(e.1)))
}

/// The text that `serde_json::to_string_pretty` writes for the document as a
/// `serde_json::Value` object.
pub uninterp spec fn rendered_json(doc: Seq<(Seq<char>, FieldView)>) -> Seq<char>;

#[verifier::external_type_specification]
#[verifier::external_body]
pub struct ExJsonValue(serde_json::Value);

/// Converts a leaf into a `serde_json::Value`, one variant for each.
#[verifier::external_body]
fn leaf_value(l: &JsonLeaf) -> serde_json::Value {
    match l {
        JsonLeaf::Bool(b) => serde_json::Value::Bool(*b),
        JsonLeaf::Number(n) => serde_json::Value::from(*n),
        JsonLeaf::Text(t) => serde_json::Value::String(t.clone()),
        JsonLeaf::Texts(ts) => serde_json::Value::from(ts.clone()),
    }
}

/// Converts a record into a `serde_json::Value` object, field for field.
#[verifier::external_body]
fn record_value(r: &Vec<(String, JsonLeaf)>) -> serde_json::Value {
    serde_json::Value::Object(r.iter().map(|(k, v)| (k.clone(), leaf_value(v))).collect())
}

/// Converts a field value into a `serde_json::Value`, one variant for each.
#[verifier::external_body]
fn field_value(f: &JsonField) -> serde_json::Value {
    match f {
        JsonField::Leaf(l) => leaf_value(l),
        JsonField::Records(rs) => serde_json::Value::Array(rs.iter().map(record_value).collect()),
    }
}

/// Calls `serde_json::to_string_pretty` on the document converted into a
/// `serde_json::Value` object. Claimed: the text is `rendered_json` of the
/// document. Writing a `Value` cannot fail (its keys are texts), so the empty
/// text that stands for an error never comes.
#[verifier::external_body]
pub(crate) fn render_json(doc: &Vec<(String, JsonField)>) -> (s: String)
    ensures
        s@ == rendered_json(document_view(doc@)),
{
    let object: serde_json::Map<String, serde_json::Value> =
        doc.iter().map(|(k, f)| (k.clone(), field_value(f))).collect();
    serde_json::to_string_pretty(&serde_json::Value::Object(object)).unwrap_or_default()
}

} // verus!
