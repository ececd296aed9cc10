//! A parsed JSON record, and the parser that produces it.

use vstd::prelude::*;
use simd_json::{BorrowedValue, StaticNode};

verus! {

/// A JSON value, as far as inference reads it. A number that is not an
/// integer keeps only its kind.
#[derive(Debug)]
pub enum JsonValue {
    Null,
    Bool(bool),
    /// An integer read as signed.
    I64(i64),
    /// An integer read as unsigned; it counts as signed when it fits `i64`.
    U64(u64),
    /// A number that is not an integer.
    F64,
    Str(String),
    Array(Vec<JsonValue>),
    /// The members of an object; their order carries no meaning.
    Object(Vec<(String, JsonValue)>),
}

/// A JSON value as a mathematical value: an object is a map from key to
/// value, whatever the order of its members.
pub enum JsonModel {
    Null,
    Bool(bool),
    I64(i64),
    U64(u64),
    F64,
    Str(Seq<char>),
    Array(Seq<JsonModel>),
    Object(Map<Seq<char>, JsonModel>),
}

/// The model of a value. Of two members with one key, the later one stands.
pub open spec fn json_model(v: JsonValue) -> JsonModel
    decreases v,
{
    match v {
        JsonValue::Null => JsonModel::Null,
        JsonValue::Bool(b) => JsonModel::Bool(b),
        JsonValue::I64(n) => JsonModel::I64(n),
        JsonValue::U64(n) => JsonModel::U64(n),
        JsonValue::F64 => JsonModel::F64,
        JsonValue::Str(s) => JsonModel::Str(s@),
        JsonValue::Array(xs) => JsonModel::Array(
            Seq::new(
                xs@.len(),
                |i: int|
                    if 0 <= i < xs@.len() {
                        json_model(xs@[i])
                    } else {
                        JsonModel::Null
                    },
            ),
        ),
        JsonValue::Object(es) => JsonModel::Object(members_model(es@)),
    }
}

/// The members of an object as a map; of two members with one key, the later
/// one stands.
pub open spec fn members_model(es: Seq<(String, JsonValue)>) -> Map<Seq<char>, JsonModel>
    decreases es,
{
    if es.len() == 0 {
        Map::empty()
    } else {
        members_model(es.drop_last()).insert(es.last().0@, json_model(es.last().1))
    }
}

impl View for JsonValue {
    type V = JsonModel;

    open spec fn view(&self) -> JsonModel {
        json_model(*self)
    }
}

#[verifier::external_type_specification]
#[verifier::external_body]
pub struct ExBorrowedValue<'a>(BorrowedValue<'a>);

/// What the JSON parser makes of one line: the model of the value, or `None`
/// where the line is not a JSON document. Objects are maps, so the name does
/// not depend on the order in which the parser hands out members.
pub uninterp spec fn parsed_record(line: Seq<u8>) -> Option<JsonModel>;

/// Relies on the variants of `simd_json::BorrowedValue` and its `StaticNode`:
/// copies a value that `parse_line` got from `simd_json` into a `JsonValue`,
/// node by node, keeping only the kind of a floating-point number.
#[verifier::external_body]
fn value_of(v: &BorrowedValue) -> JsonValue {
    match v {
        BorrowedValue::Static(StaticNode::Null) => JsonValue::Null,
        BorrowedValue::Static(StaticNode::Bool(b)) => JsonValue::Bool(*b),
        BorrowedValue::Static(StaticNode::I64(n)) => JsonValue::I64(*n),
        BorrowedValue::Static(StaticNode::U64(n)) => JsonValue::U64(*n),
        BorrowedValue::Static(StaticNode::F64(_)) => JsonValue::F64,
        BorrowedValue::String(s) => JsonValue::Str(s.to_string()),
        BorrowedValue::Array(a) => JsonValue::Array(a.iter().map(value_of).collect()),
        BorrowedValue::Object(o) => JsonValue::Object(o.iter().map(|(k, x)| (k.to_string(), value_of(x))).collect()),
    }
}

/// Relies on `simd_json::to_borrowed_value`, which parses one JSON document
/// from a byte slice (it rewrites a private copy in place). With the
/// `value-no-dup-keys` feature an object keeps one member per key, the later
/// one; members come out in an order that may differ from run to run, so
/// only the model of the result, where objects are maps, depends on the
/// bytes alone.
#[verifier::external_body]
pub(crate) fn parse_line(line: &[u8]) -> (r: Option<JsonValue>)
    ensures
        match r {
            Some(v) => parsed_record(line@) == Some(v@),
            None => parsed_record(line@) is None,
        },
{
    let mut owned = line.to_vec();
    let r = match simd_json::to_borrowed_value(&mut owned) {
        Ok(v) => Some(value_of(&v)),
        Err(_) => None,
    };
    r
}

} // verus!
