//! The mathematical model of a schema node and of the merge that joins two of them.

use vstd::prelude::*;
use crate::mask::{has_tag, ABSENT, ARRAY};
use crate::schema::Config;
use vstd::utf8::encode_utf8;

verus! {

/// The length of a string in bytes, as UTF-8.
pub open spec fn byte_len(s: Seq<char>) -> nat {
    encode_utf8(s).len()
}

/// What a node knows of the strings observed at its position.
pub enum StrKind {
    /// No string was observed.
    Nothing,
    /// Strings were observed and are not enumerated.
    Open,
    /// Only these strings were observed.
    Values(Set<Seq<char>>),
}

/// What a node knows of the objects observed at its position.
pub enum ObjKind {
    /// No object was observed.
    Nothing,
    /// Objects were observed, with too many distinct keys to describe.
    Large,
    /// Objects were observed; each key maps to the schema of its values.
    Props(Map<Seq<char>, SchemaModel>),
}

/// A schema node as a mathematical value. `plain` holds the tags other than
/// `STRING`, `STRING_SET`, `OBJECT` and `LARGE_OBJECT`, whose state is told by
/// `text` and `obj`.
pub struct SchemaModel {
    pub plain: u32,
    pub text: StrKind,
    pub obj: ObjKind,
    pub items: Option<Box<SchemaModel>>,
}

/// The node with `ABSENT` added: the position was missing from some object.
pub open spec fn flagged(x: SchemaModel) -> SchemaModel {
    SchemaModel { plain: x.plain | ABSENT, ..x }
}

/// Every child of `p` flagged absent.
pub open spec fn flag_all(p: Map<Seq<char>, SchemaModel>) -> Map<Seq<char>, SchemaModel> {
    Map::new(|k: Seq<char>| p.contains_key(k), |k: Seq<char>| flagged(p[k]))
}

/// The join of two string states. Two value sets are united; a union larger
/// than `max_values` becomes an open string.
pub open spec fn join_text(a: StrKind, b: StrKind, max_values: usize) -> StrKind {
    match (a, b) {
        (StrKind::Open, _) => StrKind::Open,
        (_, StrKind::Open) => StrKind::Open,
        (StrKind::Values(s), StrKind::Values(t)) => {
            if s.union(t).len() > max_values {
                StrKind::Open
            } else {
                StrKind::Values(s.union(t))
            }
        },
        (StrKind::Values(s), StrKind::Nothing) => StrKind::Values(s),
        (StrKind::Nothing, b) => b,
    }
}

/// The property maps of two objects joined key by key: a key of both sides
/// gets the merge of its two children; a key of one side keeps its child,
/// flagged absent.
pub open spec fn join_props(
    p: Map<Seq<char>, SchemaModel>,
    q: Map<Seq<char>, SchemaModel>,
    c: Config,
) -> Map<Seq<char>, SchemaModel>
    decreases p, 0nat,
{
    Map::new(
        |k: Seq<char>| p.contains_key(k) || q.contains_key(k),
        |k: Seq<char>|
            if p.dom().finite() && p.contains_key(k) && q.contains_key(k) {
                merge_spec(p[k], q[k], c)
            } else if p.contains_key(k) {
                flagged(p[k])
            } else {
                flagged(q[k])
            },
    )
}

/// Objects joined: too many keys in the union give a large object.
pub open spec fn cut_props(
    p: Map<Seq<char>, SchemaModel>,
    q: Map<Seq<char>, SchemaModel>,
    c: Config,
) -> ObjKind
    decreases p, 1nat,
{
    if p.dom().union(q.dom()).len() > c.max_object_keys {
        ObjKind::Large
    } else {
        ObjKind::Props(join_props(p, q, c))
    }
}

/// An object joined with a side that had none: every child is flagged
/// absent, and too many keys give a large object.
pub open spec fn alone_props(p: Map<Seq<char>, SchemaModel>, c: Config) -> ObjKind {
    if p.dom().len() > c.max_object_keys {
        ObjKind::Large
    } else {
        ObjKind::Props(flag_all(p))
    }
}

/// The join of two object states.
pub open spec fn join_obj(a: ObjKind, b: ObjKind, c: Config) -> ObjKind
    decreases a,
{
    match (a, b) {
        (ObjKind::Large, _) => ObjKind::Large,
        (_, ObjKind::Large) => ObjKind::Large,
        (ObjKind::Props(p), ObjKind::Props(q)) => cut_props(p, q, c),
        (ObjKind::Props(p), ObjKind::Nothing) => alone_props(p, c),
        (ObjKind::Nothing, ObjKind::Props(q)) => alone_props(q, c),
        (ObjKind::Nothing, ObjKind::Nothing) => ObjKind::Nothing,
    }
}

/// The join of two nodes. Plain tags are united. A set of strings meeting an
/// open string opens; two sets unite, and open when the union holds more than
/// `max_string_set_values` strings; a set meeting no string is kept. A large
/// object absorbs any object state; otherwise the union of the keys decides:
/// more than `max_object_keys` of them give a large object, else the maps join
/// key by key (a side without objects lacks every key). Item schemas merge,
/// or the one present is kept.
pub open spec fn merge_spec(a: SchemaModel, b: SchemaModel, c: Config) -> SchemaModel
    decreases a,
{
    SchemaModel {
        plain: a.plain | b.plain,
        text: join_text(a.text, b.text, c.max_string_set_values),
        obj: join_obj(a.obj, b.obj, c),
        items: match (a.items, b.items) {
            (Some(x), Some(y)) => Some(Box::new(merge_spec(*x, *y, c))),
            (Some(x), None) => Some(x),
            (None, y) => y,
        },
    }
}

} // verus!

verus! {

/// A model is valid for a configuration: its sets and maps are finite, item
/// schemas only stand under `ARRAY`, and nothing that the configuration
/// switches off is present.
pub open spec fn valid(m: SchemaModel, c: Config) -> bool
    decreases m,
{
    &&& (m.items is Some ==> has_tag(m.plain, ARRAY))
    &&& (!c.consider_array_items ==> m.items is None)
    &&& match m.text {
        StrKind::Values(s) => s.finite() && c.consider_string_set,
        _ => true,
    }
    &&& match m.obj {
        ObjKind::Props(p) => p.dom().finite() && forall|k: Seq<char>| #[trigger]
            p.contains_key(k) ==> p.dom().finite() && valid(p[k], c),
        _ => true,
    }
    &&& match m.items {
        Some(x) => valid(*x, c),
        None => true,
    }
}

/// The size bounds of a configuration hold at every node: at most
/// `max_object_keys` properties, at most `max_string_set_values` strings in a
/// set, none of them longer than `max_string_set_variant_length`.
pub open spec fn bounded(m: SchemaModel, c: Config) -> bool
    decreases m,
{
    &&& match m.text {
        StrKind::Values(s) => s.len() <= c.max_string_set_values && forall|x: Seq<char>| #[trigger]
            s.contains(x) ==> byte_len(x) <= c.max_string_set_variant_length,
        _ => true,
    }
    &&& match m.obj {
        ObjKind::Props(p) => p.dom().len() <= c.max_object_keys && forall|k: Seq<char>| #[trigger]
            p.contains_key(k) ==> p.dom().finite() && bounded(p[k], c),
        _ => true,
    }
    &&& match m.items {
        Some(x) => bounded(*x, c),
        None => true,
    }
}

} // verus!
