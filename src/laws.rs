//! The algebra of merge, stated over models and proved.

use vstd::prelude::*;
use crate::mask::{has_tag, lemma_has_union, lemma_plain_bits, ABSENT, ARRAY};
use crate::model::{
    alone_props, bounded, byte_len, cut_props, flag_all, flagged, join_obj, join_props, join_text, merge_spec, valid,
    ObjKind, SchemaModel, StrKind,
};
use crate::process::{
    combine_spec, first_newline, fold_lines, is_first_newline, lemma_first_newline, lines_of, AccModel, NEWLINE,
};
use crate::schema::{infer_spec, lemma_infer_valid, Config};
use crate::value::{parsed_record, JsonModel};
use vstd::set_lib::lemma_len_subset;

verus! {

/// Flagging a node absent keeps it valid and within bounds.
pub proof fn lemma_flagged_valid(x: SchemaModel, c: Config)
    ensures
        valid(x, c) ==> valid(flagged(x), c),
        bounded(x, c) ==> bounded(flagged(x), c),
{
    lemma_plain_bits(x.plain);
    assert(has_tag(x.plain | ABSENT, ARRAY) == has_tag(x.plain, ARRAY)) by {
        lemma_has_union(x.plain, ABSENT, ARRAY);
        let t = ABSENT;
        assert(t == 0x100);
        assert(0x100u32 & 0x8u32 == 0) by (bit_vector);
    }
}

/// Merging keeps the invariants: the join of two valid nodes is valid; the
/// join of two bounded nodes is bounded; and the merged node itself never
/// holds more properties than `max_object_keys`, whatever its inputs held.
pub proof fn merge_preserves_validity(a: SchemaModel, b: SchemaModel, c: Config)
    requires
        valid(a, c),
        valid(b, c),
    ensures
        valid(merge_spec(a, b, c), c),
        bounded(a, c) && bounded(b, c) ==> bounded(merge_spec(a, b, c), c),
        merge_spec(a, b, c).obj matches ObjKind::Props(p) ==> p.dom().len() <= c.max_object_keys,
    decreases a,
{
    let m = merge_spec(a, b, c);
    lemma_has_union(a.plain, b.plain, ARRAY);
    match (a.items, b.items) {
        (Some(x), Some(y)) => {
            merge_preserves_validity(*x, *y, c);
        },
        _ => {},
    }
    match (a.text, b.text) {
        (StrKind::Values(s), StrKind::Values(t)) => {
            if bounded(a, c) && bounded(b, c) {
                assert forall|z: Seq<char>| #[trigger] s.union(t).contains(z) implies byte_len(z)
                    <= c.max_string_set_variant_length by {
                    if s.contains(z) {
                    } else {
                        assert(t.contains(z));
                    }
                }
            }
        },
        _ => {},
    }
    match (a.obj, b.obj) {
        (ObjKind::Large, _) => {},
        (_, ObjKind::Large) => {},
        (ObjKind::Props(p), ObjKind::Props(q)) => {
            if p.dom().union(q.dom()).len() <= c.max_object_keys {
                let j = join_props(p, q, c);
                assert(m.obj == join_obj(a.obj, b.obj, c));
                assert(join_obj(a.obj, b.obj, c) == cut_props(p, q, c));
                assert(cut_props(p, q, c) == ObjKind::Props(j));
                assert(j.dom() =~= p.dom().union(q.dom()));
                assert forall|k: Seq<char>| #[trigger] j.contains_key(k) implies j.dom().finite() && valid(j[k], c) && (
                bounded(a, c) && bounded(b, c) ==> bounded(j[k], c)) by {
                    if p.contains_key(k) && q.contains_key(k) {
                        merge_preserves_validity(p[k], q[k], c);
                    } else if p.contains_key(k) {
                        lemma_flagged_valid(p[k], c);
                    } else {
                        lemma_flagged_valid(q[k], c);
                    }
                }
            }
        },
        (ObjKind::Props(p), ObjKind::Nothing) => {
            let j = flag_all(p);
            assert(m.obj == join_obj(a.obj, b.obj, c));
            assert(join_obj(a.obj, b.obj, c) == alone_props(p, c));
            assert(j.dom() =~= p.dom());
            assert forall|k: Seq<char>| #[trigger] j.contains_key(k) implies j.dom().finite() && valid(j[k], c) && (
            bounded(a, c) ==> bounded(j[k], c)) by {
                lemma_flagged_valid(p[k], c);
            }
        },
        (ObjKind::Nothing, ObjKind::Props(q)) => {
            let j = flag_all(q);
            assert(m.obj == join_obj(a.obj, b.obj, c));
            assert(join_obj(a.obj, b.obj, c) == alone_props(q, c));
            assert(j.dom() =~= q.dom());
            assert forall|k: Seq<char>| #[trigger] j.contains_key(k) implies j.dom().finite() && valid(j[k], c) && (
            bounded(b, c) ==> bounded(j[k], c)) by {
                lemma_flagged_valid(q[k], c);
            }
        },
        _ => {},
    }
}

/// A string set holding exactly `max_string_set_values` strings stays a
/// string set when merged with strings it already holds, and becomes an open
/// string as soon as a merge brings any string it does not hold.
pub proof fn string_set_at_capacity(a: SchemaModel, b: SchemaModel, c: Config)
    requires
        a.text matches StrKind::Values(s) && s.finite() && s.len() == c.max_string_set_values,
        b.text matches StrKind::Values(t) && t.finite(),
    ensures
        ({
            let s = a.text->Values_0;
            let t = b.text->Values_0;
            &&& t.subset_of(s) ==> merge_spec(a, b, c).text == StrKind::Values(s)
            &&& !t.subset_of(s) ==> merge_spec(a, b, c).text == StrKind::Open
        }),
{
    let s = a.text->Values_0;
    let t = b.text->Values_0;
    if t.subset_of(s) {
        assert(s.union(t) =~= s);
    } else {
        let x = choose|x: Seq<char>| t.contains(x) && !s.contains(x);
        lemma_len_subset(s.insert(x), s.union(t));
    }
}

/// A string longer than `max_string_set_variant_length` bytes is an open
/// string at once, never a member of a set.
pub proof fn long_string_is_open(v: JsonModel, c: Config)
    requires
        v matches JsonModel::Str(s) && byte_len(s) > c.max_string_set_variant_length,
    ensures
        infer_spec(v, c).text == StrKind::Open,
{
}

/// An object with more than `max_object_keys` properties collapses to a
/// large object when merged with any node, on either side.
pub proof fn oversized_object_collapses(a: SchemaModel, b: SchemaModel, c: Config)
    requires
        a.obj matches ObjKind::Props(p) && p.dom().finite() && p.dom().len() > c.max_object_keys,
        b.obj matches ObjKind::Props(q) ==> q.dom().finite(),
    ensures
        merge_spec(a, b, c).obj == ObjKind::Large,
        merge_spec(b, a, c).obj == ObjKind::Large,
{
    let p = a.obj->Props_0;
    assert(merge_spec(a, b, c).obj == join_obj(a.obj, b.obj, c));
    assert(merge_spec(b, a, c).obj == join_obj(b.obj, a.obj, c));
    match b.obj {
        ObjKind::Props(q) => {
            lemma_len_subset(p.dom(), p.dom().union(q.dom()));
            lemma_len_subset(p.dom(), q.dom().union(p.dom()));
            assert(join_obj(a.obj, b.obj, c) == cut_props(p, q, c));
            assert(join_obj(b.obj, a.obj, c) == cut_props(q, p, c));
        },
        ObjKind::Nothing => {
            assert(join_obj(a.obj, b.obj, c) == alone_props(p, c));
            assert(join_obj(b.obj, a.obj, c) == alone_props(p, c));
        },
        ObjKind::Large => {},
    }
}

} // verus!

verus! {

/// What `join_props` holds at one key.
pub proof fn lemma_join_props_at(
    p: Map<Seq<char>, SchemaModel>,
    q: Map<Seq<char>, SchemaModel>,
    c: Config,
    k: Seq<char>,
)
    requires
        p.dom().finite(),
    ensures
        join_props(p, q, c).contains_key(k) == (p.contains_key(k) || q.contains_key(k)),
        p.contains_key(k) && q.contains_key(k) ==> join_props(p, q, c)[k] == merge_spec(p[k], q[k], c),
        p.contains_key(k) && !q.contains_key(k) ==> join_props(p, q, c)[k] == flagged(p[k]),
        !p.contains_key(k) && q.contains_key(k) ==> join_props(p, q, c)[k] == flagged(q[k]),
{
}

/// Merge is commutative: for valid nodes, merging `b` into `a` and `a` into
/// `b` give the same node.
pub proof fn merge_commutes(a: SchemaModel, b: SchemaModel, c: Config)
    requires
        valid(a, c),
        valid(b, c),
    ensures
        merge_spec(a, b, c) == merge_spec(b, a, c),
    decreases a,
{
    let (x, y) = (a.plain, b.plain);
    assert((x | y) == (y | x)) by (bit_vector);
    let l = merge_spec(a, b, c);
    let r = merge_spec(b, a, c);
    match (a.text, b.text) {
        (StrKind::Values(s), StrKind::Values(t)) => {
            assert(s.union(t) =~= t.union(s));
        },
        _ => {},
    }
    assert(l.text == r.text);
    match (a.items, b.items) {
        (Some(i), Some(j)) => {
            merge_commutes(*i, *j, c);
        },
        _ => {},
    }
    assert(l.items == r.items);
    assert(l.obj == join_obj(a.obj, b.obj, c));
    assert(r.obj == join_obj(b.obj, a.obj, c));
    match (a.obj, b.obj) {
        (ObjKind::Props(p), ObjKind::Props(q)) => {
            assert(p.dom().union(q.dom()) =~= q.dom().union(p.dom()));
            assert(join_obj(a.obj, b.obj, c) == cut_props(p, q, c));
            assert(join_obj(b.obj, a.obj, c) == cut_props(q, p, c));
            assert forall|k: Seq<char>| #[trigger] join_props(p, q, c).contains_key(k) == join_props(q, p, c).contains_key(k)
                && (join_props(p, q, c).contains_key(k) ==> join_props(p, q, c)[k] == join_props(q, p, c)[k]) by {
                lemma_join_props_at(p, q, c, k);
                lemma_join_props_at(q, p, c, k);
                if p.contains_key(k) && q.contains_key(k) {
                    merge_commutes(p[k], q[k], c);
                }
            }
            assert(join_props(p, q, c) =~= join_props(q, p, c));
        },
        (ObjKind::Props(p), ObjKind::Nothing) => {
            assert(join_obj(a.obj, b.obj, c) == alone_props(p, c));
        },
        (ObjKind::Nothing, ObjKind::Props(q)) => {
            assert(join_obj(b.obj, a.obj, c) == alone_props(q, c));
        },
        _ => {},
    }
    assert(l =~= r);
}

/// Merging a node with itself gives it back, as long as no bound is crossed:
/// every set, and every property map, already within its configured size.
pub proof fn merge_idempotent(a: SchemaModel, c: Config)
    requires
        valid(a, c),
        bounded(a, c),
    ensures
        merge_spec(a, a, c) == a,
    decreases a,
{
    let x = a.plain;
    assert((x | x) == x) by (bit_vector);
    let m = merge_spec(a, a, c);
    match a.text {
        StrKind::Values(s) => {
            assert(s.union(s) =~= s);
        },
        _ => {},
    }
    match a.items {
        Some(i) => {
            merge_idempotent(*i, c);
        },
        None => {},
    }
    assert(m.obj == join_obj(a.obj, a.obj, c));
    match a.obj {
        ObjKind::Props(p) => {
            assert(p.dom().union(p.dom()) =~= p.dom());
            assert(join_obj(a.obj, a.obj, c) == cut_props(p, p, c));
            assert forall|k: Seq<char>| #[trigger] join_props(p, p, c).contains_key(k) == p.contains_key(k) && (
            p.contains_key(k) ==> join_props(p, p, c)[k] == p[k]) by {
                lemma_join_props_at(p, p, c, k);
                if p.contains_key(k) {
                    merge_idempotent(p[k], c);
                }
            }
            assert(join_props(p, p, c) =~= p);
        },
        _ => {},
    }
    assert(m =~= a);
}

} // verus!

verus! {

/// Flagging absent commutes with merge, on either side.
pub proof fn lemma_flag_merge(x: SchemaModel, y: SchemaModel, c: Config)
    ensures
        merge_spec(flagged(x), y, c) == flagged(merge_spec(x, y, c)),
        merge_spec(x, flagged(y), c) == flagged(merge_spec(x, y, c)),
{
    let (a, b) = (x.plain, y.plain);
    assert(((a | 0x100u32) | b) == ((a | b) | 0x100u32)) by (bit_vector);
    assert((a | (b | 0x100u32)) == ((a | b) | 0x100u32)) by (bit_vector);
    assert(merge_spec(flagged(x), y, c) =~= flagged(merge_spec(x, y, c)));
    assert(merge_spec(x, flagged(y), c) =~= flagged(merge_spec(x, y, c)));
}

/// Flagging absent twice is flagging once.
pub proof fn lemma_flag_twice(x: SchemaModel)
    ensures
        flagged(flagged(x)) == flagged(x),
{
    let a = x.plain;
    assert(((a | 0x100u32) | 0x100u32) == (a | 0x100u32)) by (bit_vector);
    assert(flagged(flagged(x)) =~= flagged(x));
}

/// The join of string states is associative.
pub proof fn lemma_text_associates(a: StrKind, b: StrKind, d: StrKind, max: usize)
    requires
        a matches StrKind::Values(s) ==> s.finite(),
        b matches StrKind::Values(s) ==> s.finite(),
        d matches StrKind::Values(s) ==> s.finite(),
    ensures
        join_text(join_text(a, b, max), d, max) == join_text(a, join_text(b, d, max), max),
{
    match (a, b, d) {
        (StrKind::Values(s), StrKind::Values(t), StrKind::Values(u)) => {
            let all = s.union(t).union(u);
            assert(s.union(t.union(u)) =~= all);
            lemma_len_subset(s.union(t), all);
            lemma_len_subset(t.union(u), all);
        },
        _ => {},
    }
}

/// Object state of a node, as a map; a node without objects gives the empty map.
pub open spec fn props_or_empty(o: ObjKind) -> Map<Seq<char>, SchemaModel> {
    match o {
        ObjKind::Props(p) => p,
        _ => Map::empty(),
    }
}

/// `o` joined with the map `r` on its right.
pub open spec fn then_props(o: ObjKind, r: Map<Seq<char>, SchemaModel>, c: Config) -> ObjKind {
    match o {
        ObjKind::Props(j) => cut_props(j, r, c),
        _ => ObjKind::Large,
    }
}

/// The map `p` joined with `o` on its right.
pub open spec fn props_then(p: Map<Seq<char>, SchemaModel>, o: ObjKind, c: Config) -> ObjKind {
    match o {
        ObjKind::Props(j) => cut_props(p, j, c),
        _ => ObjKind::Large,
    }
}

/// Each child of a valid object is valid; its map is finite.
pub open spec fn children_valid(p: Map<Seq<char>, SchemaModel>, c: Config) -> bool {
    p.dom().finite() && forall|k: Seq<char>| #[trigger] p.contains_key(k) ==> valid(p[k], c)
}

proof fn lemma_join_props_valid(p: Map<Seq<char>, SchemaModel>, q: Map<Seq<char>, SchemaModel>, c: Config)
    requires
        children_valid(p, c),
        children_valid(q, c),
    ensures
        children_valid(join_props(p, q, c), c),
        join_props(p, q, c).dom() == p.dom().union(q.dom()),
{
    assert forall|k: Seq<char>| #[trigger] join_props(p, q, c).contains_key(k) implies valid(join_props(p, q, c)[k], c) by {
        lemma_join_props_at(p, q, c, k);
        if p.contains_key(k) && q.contains_key(k) {
            merge_preserves_validity(p[k], q[k], c);
        } else if p.contains_key(k) {
            lemma_flagged_valid(p[k], c);
        } else {
            lemma_flagged_valid(q[k], c);
        }
    }
    assert(join_props(p, q, c).dom() =~= p.dom().union(q.dom()));
}

/// Joining three property maps does not depend on the grouping. `a` is the
/// node that `p` comes from: the recursion goes through its children.
proof fn lemma_cut_associates(
    a: SchemaModel,
    p: Map<Seq<char>, SchemaModel>,
    q: Map<Seq<char>, SchemaModel>,
    r: Map<Seq<char>, SchemaModel>,
    c: Config,
)
    requires
        p == props_or_empty(a.obj),
        children_valid(p, c),
        children_valid(q, c),
        children_valid(r, c),
    ensures
        then_props(cut_props(p, q, c), r, c) == props_then(p, cut_props(q, r, c), c),
    decreases a, 0nat,
{
    let all = p.dom().union(q.dom()).union(r.dom());
    lemma_len_subset(p.dom().union(q.dom()), all);
    lemma_len_subset(q.dom().union(r.dom()), all);
    let j = join_props(p, q, c);
    let j2 = join_props(q, r, c);
    lemma_join_props_valid(p, q, c);
    lemma_join_props_valid(q, r, c);
    assert(j.dom().union(r.dom()) =~= all);
    assert(p.dom().union(j2.dom()) =~= all);
    if p.dom().union(q.dom()).len() <= c.max_object_keys {
        assert(cut_props(p, q, c) == ObjKind::Props(j));
        assert(then_props(cut_props(p, q, c), r, c) == cut_props(j, r, c));
    }
    if q.dom().union(r.dom()).len() <= c.max_object_keys {
        assert(cut_props(q, r, c) == ObjKind::Props(j2));
        assert(props_then(p, cut_props(q, r, c), c) == cut_props(p, j2, c));
    }
    if all.len() <= c.max_object_keys {
        assert forall|k: Seq<char>| #[trigger] join_props(j, r, c).contains_key(k) == join_props(p, j2, c).contains_key(k)
            && (join_props(j, r, c).contains_key(k) ==> join_props(j, r, c)[k] == join_props(p, j2, c)[k]) by {
            lemma_join_props_at(p, q, c, k);
            lemma_join_props_at(q, r, c, k);
            lemma_join_props_at(j, r, c, k);
            lemma_join_props_at(p, j2, c, k);
            if p.contains_key(k) && q.contains_key(k) && r.contains_key(k) {
                assert(a.obj is Props);
                assert(decreases_to!(a => a.obj->Props_0[k]));
                merge_associates(p[k], q[k], r[k], c);
            } else if p.contains_key(k) && q.contains_key(k) {
                lemma_flag_merge(p[k], q[k], c);
            } else if p.contains_key(k) && r.contains_key(k) {
                lemma_flag_merge(p[k], r[k], c);
            } else if q.contains_key(k) && r.contains_key(k) {
                lemma_flag_merge(q[k], r[k], c);
            } else if p.contains_key(k) {
                lemma_flag_twice(p[k]);
            } else if r.contains_key(k) {
                lemma_flag_twice(r[k]);
            }
        }
        assert(join_props(j, r, c) =~= join_props(p, j2, c));
    }
}

/// A node with objects joined with one without is the map joined with the
/// empty map, on either side.
proof fn lemma_alone_is_cut(p: Map<Seq<char>, SchemaModel>, c: Config)
    requires
        p.dom().finite(),
    ensures
        alone_props(p, c) == cut_props(p, Map::empty(), c),
        alone_props(p, c) == cut_props(Map::empty(), p, c),
        cut_props(Map::<Seq<char>, SchemaModel>::empty(), Map::empty(), c) == ObjKind::Props(Map::<Seq<char>, SchemaModel>::empty()),
{
    let e = Map::<Seq<char>, SchemaModel>::empty();
    assert(p.dom().union(e.dom()) =~= p.dom());
    assert(e.dom().union(p.dom()) =~= p.dom());
    assert(e.dom().union(e.dom()) =~= Set::empty());
    assert forall|k: Seq<char>| #[trigger] join_props(p, e, c).contains_key(k) == flag_all(p).contains_key(k) && (
    flag_all(p).contains_key(k) ==> join_props(p, e, c)[k] == flag_all(p)[k]) by {
        lemma_join_props_at(p, e, c, k);
    }
    assert(join_props(p, e, c) =~= flag_all(p));
    assert forall|k: Seq<char>| #[trigger] join_props(e, p, c).contains_key(k) == flag_all(p).contains_key(k) && (
    flag_all(p).contains_key(k) ==> join_props(e, p, c)[k] == flag_all(p)[k]) by {
        lemma_join_props_at(e, p, c, k);
    }
    assert(join_props(e, p, c) =~= flag_all(p));
    assert forall|k: Seq<char>| #[trigger] join_props(e, e, c).contains_key(k) == e.contains_key(k) by {
        lemma_join_props_at(e, e, c, k);
    }
    assert(join_props(e, e, c) =~= e);
}

/// Merge is associative: for valid nodes, `merge(merge(a, b), d)` and `merge(a, merge(b, d))`
/// are the same node, so a fold over records may be grouped in any way.
pub proof fn merge_associates(a: SchemaModel, b: SchemaModel, d: SchemaModel, c: Config)
    requires
        valid(a, c),
        valid(b, c),
        valid(d, c),
    ensures
        merge_spec(merge_spec(a, b, c), d, c) == merge_spec(a, merge_spec(b, d, c), c),
    decreases a, 1nat,
{
    let ab = merge_spec(a, b, c);
    let bd = merge_spec(b, d, c);
    merge_preserves_validity(a, b, c);
    merge_preserves_validity(b, d, c);
    let l = merge_spec(ab, d, c);
    let r = merge_spec(a, bd, c);
    let (x, y, z) = (a.plain, b.plain, d.plain);
    assert(((x | y) | z) == (x | (y | z))) by (bit_vector);
    lemma_text_associates(a.text, b.text, d.text, c.max_string_set_values);
    assert(l.text == r.text);
    match (a.items, b.items, d.items) {
        (Some(i), Some(j), Some(k)) => {
            merge_associates(*i, *j, *k, c);
        },
        _ => {},
    }
    assert(l.items == r.items);
    assert(l.obj == join_obj(ab.obj, d.obj, c));
    assert(r.obj == join_obj(a.obj, bd.obj, c));
    assert(ab.obj == join_obj(a.obj, b.obj, c));
    assert(bd.obj == join_obj(b.obj, d.obj, c));
    if !(a.obj is Large) && !(b.obj is Large) && !(d.obj is Large) && !(a.obj is Nothing && b.obj is Nothing
        && d.obj is Nothing) {
        let p = props_or_empty(a.obj);
        let q = props_or_empty(b.obj);
        let s = props_or_empty(d.obj);
        assert(children_valid(p, c));
        assert(children_valid(q, c));
        assert(children_valid(s, c));
        lemma_alone_is_cut(p, c);
        lemma_alone_is_cut(q, c);
        lemma_alone_is_cut(s, c);
        lemma_cut_associates(a, p, q, s, c);
        assert(join_obj(a.obj, b.obj, c) == cut_props(p, q, c) || (a.obj is Nothing && b.obj is Nothing));
        assert(join_obj(b.obj, d.obj, c) == cut_props(q, s, c) || (b.obj is Nothing && d.obj is Nothing));
        match ab.obj {
            ObjKind::Props(j) => {
                assert(j.dom().finite()) by {
                    if a.obj is Props || b.obj is Props {
                        lemma_join_props_valid(p, q, c);
                    }
                }
                lemma_alone_is_cut(j, c);
            },
            _ => {},
        }
        match bd.obj {
            ObjKind::Props(j) => {
                assert(j.dom().finite()) by {
                    if b.obj is Props || d.obj is Props {
                        lemma_join_props_valid(q, s, c);
                    }
                }
                lemma_alone_is_cut(j, c);
            },
            _ => {},
        }
    }
    assert(l.obj == r.obj);
    assert(l =~= r);
}

} // verus!

verus! {

proof fn lemma_newline_scan(d: Seq<u8>, i: int)
    requires
        0 <= i <= d.len(),
        forall|j: int| 0 <= j < i ==> d[j] != NEWLINE,
    ensures
        is_first_newline(d, first_newline(d)),
    decreases d.len() - i,
{
    if i == d.len() || d[i] == NEWLINE {
        assert(is_first_newline(d, i));
    } else {
        lemma_newline_scan(d, i + 1);
    }
}

/// Every byte string has a first newline position (its length when it has
/// no newline).
pub proof fn lemma_first_newline_exists(d: Seq<u8>)
    ensures
        is_first_newline(d, first_newline(d)),
{
    lemma_newline_scan(d, 0);
}

/// Splitting a buffer just after a newline splits its lines: no line is cut.
pub proof fn lines_split_at_newline(x: Seq<u8>, y: Seq<u8>)
    requires
        x.len() == 0 || x.last() == NEWLINE,
    ensures
        lines_of(x + y) == lines_of(x) + lines_of(y),
    decreases x.len(),
{
    if x.len() == 0 {
        assert(x + y =~= y);
        assert(lines_of(x) =~= Seq::<Seq<u8>>::empty());
        assert(lines_of(x) + lines_of(y) =~= lines_of(y));
    } else {
        let xy = x + y;
        lemma_first_newline_exists(x);
        let e = first_newline(x);
        assert(e < x.len()) by {
            if e == x.len() {
                assert(x[x.len() - 1] != NEWLINE);
            }
        }
        assert(is_first_newline(xy, e)) by {
            assert(xy[e] == x[e]);
            assert forall|j: int| 0 <= j < e implies xy[j] != NEWLINE by {
                assert(xy[j] == x[j]);
            }
        }
        lemma_first_newline(xy, e);
        let x2 = x.subrange(e + 1, x.len() as int);
        assert(xy.subrange(0, e) =~= x.subrange(0, e));
        assert(xy.subrange(e + 1, xy.len() as int) =~= x2 + y);
        assert(x2.len() == 0 || x2.last() == NEWLINE);
        lines_split_at_newline(x2, y);
        let head: Seq<Seq<u8>> = if e > 0 {
            seq![x.subrange(0, e)]
        } else {
            seq![]
        };
        assert(lines_of(x) == head + lines_of(x2));
        assert(lines_of(xy) == head + lines_of(x2 + y));
        assert(head + (lines_of(x2) + lines_of(y)) =~= (head + lines_of(x2)) + lines_of(y));
    }
}

/// The accumulator model holds a valid schema, if any.
pub open spec fn acc_valid(a: AccModel, c: Config) -> bool {
    a.1 matches Some(s) ==> valid(s, c)
}

/// Folding lines keeps the accumulator valid.
pub proof fn lemma_fold_valid(acc: AccModel, ls: Seq<Seq<u8>>, c: Config)
    requires
        acc_valid(acc, c),
    ensures
        acc_valid(fold_lines(acc, ls, c), c),
    decreases ls.len(),
{
    if ls.len() > 0 {
        lemma_fold_valid(acc, ls.drop_last(), c);
        match parsed_record(ls.last()) {
            Some(v) => {
                lemma_infer_valid(v, c);
                let before = fold_lines(acc, ls.drop_last(), c);
                match before.1 {
                    Some(t) => merge_preserves_validity(t, infer_spec(v, c), c),
                    None => {},
                }
            },
            None => {},
        }
    }
}

/// The number of lines that parse.
pub open spec fn parsed_count(ls: Seq<Seq<u8>>) -> nat
    decreases ls.len(),
{
    if ls.len() == 0 {
        0
    } else {
        parsed_count(ls.drop_last()) + if parsed_record(ls.last()) is Some {
            1nat
        } else {
            0nat
        }
    }
}

/// The record count of a fold grows by the number of lines that parse.
pub proof fn fold_counts_parsed_lines(acc: AccModel, ls: Seq<Seq<u8>>, c: Config)
    ensures
        fold_lines(acc, ls, c).0 == acc.0 + parsed_count(ls),
    decreases ls.len(),
{
    if ls.len() > 0 {
        fold_counts_parsed_lines(acc, ls.drop_last(), c);
    }
}

/// Folding two runs of lines one after the other is folding each from an
/// empty accumulator and combining the two.
pub proof fn fold_then_combine(acc: AccModel, xs: Seq<Seq<u8>>, ys: Seq<Seq<u8>>, c: Config)
    requires
        acc_valid(acc, c),
    ensures
        fold_lines(acc, xs + ys, c) == combine_spec(fold_lines(acc, xs, c), fold_lines((0nat, None), ys, c), c),
    decreases ys.len(),
{
    let f = fold_lines(acc, xs, c);
    lemma_fold_valid(acc, xs, c);
    if ys.len() == 0 {
        assert(xs + ys =~= xs);
        assert(combine_spec(f, (0nat, None), c) =~= f);
    } else {
        let ys2 = ys.drop_last();
        fold_then_combine(acc, xs, ys2, c);
        assert((xs + ys).drop_last() =~= xs + ys2);
        assert((xs + ys).last() == ys.last());
        let g = fold_lines((0nat, None), ys2, c);
        lemma_fold_valid((0nat, None), ys2, c);
        match parsed_record(ys.last()) {
            Some(v) => {
                let s = infer_spec(v, c);
                lemma_infer_valid(v, c);
                match (f.1, g.1) {
                    (Some(a), Some(b)) => {
                        merge_associates(a, b, s, c);
                    },
                    _ => {},
                }
            },
            None => {},
        }
    }
}

/// The schema of a buffer does not depend on where it is cut into chunks, as
/// long as each cut falls just after a newline: processing the whole buffer
/// gives what combining the two parts gives. With `merge_commutes`, the order
/// in which the parts are combined does not matter either.
pub proof fn chunking_preserves_result(d: Seq<u8>, i: int, c: Config)
    requires
        0 <= i <= d.len(),
        i == 0 || d[i - 1] == NEWLINE,
    ensures
        fold_lines((0nat, None), lines_of(d), c) == combine_spec(
            fold_lines((0nat, None), lines_of(d.subrange(0, i)), c),
            fold_lines((0nat, None), lines_of(d.subrange(i, d.len() as int)), c),
            c,
        ),
{
    let x = d.subrange(0, i);
    let y = d.subrange(i, d.len() as int);
    assert(x + y =~= d);
    lines_split_at_newline(x, y);
    fold_then_combine((0nat, None), lines_of(x), lines_of(y), c);
}

/// An empty accumulator is an identity of `combine`, on either side.
pub proof fn combine_identity(a: AccModel, c: Config)
    ensures
        combine_spec((0nat, None), a, c) == a,
        combine_spec(a, (0nat, None), c) == a,
{
}

} // verus!

verus! {

/// Accumulators may be combined in either order.
pub proof fn combine_commutes(a: AccModel, b: AccModel, c: Config)
    requires
        acc_valid(a, c),
        acc_valid(b, c),
    ensures
        combine_spec(a, b, c) == combine_spec(b, a, c),
{
    match (a.1, b.1) {
        (Some(x), Some(y)) => merge_commutes(x, y, c),
        _ => {},
    }
}

/// Accumulators may be combined in any grouping.
pub proof fn combine_associates(a: AccModel, b: AccModel, d: AccModel, c: Config)
    requires
        acc_valid(a, c),
        acc_valid(b, c),
        acc_valid(d, c),
    ensures
        combine_spec(combine_spec(a, b, c), d, c) == combine_spec(a, combine_spec(b, d, c), c),
{
    match (a.1, b.1, d.1) {
        (Some(x), Some(y), Some(z)) => merge_associates(x, y, z, c),
        _ => {},
    }
}

} // verus!
