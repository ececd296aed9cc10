//! Schema nodes: inference from a JSON value and the in-place merge.

use vstd::prelude::*;
use crate::entries::{
    entries_inv, entries_ok, find_key, keys_distinct, lemma_flag_model, lemma_props_at, lemma_props_len,
    lemma_props_push, lemma_props_remove, lemma_values_len, lemma_values_push, union_values, values_distinct,
};
use crate::laws::merge_preserves_validity;
use crate::mask::{
    contains, has_tag, lemma_compose, lemma_has_union, lemma_leaf_tag, lemma_plain_bits, lemma_plain_keeps,
    lemma_tags, plain_bits, ABSENT, ARRAY, BOOLEAN, F64, I64, LARGE_OBJECT, NULL, OBJECT, SHAPE_TAGS, STRING,
    STRING_SET, U64,
};
use crate::model::{
    byte_len, flag_all, flagged, join_obj, join_props, join_text, merge_spec, valid, ObjKind, SchemaModel, StrKind,
};
use crate::value::{json_model, members_model, JsonModel, JsonValue};

verus! {

/// The options of one run, read by inference and merge.
#[derive(Clone, Copy, Debug)]
pub struct Config {
    /// Objects whose key union exceeds this become `LARGE_OBJECT`.
    pub max_object_keys: usize,
    /// A string set whose union exceeds this becomes `STRING`.
    pub max_string_set_values: usize,
    /// Strings longer than this are never enumerated.
    pub max_string_set_variant_length: usize,
    /// Whether short strings are collected into sets.
    pub consider_string_set: bool,
    /// Whether the schema of array elements is inferred.
    pub consider_array_items: bool,
    /// How many leading elements of an array are sampled.
    pub max_array_items: usize,
    /// The target length in bytes of the chunk one worker takes.
    pub chunk_size: usize,
    /// Whether throughput figures are reported.
    pub stats: bool,
}

} // verus!

verus! {

/// A schema node: the tags observed at one position of the document tree,
/// with the payload that some tags carry.
#[derive(Debug)]
pub struct Schema {
    /// The tags, as bits (see `mask`).
    pub type_mask: u32,
    /// Property name and child schema, one entry per name; present exactly
    /// when `OBJECT` is set.
    pub object_properties: Option<Vec<(String, Schema)>>,
    /// The observed strings, each once; present exactly when `STRING_SET` is set.
    pub string_values: Option<Vec<String>>,
    /// The join of the schemas of array elements, when those are inferred.
    pub array_items: Option<Box<Schema>>,
}

/// Whether some entry of `s` has key `k`.
pub open spec fn has_key(s: Seq<(String, Schema)>, k: Seq<char>) -> bool {
    exists|i: int| 0 <= i < s.len() && #[trigger] s[i].0@ == k
}

/// No two entries of `s` share a key.
pub open spec fn keys_unique(s: Seq<(String, Schema)>) -> bool {
    forall|i: int, j: int|
        0 <= i < s.len() && 0 <= j < s.len() && i != j ==> #[trigger] s[i].0@ != #[trigger] s[j].0@
}

/// No string occurs twice in `s`.
pub open spec fn values_unique(s: Seq<String>) -> bool {
    forall|i: int, j: int| 0 <= i < s.len() && 0 <= j < s.len() && i != j ==> #[trigger] s[i]@ != #[trigger] s[j]@
}

/// The strings of `s`, as a set.
pub open spec fn values_set(s: Seq<String>) -> Set<Seq<char>> {
    Set::new(|x: Seq<char>| exists|i: int| 0 <= i < s.len() && #[trigger] s[i]@ == x)
}

/// The property map that a list of entries stands for.
pub open spec fn props_model(s: Seq<(String, Schema)>) -> Map<Seq<char>, SchemaModel>
    decreases s,
{
    Map::new(
        |k: Seq<char>| has_key(s, k),
        |k: Seq<char>|
            {
                let i = choose|i: int| 0 <= i < s.len() && #[trigger] s[i].0@ == k;
                if 0 <= i < s.len() {
                    model_of(s[i].1)
                } else {
                    arbitrary()
                }
            },
    )
}

/// The string state that a mask and a list of strings stand for.
pub open spec fn text_model(m: u32, values: Option<Vec<String>>) -> StrKind {
    if has_tag(m, STRING) {
        StrKind::Open
    } else if has_tag(m, STRING_SET) {
        StrKind::Values(
            match values {
                Some(v) => values_set(v@),
                None => Set::empty(),
            },
        )
    } else {
        StrKind::Nothing
    }
}

/// The object state that a mask and a list of entries stand for.
pub open spec fn obj_model(m: u32, props: Option<Vec<(String, Schema)>>) -> ObjKind
    decreases props,
{
    if has_tag(m, LARGE_OBJECT) {
        ObjKind::Large
    } else if has_tag(m, OBJECT) {
        ObjKind::Props(
            match props {
                Some(v) => props_model(v@),
                None => Map::empty(),
            },
        )
    } else {
        ObjKind::Nothing
    }
}

/// The model of a node.
pub open spec fn model_of(s: Schema) -> SchemaModel
    decreases s,
{
    SchemaModel {
        plain: plain_bits(s.type_mask),
        text: text_model(s.type_mask, s.string_values),
        obj: obj_model(s.type_mask, s.object_properties),
        items: match s.array_items {
            Some(b) => Some(Box::new(model_of(*b))),
            None => None,
        },
    }
}

impl View for Schema {
    type V = SchemaModel;

    open spec fn view(&self) -> SchemaModel {
        model_of(*self)
    }
}

impl Schema {
    /// The structural invariant: each payload is present exactly when its
    /// tag is, `STRING` excludes `STRING_SET`, `OBJECT` excludes
    /// `LARGE_OBJECT`, keys and strings are not repeated, at every node.
    pub open spec fn inv(&self) -> bool
        decreases *self,
    {
        &&& self.string_values is Some == has_tag(self.type_mask, STRING_SET)
        &&& !(has_tag(self.type_mask, STRING) && has_tag(self.type_mask, STRING_SET))
        &&& self.object_properties is Some == has_tag(self.type_mask, OBJECT)
        &&& !(has_tag(self.type_mask, OBJECT) && has_tag(self.type_mask, LARGE_OBJECT))
        &&& (self.array_items is Some ==> has_tag(self.type_mask, ARRAY))
        &&& match self.string_values {
            Some(v) => values_unique(v@),
            None => true,
        }
        &&& match self.object_properties {
            Some(v) => keys_unique(v@) && forall|i: int| 0 <= i < v@.len() ==> (#[trigger] v@[i]).1.inv(),
            None => true,
        }
        &&& match self.array_items {
            Some(b) => b.inv(),
            None => true,
        }
    }
}

} // verus!


verus! {
/// The string part of a merge: the tag it leaves (none, `STRING` or
/// `STRING_SET`) and the strings that go with it.
fn merge_text(ma: u32, sa: Option<Vec<String>>, mb: u32, sb: Option<Vec<String>>, max_values: usize) -> (r: (
    u32,
    Option<Vec<String>>,
))
    requires
        sa is Some == has_tag(ma, STRING_SET),
        sb is Some == has_tag(mb, STRING_SET),
        match sa {
            Some(v) => values_unique(v@),
            None => true,
        },
        match sb {
            Some(v) => values_unique(v@),
            None => true,
        },
    ensures
        r.0 == 0 || r.0 == STRING || r.0 == STRING_SET,
        r.1 is Some == (r.0 == STRING_SET),
        match r.1 {
            Some(v) => values_unique(v@),
            None => true,
        },
        text_model(r.0, r.1) == join_text(text_model(ma, sa), text_model(mb, sb), max_values),
{
    proof {
        lemma_tags();
    }
    if contains(ma, STRING) || contains(mb, STRING) {
        return (STRING, None);
    }
    match (sa, sb) {
        (Some(x), Some(y)) => {
            let u = union_values(x, y);
            proof {
                lemma_values_len(u@);
                lemma_values_len(x@);
                lemma_values_len(y@);
            }
            if u.len() > max_values {
                (STRING, None)
            } else {
                (STRING_SET, Some(u))
            }
        },
        (Some(x), None) => (STRING_SET, Some(x)),
        (None, Some(y)) => (STRING_SET, Some(y)),
        (None, None) => (0, None),
    }
}

/// Every child flagged absent.
fn flag_entries(x: Vec<(String, Schema)>) -> (r: Vec<(String, Schema)>)
    requires
        entries_inv(x@),
    ensures
        entries_inv(r@),
        props_model(r@) == flag_all(props_model(x@)),
        r@.len() == x@.len(),
{
    let mut rest = x;
    let mut out: Vec<(String, Schema)> = Vec::new();
    let ghost p = props_model(x@);
    while rest.len() > 0
        invariant
            entries_inv(rest@),
            entries_inv(out@),
            rest@.len() + out@.len() == x@.len(),
            forall|k: Seq<char>| #[trigger] has_key(rest@, k) ==> !has_key(out@, k),
            props_model(rest@) == p.remove_keys(props_model(out@).dom()),
            props_model(out@) == flag_all(p).restrict(props_model(out@).dom()),
            props_model(out@).dom().subset_of(p.dom()),
        decreases rest@.len(),
    {
        let ghost before = rest@;
        let (k, mut v) = rest.pop().unwrap();
        proof {
            let n = before.len() - 1;
            assert(before[n] == (k, v));
            lemma_props_remove(before, n);
            assert(before.remove(n) =~= rest@);
            lemma_props_at(before, n);
            assert(has_key(before, k@));
            lemma_flag_model(v);
        }
        v.type_mask = v.type_mask | ABSENT;
        proof {
            lemma_props_push(out@, k, v);
        }
        out.push((k, v));
        proof {
            let o = props_model(out@);
            assert(props_model(rest@) =~= p.remove_keys(o.dom()));
            assert(o =~= flag_all(p).restrict(o.dom()));
            assert forall|i: int| 0 <= i < out@.len() implies (#[trigger] out@[i]).1.inv() by {
                if i < out@.len() - 1 {
                    assert(out@[i] == out@.drop_last()[i]);
                }
            }
            assert forall|kk: Seq<char>| #[trigger] has_key(rest@, kk) implies !has_key(out@, kk) by {
                assert(props_model(rest@).contains_key(kk));
            }
        }
    }
    proof {
        assert(props_model(rest@).dom() =~= Set::empty());
        assert forall|k: Seq<char>| p.contains_key(k) implies #[trigger] props_model(out@).contains_key(k) by {
            if !props_model(out@).contains_key(k) {
                assert(p.remove_keys(props_model(out@).dom()).contains_key(k));
            }
        }
        assert(props_model(out@) =~= flag_all(p));
    }
    out
}

} // verus!

verus! {

/// The entries of two objects joined key by key (see `join_props`).
fn merge_entries(x: Vec<(String, Schema)>, y: Vec<(String, Schema)>, c: &Config) -> (r: Vec<(String, Schema)>)
    requires
        entries_ok(x@, *c),
        entries_ok(y@, *c),
    ensures
        entries_inv(r@),
        props_model(r@) == join_props(props_model(x@), props_model(y@), *c),
    decreases x,
{
    let ghost p = props_model(x@);
    let ghost q = props_model(y@);
    let ghost j = join_props(p, q, *c);
    proof {
        lemma_props_len(x@);
    }
    let mut mine = x;
    let mut theirs = y;
    let mut out: Vec<(String, Schema)> = Vec::new();
    while mine.len() > 0
        invariant
            p == props_model(x@),
            p.dom().finite(),
            j == join_props(p, q, *c),
            mine@.len() <= x@.len(),
            mine@ == x@.subrange(0, mine@.len() as int),
            entries_ok(x@, *c),
            entries_ok(theirs@, *c),
            entries_inv(out@),
            forall|k: Seq<char>| #[trigger]
                props_model(out@).contains_key(k) == (p.contains_key(k) && !has_key(mine@, k)),
            forall|k: Seq<char>| #[trigger] props_model(out@).contains_key(k) ==> props_model(out@)[k] == j[k],
            props_model(theirs@) == q.remove_keys(props_model(out@).dom()),
        decreases mine@.len(),
    {
        let ghost before = mine@;
        let n = mine.len() - 1;
        let (k, v) = mine.pop().unwrap();
        proof {
            assert(before[n as int] == x@[n as int]);
            assert(x@[n as int] == (k, v));
            lemma_props_at(x@, n as int);
            assert(!has_key(mine@, k@)) by {
                if has_key(mine@, k@) {
                    let i = choose|i: int| 0 <= i < mine@.len() && #[trigger] mine@[i].0@ == k@;
                    assert(mine@[i] == x@[i]);
                }
            }
            assert forall|kk: Seq<char>| #[trigger] has_key(mine@, kk) ==> has_key(before, kk) by {
                if has_key(mine@, kk) {
                    let i = choose|i: int| 0 <= i < mine@.len() && #[trigger] mine@[i].0@ == kk;
                    assert(before[i] == mine@[i]);
                }
            }
            assert(has_key(before, k@)) by {
                assert(before[n as int].0@ == k@);
            }
            assert(!props_model(out@).contains_key(k@));
            assert(!has_key(out@, k@));
        }
        let found = find_key(&theirs, &k);
        match found {
            Some(jj) => {
                let ghost tb = theirs@;
                let (_k2, w) = theirs.remove(jj);
                proof {
                    lemma_props_remove(tb, jj as int);
                    lemma_props_at(tb, jj as int);
                    assert(q.contains_key(k@));
                    assert(model_of(w) == q[k@]);
                    assert(theirs@ =~= tb.remove(jj as int));
                    assert forall|i: int| 0 <= i < theirs@.len() implies (#[trigger] theirs@[i]).1.inv() && valid(
                        model_of(theirs@[i].1),
                        *c,
                    ) by {
                        let i2 = if i < jj { i } else { i + 1 };
                        assert(theirs@[i] == tb[i2]);
                    }
                }
                let m = merged(v, w, c);
                proof {
                    lemma_props_push(out@, k, m);
                }
                out.push((k, m));
            },
            None => {
                proof {
                    assert(!q.contains_key(k@)) by {
                        if q.contains_key(k@) {
                            assert(q.remove_keys(props_model(out@).dom()).contains_key(k@));
                        }
                    }
                    lemma_flag_model(v);
                }
                let mut v = v;
                v.type_mask = v.type_mask | ABSENT;
                proof {
                    lemma_props_push(out@, k, v);
                }
                out.push((k, v));
            },
        }
        proof {
            let o = props_model(out@);
            assert(props_model(theirs@) =~= q.remove_keys(o.dom()));
            assert forall|i: int| 0 <= i < out@.len() implies (#[trigger] out@[i]).1.inv() by {
                if i < out@.len() - 1 {
                    assert(out@[i] == out@.drop_last()[i]);
                }
            }
            assert forall|kk: Seq<char>| #[trigger] o.contains_key(kk) == (p.contains_key(kk) && !has_key(mine@, kk)) by {
                if kk != k@ && p.contains_key(kk) && !has_key(mine@, kk) && has_key(before, kk) {
                    let i = choose|i: int| 0 <= i < before.len() && #[trigger] before[i].0@ == kk;
                    if i < mine@.len() {
                        assert(mine@[i] == before[i]);
                    } else {
                        assert(i == n);
                    }
                }
            }
        }
    }
    while theirs.len() > 0
        invariant
            p.dom().finite(),
            j == join_props(p, q, *c),
            entries_ok(theirs@, *c),
            entries_inv(out@),
            forall|k: Seq<char>| #[trigger]
                props_model(out@).contains_key(k) ==> (p.contains_key(k) || q.contains_key(k)),
            forall|k: Seq<char>| p.contains_key(k) ==> #[trigger] props_model(out@).contains_key(k),
            forall|k: Seq<char>| #[trigger] props_model(out@).contains_key(k) ==> props_model(out@)[k] == j[k],
            props_model(theirs@) == q.remove_keys(props_model(out@).dom()),
        decreases theirs@.len(),
    {
        let ghost before = theirs@;
        let n = theirs.len() - 1;
        let (k, w) = theirs.pop().unwrap();
        proof {
            assert(before[n as int] == (k, w));
            lemma_props_remove(before, n as int);
            assert(before.remove(n as int) =~= theirs@);
            lemma_props_at(before, n as int);
            assert(!props_model(out@).contains_key(k@));
            assert(!has_key(out@, k@));
            assert(!p.contains_key(k@));
            lemma_flag_model(w);
        }
        let mut w = w;
        w.type_mask = w.type_mask | ABSENT;
        proof {
            lemma_props_push(out@, k, w);
        }
        out.push((k, w));
        proof {
            let o = props_model(out@);
            assert(props_model(theirs@) =~= q.remove_keys(o.dom()));
            assert forall|i: int| 0 <= i < out@.len() implies (#[trigger] out@[i]).1.inv() by {
                if i < out@.len() - 1 {
                    assert(out@[i] == out@.drop_last()[i]);
                }
            }
            assert forall|i: int| 0 <= i < theirs@.len() implies (#[trigger] theirs@[i]).1.inv() && valid(
                model_of(theirs@[i].1),
                *c,
            ) by {
                assert(theirs@[i] == before[i]);
            }
        }
    }
    proof {
        let o = props_model(out@);
        assert(props_model(theirs@).dom() =~= Set::empty());
        assert forall|k: Seq<char>| q.contains_key(k) implies #[trigger] o.contains_key(k) by {
            if !o.contains_key(k) {
                assert(q.remove_keys(o.dom()).contains_key(k));
            }
        }
        assert(o =~= j);
    }
    out
}

/// The join of two nodes, as a new node.
fn merged(a: Schema, b: Schema, c: &Config) -> (r: Schema)
    requires
        a.inv(),
        b.inv(),
        valid(a@, *c),
        valid(b@, *c),
    ensures
        r.inv(),
        r@ == merge_spec(a@, b@, *c),
    decreases a,
{
    let ghost ga = a;
    let ghost gb = b;
    let Schema { type_mask: ma, object_properties: pa, string_values: sa, array_items: ia } = a;
    let Schema { type_mask: mb, object_properties: pb, string_values: sb, array_items: ib } = b;
    proof {
        lemma_tags();
        lemma_has_union(ma, mb, STRING);
        assert(ga.type_mask == ma && gb.type_mask == mb);
        assert(model_of(ga).obj == obj_model(ma, ga.object_properties));
        assert(model_of(gb).obj == obj_model(mb, gb.object_properties));
        assert(model_of(ga).text == text_model(ma, ga.string_values));
        assert(model_of(gb).text == text_model(mb, gb.string_values));
    }
    let (tbits, strs) = if c.consider_string_set {
        merge_text(ma, sa, mb, sb, c.max_string_set_values)
    } else if contains(ma | mb, STRING) {
        (STRING, None)
    } else {
        (0, None)
    };
    let ghost jo = join_obj(ga@.obj, gb@.obj, *c);
    let (obits, props): (u32, Option<Vec<(String, Schema)>>) = if contains(ma, LARGE_OBJECT) || contains(
        mb,
        LARGE_OBJECT,
    ) {
        proof {
            if has_tag(ma, LARGE_OBJECT) {
                assert(ga@.obj == ObjKind::Large);
            } else {
                assert(gb@.obj == ObjKind::Large);
            }
            assert(obj_model(LARGE_OBJECT, None) == jo);
        }
        (LARGE_OBJECT, None)
    } else {
        match (pa, pb) {
            (Some(x), Some(y)) => {
                proof {
                    assert(ga@.obj == ObjKind::Props(props_model(x@)));
                    assert(gb@.obj == ObjKind::Props(props_model(y@)));
                    assert forall|i: int| 0 <= i < x@.len() implies (#[trigger] x@[i]).1.inv() && valid(
                        model_of(x@[i].1),
                        *c,
                    ) by {
                        lemma_props_at(x@, i);
                    }
                    assert forall|i: int| 0 <= i < y@.len() implies (#[trigger] y@[i]).1.inv() && valid(
                        model_of(y@[i].1),
                        *c,
                    ) by {
                        lemma_props_at(y@, i);
                    }
                }
                let ghost p = props_model(x@);
                let ghost q = props_model(y@);
                let e = merge_entries(x, y, c);
                proof {
                    lemma_props_len(e@);
                    assert(props_model(e@).dom() =~= p.dom().union(q.dom()));
                }
                if e.len() > c.max_object_keys {
                    proof {
                        assert(jo == ObjKind::Large);
                        assert(obj_model(LARGE_OBJECT, None) == jo);
                    }
                    (LARGE_OBJECT, None)
                } else {
                    proof {
                        assert(obj_model(OBJECT, Some(e)) == jo);
                    }
                    (OBJECT, Some(e))
                }
            },
            (Some(x), None) => {
                proof {
                    lemma_props_len(x@);
                    assert(ga@.obj == ObjKind::Props(props_model(x@)));
                    assert(gb@.obj == ObjKind::Nothing);
                    assert(forall|i: int| 0 <= i < x@.len() ==> (#[trigger] x@[i]).1.inv());
                }
                if x.len() > c.max_object_keys {
                    proof {
                        assert(obj_model(LARGE_OBJECT, None) == jo);
                    }
                    (LARGE_OBJECT, None)
                } else {
                    let f = flag_entries(x);
                    proof {
                        assert(obj_model(OBJECT, Some(f)) == jo);
                    }
                    (OBJECT, Some(f))
                }
            },
            (None, Some(y)) => {
                proof {
                    lemma_props_len(y@);
                    assert(gb@.obj == ObjKind::Props(props_model(y@)));
                    assert(ga@.obj == ObjKind::Nothing);
                    assert(forall|i: int| 0 <= i < y@.len() ==> (#[trigger] y@[i]).1.inv());
                }
                if y.len() > c.max_object_keys {
                    proof {
                        assert(obj_model(LARGE_OBJECT, None) == jo);
                    }
                    (LARGE_OBJECT, None)
                } else {
                    let f = flag_entries(y);
                    proof {
                        assert(obj_model(OBJECT, Some(f)) == jo);
                    }
                    (OBJECT, Some(f))
                }
            },
            (None, None) => {
                proof {
                    assert(obj_model(0, None) == jo);
                }
                (0, None)
            },
        }
    };
    let items: Option<Box<Schema>> = if c.consider_array_items {
        match (ia, ib) {
            (Some(x), Some(y)) => Some(Box::new(merged(*x, *y, c))),
            (Some(x), None) => Some(x),
            (None, y) => y,
        }
    } else {
        ia
    };
    let ghost plain = plain_bits(ma | mb);
    proof {
        lemma_plain_bits(ma | mb);
        lemma_compose(plain, tbits, obits);
        lemma_has_union(ma, mb, ARRAY);
    }
    let r = Schema {
        type_mask: ((ma | mb) & !SHAPE_TAGS) | tbits | obits,
        object_properties: props,
        string_values: strs,
        array_items: items,
    };
    proof {
        assert(r.type_mask == plain | tbits | obits);
        assert(r@.text == merge_spec(ga@, gb@, *c).text);
        assert(obits == 0 || obits == OBJECT || obits == LARGE_OBJECT);
        assert(obj_model(r.type_mask, r.object_properties) == obj_model(obits, r.object_properties));
        assert(r@.obj == merge_spec(ga@, gb@, *c).obj);
        assert(r@ =~= merge_spec(ga@, gb@, *c));
    }
    r
}

impl Schema {
    /// A node with the given tags and no payload.
    pub fn new(mask: u32) -> (r: Schema)
        ensures
            r.type_mask == mask,
            r.object_properties is None,
            r.string_values is None,
            r.array_items is None,
    {
        Schema { type_mask: mask, object_properties: None, string_values: None, array_items: None }
    }

    /// Joins `other` into this node: afterwards it describes every value that
    /// either node described (see `merge_spec`).
    pub fn merge(&mut self, other: Schema, config: &Config)
        requires
            old(self).inv(),
            other.inv(),
            valid(old(self)@, *config),
            valid(other@, *config),
        ensures
            final(self).inv(),
            final(self)@ == merge_spec(old(self)@, other@, *config),
            valid(final(self)@, *config),
    {
        proof {
            merge_preserves_validity(old(self)@, other@, *config);
        }
        let mut mine = Schema::new(0);
        std::mem::swap(self, &mut mine);
        *self = merged(mine, other, config);
    }
}

} // verus!

verus! {

/// A node with the given plain tags and nothing else.
pub open spec fn leaf(t: u32) -> SchemaModel {
    SchemaModel { plain: t, text: StrKind::Nothing, obj: ObjKind::Nothing, items: None }
}

/// The model of a string observation.
pub open spec fn string_model(s: Seq<char>, c: Config) -> SchemaModel {
    SchemaModel {
        plain: 0,
        text: if c.consider_string_set && byte_len(s) <= c.max_string_set_variant_length {
            StrKind::Values(set![s])
        } else {
            StrKind::Open
        },
        obj: ObjKind::Nothing,
        items: None,
    }
}

/// The schema inferred for a JSON value.
pub open spec fn infer_spec(v: JsonModel, c: Config) -> SchemaModel
    decreases v,
{
    match v {
        JsonModel::Null => leaf(NULL),
        JsonModel::Bool(_) => leaf(BOOLEAN),
        JsonModel::I64(_) => leaf(I64),
        JsonModel::U64(n) => if n <= i64::MAX as u64 {
            leaf(I64)
        } else {
            leaf(U64)
        },
        JsonModel::F64 => leaf(F64),
        JsonModel::Str(s) => string_model(s, c),
        JsonModel::Array(xs) => SchemaModel {
            plain: ARRAY,
            text: StrKind::Nothing,
            obj: ObjKind::Nothing,
            items: if c.consider_array_items {
                items_spec(xs, if xs.len() < c.max_array_items { xs.len() } else { c.max_array_items as nat }, c)
            } else {
                None
            },
        },
        JsonModel::Object(m) => SchemaModel {
            plain: 0,
            text: StrKind::Nothing,
            obj: ObjKind::Props(members_spec(m, c)),
            items: None,
        },
    }
}

/// The first `n` elements of `xs` inferred and merged from left to right;
/// `None` when `n` is 0.
pub open spec fn items_spec(xs: Seq<JsonModel>, n: nat, c: Config) -> Option<Box<SchemaModel>>
    decreases xs, n,
{
    if n == 0 || n > xs.len() {
        None
    } else {
        let last = infer_spec(xs[n - 1], c);
        match items_spec(xs, (n - 1) as nat, c) {
            None => Some(Box::new(last)),
            Some(acc) => Some(Box::new(merge_spec(*acc, last, c))),
        }
    }
}

/// The members of an object inferred, key by key. An object has finitely
/// many members; a map with infinitely many stands for none.
pub open spec fn members_spec(m: Map<Seq<char>, JsonModel>, c: Config) -> Map<Seq<char>, SchemaModel>
    decreases m,
{
    Map::new(
        |k: Seq<char>| m.dom().finite() && m.contains_key(k),
        |k: Seq<char>|
            if m.dom().finite() && m.contains_key(k) {
                infer_spec(m[k], c)
            } else {
                leaf(NULL)
            },
    )
}

/// A node of one tag without payload has the leaf model.
pub proof fn lemma_leaf_model(t: u32)
    requires
        t == BOOLEAN || t == NULL || t == ARRAY || t == I64 || t == U64 || t == F64,
    ensures
        model_of(Schema { type_mask: t, object_properties: None, string_values: None, array_items: None }) == leaf(t),
        (Schema { type_mask: t, object_properties: None, string_values: None, array_items: None }).inv(),
{
    lemma_leaf_tag(t);
    assert(obj_model(t, None) == ObjKind::Nothing);
}

/// What inference yields is valid for the configuration it ran under.
pub proof fn lemma_infer_valid(v: JsonModel, c: Config)
    ensures
        valid(infer_spec(v, c), c),
    decreases v,
{
    lemma_tags();
    match v {
        JsonModel::Array(xs) => {
            let n = if xs.len() < c.max_array_items { xs.len() } else { c.max_array_items as nat };
            lemma_items_valid(xs, n, c);
            assert(has_tag(ARRAY, ARRAY)) by {
                assert(0x8u32 & 0x8u32 != 0) by (bit_vector);
            }
        },
        JsonModel::Object(m) => {
            let p = members_spec(m, c);
            if m.dom().finite() {
                assert(p.dom() =~= m.dom());
            } else {
                assert(p.dom() =~= Set::empty());
            }
            assert forall|k: Seq<char>| #[trigger] p.contains_key(k) implies p.dom().finite() && valid(p[k], c) by {
                lemma_infer_valid(m[k], c);
            }
        },
        _ => {},
    }
}

proof fn lemma_items_valid(xs: Seq<JsonModel>, n: nat, c: Config)
    ensures
        match items_spec(xs, n, c) {
            Some(x) => valid(*x, c),
            None => true,
        },
    decreases xs, n,
{
    if n == 0 || n > xs.len() {
    } else {
        lemma_infer_valid(xs[n - 1], c);
        lemma_items_valid(xs, (n - 1) as nat, c);
        match items_spec(xs, (n - 1) as nat, c) {
            None => {},
            Some(acc) => {
                merge_preserves_validity(*acc, infer_spec(xs[n - 1], c), c);
            },
        }
    }
}

/// The member map of an object's entries is finite.
proof fn lemma_members_finite(es: Seq<(String, JsonValue)>)
    ensures
        members_model(es).dom().finite(),
    decreases es.len(),
{
    if es.len() > 0 {
        lemma_members_finite(es.drop_last());
    }
}

/// The schema of one JSON value (see `infer_spec`). Objects keep all their
/// properties here, however many: the bound on keys applies when merging.
pub fn infer_type(value: &JsonValue, config: &Config) -> (r: Schema)
    ensures
        r.inv(),
        r@ == infer_spec(value@, *config),
        valid(r@, *config),
    decreases value,
{
    proof {
        lemma_tags();
        lemma_infer_valid(value@, *config);
    }
    match value {
        JsonValue::Null => {
            proof {
                lemma_leaf_model(NULL);
            }
            Schema::new(NULL)
        },
        JsonValue::Bool(_) => {
            proof {
                lemma_leaf_model(BOOLEAN);
            }
            Schema::new(BOOLEAN)
        },
        JsonValue::I64(_) => {
            proof {
                lemma_leaf_model(I64);
            }
            Schema::new(I64)
        },
        JsonValue::U64(n) => {
            if *n <= i64::MAX as u64 {
                proof {
                    lemma_leaf_model(I64);
                }
                Schema::new(I64)
            } else {
                proof {
                    lemma_leaf_model(U64);
                }
                Schema::new(U64)
            }
        },
        JsonValue::F64 => {
            proof {
                lemma_leaf_model(F64);
            }
            Schema::new(F64)
        },
        JsonValue::Str(s) => {
            proof {
                assert(*value == JsonValue::Str(*s));
            }
            let bytes = s.as_str().as_bytes().len();
            proof {
                assert(bytes == byte_len(s@));
            }
            if !config.consider_string_set || bytes > config.max_string_set_variant_length {
                let r = Schema::new(STRING);
                proof {
                    assert(obj_model(STRING, None) == ObjKind::Nothing);
                    assert(r@ =~= infer_spec(value@, *config));
                }
                return r;
            }
            let mut set: Vec<String> = Vec::new();
            proof {
                assert(values_set(set@) =~= Set::empty());
                lemma_values_push(set@, *s);
            }
            set.push(s.clone());
            let r = Schema { type_mask: STRING_SET, object_properties: None, string_values: Some(set), array_items: None };
            proof {
                assert(obj_model(STRING_SET, None) == ObjKind::Nothing);
                assert(values_set(set@) =~= set![s@]);
                assert(r@ =~= infer_spec(value@, *config));
            }
            r
        },
        JsonValue::Array(xs) => {
            proof {
                lemma_leaf_tag(ARRAY);
                assert(*value == JsonValue::Array(*xs));
            }
            if !config.consider_array_items {
                let r = Schema::new(ARRAY);
                proof {
                    assert(obj_model(ARRAY, None) == ObjKind::Nothing);
                    assert(r@ =~= infer_spec(value@, *config));
                }
                return r;
            }
            let n = if xs.len() < config.max_array_items {
                xs.len()
            } else {
                config.max_array_items
            };
            let ghost xm = value@->Array_0;
            proof {
                assert(xm.len() == xs@.len());
            }
            let mut item: Option<Schema> = None;
            let mut i: usize = 0;
            while i < n
                invariant
                    *value == JsonValue::Array(*xs),
                    xm == value@->Array_0,
                    xm.len() == xs@.len(),
                    i <= n,
                    n <= xs@.len(),
                    match item {
                        Some(s) => s.inv() && valid(s@, *config) && items_spec(xm, i as nat, *config) == Some(
                            Box::new(s@),
                        ),
                        None => items_spec(xm, i as nat, *config) is None,
                    },
                decreases n - i,
            {
                proof {
                    assert(decreases_to!(*value => (*value)->Array_0));
                    assert(decreases_to!(*xs => xs@));
                    assert(decreases_to!(xs@ => xs@[i as int]));
                }
                let e = infer_type(&xs[i], config);
                proof {
                    assert(xm[i as int] == xs@[i as int]@);
                }
                item = match item {
                    Some(mut s) => {
                        s.merge(e, config);
                        Some(s)
                    },
                    None => Some(e),
                };
                i = i + 1;
            }
            let items = match item {
                Some(s) => Some(Box::new(s)),
                None => None,
            };
            let r = Schema { type_mask: ARRAY, object_properties: None, string_values: None, array_items: items };
            proof {
                assert(r@ =~= infer_spec(value@, *config));
            }
            r
        },
        JsonValue::Object(es) => {
            proof {
                assert(*value == JsonValue::Object(*es));
            }
            let mut out: Vec<(String, Schema)> = Vec::new();
            let mut i: usize = 0;
            proof {
                assert(es@.take(0) =~= Seq::empty());
                assert(props_model(out@) =~= members_spec(members_model(es@.take(0)), *config));
            }
            while i < es.len()
                invariant
                    *value == JsonValue::Object(*es),
                    i <= es@.len(),
                    entries_inv(out@),
                    props_model(out@) == members_spec(members_model(es@.take(i as int)), *config),
                decreases es@.len() - i,
            {
                proof {
                    assert(decreases_to!(*value => (*value)->Object_0));
                    assert(decreases_to!(*es => es@));
                    assert(decreases_to!(es@ => es@[i as int]));
                    assert(decreases_to!(es@[i as int] => es@[i as int].1));
                }
                let s = infer_type(&es[i].1, config);
                let k = es[i].0.clone();
                match find_key(&out, &k) {
                    Some(j) => {
                        proof {
                            lemma_props_remove(out@, j as int);
                        }
                        let ghost before = out@;
                        out.remove(j);
                        proof {
                            assert forall|a: int| 0 <= a < out@.len() implies (#[trigger] out@[a]).1.inv() by {
                                let a2 = if a < j { a } else { a + 1 };
                                assert(out@[a] == before[a2]);
                            }
                        }
                    },
                    None => {},
                }
                proof {
                    lemma_props_push(out@, k, s);
                }
                let ghost before = out@;
                out.push((k, s));
                proof {
                    assert forall|a: int| 0 <= a < out@.len() implies (#[trigger] out@[a]).1.inv() by {
                        if a < before.len() {
                            assert(out@[a] == before[a]);
                        }
                    }
                    assert(es@.take(i + 1).drop_last() =~= es@.take(i as int));
                    let m0 = members_model(es@.take(i as int));
                    lemma_members_finite(es@.take(i as int));
                    assert(members_model(es@.take(i + 1)) == m0.insert(k@, es@[i as int].1@));
                    assert(members_model(es@.take(i + 1)).dom() =~= m0.dom().insert(k@));
                    assert(props_model(out@) =~= members_spec(members_model(es@.take(i + 1)), *config));
                }
                i = i + 1;
            }
            let r = Schema { type_mask: OBJECT, object_properties: Some(out), string_values: None, array_items: None };
            proof {
                assert(es@.take(es@.len() as int) =~= es@);
                assert(value@ == JsonModel::Object(members_model(es@)));
                assert(obj_model(OBJECT, Some(out)) == ObjKind::Props(props_model(out@)));
                assert(r@ =~= infer_spec(value@, *config));
            }
            r
        },
    }
}

} // verus!

verus! {


impl Schema {
    /// Whether this node holds its invariant and is valid for `config`: the
    /// condition that `merge` asks of both sides. A node that inference or
    /// merge produced under `config` always passes.
    pub fn is_valid(&self, config: &Config) -> (r: bool)
        ensures
            r == (self.inv() && valid(self@, *config)),
        decreases self,
    {
        let m = self.type_mask;
        proof {
            lemma_plain_keeps(m, ARRAY);
            assert(self@.text == text_model(m, self.string_values));
            assert(self@.obj == obj_model(m, self.object_properties));
        }
        if self.string_values.is_some() != contains(m, STRING_SET) || (contains(m, STRING) && contains(m, STRING_SET))
            || self.object_properties.is_some() != contains(m, OBJECT) || (contains(m, OBJECT) && contains(
            m,
            LARGE_OBJECT,
        )) {
            return false;
        }
        if self.array_items.is_some() && !contains(m, ARRAY) {
            return false;
        }
        if self.array_items.is_some() && !config.consider_array_items {
            return false;
        }
        if contains(m, STRING_SET) && !contains(m, STRING) && !config.consider_string_set {
            return false;
        }
        match &self.string_values {
            Some(v) => {
                if !values_distinct(v) {
                    return false;
                }
                proof {
                    lemma_values_len(v@);
                }
            },
            None => {},
        }
        match &self.array_items {
            Some(b) => {
                proof {
                    assert(decreases_to!(*self => self.array_items));
                    assert(decreases_to!(self.array_items => *b));
                }
                if !b.is_valid(config) {
                    return false;
                }
            },
            None => {},
        }
        match &self.object_properties {
            Some(v) => {
                if !keys_distinct(v) {
                    return false;
                }
                proof {
                    lemma_props_len(v@);
                    assert(self@.obj == ObjKind::Props(props_model(v@)));
                }
                let mut i: usize = 0;
                while i < v.len()
                    invariant
                        self.object_properties == Some(*v),
                        self@.obj == ObjKind::Props(props_model(v@)),
                        keys_unique(v@),
                        i <= v@.len(),
                        forall|j: int| 0 <= j < i ==> (#[trigger] v@[j]).1.inv() && valid(model_of(v@[j].1), *config),
                    decreases v@.len() - i,
                {
                    proof {
                        assert(decreases_to!(*self => self.object_properties));
                        assert(decreases_to!(self.object_properties => self.object_properties->0));
                        assert(decreases_to!(*v => v@));
                        assert(decreases_to!(v@ => v@[i as int]));
                        assert(decreases_to!(v@[i as int] => v@[i as int].1));
                    }
                    if !v[i].1.is_valid(config) {
                        proof {
                            lemma_props_at(v@, i as int);
                            assert(!v@[i as int].1.inv() || !valid(props_model(v@)[v@[i as int].0@], *config));
                        }
                        return false;
                    }
                    i = i + 1;
                }
                proof {
                    let p = props_model(v@);
                    assert forall|k: Seq<char>| #[trigger] p.contains_key(k) implies p.dom().finite() && valid(p[k], *config) by {
                        let j = choose|j: int| 0 <= j < v@.len() && #[trigger] v@[j].0@ == k;
                        lemma_props_at(v@, j);
                    }
                }
            },
            None => {},
        }
        true
    }
}

} // verus!
