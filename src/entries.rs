//! Lists of entries and of strings that stand for maps and sets: their
//! models, the facts that relate them, and the searches over them.

use vstd::prelude::*;
use crate::mask::{lemma_plain_bits, ABSENT};
use crate::model::{flagged, valid};
use crate::schema::{
    has_key, keys_unique, model_of, obj_model, props_model, text_model, values_set, values_unique, Config, Schema,
};

verus! {

/// Every entry of `s` holds the invariant and a model valid for `c`, and no
/// key repeats.
pub open spec fn entries_ok(s: Seq<(String, Schema)>, c: Config) -> bool {
    &&& keys_unique(s)
    &&& forall|i: int| 0 <= i < s.len() ==> (#[trigger] s[i]).1.inv() && valid(model_of(s[i].1), c)
}

/// Every entry of `s` holds the invariant, and no key repeats.
pub open spec fn entries_inv(s: Seq<(String, Schema)>) -> bool {
    &&& keys_unique(s)
    &&& forall|i: int| 0 <= i < s.len() ==> (#[trigger] s[i]).1.inv()
}

pub proof fn lemma_props_at(s: Seq<(String, Schema)>, i: int)
    requires
        keys_unique(s),
        0 <= i < s.len(),
    ensures
        props_model(s).contains_key(s[i].0@),
        props_model(s)[s[i].0@] == model_of(s[i].1),
{
    let k = s[i].0@;
    assert(has_key(s, k));
    let j = choose|j: int| 0 <= j < s.len() && #[trigger] s[j].0@ == k;
    assert(j == i);
}

pub proof fn lemma_props_push(s: Seq<(String, Schema)>, k: String, x: Schema)
    requires
        keys_unique(s),
        !has_key(s, k@),
    ensures
        keys_unique(s.push((k, x))),
        props_model(s.push((k, x))) == props_model(s).insert(k@, model_of(x)),
{
    let t = s.push((k, x));
    assert forall|i: int, j: int| 0 <= i < t.len() && 0 <= j < t.len() && i != j implies #[trigger] t[i].0@
        != #[trigger] t[j].0@ by {
        if i < s.len() && j < s.len() {
            assert(t[i] == s[i] && t[j] == s[j]);
        } else if i < s.len() {
            assert(t[i] == s[i]);
        } else {
            assert(t[j] == s[j]);
        }
    }
    assert forall|key: Seq<char>| #[trigger] has_key(t, key) == (has_key(s, key) || key == k@) by {
        if has_key(s, key) {
            let i = choose|i: int| 0 <= i < s.len() && #[trigger] s[i].0@ == key;
            assert(t[i] == s[i]);
        }
        if key == k@ {
            assert(t[s.len() as int].0@ == key);
        }
        if has_key(t, key) && key != k@ {
            let i = choose|i: int| 0 <= i < t.len() && #[trigger] t[i].0@ == key;
            assert(i < s.len());
            assert(t[i] == s[i]);
        }
    }
    assert forall|key: Seq<char>| #[trigger] props_model(t).contains_key(key) implies props_model(t)[key]
        == props_model(s).insert(k@, model_of(x))[key] by {
        if key == k@ {
            lemma_props_at(t, s.len() as int);
        } else {
            let i = choose|i: int| 0 <= i < s.len() && #[trigger] s[i].0@ == key;
            assert(t[i] == s[i]);
            lemma_props_at(t, i);
            lemma_props_at(s, i);
        }
    }
    assert(props_model(t) =~= props_model(s).insert(k@, model_of(x)));
}

pub proof fn lemma_props_remove(s: Seq<(String, Schema)>, j: int)
    requires
        keys_unique(s),
        0 <= j < s.len(),
    ensures
        keys_unique(s.remove(j)),
        props_model(s.remove(j)) == props_model(s).remove(s[j].0@),
        forall|key: Seq<char>| #[trigger] has_key(s.remove(j), key) == (has_key(s, key) && key != s[j].0@),
{
    let t = s.remove(j);
    assert forall|a: int, b: int| 0 <= a < t.len() && 0 <= b < t.len() && a != b implies #[trigger] t[a].0@
        != #[trigger] t[b].0@ by {
        let a2 = if a < j { a } else { a + 1 };
        let b2 = if b < j { b } else { b + 1 };
        assert(t[a] == s[a2] && t[b] == s[b2]);
    }
    assert forall|key: Seq<char>| #[trigger] has_key(t, key) == (has_key(s, key) && key != s[j].0@) by {
        if has_key(s, key) && key != s[j].0@ {
            let i = choose|i: int| 0 <= i < s.len() && #[trigger] s[i].0@ == key;
            let i2 = if i < j { i } else { i - 1 };
            assert(t[i2] == s[i]);
        }
        if has_key(t, key) {
            let i = choose|i: int| 0 <= i < t.len() && #[trigger] t[i].0@ == key;
            let i2 = if i < j { i } else { i + 1 };
            assert(t[i] == s[i2]);
        }
    }
    assert forall|key: Seq<char>| #[trigger] props_model(t).contains_key(key) implies props_model(t)[key]
        == props_model(s)[key] by {
        let i = choose|i: int| 0 <= i < t.len() && #[trigger] t[i].0@ == key;
        let i2 = if i < j { i } else { i + 1 };
        assert(t[i] == s[i2]);
        lemma_props_at(t, i);
        lemma_props_at(s, i2);
    }
    assert(props_model(t) =~= props_model(s).remove(s[j].0@));
}

pub proof fn lemma_props_len(s: Seq<(String, Schema)>)
    requires
        keys_unique(s),
    ensures
        props_model(s).dom().finite(),
        props_model(s).dom().len() == s.len(),
    decreases s.len(),
{
    if s.len() == 0 {
        assert(props_model(s).dom() =~= Set::empty());
    } else {
        let n = s.len() - 1;
        lemma_props_remove(s, n);
        assert(s.remove(n) =~= s.drop_last());
        lemma_props_len(s.drop_last());
        lemma_props_at(s, n);
        assert(props_model(s).dom() =~= props_model(s.drop_last()).dom().insert(s[n].0@));
    }
}

pub proof fn lemma_values_push(s: Seq<String>, x: String)
    requires
        values_unique(s),
        !values_set(s).contains(x@),
    ensures
        values_unique(s.push(x)),
        values_set(s.push(x)) == values_set(s).insert(x@),
{
    let t = s.push(x);
    assert forall|i: int, j: int| 0 <= i < t.len() && 0 <= j < t.len() && i != j implies #[trigger] t[i]@
        != #[trigger] t[j]@ by {
        if i < s.len() {
            assert(t[i] == s[i]);
        }
        if j < s.len() {
            assert(t[j] == s[j]);
        }
        if i < s.len() && j == s.len() {
            assert(values_set(s).contains(t[i]@));
        }
        if j < s.len() && i == s.len() {
            assert(values_set(s).contains(t[j]@));
        }
    }
    assert forall|v: Seq<char>| #[trigger] values_set(t).contains(v) == values_set(s).insert(x@).contains(v) by {
        if values_set(s).contains(v) {
            let i = choose|i: int| 0 <= i < s.len() && #[trigger] s[i]@ == v;
            assert(t[i] == s[i]);
        }
        if v == x@ {
            assert(t[s.len() as int]@ == v);
        }
        if values_set(t).contains(v) && v != x@ {
            let i = choose|i: int| 0 <= i < t.len() && #[trigger] t[i]@ == v;
            assert(t[i] == s[i]);
        }
    }
    assert(values_set(t) =~= values_set(s).insert(x@));
}

pub proof fn lemma_values_len(s: Seq<String>)
    requires
        values_unique(s),
    ensures
        values_set(s).finite(),
        values_set(s).len() == s.len(),
    decreases s.len(),
{
    if s.len() == 0 {
        assert(values_set(s) =~= Set::empty());
    } else {
        let t = s.drop_last();
        assert forall|i: int, j: int| 0 <= i < t.len() && 0 <= j < t.len() && i != j implies #[trigger] t[i]@
            != #[trigger] t[j]@ by {
            assert(t[i] == s[i] && t[j] == s[j]);
        }
        assert(!values_set(t).contains(s.last()@)) by {
            if values_set(t).contains(s.last()@) {
                let i = choose|i: int| 0 <= i < t.len() && #[trigger] t[i]@ == s.last()@;
                assert(t[i] == s[i]);
            }
        }
        lemma_values_push(t, s.last());
        assert(t.push(s.last()) =~= s);
        lemma_values_len(t);
    }
}

/// Adding `ABSENT` to a node's mask flags its model and keeps its invariant.
pub proof fn lemma_flag_model(s: Schema)
    ensures
        model_of(Schema { type_mask: s.type_mask | ABSENT, ..s }) == flagged(model_of(s)),
        s.inv() ==> (Schema { type_mask: s.type_mask | ABSENT, ..s }).inv(),
{
    lemma_plain_bits(s.type_mask);
    let t = Schema { type_mask: s.type_mask | ABSENT, ..s };
    assert(text_model(t.type_mask, t.string_values) == text_model(s.type_mask, s.string_values));
    assert(obj_model(t.type_mask, t.object_properties) == obj_model(s.type_mask, s.object_properties));
    assert(model_of(t) =~= flagged(model_of(s)));
}

} // verus!

verus! {


/// The index of the entry of `s` with key `k`, if there is one.
pub(crate) fn find_key(s: &Vec<(String, Schema)>, k: &String) -> (r: Option<usize>)
    ensures
        match r {
            Some(j) => j < s@.len() && s@[j as int].0@ == k@,
            None => !has_key(s@, k@),
        },
{
    let mut j: usize = 0;
    while j < s.len()
        invariant
            j <= s@.len(),
            forall|i: int| 0 <= i < j ==> #[trigger] s@[i].0@ != k@,
        decreases s@.len() - j,
    {
        if s[j].0 == *k {
            return Some(j);
        }
        j = j + 1;
    }
    None
}

/// Whether `s` holds the string `x`.
fn has_value(s: &Vec<String>, x: &String) -> (r: bool)
    ensures
        r == values_set(s@).contains(x@),
{
    let mut j: usize = 0;
    while j < s.len()
        invariant
            j <= s@.len(),
            forall|i: int| 0 <= i < j ==> #[trigger] s@[i]@ != x@,
        decreases s@.len() - j,
    {
        if s[j] == *x {
            return true;
        }
        j = j + 1;
    }
    false
}

/// A copy of a list of strings.
pub fn copy_strings(v: &Vec<String>) -> (r: Vec<String>)
    ensures
        r@.len() == v@.len(),
        forall|i: int| 0 <= i < v@.len() ==> #[trigger] r@[i]@ == v@[i]@,
        values_set(r@) == values_set(v@),
{
    let mut out: Vec<String> = Vec::new();
    let mut i: usize = 0;
    while i < v.len()
        invariant
            i <= v@.len(),
            out@.len() == i,
            forall|j: int| 0 <= j < i ==> #[trigger] out@[j]@ == v@[j]@,
        decreases v@.len() - i,
    {
        out.push(v[i].clone());
        i = i + 1;
    }
    proof {
        assert forall|x: Seq<char>| #[trigger] values_set(out@).contains(x) == values_set(v@).contains(x) by {
            if values_set(out@).contains(x) {
                let j = choose|j: int| 0 <= j < out@.len() && #[trigger] out@[j]@ == x;
                assert(v@[j]@ == x);
            }
            if values_set(v@).contains(x) {
                let j = choose|j: int| 0 <= j < v@.len() && #[trigger] v@[j]@ == x;
                assert(out@[j]@ == x);
            }
        }
        assert(values_set(out@) =~= values_set(v@));
    }
    out
}

/// The union of two string lists, each string once.
pub fn union_values(x: Vec<String>, y: Vec<String>) -> (r: Vec<String>)
    requires
        values_unique(x@),
        values_unique(y@),
    ensures
        values_unique(r@),
        values_set(r@) == values_set(x@).union(values_set(y@)),
{
    let mut out = x;
    let mut rest = y;
    let ghost target = values_set(x@).union(values_set(y@));
    while rest.len() > 0
        invariant
            values_unique(out@),
            values_set(out@).union(values_set(rest@)) == target,
        decreases rest@.len(),
    {
        let ghost before = rest@;
        let v = rest.pop().unwrap();
        proof {
            assert(before =~= rest@.push(v));
            assert(values_set(before) =~= values_set(rest@).insert(v@)) by {
                assert forall|z: Seq<char>| #[trigger] values_set(before).contains(z) implies values_set(rest@).insert(v@).contains(z) by {
                    let i = choose|i: int| 0 <= i < before.len() && #[trigger] before[i]@ == z;
                    if i < rest@.len() {
                        assert(before[i] == rest@[i]);
                    }
                }
                assert forall|z: Seq<char>| #[trigger] values_set(rest@).insert(v@).contains(z) implies values_set(before).contains(z) by {
                    if z == v@ {
                        assert(before[rest@.len() as int] == v);
                    } else {
                        let i = choose|i: int| 0 <= i < rest@.len() && #[trigger] rest@[i]@ == z;
                        assert(before[i] == rest@[i]);
                    }
                }
            }
        }
        if !has_value(&out, &v) {
            proof {
                lemma_values_push(out@, v);
            }
            out.push(v);
        }
        proof {
            assert(values_set(out@).union(values_set(rest@)) =~= target);
        }
    }
    proof {
        assert(values_set(rest@) =~= Set::empty());
        assert(values_set(out@).union(values_set(rest@)) =~= values_set(out@));
    }
    out
}

/// Whether the strings of `v` are pairwise distinct.
pub(crate) fn values_distinct(v: &Vec<String>) -> (r: bool)
    ensures
        r == values_unique(v@),
{
    let mut i: usize = 0;
    while i < v.len()
        invariant
            i <= v@.len(),
            forall|a: int, b: int| 0 <= a < i && 0 <= b < i && a != b ==> #[trigger] v@[a]@ != #[trigger] v@[b]@,
        decreases v@.len() - i,
    {
        let mut j: usize = 0;
        while j < i
            invariant
                i < v@.len(),
                j <= i,
                forall|b: int| 0 <= b < j ==> #[trigger] v@[b]@ != v@[i as int]@,
            decreases i - j,
        {
            if v[j] == v[i] {
                return false;
            }
            j = j + 1;
        }
        i = i + 1;
    }
    true
}

/// Whether the keys of `v` are pairwise distinct.
pub(crate) fn keys_distinct(v: &Vec<(String, Schema)>) -> (r: bool)
    ensures
        r == keys_unique(v@),
{
    let mut i: usize = 0;
    while i < v.len()
        invariant
            i <= v@.len(),
            forall|a: int, b: int| 0 <= a < i && 0 <= b < i && a != b ==> #[trigger] v@[a].0@ != #[trigger] v@[b].0@,
        decreases v@.len() - i,
    {
        let mut j: usize = 0;
        while j < i
            invariant
                i < v@.len(),
                j <= i,
                forall|b: int| 0 <= b < j ==> #[trigger] v@[b].0@ != v@[i as int].0@,
            decreases i - j,
        {
            if v[j].0 == v[i].0 {
                return false;
            }
            j = j + 1;
        }
        i = i + 1;
    }
    true
}

} // verus!
