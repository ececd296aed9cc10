//! A flat schema over dotted property paths: for one path, the kinds of value
//! seen there, whether it may be missing, and the strings seen while they are
//! few.

use vstd::prelude::*;
use crate::entries::{copy_strings, lemma_values_len, union_values};
use crate::schema::{values_set, values_unique};
use crate::value::JsonValue;

verus! {

/// The kind of a JSON value.
#[derive(Clone, Copy, Debug, PartialEq, Eq, Structural, Hash)]
pub enum ValueType {
    String,
    Number,
    Boolean,
    Null,
    Array,
    Object,
}

/// How many distinct strings a path keeps before it counts as open.
pub const SOME_MAX_VARIANTS: usize = 10;

/// The schema of one path.
#[derive(Debug)]
pub struct SchemaType {
    /// The kinds seen, each once.
    pub types: Vec<ValueType>,
    /// Whether the path was missing or null somewhere.
    pub optional: bool,
    /// The strings seen, each once, while there are at most `SOME_MAX_VARIANTS`.
    pub string_set: Option<Vec<String>>,
}

/// The model of a path schema: kinds, optional flag, strings.
pub type SchemaTypeModel = (Set<ValueType>, bool, Option<Set<Seq<char>>>);

/// The strings of an optional list, as a set.
pub open spec fn opt_values(v: Option<Vec<String>>) -> Option<Set<Seq<char>>> {
    match v {
        Some(x) => Some(values_set(x@)),
        None => None,
    }
}

impl View for SchemaType {
    type V = SchemaTypeModel;

    open spec fn view(&self) -> SchemaTypeModel {
        (self.types@.to_set(), self.optional, opt_values(self.string_set))
    }
}

impl SchemaType {
    /// No kind and no string repeats.
    pub open spec fn inv(&self) -> bool {
        &&& self.types@.no_duplicates()
        &&& match self.string_set {
            Some(v) => values_unique(v@),
            None => true,
        }
    }
}

/// Two optional string sets joined: a missing set stands for no strings
/// kept; a union of more than `SOME_MAX_VARIANTS` strings is dropped.
pub open spec fn combine_sets_spec(a: Option<Set<Seq<char>>>, b: Option<Set<Seq<char>>>) -> Option<Set<Seq<char>>> {
    match (a, b) {
        (None, None) => None,
        (Some(x), Some(y)) => if x.union(y).len() > SOME_MAX_VARIANTS {
            None
        } else {
            Some(x.union(y))
        },
        (Some(x), None) => if x.len() > SOME_MAX_VARIANTS {
            None
        } else {
            Some(x)
        },
        (None, Some(y)) => if y.len() > SOME_MAX_VARIANTS {
            None
        } else {
            Some(y)
        },
    }
}

/// The join of two path schemas.
pub open spec fn merge_schemas_spec(a: SchemaTypeModel, b: SchemaTypeModel) -> SchemaTypeModel {
    (a.0.union(b.0), a.1 || b.1, combine_sets_spec(a.2, b.2))
}

/// The kind of a value.
pub open spec fn kind_of(v: JsonValue) -> ValueType {
    match v {
        JsonValue::Str(_) => ValueType::String,
        JsonValue::Null => ValueType::Null,
        JsonValue::Bool(_) => ValueType::Boolean,
        JsonValue::Array(_) => ValueType::Array,
        JsonValue::Object(_) => ValueType::Object,
        _ => ValueType::Number,
    }
}

/// The kind of a value.
pub fn convert_type(value: &JsonValue) -> (r: ValueType)
    ensures
        r == kind_of(*value),
{
    match value {
        JsonValue::Str(_) => ValueType::String,
        JsonValue::Null => ValueType::Null,
        JsonValue::Bool(_) => ValueType::Boolean,
        JsonValue::Array(_) => ValueType::Array,
        JsonValue::Object(_) => ValueType::Object,
        _ => ValueType::Number,
    }
}

/// A copy of an optional string list that drops it when it holds more than
/// `SOME_MAX_VARIANTS` strings.
fn bounded_copy(v: &Vec<String>) -> (r: Option<Vec<String>>)
    requires
        values_unique(v@),
    ensures
        opt_values(r) == combine_sets_spec(Some(values_set(v@)), None),
        r matches Some(x) ==> values_unique(x@),
{
    proof {
        lemma_values_len(v@);
    }
    if v.len() > SOME_MAX_VARIANTS {
        None
    } else {
        let c = copy_strings(v);
        proof {
            assert forall|i: int, j: int| 0 <= i < c@.len() && 0 <= j < c@.len() && i != j implies #[trigger] c@[i]@
                != #[trigger] c@[j]@ by {
                assert(v@[i]@ != v@[j]@);
            }
        }
        Some(c)
    }
}

/// Two optional string sets joined (see `combine_sets_spec`).
pub fn combine_string_sets(a: &Option<Vec<String>>, b: &Option<Vec<String>>) -> (r: Option<Vec<String>>)
    requires
        a matches Some(x) ==> values_unique(x@),
        b matches Some(x) ==> values_unique(x@),
    ensures
        opt_values(r) == combine_sets_spec(opt_values(*a), opt_values(*b)),
        r matches Some(x) ==> values_unique(x@),
{
    match (a, b) {
        (None, None) => None,
        (None, Some(v)) => bounded_copy(v),
        (Some(v), None) => bounded_copy(v),
        (Some(x), Some(y)) => {
            let x2 = copy_strings(x);
            let y2 = copy_strings(y);
            proof {
                assert forall|i: int, j: int| 0 <= i < x2@.len() && 0 <= j < x2@.len() && i != j implies #[trigger] x2@[i]@
                    != #[trigger] x2@[j]@ by {
                    assert(x@[i]@ != x@[j]@);
                }
                assert forall|i: int, j: int| 0 <= i < y2@.len() && 0 <= j < y2@.len() && i != j implies #[trigger] y2@[i]@
                    != #[trigger] y2@[j]@ by {
                    assert(y@[i]@ != y@[j]@);
                }
            }
            let combined = union_values(x2, y2);
            proof {
                lemma_values_len(combined@);
            }
            if combined.len() > SOME_MAX_VARIANTS {
                None
            } else {
                Some(combined)
            }
        },
    }
}

/// The join of two path schemas: the kinds of both, optional when either is,
/// and the strings of both while they stay few.
pub fn merge_schemas(a: &SchemaType, b: &SchemaType) -> (r: SchemaType)
    requires
        a.inv(),
        b.inv(),
    ensures
        r.inv(),
        r@ == merge_schemas_spec(a@, b@),
{
    let mut types: Vec<ValueType> = Vec::new();
    let mut i: usize = 0;
    while i < a.types.len()
        invariant
            i <= a.types@.len(),
            types@ == a.types@.subrange(0, i as int),
        decreases a.types@.len() - i,
    {
        types.push(a.types[i]);
        i = i + 1;
        proof {
            assert(types@ =~= a.types@.subrange(0, i as int));
        }
    }
    proof {
        assert(types@ =~= a.types@);
    }
    let mut j: usize = 0;
    while j < b.types.len()
        invariant
            j <= b.types@.len(),
            types@.no_duplicates(),
            types@.to_set() == a.types@.to_set().union(b.types@.subrange(0, j as int).to_set()),
        decreases b.types@.len() - j,
    {
        let t = b.types[j];
        let mut found = false;
        let mut k: usize = 0;
        while k < types.len()
            invariant
                k <= types@.len(),
                found == (exists|m: int| 0 <= m < k && types@[m] == t),
            decreases types@.len() - k,
        {
            if types[k] == t {
                found = true;
            }
            k = k + 1;
        }
        let ghost before = types@;
        if !found {
            types.push(t);
        }
        proof {
            assert(b.types@.subrange(0, j + 1) =~= b.types@.subrange(0, j as int).push(t));
            before.lemma_push_to_set_commute(t);
            b.types@.subrange(0, j as int).lemma_push_to_set_commute(t);
            if found {
                let m = choose|m: int| 0 <= m < before.len() && before[m] == t;
                assert(before.contains(t));
                assert(before.to_set().insert(t) =~= before.to_set());
            }
            assert(types@.to_set() =~= a.types@.to_set().union(b.types@.subrange(0, j + 1).to_set()));
            assert(types@.no_duplicates()) by {
                assert forall|p: int, q: int| 0 <= p < types@.len() && 0 <= q < types@.len() && p != q implies types@[p]
                    != types@[q] by {
                    if p < before.len() && q < before.len() {
                        assert(before[p] != before[q]);
                    } else if p < before.len() {
                        assert(before[p] != t);
                    } else {
                        assert(before[q] != t);
                    }
                }
            }
        }
        j = j + 1;
    }
    proof {
        assert(b.types@.subrange(0, b.types@.len() as int) =~= b.types@);
    }
    let string_set = combine_string_sets(&a.string_set, &b.string_set);
    SchemaType { types, optional: a.optional || b.optional, string_set }
}

} // verus!
