//! Splitting a buffer into line-aligned chunks, and folding the records of a
//! chunk into a worker's accumulator.

use vstd::prelude::*;
use vstd::slice::slice_subrange;
use crate::model::{merge_spec, valid, SchemaModel};
use crate::schema::{infer_spec, infer_type, Config, Schema};
use crate::value::{parse_line, parsed_record, JsonValue};

verus! {

/// The newline byte.
pub const NEWLINE: u8 = 10;

/// Whether `i` is the position of the first newline of `d`, or `d.len()`
/// where `d` has none.
pub open spec fn is_first_newline(d: Seq<u8>, i: int) -> bool {
    &&& 0 <= i <= d.len()
    &&& (i == d.len() || d[i] == NEWLINE)
    &&& forall|j: int| 0 <= j < i ==> d[j] != NEWLINE
}

/// The position of the first newline of `d`, or `d.len()`.
pub open spec fn first_newline(d: Seq<u8>) -> int {
    choose|i: int| is_first_newline(d, i)
}

/// The non-empty lines of `d`, in order: the pieces between newlines, empty
/// pieces left out.
pub open spec fn lines_of(d: Seq<u8>) -> Seq<Seq<u8>>
    decreases d.len(),
{
    if d.len() == 0 {
        seq![]
    } else {
        let e = first_newline(d);
        if 0 <= e < d.len() {
            let head: Seq<Seq<u8>> = if e > 0 {
                seq![d.subrange(0, e)]
            } else {
                seq![]
            };
            head + lines_of(d.subrange(e + 1, d.len() as int))
        } else {
            seq![d]
        }
    }
}

pub proof fn lemma_first_newline(d: Seq<u8>, i: int)
    requires
        is_first_newline(d, i),
    ensures
        first_newline(d) == i,
{
    let k = first_newline(d);
    assert(is_first_newline(d, k));
    if k < i {
        assert(d[k] == NEWLINE);
    } else if i < k {
        assert(d[i] == NEWLINE);
    }
}

/// The model of an accumulator: how many records it took, and the join of
/// their schemas (`None` before the first).
pub type AccModel = (nat, Option<SchemaModel>);

/// One more record, with the schema `s`.
pub open spec fn add_schema(acc: AccModel, s: SchemaModel, c: Config) -> AccModel {
    (
        acc.0 + 1,
        match acc.1 {
            Some(t) => Some(merge_spec(t, s, c)),
            None => Some(s),
        },
    )
}

/// Two accumulators joined.
pub open spec fn combine_spec(a: AccModel, b: AccModel, c: Config) -> AccModel {
    (
        a.0 + b.0,
        match (a.1, b.1) {
            (Some(x), Some(y)) => Some(merge_spec(x, y, c)),
            (Some(x), None) => Some(x),
            (None, y) => y,
        },
    )
}

/// The accumulator after the lines, in order: each line that parses adds one
/// record; the others are skipped.
pub open spec fn fold_lines(acc: AccModel, lines: Seq<Seq<u8>>, c: Config) -> AccModel
    decreases lines.len(),
{
    if lines.len() == 0 {
        acc
    } else {
        let before = fold_lines(acc, lines.drop_last(), c);
        match parsed_record(lines.last()) {
            Some(v) => add_schema(before, infer_spec(v, c), c),
            None => before,
        }
    }
}

/// A worker's running state: the number of records seen and the join of
/// their schemas.
#[derive(Debug)]
pub struct Accumulator {
    pub count: usize,
    pub schema: Option<Schema>,
}

impl View for Accumulator {
    type V = AccModel;

    open spec fn view(&self) -> AccModel {
        (
            self.count as nat,
            match self.schema {
                Some(s) => Some(s@),
                None => None,
            },
        )
    }
}

impl Accumulator {
    /// The schema, if any, holds its invariant and is valid for `c`.
    pub open spec fn inv(&self, c: Config) -> bool {
        match self.schema {
            Some(s) => s.inv() && valid(s@, c),
            None => true,
        }
    }

    /// No record yet.
    pub fn new() -> (r: Accumulator)
        ensures
            r@ == (0nat, None::<SchemaModel>),
            forall|c: Config| r.inv(c),
    {
        Accumulator { count: 0, schema: None }
    }

    /// Takes one parsed record: counts it and joins its schema.
    pub fn add_value(&mut self, value: &JsonValue, config: &Config)
        requires
            old(self).inv(*config),
            old(self).count < usize::MAX,
        ensures
            final(self).inv(*config),
            final(self)@ == add_schema(old(self)@, infer_spec(value@, *config), *config),
    {
        let s = infer_type(value, config);
        self.count = self.count + 1;
        self.schema = match self.schema.take() {
            Some(mut t) => {
                t.merge(s, config);
                Some(t)
            },
            None => Some(s),
        };
    }

    /// Two accumulators joined: the counts add up and the schemas merge.
    pub fn combine(self, other: Accumulator, config: &Config) -> (r: Accumulator)
        requires
            self.inv(*config),
            other.inv(*config),
            self.count + other.count <= usize::MAX,
        ensures
            r.inv(*config),
            r@ == combine_spec(self@, other@, *config),
    {
        let count = self.count + other.count;
        let schema = match (self.schema, other.schema) {
            (Some(mut a), Some(b)) => {
                a.merge(b, config);
                Some(a)
            },
            (Some(a), None) => Some(a),
            (None, b) => b,
        };
        Accumulator { count, schema }
    }
}

/// Folds every non-empty line of `chunk` into `acc`: a line that parses adds
/// one record, a line that does not is skipped.
pub fn process_chunk(chunk: &[u8], acc: &mut Accumulator, config: &Config)
    requires
        old(acc).inv(*config),
        old(acc).count + chunk@.len() <= usize::MAX,
    ensures
        final(acc).inv(*config),
        final(acc)@ == fold_lines(old(acc)@, lines_of(chunk@), *config),
{
    let ghost acc0 = acc@;
    let ghost count0 = acc.count;
    let ghost mut done: Seq<Seq<u8>> = seq![];
    let n = chunk.len();
    let mut start: usize = 0;
    proof {
        assert(chunk@.subrange(0, n as int) =~= chunk@);
        assert(done + lines_of(chunk@) =~= lines_of(chunk@));
    }
    while start < n
        invariant
            n == chunk@.len(),
            start <= n,
            acc.inv(*config),
            acc.count <= count0 + start,
            count0 + n <= usize::MAX,
            acc@ == fold_lines(acc0, done, *config),
            lines_of(chunk@) == done + lines_of(chunk@.subrange(start as int, n as int)),
        decreases n - start,
    {
        let mut e = start;
        while e < n && chunk[e] != NEWLINE
            invariant
                n == chunk@.len(),
                start <= e <= n,
                forall|j: int| start <= j < e ==> chunk@[j] != NEWLINE,
            decreases n - e,
        {
            e = e + 1;
        }
        let ghost rest = chunk@.subrange(start as int, n as int);
        proof {
            lemma_first_newline(rest, (e - start) as int);
        }
        let ghost fresh: Seq<Seq<u8>> = if e > start {
            seq![chunk@.subrange(start as int, e as int)]
        } else {
            seq![]
        };
        if e > start {
            let line = slice_subrange(chunk, start, e);
            let ghost before = acc@;
            let parsed = parse_line(line);
            match parsed {
                Some(v) => {
                    acc.add_value(&v, config);
                },
                None => {},
            }
            proof {
                let d2 = done.push(line@);
                assert(d2.drop_last() =~= done);
                assert(line@ =~= chunk@.subrange(start as int, e as int));
                assert(fold_lines(acc0, d2, *config) == acc@);
                assert(done + fresh =~= d2);
            }
        } else {
            proof {
                assert(done + fresh =~= done);
            }
        }
        proof {
            done = done + fresh;
        }
        if e < n {
            proof {
                assert(rest.subrange(0, (e - start) as int) =~= chunk@.subrange(start as int, e as int));
                assert(rest.subrange((e - start) + 1, rest.len() as int) =~= chunk@.subrange(e + 1, n as int));
                assert(lines_of(chunk@) =~= done + lines_of(chunk@.subrange(e + 1, n as int)));
            }
            start = e + 1;
        } else {
            proof {
                assert(rest =~= chunk@.subrange(start as int, e as int));
                assert(chunk@.subrange(n as int, n as int) =~= Seq::<u8>::empty());
                assert(lines_of(chunk@) =~= done + lines_of(chunk@.subrange(n as int, n as int)));
            }
            start = n;
        }
    }
    proof {
        assert(chunk@.subrange(n as int, n as int) =~= Seq::<u8>::empty());
        assert(done + lines_of(Seq::<u8>::empty()) =~= done);
    }
}

} // verus!

verus! {

/// Where the chunk that starts at `s` ends: `size` bytes on, then on past
/// the next newline, or at the end of `d`.
pub open spec fn chunk_end(d: Seq<u8>, s: int, size: int) -> int {
    if s + size >= d.len() {
        d.len() as int
    } else {
        let t = s + size;
        let e = t + first_newline(d.subrange(t, d.len() as int));
        if e < d.len() {
            e + 1
        } else {
            d.len() as int
        }
    }
}

/// Splits `data` into line-aligned ranges `(start, end)` of about
/// `chunk_size` bytes. The ranges cover `data` in order, without gap or
/// overlap; each ends at the end of `data` or just past a newline; each but
/// the last is longer than `chunk_size`.
pub fn find_chunk_boundaries(data: &[u8], chunk_size: usize) -> (r: Vec<(usize, usize)>)
    ensures
        (r@.len() == 0) == (data@.len() == 0),
        r@.len() > 0 ==> r@[0].0 == 0 && r@.last().1 == data@.len(),
        forall|i: int| 0 <= i < r@.len() - 1 ==> #[trigger] r@[i].1 == r@[i + 1].0,
        forall|i: int|
            0 <= i < r@.len() ==> #[trigger] r@[i].0 < r@[i].1 && r@[i].1 == chunk_end(
                data@,
                r@[i].0 as int,
                chunk_size as int,
            ),
        forall|i: int|
            0 <= i < r@.len() ==> #[trigger] r@[i].1 == data@.len() || data@[r@[i].1 - 1] == NEWLINE,
        forall|i: int| 0 <= i < r@.len() - 1 ==> #[trigger] r@[i].1 - r@[i].0 > chunk_size,
{
    let n = data.len();
    let mut boundaries: Vec<(usize, usize)> = Vec::new();
    let mut current: usize = 0;
    while current < n
        invariant
            n == data@.len(),
            current <= n,
            (boundaries@.len() == 0) == (current == 0),
            boundaries@.len() > 0 ==> boundaries@[0].0 == 0 && boundaries@.last().1 == current,
            forall|i: int| 0 <= i < boundaries@.len() - 1 ==> #[trigger] boundaries@[i].1 == boundaries@[i + 1].0,
            forall|i: int|
                0 <= i < boundaries@.len() ==> #[trigger] boundaries@[i].0 < boundaries@[i].1
                    && boundaries@[i].1 == chunk_end(data@, boundaries@[i].0 as int, chunk_size as int),
            forall|i: int|
                0 <= i < boundaries@.len() ==> #[trigger] boundaries@[i].1 == n || data@[boundaries@[i].1
                    - 1] == NEWLINE,
            forall|i: int|
                0 <= i < boundaries@.len() ==> #[trigger] boundaries@[i].1 == n || boundaries@[i].1
                    - boundaries@[i].0 > chunk_size,
        decreases n - current,
    {
        let tentative = if chunk_size >= n - current {
            n
        } else {
            current + chunk_size
        };
        let end = if tentative >= n {
            n
        } else {
            let mut actual = tentative;
            while actual < n && data[actual] != NEWLINE
                invariant
                    n == data@.len(),
                    tentative <= actual <= n,
                    forall|j: int| tentative <= j < actual ==> data@[j] != NEWLINE,
                decreases n - actual,
            {
                actual = actual + 1;
            }
            proof {
                lemma_first_newline(data@.subrange(tentative as int, n as int), (actual - tentative) as int);
            }
            if actual >= n {
                n
            } else {
                actual + 1
            }
        };
        let ghost before = boundaries@;
        boundaries.push((current, end));
        proof {
            assert forall|i: int| 0 <= i < boundaries@.len() - 1 implies #[trigger] boundaries@[i].1
                == boundaries@[i + 1].0 by {
                if i + 1 < before.len() {
                    assert(boundaries@[i] == before[i] && boundaries@[i + 1] == before[i + 1]);
                } else {
                    assert(boundaries@[i] == before[i]);
                }
            }
            assert forall|i: int| 0 <= i < boundaries@.len() implies #[trigger] boundaries@[i].0 < boundaries@[i].1
                && boundaries@[i].1 == chunk_end(data@, boundaries@[i].0 as int, chunk_size as int) && (
            boundaries@[i].1 == n || data@[boundaries@[i].1 - 1] == NEWLINE) && (boundaries@[i].1 == n
                || boundaries@[i].1 - boundaries@[i].0 > chunk_size) by {
                if i < before.len() {
                    assert(boundaries@[i] == before[i]);
                }
            }
        }
        current = end;
    }
    boundaries
}

} // verus!
