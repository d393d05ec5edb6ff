//! The table compressor: run-length compression of an ascending list of
//! code points into the compressed ranges of the table. Each input position
//! is one dense index, so a run of consecutive values starting at position
//! `i` becomes the range `(i, first value, last value)`.

use vstd::prelude::*;

verus! {

use crate::table::range_span;
use crate::table::covers_sym;

/// Entries grow strictly: the list is sorted and duplicate-free.
pub open spec fn ascending(vals: Seq<u32>) -> bool {
    forall|a: int, b: int| 0 <= a < b < vals.len() ==> #[trigger] vals[a] < #[trigger] vals[b]
}

/// The last position of the run of consecutive values that starts at `i`.
pub open spec fn run_end(vals: Seq<u32>, i: int) -> int
    decreases vals.len() - i,
{
    if i + 1 < vals.len() && vals[i + 1] == vals[i] + 1 {
        run_end(vals, i + 1)
    } else {
        i
    }
}

/// The run starting at `i`: it stays inside the list, counts up by one from
/// `vals[i]`, and is maximal.
pub proof fn lemma_run_end(vals: Seq<u32>, i: int)
    requires
        0 <= i < vals.len(),
    ensures
        i <= run_end(vals, i) < vals.len(),
        forall|k: int| i <= k <= run_end(vals, i) ==> #[trigger] vals[k] == vals[i] + (k - i),
        run_end(vals, i) + 1 < vals.len() ==> vals[run_end(vals, i) + 1] != vals[run_end(
            vals,
            i,
        )] + 1,
    decreases vals.len() - i,
{
    if i + 1 < vals.len() && vals[i + 1] == vals[i] + 1 {
        lemma_run_end(vals, i + 1);
    }
}

/// The ranges the compressor produces from position `i` on.
pub open spec fn compress_from(vals: Seq<u32>, i: int) -> Seq<(u32, u32, u32)>
    decreases vals.len() - i,
    when i >= 0
    via compress_from_dec
{
    if 0 <= i < vals.len() {
        seq![(i as u32, vals[i], vals[run_end(vals, i)])] + compress_from(
            vals,
            run_end(vals, i) + 1,
        )
    } else {
        Seq::empty()
    }
}

#[via_fn]
proof fn compress_from_dec(vals: Seq<u32>, i: int) {
    if 0 <= i < vals.len() {
        lemma_run_end(vals, i);
    }
}

/// What compression of an ascending list yields from position `i` on:
/// ranges that continue the dense offsets at `i` without gap or overlap,
/// sit apart in code-point space, exhaust the list, and map every covered
/// dense index `s` to `vals[s]`.
pub proof fn lemma_compress_from(vals: Seq<u32>, i: int)
    requires
        ascending(vals),
        0 <= i <= vals.len(),
        vals.len() <= 0xFFFF_FFFF,
    ensures
        ({
            let rs = compress_from(vals, i);
            &&& (i < vals.len() ==> rs.len() > 0 && rs[0].0 == i)
            &&& (i == vals.len() ==> rs.len() == 0)
            &&& forall|j: int| 0 <= j < rs.len() ==> (#[trigger] rs[j]).1 <= rs[j].2
            &&& forall|a: int, b: int|
                #![trigger rs[a], rs[b]]
                0 <= a && b == a + 1 && b < rs.len() ==> rs[b].0 == rs[a].0 + range_span(rs[a])
                    && rs[b].1 > rs[a].2 + 1
            &&& (rs.len() > 0 ==> rs.last().0 + range_span(rs.last()) == vals.len())
            &&& forall|j: int, s: int|
                0 <= j < rs.len() && #[trigger] covers_sym(rs[j], s) ==> i <= s < vals.len()
                    && vals[s] == rs[j].1 + (s - rs[j].0)
        }),
    decreases vals.len() - i,
{
    let rs = compress_from(vals, i);
    if i == vals.len() {
        assert(rs =~= Seq::empty());
    } else {
        lemma_run_end(vals, i);
        let e = run_end(vals, i);
        let head = (i as u32, vals[i], vals[e]);
        let tail = compress_from(vals, e + 1);
        assert(rs == seq![head] + tail);
        assert(rs[0] == head);
        assert(vals[e] == vals[i] + (e - i));
        assert(range_span(head) == e + 1 - i);
        lemma_compress_from(vals, e + 1);
        if e + 1 < vals.len() {
            // the next range starts past a gap: the run at `i` was maximal
            assert(vals[e + 1] != vals[e] + 1);
            assert(vals[e] < vals[e + 1]);
            assert(tail[0].1 == vals[e + 1]);
            assert(tail[0].1 > head.2 + 1);
        }
        assert forall|a: int, b: int|
            #![trigger rs[a], rs[b]]
            0 <= a && b == a + 1 && b < rs.len() implies rs[b].0 == rs[a].0 + range_span(rs[a])
            && rs[b].1 > rs[a].2 + 1 by {
            assert(rs[b] == tail[b - 1]);
            if a > 0 {
                assert(rs[a] == tail[a - 1]);
                assert(tail[b - 1].0 == tail[a - 1].0 + range_span(tail[a - 1]));
                assert(tail[b - 1].1 > tail[a - 1].2 + 1);
            }
        }
        assert forall|j: int, s: int|
            0 <= j < rs.len() && #[trigger] covers_sym(rs[j], s) implies i <= s < vals.len()
            && vals[s] == rs[j].1 + (s - rs[j].0) by {
            if j == 0 {
                assert(vals[s] == vals[i] + (s - i));
            } else {
                assert(rs[j] == tail[j - 1]);
                assert(covers_sym(tail[j - 1], s));
            }
        }
        if tail.len() > 0 {
            assert(rs.last() == tail.last());
        }
    }
}

/// Walks an ascending code-point list and yields its compressed ranges in
/// order.
pub struct Ranges<'a> {
    pub values: &'a [u32],
    pub index: usize,
}

impl<'a> Ranges<'a> {
    pub open spec fn wf(&self) -> bool {
        self.index <= self.values@.len()
    }

    pub fn new(values: &'a [u32]) -> (r: Self)
        ensures
            r.wf(),
            r.values@ == values@,
            r.index == 0,
    {
        Ranges { values, index: 0 }
    }

    /// Yields the next compressed range: the head of `compress_from` at the
    /// current position.
    #[verifier::loop_isolation(false)]
    pub fn next(&mut self) -> (r: Option<(u32, u32, u32)>)
        requires
            old(self).wf(),
            old(self).values@.len() <= 0xFFFF_FFFF,
        ensures
            final(self).wf(),
            final(self).values@ == old(self).values@,
            ({
                let vals = old(self).values@;
                let i = old(self).index as int;
                if i < vals.len() {
                    r == Some((i as u32, vals[i], vals[run_end(vals, i)])) && final(self).index
                        == run_end(vals, i) + 1
                } else {
                    r is None && final(self).index == i
                }
            }),
    {
        let ghost vals = self.values@;
        if self.index >= self.values.len() {
            return None;
        }
        let start_idx = self.index;
        let start = self.values[self.index];
        let mut end = start;
        proof {
            lemma_run_end(vals, start_idx as int);
        }
        self.index = self.index + 1;
        loop
            invariant
                vals == self.values@,
                start_idx < self.index <= vals.len(),
                start == vals[start_idx as int],
                end == vals[self.index - 1],
                run_end(vals, start_idx as int) == run_end(vals, self.index - 1),
            decreases vals.len() - self.index,
        {
            proof {
                lemma_run_end(vals, self.index - 1);
            }
            if self.index >= self.values.len() {
                assert(run_end(vals, start_idx as int) == self.index - 1);
                return Some((start_idx as u32, start, end));
            }
            let new_end = self.values[self.index];
            if end < 0xFFFF_FFFF && new_end == end + 1 {
                end = new_end;
                self.index = self.index + 1;
            } else {
                assert(vals[self.index as int] != vals[self.index - 1] + 1);
                assert(run_end(vals, start_idx as int) == self.index - 1);
                return Some((start_idx as u32, start, end));
            }
        }
    }
}

/// Compresses a whole ascending code-point list into its range table.
#[verifier::loop_isolation(false)]
pub fn compress(values: &[u32]) -> (r: Vec<(u32, u32, u32)>)
    requires
        values@.len() <= 0xFFFF_FFFF,
    ensures
        r@ == compress_from(values@, 0),
{
    let ghost vals = values@;
    let mut it = Ranges::new(values);
    let mut out: Vec<(u32, u32, u32)> = Vec::new();
    loop
        invariant
            it.wf(),
            it.values@ == vals,
            vals.len() <= 0xFFFF_FFFF,
            out@ + compress_from(vals, it.index as int) =~= compress_from(vals, 0),
        decreases vals.len() - it.index,
    {
        let ghost i = it.index as int;
        proof {
            if i < vals.len() {
                lemma_run_end(vals, i);
            }
        }
        match it.next() {
            Some(rg) => {
                proof {
                    assert(compress_from(vals, i) == seq![rg] + compress_from(
                        vals,
                        run_end(vals, i) + 1,
                    ));
                }
                out.push(rg);
                proof {
                    assert(out@ + compress_from(vals, it.index as int) =~= compress_from(vals, 0));
                }
            },
            None => {
                proof {
                    assert(compress_from(vals, i) =~= Seq::empty());
                    assert(out@ =~= compress_from(vals, 0));
                }
                return out;
            },
        }
    }
}

} // verus!
