//! The range table: a sorted list of compressed intervals that maps the
//! contiguous dense indices `[0, sym_count)` one-to-one onto a sparse set of
//! Unicode scalar values, plus the two reserved padding sentinels.

use vstd::prelude::*;

verus! {

use crate::chars::is_scalar;
use crate::chars::char_from_u32;
use crate::ranges::ascending;
use crate::ranges::compress;
use crate::ranges::compress_from;
use crate::ranges::lemma_compress_from;

/// How many dense indices one range `(dense_offset, cp_start, cp_end)`
/// covers.
pub open spec fn range_span(r: (u32, u32, u32)) -> int {
    r.2 - r.1 + 1
}

/// Range `r` covers dense index `s`.
pub open spec fn covers_sym(r: (u32, u32, u32), s: int) -> bool {
    r.0 <= s < r.0 + range_span(r)
}

/// Range `r` covers code point `c`.
pub open spec fn covers_cp(r: (u32, u32, u32), c: int) -> bool {
    r.1 <= c <= r.2
}

/// The ranges are sorted, non-overlapping and gap-free in dense-index
/// space, and sorted and non-overlapping in code-point space.
pub open spec fn ranges_wf(rs: Seq<(u32, u32, u32)>) -> bool {
    &&& forall|j: int| 0 <= j < rs.len() ==> (#[trigger] rs[j]).1 <= rs[j].2
    &&& (rs.len() > 0 ==> rs[0].0 == 0)
    &&& forall|i: int, j: int|
        #![trigger rs[i], rs[j]]
        0 <= i && j == i + 1 && j < rs.len() ==> rs[j].0 == rs[i].0 + range_span(rs[i])
            && rs[j].1 > rs[i].2
}

/// Every code point of every range is a Unicode scalar value.
pub open spec fn ranges_scalar(rs: Seq<(u32, u32, u32)>) -> bool {
    forall|j: int, c: int| 0 <= j < rs.len() && #[trigger] covers_cp(rs[j], c) ==> is_scalar(c)
}

/// How many dense indices the ranges cover in all.
pub open spec fn sym_count(rs: Seq<(u32, u32, u32)>) -> int {
    if rs.len() == 0 {
        0
    } else {
        rs.last().0 + range_span(rs.last())
    }
}

/// Some range covers code point `c`.
pub open spec fn cp_valid(rs: Seq<(u32, u32, u32)>, c: int) -> bool {
    exists|j: int| 0 <= j < rs.len() && covers_cp(#[trigger] rs[j], c)
}

/// Some range covers dense index `s`.
pub open spec fn sym_valid(rs: Seq<(u32, u32, u32)>, s: int) -> bool {
    exists|j: int| 0 <= j < rs.len() && covers_sym(#[trigger] rs[j], s)
}

/// The code point dense index `s` maps to.
pub open spec fn cp_of_sym(rs: Seq<(u32, u32, u32)>, s: int) -> int {
    let j = choose|j: int| 0 <= j < rs.len() && covers_sym(#[trigger] rs[j], s);
    rs[j].1 + (s - rs[j].0)
}

/// The dense index code point `c` maps to.
pub open spec fn sym_of_cp(rs: Seq<(u32, u32, u32)>, c: int) -> int {
    let j = choose|j: int| 0 <= j < rs.len() && covers_cp(#[trigger] rs[j], c);
    rs[j].0 + (c - rs[j].1)
}

/// Later ranges sit strictly after earlier ones, in both spaces.
pub proof fn lemma_range_mono(rs: Seq<(u32, u32, u32)>, i: int, j: int)
    requires
        ranges_wf(rs),
        0 <= i < j < rs.len(),
    ensures
        rs[i].0 + range_span(rs[i]) <= rs[j].0,
        rs[i].2 < rs[j].1,
    decreases j - i,
{
    if i + 1 < j {
        lemma_range_mono(rs, i, j - 1);
        assert(rs[j].0 == rs[j - 1].0 + range_span(rs[j - 1]) && rs[j].1 > rs[j - 1].2);
    } else {
        assert(rs[j].0 == rs[i].0 + range_span(rs[i]) && rs[j].1 > rs[i].2);
    }
}

/// At most one range covers a dense index.
pub proof fn lemma_sym_cover_unique(rs: Seq<(u32, u32, u32)>, s: int, i: int, j: int)
    requires
        ranges_wf(rs),
        0 <= i < rs.len(),
        0 <= j < rs.len(),
        covers_sym(rs[i], s),
        covers_sym(rs[j], s),
    ensures
        i == j,
{
    if i < j {
        lemma_range_mono(rs, i, j);
    }
    if j < i {
        lemma_range_mono(rs, j, i);
    }
}

/// At most one range covers a code point.
pub proof fn lemma_cp_cover_unique(rs: Seq<(u32, u32, u32)>, c: int, i: int, j: int)
    requires
        ranges_wf(rs),
        0 <= i < rs.len(),
        0 <= j < rs.len(),
        covers_cp(rs[i], c),
        covers_cp(rs[j], c),
    ensures
        i == j,
{
    if i < j {
        lemma_range_mono(rs, i, j);
    }
    if j < i {
        lemma_range_mono(rs, j, i);
    }
}

/// Every dense index below the total count is covered, from range `j` on
/// when it starts at or before the index.
proof fn lemma_sym_covered_from(rs: Seq<(u32, u32, u32)>, s: int, j: int)
    requires
        ranges_wf(rs),
        0 <= j < rs.len(),
        rs[j].0 <= s < sym_count(rs),
    ensures
        sym_valid(rs, s),
    decreases rs.len() - j,
{
    if s < rs[j].0 + range_span(rs[j]) {
        assert(covers_sym(rs[j], s));
    } else {
        if j == rs.len() - 1 {
            assert(rs[j] == rs.last());
            assert(false);
        }
        assert(rs[j + 1].0 == rs[j].0 + range_span(rs[j]));
        lemma_sym_covered_from(rs, s, j + 1);
    }
}

/// The dense indices the ranges cover are exactly `[0, sym_count)`.
pub proof fn lemma_sym_coverage(rs: Seq<(u32, u32, u32)>, s: int)
    requires
        ranges_wf(rs),
    ensures
        sym_valid(rs, s) <==> 0 <= s < sym_count(rs),
{
    if 0 <= s < sym_count(rs) {
        assert(rs.len() > 0);
        lemma_sym_covered_from(rs, s, 0);
    }
    if sym_valid(rs, s) {
        let j = choose|j: int| 0 <= j < rs.len() && covers_sym(#[trigger] rs[j], s);
        if j < rs.len() - 1 {
            lemma_range_mono(rs, j, rs.len() - 1);
        }
        assert(s < sym_count(rs));
        if j > 0 {
            lemma_range_mono(rs, 0, j);
        }
    }
}

/// What the forward map yields: the covering range translates the index,
/// the result is a valid code point, and the inverse map takes it back.
pub proof fn lemma_cp_of_sym(rs: Seq<(u32, u32, u32)>, s: int)
    requires
        ranges_wf(rs),
        0 <= s < sym_count(rs),
    ensures
        forall|j: int|
            0 <= j < rs.len() && covers_sym(#[trigger] rs[j], s) ==> cp_of_sym(rs, s) == rs[j].1
                + (s - rs[j].0),
        cp_valid(rs, cp_of_sym(rs, s)),
        sym_of_cp(rs, cp_of_sym(rs, s)) == s,
        covers_cp(rs[choose|j: int|
            0 <= j < rs.len() && covers_sym(#[trigger] rs[j], s)], cp_of_sym(rs, s)),
{
    lemma_sym_coverage(rs, s);
    let j = choose|j: int| 0 <= j < rs.len() && covers_sym(#[trigger] rs[j], s);
    assert(covers_sym(rs[j], s));
    assert forall|i: int|
        0 <= i < rs.len() && covers_sym(#[trigger] rs[i], s) implies cp_of_sym(rs, s) == rs[i].1
        + (s - rs[i].0) by {
        lemma_sym_cover_unique(rs, s, i, j);
    }
    let c = cp_of_sym(rs, s);
    assert(covers_cp(rs[j], c));
    assert(cp_valid(rs, c));
    let i = choose|i: int| 0 <= i < rs.len() && covers_cp(#[trigger] rs[i], c);
    lemma_cp_cover_unique(rs, c, i, j);
}

/// What the inverse map yields: a covered code point translates back to a
/// dense index below the count, and the forward map returns it.
pub proof fn lemma_sym_of_cp(rs: Seq<(u32, u32, u32)>, c: int)
    requires
        ranges_wf(rs),
        cp_valid(rs, c),
    ensures
        forall|j: int|
            0 <= j < rs.len() && covers_cp(#[trigger] rs[j], c) ==> sym_of_cp(rs, c) == rs[j].0 + (
            c - rs[j].1),
        0 <= sym_of_cp(rs, c) < sym_count(rs),
        cp_of_sym(rs, sym_of_cp(rs, c)) == c,
{
    let j = choose|j: int| 0 <= j < rs.len() && covers_cp(#[trigger] rs[j], c);
    assert(covers_cp(rs[j], c));
    assert forall|i: int|
        0 <= i < rs.len() && covers_cp(#[trigger] rs[i], c) implies sym_of_cp(rs, c) == rs[i].0 + (
        c - rs[i].1) by {
        lemma_cp_cover_unique(rs, c, i, j);
    }
    let s = sym_of_cp(rs, c);
    assert(covers_sym(rs[j], s));
    lemma_sym_coverage(rs, s);
    let i = choose|i: int| 0 <= i < rs.len() && covers_sym(#[trigger] rs[i], s);
    lemma_sym_cover_unique(rs, s, i, j);
}

/// The compressed range table plus its two reserved padding code points.
pub struct RangeTable {
    /// `(dense_offset, cp_start, cp_end)` triples, sorted both ways.
    pub ranges: Vec<(u32, u32, u32)>,
    /// Sentinel for one discarded trailing byte.
    pub pad1: char,
    /// Sentinel for two discarded trailing bytes.
    pub pad2: char,
}

impl RangeTable {
    /// Well-formed: sorted gap-free scalar ranges, and two distinct
    /// sentinels that collide with no in-range code point.
    pub open spec fn wf(&self) -> bool {
        &&& ranges_wf(self.ranges@)
        &&& ranges_scalar(self.ranges@)
        &&& !cp_valid(self.ranges@, self.pad1 as int)
        &&& !cp_valid(self.ranges@, self.pad2 as int)
        &&& self.pad1 != self.pad2
    }

    /// How many dense indices the table covers.
    pub open spec fn sym_count(&self) -> int {
        sym_count(self.ranges@)
    }

    /// A table fit for the codec: well-formed and covering the full 17-bit
    /// symbol domain.
    pub open spec fn complete(&self) -> bool {
        &&& self.wf()
        &&& self.sym_count() == 0x20000
    }
}

impl RangeTable {
    /// Builds the table from an ascending, duplicate-free list of scalar
    /// code points. The two largest values are removed and become the
    /// sentinels, `pad1` the largest and `pad2` the second largest; the
    /// rest compress into ranges that put value `s` at dense index `s`.
    #[verifier::rlimit(60)]
    pub fn new(code_points: Vec<u32>) -> (r: RangeTable)
        requires
            ascending(code_points@),
            code_points@.len() >= 2,
            code_points@.len() <= 0xFFFF_FFFF,
            forall|j: int|
                0 <= j < code_points@.len() ==> is_scalar(#[trigger] code_points@[j] as int),
        ensures
            r.wf(),
            r.sym_count() == code_points@.len() - 2,
            r.pad1 as int == code_points@[code_points@.len() - 1] as int,
            r.pad2 as int == code_points@[code_points@.len() - 2] as int,
            forall|s: int|
                0 <= s < code_points@.len() - 2 ==> cp_of_sym(r.ranges@, s)
                    == #[trigger] code_points@[s] as int,
            forall|c: int|
                cp_valid(r.ranges@, c) <==> exists|s: int|
                    0 <= s < code_points@.len() - 2 && #[trigger] code_points@[s] as int == c,
    {
        let ghost orig = code_points@;
        let mut code_points = code_points;
        let p1 = match code_points.pop() {
            Some(v) => v,
            None => vstd::pervasive::unreached(),
        };
        let p2 = match code_points.pop() {
            Some(v) => v,
            None => vstd::pervasive::unreached(),
        };
        let ghost vals = code_points@;
        proof {
            assert(vals =~= orig.take(orig.len() - 2));
            assert(p1 == orig[orig.len() - 1]);
            assert(p2 == orig[orig.len() - 2]);
            assert(ascending(vals));
            assert(orig[orig.len() - 2] < orig[orig.len() - 1]);
        }
        let pad1 = match char_from_u32(p1) {
            Some(c) => c,
            None => vstd::pervasive::unreached(),
        };
        let pad2 = match char_from_u32(p2) {
            Some(c) => c,
            None => vstd::pervasive::unreached(),
        };
        let ranges = compress(code_points.as_slice());
        proof {
            lemma_table_from_compress(orig, vals, ranges@);
        }
        RangeTable { ranges, pad1, pad2 }
    }
}

/// What the compressed ranges of the value list (its two sentinels
/// removed) give the table: well-formed scalar ranges that put value `s`
/// at dense index `s`, cover exactly the listed values, and miss both
/// sentinels.
#[verifier::rlimit(100)]
proof fn lemma_table_from_compress(orig: Seq<u32>, vals: Seq<u32>, rs: Seq<(u32, u32, u32)>)
    requires
        ascending(orig),
        orig.len() >= 2,
        orig.len() <= 0xFFFF_FFFF,
        vals == orig.take(orig.len() - 2),
        forall|j: int| 0 <= j < orig.len() ==> is_scalar(#[trigger] orig[j] as int),
        rs == compress_from(vals, 0),
    ensures
        ranges_wf(rs),
        ranges_scalar(rs),
        sym_count(rs) == orig.len() - 2,
        !cp_valid(rs, orig[orig.len() - 1] as int),
        !cp_valid(rs, orig[orig.len() - 2] as int),
        forall|s: int|
            0 <= s < orig.len() - 2 ==> cp_of_sym(rs, s) == #[trigger] orig[s] as int,
        forall|c: int|
            cp_valid(rs, c) <==> exists|s: int|
                0 <= s < orig.len() - 2 && #[trigger] orig[s] as int == c,
{
    assert(ascending(vals));
    let n = orig.len() as int;
    assert(vals.len() == n - 2);
    assert(ranges_wf(rs) && sym_count(rs) == n - 2) by {
        lemma_compress_from(vals, 0);
        if vals.len() > 0 {
            assert(sym_count(rs) == vals.len());
        }
    }
    // the dense index mapping: value `s` of the list sits at dense index `s`
    assert forall|s: int| 0 <= s < n - 2 implies cp_valid(rs, #[trigger] orig[s] as int)
        && cp_of_sym(rs, s) == orig[s] as int by {
        lemma_compress_from(vals, 0);
        lemma_sym_coverage(rs, s);
        let j = choose|j: int| 0 <= j < rs.len() && covers_sym(#[trigger] rs[j], s);
        assert(covers_sym(rs[j], s));
        assert(vals[s] == rs[j].1 + (s - rs[j].0));
        assert(covers_cp(rs[j], vals[s] as int));
        lemma_cp_of_sym(rs, s);
    }
    // every covered code point is a listed value, below both sentinels
    assert forall|c: int| cp_valid(rs, c) implies (exists|s: int|
        0 <= s < n - 2 && #[trigger] orig[s] as int == c) && c < orig[n - 2] && is_scalar(c) by {
        lemma_compress_from(vals, 0);
        let j = choose|j: int| 0 <= j < rs.len() && covers_cp(#[trigger] rs[j], c);
        let s = rs[j].0 + (c - rs[j].1);
        assert(covers_sym(rs[j], s));
        assert(vals[s] as int == c);
        assert(orig[s] as int == c);
        assert(orig[s] < orig[n - 2]);
    }
    assert(ranges_scalar(rs)) by {
        assert forall|j: int, c: int|
            0 <= j < rs.len() && #[trigger] covers_cp(rs[j], c) implies is_scalar(c) by {
            assert(cp_valid(rs, c));
        }
    }
    assert(orig[n - 2] < orig[n - 1]);
    assert(!cp_valid(rs, orig[n - 1] as int));
    assert(!cp_valid(rs, orig[n - 2] as int));
}

/// A ready-made complete table: three fixed scalar ranges covering the full
/// 17-bit domain, with the two highest code points reserved as sentinels.
pub fn default_table() -> (r: RangeTable)
    ensures
        r.complete(),
{
    let mut ranges: Vec<(u32, u32, u32)> = Vec::new();
    ranges.push((0, 0xA000, 0xD7FF));
    ranges.push((0x3800, 0xE000, 0x1FFFF));
    ranges.push((0x15800, 0x20001, 0x2A800));
    let pad1 = match char_from_u32(0x2A802) {
        Some(c) => c,
        None => vstd::pervasive::unreached(),
    };
    let pad2 = match char_from_u32(0x2A801) {
        Some(c) => c,
        None => vstd::pervasive::unreached(),
    };
    let t = RangeTable { ranges, pad1, pad2 };
    proof {
        assert(t.ranges@.len() == 3);
        assert(ranges_wf(t.ranges@));
        assert forall|j: int, c: int|
            0 <= j < t.ranges@.len() && #[trigger] covers_cp(t.ranges@[j], c) implies is_scalar(
            c,
        ) by {}
        assert(!cp_valid(t.ranges@, t.pad1 as int));
        assert(!cp_valid(t.ranges@, t.pad2 as int));
        assert(t.sym_count() == 0x20000);
    }
    t
}

} // verus!
