//! The symbol codec and the two public operations.
//!
//! A 17-bit symbol maps to a code point by binary search over the range
//! table, and back. `encode` packs bytes into symbols, maps each through
//! the table and appends the padding sentinel the byte count owes;
//! `decode` strips the sentinel, maps every character back, realigns the
//! bits and drops the surplus bytes. The round-trip law at the end proves
//! the two inverse for every complete table.

use vstd::prelude::*;

verus! {

use crate::chars::push_char;
use crate::chars::char_from_u32;
use crate::pack::B17;
use crate::pack::B8ToB17Iter;
use crate::pack::B17ToB8Iter;
use crate::pack::pack_len;
use crate::pack::packed_sym;
use crate::pack::packed_syms;
use crate::pack::unpacked_bytes;
use crate::pack::sym_values;
use crate::pack::lemma_packed_sym_bound;
use crate::pack::lemma_pack_len_bounds;
use crate::pack::lemma_unpack_len_bounds;
use crate::pack::lemma_unpack_packed;
use crate::padding::Padding;
use crate::padding::pad_spec;
use crate::padding::pad_drop;
use crate::padding::calc_padding;
use crate::padding::lemma_pad_drop;
use crate::table::RangeTable;
use crate::table::covers_sym;
use crate::table::covers_cp;
use crate::table::cp_valid;
use crate::table::cp_of_sym;
use crate::table::sym_of_cp;
use crate::table::sym_count;
use crate::table::range_span;
use crate::table::lemma_range_mono;
use crate::table::lemma_sym_coverage;
use crate::table::lemma_cp_of_sym;
use crate::table::lemma_sym_of_cp;

impl B17 {
    /// Maps a dense index to its code point: binary search over the range
    /// table by dense offset.
    #[verifier::loop_isolation(false)]
    pub fn encode(self, table: &RangeTable) -> (r: char)
        requires
            table.wf(),
            self.0 < table.sym_count(),
        ensures
            r as int == cp_of_sym(table.ranges@, self.0 as int),
    {
        let s = self.0;
        let ghost rs = table.ranges@;
        proof {
            lemma_sym_coverage(rs, s as int);
            lemma_cp_of_sym(rs, s as int);
        }
        let mut lo: usize = 0;
        let mut hi: usize = table.ranges.len();
        while hi - lo > 1
            invariant
                0 <= lo < hi <= rs.len(),
                rs[lo as int].0 <= s,
                hi < rs.len() ==> s < rs[hi as int].0,
            decreases hi - lo,
        {
            let mid = lo + (hi - lo) / 2;
            if table.ranges[mid].0 <= s {
                lo = mid;
            } else {
                hi = mid;
            }
        }
        let rg = table.ranges[lo];
        proof {
            if hi < rs.len() {
                assert(rs[hi as int].0 == rs[hi - 1].0 + range_span(rs[hi - 1]));
            }
            assert(covers_sym(rs[lo as int], s as int));
        }
        let cp = rg.1 + (s - rg.0);
        proof {
            assert(covers_cp(rs[lo as int], cp as int));
        }
        match char_from_u32(cp) {
            Some(c) => c,
            None => vstd::pervasive::unreached(),
        }
    }

    /// Maps a code point back to its dense index: binary search over the
    /// range table by interval membership. `None` for a code point no
    /// range covers.
    #[verifier::loop_isolation(false)]
    pub fn decode(ch: char, table: &RangeTable) -> (r: Option<B17>)
        requires
            table.wf(),
            table.sym_count() <= 0xFFFF_FFFF,
        ensures
            r is Some <==> cp_valid(table.ranges@, ch as int),
            r matches Some(b) ==> b.0 as int == sym_of_cp(table.ranges@, ch as int),
    {
        let ghost rs = table.ranges@;
        let cp = ch as u32;
        let mut lo: usize = 0;
        let mut hi: usize = table.ranges.len();
        while lo < hi
            invariant
                0 <= lo <= hi <= rs.len(),
                forall|j: int|
                    0 <= j < rs.len() && covers_cp(#[trigger] rs[j], cp as int) ==> lo <= j < hi,
            decreases hi - lo,
        {
            let mid = lo + (hi - lo) / 2;
            let rg = table.ranges[mid];
            if cp < rg.1 {
                proof {
                    assert forall|j: int|
                        0 <= j < rs.len() && covers_cp(#[trigger] rs[j], cp as int) implies j
                        < mid by {
                        if j > mid {
                            lemma_range_mono(rs, mid as int, j);
                        }
                    }
                }
                hi = mid;
            } else if cp > rg.2 {
                proof {
                    assert forall|j: int|
                        0 <= j < rs.len() && covers_cp(#[trigger] rs[j], cp as int) implies j
                        > mid by {
                        if j < mid {
                            lemma_range_mono(rs, j, mid as int);
                        }
                    }
                }
                lo = mid + 1;
            } else {
                proof {
                    assert(covers_cp(rs[mid as int], cp as int));
                    assert(cp_valid(rs, cp as int));
                    lemma_sym_of_cp(rs, cp as int);
                    if mid + 1 < rs.len() {
                        lemma_range_mono(rs, mid as int, rs.len() - 1);
                    }
                    assert(rs[mid as int].0 + (cp - rs[mid as int].1) < sym_count(rs));
                }
                return Some(B17(rg.0 + (cp - rg.1)));
            }
        }
        proof {
            assert(!cp_valid(rs, cp as int));
        }
        None
    }
}

/// The error reported when decoding text holding a character outside the
/// table: its zero-based character position, and the character itself.
#[derive(Debug, Clone, Copy)]
pub struct InvalidChar(pub usize, pub char);

/// The text `encode` produces: one code point per packed symbol, then the
/// sentinel the byte count owes, if any.
pub open spec fn encode_spec(t: RangeTable, data: Seq<u8>) -> Seq<char> {
    let body = Seq::new(
        pack_len(data.len() as int) as nat,
        |j: int| cp_of_sym(t.ranges@, packed_sym(data, j) as int) as char,
    );
    match pad_spec(data.len() as int) {
        None => body,
        Some(Padding::Pad1) => body.push(t.pad1),
        Some(Padding::Pad2) => body.push(t.pad2),
    }
}

/// How many trailing bytes the last character of `text` asks the decoder
/// to drop.
pub open spec fn strip_count(t: RangeTable, text: Seq<char>) -> int {
    if text.len() == 0 {
        0
    } else if text.last() == t.pad1 {
        1
    } else if text.last() == t.pad2 {
        2
    } else {
        0
    }
}

/// The text with its trailing sentinel stripped, when it carries one.
pub open spec fn stripped(t: RangeTable, text: Seq<char>) -> Seq<char> {
    if strip_count(t, text) > 0 {
        text.drop_last()
    } else {
        text
    }
}

/// The first position in `body` holding a character outside the table, or
/// -1 when every character is in it.
pub open spec fn first_invalid(rs: Seq<(u32, u32, u32)>, body: Seq<char>) -> int
    decreases body.len(),
{
    if body.len() == 0 {
        -1
    } else if !cp_valid(rs, body[0] as int) {
        0
    } else {
        let r = first_invalid(rs, body.drop_first());
        if r < 0 {
            -1
        } else {
            r + 1
        }
    }
}

/// A body whose characters are all in the table has no invalid position.
pub proof fn lemma_first_invalid_none(rs: Seq<(u32, u32, u32)>, body: Seq<char>)
    requires
        forall|k: int| 0 <= k < body.len() ==> cp_valid(rs, #[trigger] body[k] as int),
    ensures
        first_invalid(rs, body) == -1,
    decreases body.len(),
{
    if body.len() > 0 {
        lemma_first_invalid_none(rs, body.drop_first());
    }
}

/// The first character outside the table marks the invalid position.
pub proof fn lemma_first_invalid_at(rs: Seq<(u32, u32, u32)>, body: Seq<char>, i: int)
    requires
        0 <= i < body.len(),
        forall|k: int| 0 <= k < i ==> cp_valid(rs, #[trigger] body[k] as int),
        !cp_valid(rs, body[i] as int),
    ensures
        first_invalid(rs, body) == i,
    decreases body.len(),
{
    if i > 0 {
        lemma_first_invalid_at(rs, body.drop_first(), i - 1);
    }
}

/// The bytes `decode` recovers, or the error it reports: the position and
/// character of the first character outside the table, position `0` when
/// the text is one lone sentinel.
pub open spec fn decode_spec(t: RangeTable, text: Seq<char>) -> Result<Seq<u8>, (int, char)> {
    if text.len() == 0 {
        Ok(Seq::empty())
    } else {
        let pad = strip_count(t, text);
        let body = stripped(t, text);
        let fi = first_invalid(t.ranges@, body);
        if fi >= 0 {
            Err((fi, body[fi]))
        } else {
            let syms = Seq::new(body.len(), |k: int| sym_of_cp(t.ranges@, body[k] as int) as u32);
            let raw = unpacked_bytes(syms);
            if raw.len() < pad {
                Err((0, text[0]))
            } else {
                Ok(raw.take(raw.len() - pad))
            }
        }
    }
}

/// Encodes bytes as text: every 17-bit group of the input becomes one code
/// point, and the sentinel owed to the byte count comes last. Never fails,
/// and empty input gives empty text.
#[verifier::loop_isolation(false)]
pub fn encode(table: &RangeTable, input: &[u8]) -> (r: String)
    requires
        table.complete(),
    ensures
        r@ == encode_spec(*table, input@),
{
    let ghost data = input@;
    let ghost n = input@.len() as int;
    let mut out = String::new();
    let mut it = B8ToB17Iter::new(input);
    proof {
        lemma_pack_len_bounds(n);
    }
    loop
        invariant
            it.wf(),
            it.data@ == data,
            0 <= it.emitted@ <= pack_len(n),
            out@ =~= Seq::new(
                it.emitted@ as nat,
                |j: int| cp_of_sym(table.ranges@, packed_sym(data, j) as int) as char,
            ),
        decreases pack_len(n) - it.emitted@,
    {
        let ghost e = it.emitted@;
        match it.next() {
            Some(b) => {
                proof {
                    lemma_packed_sym_bound(data, e);
                }
                let c = b.encode(table);
                push_char(&mut out, c);
                proof {
                    assert((cp_of_sym(table.ranges@, packed_sym(data, e) as int) as char) == c);
                    assert(out@ =~= Seq::new(
                        (e + 1) as nat,
                        |j: int| cp_of_sym(table.ranges@, packed_sym(data, j) as int) as char,
                    ));
                }
            },
            None => {
                break ;
            },
        }
    }
    match calc_padding(input.len()) {
        None => {},
        Some(Padding::Pad1) => push_char(&mut out, table.pad1),
        Some(Padding::Pad2) => push_char(&mut out, table.pad2),
    }
    out
}

/// Decodes text back to bytes. Stops at the first character outside the
/// table and reports its position in the original text; a text of one
/// lone sentinel is malformed and reported at position `0`.
#[verifier::loop_isolation(false)]
pub fn decode(table: &RangeTable, input: &str) -> (r: Result<Vec<u8>, InvalidChar>)
    requires
        table.complete(),
    ensures
        ({
            let d = decode_spec(*table, input@);
            &&& (r matches Ok(v) ==> d == Ok::<Seq<u8>, (int, char)>(v@))
            &&& (r matches Err(e) ==> d matches Err(pc) && pc.0 == e.0 as int && pc.1 == e.1)
        }),
{
    let ghost text = input@;
    let ghost rs = table.ranges@;
    let len = input.unicode_len();
    if len == 0 {
        return Ok(Vec::new());
    }
    let last = input.get_char(len - 1);
    let padding: usize = if last == table.pad1 {
        1
    } else if last == table.pad2 {
        2
    } else {
        0
    };
    let body_len = if padding > 0 {
        len - 1
    } else {
        len
    };
    let ghost body = if padding > 0 {
        text.drop_last()
    } else {
        text
    };
    assert(padding as int == strip_count(*table, text));
    assert(body =~= text.take(body_len as int));
    let mut syms: Vec<B17> = Vec::new();
    let mut idx: usize = 0;
    while idx < body_len
        invariant
            0 <= idx <= body_len,
            syms@.len() == idx,
            forall|k: int| 0 <= k < idx ==> cp_valid(rs, #[trigger] body[k] as int),
            forall|k: int|
                0 <= k < idx ==> (#[trigger] syms@[k]).0 as int == sym_of_cp(rs, body[k] as int),
        decreases body_len - idx,
    {
        let ch = input.get_char(idx);
        assert(ch == body[idx as int]);
        match B17::decode(ch, table) {
            Some(b) => {
                syms.push(b);
            },
            None => {
                proof {
                    lemma_first_invalid_at(rs, body, idx as int);
                }
                return Err(InvalidChar(idx, ch));
            },
        }
        idx = idx + 1;
    }
    proof {
        lemma_first_invalid_none(rs, body);
    }
    let ghost sv = sym_values(syms@);
    proof {
        assert(sv =~= Seq::new(body.len(), |k: int| sym_of_cp(rs, body[k] as int) as u32));
    }
    let mut bytes: Vec<u8> = Vec::new();
    let mut it = B17ToB8Iter::new(syms.as_slice());
    proof {
        lemma_unpack_len_bounds(sv.len() as int);
    }
    loop
        invariant
            it.wf(),
            it.data@ == syms@,
            0 <= it.emitted@ <= unpacked_bytes(sv).len(),
            bytes@ =~= unpacked_bytes(sv).take(it.emitted@),
        decreases unpacked_bytes(sv).len() - it.emitted@,
    {
        match it.next() {
            Some(x) => {
                bytes.push(x);
                proof {
                    assert(bytes@ =~= unpacked_bytes(sv).take(it.emitted@));
                }
            },
            None => {
                break ;
            },
        }
    }
    proof {
        assert(bytes@ =~= unpacked_bytes(sv));
    }
    if bytes.len() < padding {
        // only a lone sentinel reaches this: no symbol, yet bytes owed
        proof {
            if sv.len() > 0 {
                assert(8 * unpacked_bytes(sv).len() >= 17);
                assert(false);
            }
            assert(body.len() == 0);
            assert(text.len() == 1);
        }
        return Err(InvalidChar(0, last));
    }
    let new_len = bytes.len() - padding;
    bytes.truncate(new_len);
    Ok(bytes)
}

/// A character outside the table is reported: when position `i` of the
/// text, sentinel stripped, holds the first such character, decoding
/// fails with exactly that position and that character.
pub proof fn lemma_invalid_char_reported(t: RangeTable, text: Seq<char>, i: int)
    requires
        t.wf(),
        text.len() > 0,
        0 <= i < stripped(t, text).len(),
        !cp_valid(t.ranges@, stripped(t, text)[i] as int),
        forall|j: int| 0 <= j < i ==> cp_valid(t.ranges@, #[trigger] stripped(t, text)[j] as int),
    ensures
        decode_spec(t, text) == Err::<Seq<u8>, (int, char)>((i, text[i])),
{
    let body = stripped(t, text);
    assert forall|j: int| 0 <= j < i implies cp_valid(t.ranges@, #[trigger] body[j] as int) by {
        assert(cp_valid(t.ranges@, stripped(t, text)[j] as int));
    }
    lemma_first_invalid_at(t.ranges@, body, i);
    assert(body[i] == text[i]);
}

/// Round trip: decoding an encoded text yields the bytes that were
/// encoded, for every complete table and every byte sequence.
pub proof fn lemma_round_trip(t: RangeTable, data: Seq<u8>)
    requires
        t.complete(),
    ensures
        decode_spec(t, encode_spec(t, data)) == Ok::<Seq<u8>, (int, char)>(data),
{
    let n = data.len() as int;
    let rs = t.ranges@;
    let m = pack_len(n);
    lemma_pack_len_bounds(n);
    let body = Seq::new(m as nat, |j: int| cp_of_sym(rs, packed_sym(data, j) as int) as char);
    let text = encode_spec(t, data);
    lemma_pad_drop(n);
    // every body character is a valid scalar code point of the table
    assert forall|j: int| 0 <= j < m implies cp_valid(rs, #[trigger] body[j] as int) && sym_of_cp(
        rs,
        body[j] as int,
    ) == packed_sym(data, j) as int by {
        lemma_packed_sym_bound(data, j);
        lemma_cp_of_sym(rs, packed_sym(data, j) as int);
        let cp = cp_of_sym(rs, packed_sym(data, j) as int);
        assert(crate::chars::is_scalar(cp)) by {
            let i = choose|i: int| 0 <= i < rs.len() && covers_cp(#[trigger] rs[i], cp);
            assert(covers_cp(rs[i], cp));
        }
        assert(body[j] as int == cp);
    }
    if n == 0 {
        assert(m == 0);
        assert(pad_spec(0) is None);
        assert(text =~= Seq::<char>::empty());
        assert(data =~= Seq::<u8>::empty());
    } else {
        assert(m >= 1);
        // the last character of the text decides the strip count, and it
        // agrees with the sentinel the byte count owes
        let pad = pad_drop(n);
        match pad_spec(n) {
            None => {
                assert(text == body);
                assert(text.last() == body[m - 1]);
                assert(cp_valid(rs, text.last() as int));
                assert(text.last() != t.pad1);
                assert(text.last() != t.pad2);
                assert(strip_count(t, text) == 0);
            },
            Some(Padding::Pad1) => {
                assert(text == body.push(t.pad1));
                assert(text.last() == t.pad1);
                assert(strip_count(t, text) == 1);
                assert(text.drop_last() =~= body);
            },
            Some(Padding::Pad2) => {
                assert(text == body.push(t.pad2));
                assert(text.last() == t.pad2);
                assert(text.last() != t.pad1);
                assert(strip_count(t, text) == 2);
                assert(text.drop_last() =~= body);
            },
        }
        assert(strip_count(t, text) == pad);
        let dbody = if pad > 0 {
            text.drop_last()
        } else {
            text
        };
        assert(dbody =~= body);
        lemma_first_invalid_none(rs, body);
        let syms = Seq::new(body.len(), |k: int| sym_of_cp(rs, body[k] as int) as u32);
        assert(syms =~= packed_syms(data));
        lemma_unpack_packed(data);
        let raw = unpacked_bytes(packed_syms(data));
        assert(raw.len() == n + pad);
        assert(raw.take(raw.len() - pad) =~= data);
    }
}

/// Re-encoding what an encoded text decodes to yields the same text.
pub proof fn lemma_reencode_identity(t: RangeTable, data: Seq<u8>)
    requires
        t.complete(),
    ensures
        decode_spec(t, encode_spec(t, data)) matches Ok(b) && encode_spec(t, b) == encode_spec(
            t,
            data,
        ),
{
    lemma_round_trip(t, data);
}

} // verus!
