//! The bit packer and unpacker.
//!
//! A byte sequence is read as one continuous bit string, most significant
//! bit first, and sliced into consecutive 17-bit groups; the last group is
//! filled up with zero bits. The unpacker slices a 17-bit symbol stream the
//! same way into 8-bit groups. Both walk a bit cursor across the input and
//! are proved to produce exactly the groups of the model below.

use vstd::prelude::*;

verus! {

use vstd::arithmetic::power2::pow2;
use vstd::arithmetic::power2::lemma2_to64;
use vstd::arithmetic::div_mod::lemma_fundamental_div_mod;
use vstd::arithmetic::div_mod::lemma_fundamental_div_mod_converse;
use vstd::bits::lemma_u8_shr_is_div;
use vstd::bits::lemma_u32_shr_is_div;
use crate::bits::nth_bit;
use crate::bits::val_of_bits;
use crate::bits::lemma_val_of_bits_bound;
use crate::bits::lemma_val_of_bits_nth;
use crate::bits::lemma_bits_of_val;

/// One 17-bit symbol, the unit of packed payload.
#[derive(Debug, Clone, Copy, PartialEq, Eq, Structural)]
pub struct B17(pub u32);

/// The symbol values of a symbol sequence.
pub open spec fn sym_values(s: Seq<B17>) -> Seq<u32> {
    s.map_values(|b: B17| b.0)
}

/// Bit `i` of the bit string that a byte sequence spells; bits past the end
/// read as zero.
pub open spec fn byte_stream_bit(data: Seq<u8>, i: int) -> bool {
    0 <= i && i < 8 * data.len() && nth_bit(data[i / 8] as nat, (7 - i % 8) as nat)
}

/// Bit `i` of the bit string that a 17-bit symbol sequence spells; bits past
/// the end read as zero. Only the low 17 bits of each word take part.
pub open spec fn sym_stream_bit(syms: Seq<u32>, i: int) -> bool {
    0 <= i && i < 17 * syms.len() && nth_bit(syms[i / 17] as nat, (16 - i % 17) as nat)
}

/// How many 17-bit symbols `n` bytes pack into: the 8·n bits, divided into
/// groups of 17, rounding up.
pub open spec fn pack_len(n: int) -> int {
    (8 * n + 16) / 17
}

/// How many bytes `m` symbols unpack into: the 17·m bits, divided into
/// groups of 8, rounding up.
pub open spec fn unpack_len(m: int) -> int {
    (17 * m + 7) / 8
}

/// The 17 stream bits that make up symbol `j`.
pub open spec fn sym_window(data: Seq<u8>, j: int) -> Seq<bool> {
    Seq::new(17, |k: int| byte_stream_bit(data, 17 * j + k))
}

/// The value of symbol `j` of the packed stream.
pub open spec fn packed_sym(data: Seq<u8>, j: int) -> u32 {
    val_of_bits(sym_window(data, j)) as u32
}

/// The whole packed symbol stream of a byte sequence.
pub open spec fn packed_syms(data: Seq<u8>) -> Seq<u32> {
    Seq::new(pack_len(data.len() as int) as nat, |j: int| packed_sym(data, j))
}

/// The 8 stream bits that make up byte `i` of the unpacked stream.
pub open spec fn byte_window(syms: Seq<u32>, i: int) -> Seq<bool> {
    Seq::new(8, |k: int| sym_stream_bit(syms, 8 * i + k))
}

/// The value of byte `i` of the unpacked stream.
pub open spec fn unpacked_byte(syms: Seq<u32>, i: int) -> u8 {
    val_of_bits(byte_window(syms, i)) as u8
}

/// The whole unpacked byte sequence of a symbol stream.
pub open spec fn unpacked_bytes(syms: Seq<u32>) -> Seq<u8> {
    Seq::new(unpack_len(syms.len() as int) as nat, |i: int| unpacked_byte(syms, i))
}

/// `8·n` bits need `pack_len(n)` groups of 17: the groups cover all bits and
/// waste less than one group.
pub proof fn lemma_pack_len_bounds(n: int)
    requires
        n >= 0,
    ensures
        17 * pack_len(n) >= 8 * n,
        17 * pack_len(n) < 8 * n + 17,
        pack_len(n) >= 0,
{
    lemma_fundamental_div_mod(8 * n + 16, 17);
}

/// `17·m` bits need `unpack_len(m)` groups of 8, likewise.
pub proof fn lemma_unpack_len_bounds(m: int)
    requires
        m >= 0,
    ensures
        8 * unpack_len(m) >= 17 * m,
        8 * unpack_len(m) < 17 * m + 8,
        unpack_len(m) >= 0,
{
    lemma_fundamental_div_mod(17 * m + 7, 8);
}

/// Every packed symbol is a 17-bit value.
pub proof fn lemma_packed_sym_bound(data: Seq<u8>, j: int)
    ensures
        packed_sym(data, j) < 0x20000,
        packed_sym(data, j) as nat == val_of_bits(sym_window(data, j)),
{
    lemma_val_of_bits_bound(sym_window(data, j));
    lemma2_to64();
}

/// A cursor over a byte stream: position `p` corresponds to byte `idx`,
/// bit `off` within it, and parks at `(n, 0)` once the input is exhausted.
pub open spec fn byte_cursor_at(n: int, p: int, idx: int, off: int) -> bool {
    if p < 8 * n {
        idx == p / 8 && off == p % 8
    } else {
        idx == n && off == 0
    }
}

/// The same for a cursor over a 17-bit symbol stream.
pub open spec fn sym_cursor_at(m: int, p: int, idx: int, off: int) -> bool {
    if p < 17 * m {
        idx == p / 17 && off == p % 17
    } else {
        idx == m && off == 0
    }
}

/// Walks a byte slice and yields its 17-bit symbols in order.
pub struct B8ToB17Iter<'a> {
    pub data: &'a [u8],
    pub index: usize,
    pub bit_offset: usize,
    pub emitted: Ghost<int>,
}

impl<'a> B8ToB17Iter<'a> {
    pub open spec fn wf(&self) -> bool {
        let n = self.data@.len() as int;
        &&& 0 <= self.emitted@ <= pack_len(n)
        &&& byte_cursor_at(n, 17 * self.emitted@, self.index as int, self.bit_offset as int)
    }

    pub fn new(data: &'a [u8]) -> (r: Self)
        ensures
            r.wf(),
            r.data@ == data@,
            r.emitted@ == 0,
    {
        B8ToB17Iter { data, index: 0, bit_offset: 0, emitted: Ghost(0) }
    }

    /// Yields the next symbol of `packed_syms` until all are out.
    pub fn next(&mut self) -> (r: Option<B17>)
        requires
            old(self).wf(),
        ensures
            final(self).wf(),
            final(self).data@ == old(self).data@,
            ({
                let n = old(self).data@.len() as int;
                let e = old(self).emitted@;
                if e < pack_len(n) {
                    r == Some(B17(packed_sym(old(self).data@, e))) && final(self).emitted@ == e
                        + 1
                } else {
                    r is None && final(self).emitted@ == e
                }
            }),
    {
        let ghost dv = self.data@;
        let ghost n = self.data@.len() as int;
        let ghost e = self.emitted@;
        proof {
            lemma_pack_len_bounds(n);
        }
        if self.index >= self.data.len() {
            proof {
                // the cursor is parked, so 17·e >= 8·n and e == pack_len(n)
                assert(e == pack_len(n));
            }
            return None;
        }
        assert(17 * e < 8 * n);
        assert(e < pack_len(n));
        let mut res: u32 = 0;
        let mut k: usize = 0;
        let mut idx: usize = self.index;
        let mut off: usize = self.bit_offset;
        while k < 17
            invariant
                0 <= k <= 17,
                n == dv.len() as int,
                self.data@ == dv,
                byte_cursor_at(n, 17 * e + k as int, idx as int, off as int),
                idx <= n,
                off < 8,
                res as nat == val_of_bits(sym_window(dv, e).take(k as int)),
            decreases 17 - k,
        {
            let ghost p = 17 * e + k as int;
            let bit: u8 = if idx < self.data.len() {
                let sh: u8 = (7 - off) as u8;
                let b: u8 = self.data[idx];
                proof {
                    lemma_u8_shr_is_div(b, sh);
                    assert(((b >> sh) & 1) == (b >> sh) % 2) by (bit_vector);
                }
                (b >> sh) & 1
            } else {
                0
            };
            proof {
                if idx < n {
                    assert(idx == p / 8 && off == p % 8);
                    assert((bit == 1) == nth_bit(dv[p / 8] as nat, (7 - p % 8) as nat));
                    assert((bit == 1) == byte_stream_bit(dv, p));
                } else {
                    assert(p >= 8 * n);
                    assert(!byte_stream_bit(dv, p));
                }
                assert(bit == 0 || bit == 1);
                let w = sym_window(dv, e);
                assert(w.take(k as int + 1).drop_last() =~= w.take(k as int));
                assert(w.take(k as int + 1).last() == byte_stream_bit(dv, p));
                lemma_val_of_bits_bound(w.take(k as int));
                lemma2_to64();
                assert(val_of_bits(w.take(k as int + 1)) == 2 * val_of_bits(w.take(k as int))
                    + (if byte_stream_bit(dv, p) {
                    1nat
                } else {
                    0nat
                }));
            }
            res = 2 * res + bit as u32;
            if idx < self.data.len() {
                proof {
                    if off == 7 {
                        lemma_fundamental_div_mod_converse(p + 1, 8, idx as int + 1, 0);
                    } else {
                        lemma_fundamental_div_mod_converse(p + 1, 8, idx as int, off as int + 1);
                    }
                }
                if off == 7 {
                    off = 0;
                    idx = idx + 1;
                } else {
                    off = off + 1;
                }
            }
            k = k + 1;
        }
        proof {
            let w = sym_window(dv, e);
            assert(w.take(17) =~= w);
            lemma_packed_sym_bound(dv, e);
            assert(res == packed_sym(dv, e));
        }
        self.index = idx;
        self.bit_offset = off;
        self.emitted = Ghost(e + 1);
        Some(B17(res))
    }
}

/// Walks a symbol slice and yields the bytes of the realigned bit string in
/// order, trailing zero fill included.
pub struct B17ToB8Iter<'a> {
    pub data: &'a [B17],
    pub index: usize,
    pub bit_offset: usize,
    pub emitted: Ghost<int>,
}

impl<'a> B17ToB8Iter<'a> {
    pub open spec fn syms(&self) -> Seq<u32> {
        sym_values(self.data@)
    }

    pub open spec fn wf(&self) -> bool {
        let m = self.data@.len() as int;
        &&& 0 <= self.emitted@ <= unpack_len(m)
        &&& sym_cursor_at(m, 8 * self.emitted@, self.index as int, self.bit_offset as int)
    }

    pub fn new(data: &'a [B17]) -> (r: Self)
        ensures
            r.wf(),
            r.data@ == data@,
            r.emitted@ == 0,
    {
        B17ToB8Iter { data, index: 0, bit_offset: 0, emitted: Ghost(0) }
    }

    /// Yields the next byte of `unpacked_bytes` until all are out.
    pub fn next(&mut self) -> (r: Option<u8>)
        requires
            old(self).wf(),
        ensures
            final(self).wf(),
            final(self).data@ == old(self).data@,
            ({
                let m = old(self).data@.len() as int;
                let e = old(self).emitted@;
                if e < unpack_len(m) {
                    r == Some(unpacked_byte(old(self).syms(), e)) && final(self).emitted@ == e + 1
                } else {
                    r is None && final(self).emitted@ == e
                }
            }),
    {
        let ghost sv = self.syms();
        let ghost m = self.data@.len() as int;
        let ghost e = self.emitted@;
        proof {
            lemma_unpack_len_bounds(m);
        }
        if self.index >= self.data.len() {
            proof {
                assert(e == unpack_len(m));
            }
            return None;
        }
        assert(8 * e < 17 * m);
        assert(e < unpack_len(m));
        let mut res: u8 = 0;
        let mut k: usize = 0;
        let mut idx: usize = self.index;
        let mut off: usize = self.bit_offset;
        while k < 8
            invariant
                0 <= k <= 8,
                m == self.data@.len() as int,
                sv == sym_values(self.data@),
                sym_cursor_at(m, 8 * e + k as int, idx as int, off as int),
                idx <= m,
                off < 17,
                res as nat == val_of_bits(byte_window(sv, e).take(k as int)),
            decreases 8 - k,
        {
            let ghost p = 8 * e + k as int;
            let bit: u8 = if idx < self.data.len() {
                let sh: u32 = (16 - off) as u32;
                let v: u32 = self.data[idx].0;
                proof {
                    lemma_u32_shr_is_div(v, sh);
                    assert(((v >> sh) & 1) == (v >> sh) % 2) by (bit_vector);
                    assert(((v >> sh) & 1) <= 1) by (bit_vector);
                }
                ((v >> sh) & 1) as u8
            } else {
                0
            };
            proof {
                if idx < m {
                    assert(idx == p / 17 && off == p % 17);
                    assert(sv[p / 17] == self.data@[p / 17].0);
                    assert((bit == 1) == nth_bit(sv[p / 17] as nat, (16 - p % 17) as nat));
                    assert((bit == 1) == sym_stream_bit(sv, p));
                } else {
                    assert(p >= 17 * m);
                    assert(!sym_stream_bit(sv, p));
                }
                assert(bit == 0 || bit == 1);
                let w = byte_window(sv, e);
                assert(w.take(k as int + 1).drop_last() =~= w.take(k as int));
                assert(w.take(k as int + 1).last() == sym_stream_bit(sv, p));
                lemma_val_of_bits_bound(w.take(k as int));
                lemma2_to64();
                assert(val_of_bits(w.take(k as int + 1)) == 2 * val_of_bits(w.take(k as int))
                    + (if sym_stream_bit(sv, p) {
                    1nat
                } else {
                    0nat
                }));
            }
            res = 2 * res + bit;
            if idx < self.data.len() {
                proof {
                    if off == 16 {
                        lemma_fundamental_div_mod_converse(p + 1, 17, idx as int + 1, 0);
                    } else {
                        lemma_fundamental_div_mod_converse(p + 1, 17, idx as int, off as int + 1);
                    }
                }
                if off == 16 {
                    off = 0;
                    idx = idx + 1;
                } else {
                    off = off + 1;
                }
            }
            k = k + 1;
        }
        proof {
            let w = byte_window(sv, e);
            assert(w.take(8) =~= w);
            lemma_val_of_bits_bound(w);
            lemma2_to64();
            assert(res == unpacked_byte(sv, e));
        }
        self.index = idx;
        self.bit_offset = off;
        self.emitted = Ghost(e + 1);
        Some(res)
    }
}

/// Bit `i` of the packed symbol stream is bit `i` of the source byte stream:
/// packing only re-slices the bit string.
pub proof fn lemma_packed_stream_bit(data: Seq<u8>, i: int)
    requires
        0 <= i < 17 * pack_len(data.len() as int),
    ensures
        sym_stream_bit(packed_syms(data), i) == byte_stream_bit(data, i),
{
    let syms = packed_syms(data);
    let q = i / 17;
    let r = i % 17;
    lemma_fundamental_div_mod(i, 17);
    lemma_pack_len_bounds(data.len() as int);
    assert(0 <= q < syms.len());
    assert(0 <= r < 17);
    lemma_packed_sym_bound(data, q);
    lemma_val_of_bits_nth(sym_window(data, q), r);
    assert(nth_bit(packed_sym(data, q) as nat, (16 - r) as nat) == sym_window(data, q)[r]);
    assert(sym_window(data, q)[r] == byte_stream_bit(data, 17 * q + r));
}

/// Unpacking the packed stream of `data` gives `data` back, followed only by
/// the zero fill of the final group.
pub proof fn lemma_unpack_packed(data: Seq<u8>)
    ensures
        unpacked_bytes(packed_syms(data)).len() == unpack_len(pack_len(data.len() as int)),
        unpacked_bytes(packed_syms(data)).take(data.len() as int) =~= data,
{
    let n = data.len() as int;
    let syms = packed_syms(data);
    let raw = unpacked_bytes(syms);
    lemma_pack_len_bounds(n);
    lemma_unpack_len_bounds(pack_len(n));
    assert(raw.len() == unpack_len(pack_len(n)));
    assert(8 * n <= 17 * pack_len(n));
    assert(n <= raw.len());
    assert forall|i: int| 0 <= i < n implies raw[i] == data[i] by {
        let w = byte_window(syms, i);
        assert forall|k: int| 0 <= k < 8 implies w[k] == nth_bit(
            data[i] as nat,
            (8 - 1 - k) as nat,
        ) by {
            let b = 8 * i + k;
            lemma_fundamental_div_mod_converse(b, 8, i, k);
            assert(b < 8 * n);
            lemma_packed_stream_bit(data, b);
            assert(w[k] == sym_stream_bit(syms, b));
            assert(byte_stream_bit(data, b) == nth_bit(data[b / 8] as nat, (7 - b % 8) as nat));
        }
        assert(w =~= Seq::new(8, |k: int| nth_bit(data[i] as nat, (8 - 1 - k) as nat)));
        lemma2_to64();
        lemma_bits_of_val(data[i] as nat, 8);
        assert(val_of_bits(w) == data[i] as nat);
    }
}

} // verus!
