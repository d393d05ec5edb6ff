//! The padding rule.
//!
//! Packing `n` bytes into 17-bit symbols and realigning the symbols back to
//! bytes yields `n`, `n + 1` or `n + 2` bytes. The sentinel chosen from the
//! original byte count tells the decoder how many trailing bytes to drop,
//! and `lemma_pad_drop` proves the choice right for every `n`.

use vstd::prelude::*;

verus! {

use vstd::arithmetic::div_mod::lemma_fundamental_div_mod;
use vstd::arithmetic::div_mod::lemma_fundamental_div_mod_converse;
use vstd::arithmetic::div_mod::lemma_mul_mod_noop_left;
use crate::pack::pack_len;
use crate::pack::unpack_len;

/// Which padding sentinel an encoded text carries.
#[derive(Debug, Clone, Copy, PartialEq, Eq, Structural)]
pub enum Padding {
    /// Discard one trailing byte after unpacking.
    Pad1,
    /// Discard two trailing bytes after unpacking.
    Pad2,
}

/// The sentinel owed to an input of `n` bytes: none when the 8·n bits fill
/// 17-bit groups exactly, otherwise `(16 - (8·n mod 17)) / 8` picks it.
pub open spec fn pad_spec(n: int) -> Option<Padding> {
    let r = (8 * n) % 17;
    if r == 0 {
        None
    } else if (16 - r) / 8 == 0 {
        Some(Padding::Pad1)
    } else {
        Some(Padding::Pad2)
    }
}

/// How many trailing bytes the sentinel of `pad_spec(n)` discards.
pub open spec fn pad_drop(n: int) -> int {
    match pad_spec(n) {
        None => 0,
        Some(Padding::Pad1) => 1,
        Some(Padding::Pad2) => 2,
    }
}

/// Computes the sentinel owed to an input of `byte_size` bytes.
pub fn calc_padding(byte_size: usize) -> (r: Option<Padding>)
    ensures
        r == pad_spec(byte_size as int),
{
    let ghost n = byte_size as int;
    let rem: usize = byte_size % 17 * 8 % 17;
    proof {
        lemma_mul_mod_noop_left(n, 8, 17);
    }
    assert(rem == (8 * n) % 17);
    if rem == 0 {
        None
    } else if (16 - rem) / 8 == 0 {
        Some(Padding::Pad1)
    } else {
        Some(Padding::Pad2)
    }
}

/// Realigning the packed stream of `n` bytes yields exactly `pad_drop(n)`
/// surplus bytes: the count the sentinel tells the decoder to drop.
pub proof fn lemma_pad_drop(n: int)
    requires
        n >= 0,
    ensures
        unpack_len(pack_len(n)) == n + pad_drop(n),
{
    let r = (8 * n) % 17;
    let q = (8 * n) / 17;
    lemma_fundamental_div_mod(8 * n, 17);
    assert(8 * n == 17 * q + r);
    if r == 0 {
        // pack_len(n) == q and 17·q bits are 8·n bits: they realign evenly
        assert(pack_len(n) == (17 * q + 16) / 17);
        lemma_fundamental_div_mod_converse(17 * q + 16, 17, q, 16);
        assert(pack_len(n) == q);
        assert(unpack_len(q) == (17 * q + 7) / 8);
        assert(17 * q + 7 == 8 * n + 7);
        lemma_fundamental_div_mod_converse(8 * n + 7, 8, n, 7);
        assert(unpack_len(q) == n);
    } else {
        // pack_len(n) == q + 1, and the extra group adds 17 - r fill bits
        assert(pack_len(n) == (17 * q + r + 16) / 17);
        lemma_fundamental_div_mod_converse(17 * (q + 1) + (r - 1), 17, q + 1, r - 1);
        assert(17 * q + r + 16 == 17 * (q + 1) + (r - 1)) by (nonlinear_arith);
        assert(pack_len(n) == q + 1);
        assert(unpack_len(q + 1) == (17 * q + 17 + 7) / 8);
        assert(17 * q + 24 == 8 * n + (24 - r));
        if r >= 9 {
            // one surplus byte
            assert(8 * n + (24 - r) == 8 * (n + 1) + (16 - r)) by (nonlinear_arith);
            lemma_fundamental_div_mod_converse(8 * (n + 1) + (16 - r), 8, n + 1, 16 - r);
            assert(unpack_len(q + 1) == n + 1);
            assert(pad_drop(n) == 1);
        } else {
            // two surplus bytes
            assert(8 * n + (24 - r) == 8 * (n + 2) + (8 - r)) by (nonlinear_arith);
            lemma_fundamental_div_mod_converse(8 * (n + 2) + (8 - r), 8, n + 2, 8 - r);
            assert(unpack_len(q + 1) == n + 2);
            assert(pad_drop(n) == 2);
        }
    }
}

} // verus!
