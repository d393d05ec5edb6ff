//! Bit-level model shared by the packer and the unpacker.
//!
//! A word is viewed as its bit sequence, most significant bit first, and a
//! bit sequence folds back into the value it spells. The two directions are
//! proved inverse to each other here; everything the codec states about
//! re-slicing an 8-bit stream into 17-bit groups rests on these lemmas.

use vstd::prelude::*;

verus! {

use vstd::arithmetic::power2::pow2;
use vstd::arithmetic::power2::lemma_pow2_unfold;
use vstd::arithmetic::power2::lemma_pow2_pos;
use vstd::arithmetic::power2::lemma2_to64;
use vstd::arithmetic::div_mod::lemma_div_denominator;
use vstd::arithmetic::div_mod::lemma_fundamental_div_mod;
use vstd::arithmetic::div_mod::lemma_fundamental_div_mod_converse;

/// Bit `p` of the value `v`, counted from the least significant end.
pub open spec fn nth_bit(v: nat, p: nat) -> bool {
    v / pow2(p) % 2 == 1
}

/// The value a bit string spells when read most-significant-bit first.
pub open spec fn val_of_bits(bits: Seq<bool>) -> nat
    decreases bits.len(),
{
    if bits.len() == 0 {
        0
    } else {
        2 * val_of_bits(bits.drop_last()) + (if bits.last() {
            1nat
        } else {
            0nat
        })
    }
}

/// A string of `n` bits spells a value below `2^n`.
pub proof fn lemma_val_of_bits_bound(bits: Seq<bool>)
    ensures
        val_of_bits(bits) < pow2(bits.len()),
    decreases bits.len(),
{
    if bits.len() == 0 {
        lemma2_to64();
    } else {
        lemma_val_of_bits_bound(bits.drop_last());
        lemma_pow2_unfold(bits.len());
    }
}

/// Reading bit `k` (from the most significant end) out of the folded value
/// gives back the `k`-th element of the bit string.
pub proof fn lemma_val_of_bits_nth(bits: Seq<bool>, k: int)
    requires
        0 <= k < bits.len(),
    ensures
        nth_bit(val_of_bits(bits), (bits.len() - 1 - k) as nat) == bits[k],
    decreases bits.len(),
{
    let v = val_of_bits(bits);
    let a = val_of_bits(bits.drop_last());
    let b: nat = if bits.last() {
        1
    } else {
        0
    };
    assert(v == 2 * a + b);
    lemma2_to64();
    if k == bits.len() - 1 {
        lemma_fundamental_div_mod_converse(v as int, 2, a as int, b as int);
        assert(v / pow2(0) == v);
        assert(v % 2 == b);
    } else {
        let p = (bits.len() - 1 - k) as nat;
        lemma_fundamental_div_mod_converse(v as int, 2, a as int, b as int);
        lemma_pow2_unfold(p);
        lemma_pow2_pos((p - 1) as nat);
        lemma_div_denominator(v as int, 2, pow2((p - 1) as nat) as int);
        assert(v / pow2(p) == (v / 2) / pow2((p - 1) as nat));
        lemma_val_of_bits_nth(bits.drop_last(), k);
    }
}

/// Folding the `w`-bit spelling of a value below `2^w` gives the value back.
pub proof fn lemma_bits_of_val(v: nat, w: nat)
    requires
        v < pow2(w),
    ensures
        val_of_bits(Seq::new(w, |k: int| nth_bit(v, (w - 1 - k) as nat))) == v,
    decreases w,
{
    lemma2_to64();
    let s = Seq::new(w, |k: int| nth_bit(v, (w - 1 - k) as nat));
    if w == 0 {
        assert(v == 0);
    } else {
        lemma_pow2_unfold(w);
        let h = v / 2;
        assert(h < pow2((w - 1) as nat));
        let t = Seq::new((w - 1) as nat, |k: int| nth_bit(h, (w - 2 - k) as nat));
        assert forall|k: int| 0 <= k < w - 1 implies s.drop_last()[k] == t[k] by {
            let p = (w - 1 - k) as nat;
            lemma_pow2_unfold(p);
            lemma_pow2_pos((p - 1) as nat);
            lemma_div_denominator(v as int, 2, pow2((p - 1) as nat) as int);
            assert(v / pow2(p) == h / pow2((p - 1) as nat));
        }
        assert(s.drop_last() =~= t);
        lemma_bits_of_val(h, (w - 1) as nat);
        assert(s.last() == nth_bit(v, 0));
        assert(v / pow2(0) == v);
        lemma_fundamental_div_mod(v as int, 2);
        assert(val_of_bits(s) == 2 * h + v % 2);
    }
}

} // verus!
