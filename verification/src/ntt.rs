//! Twiddle factors of the radix-2 NTT kernels.

use vstd::prelude::*;
use crate::field::{
    elem_mul, elem_one, elem_pow_spec, mont_encode, rou_fwd_values, rou_fwd_word, rou_rev_values,
    rou_rev_word, BABY_BEAR_P, elem_const_word, elem_inv,
};

verus! {

/// Largest power of two with a BabyBear root of unity.
pub const BABY_BEAR_MAX_ROU_PO2: usize = 27;

/// Why a twiddle table could not be built.
#[derive(Clone, Copy, Debug, PartialEq, Eq, Structural)]
pub enum NttTwiddleError {
    /// No root of unity of order `2^n_bits` in the table.
    Po2TooLarge(usize),
}

/// `2^n`.
pub open spec fn two_pow(n: nat) -> nat
    decreases n,
{
    if n == 0 {
        1
    } else {
        2 * two_pow((n - 1) as nat)
    }
}

/// The root of unity of order `2^s` used at butterfly level `s`, as a word.
pub open spec fn level_root(inverse: bool, s: int) -> u32 {
    mont_encode(if inverse { rou_rev_values()[s] } else { rou_fwd_values()[s] })
}

proof fn lemma_elem_pow_reduced(x: u32, n: nat)
    ensures
        elem_pow_spec(x, n) < BABY_BEAR_P,
    decreases n,
{
    if n > 0 {
        lemma_elem_pow_reduced(x, (n - 1) as nat);
    }
}

/// The twiddles of an NTT of size `2^n_bits`: for each level `s` from 1 to
/// `n_bits`, the first `2^(s-1)` powers of that level's root, levels one
/// after the other (level `s` starts at index `2^(s-1) - 1`).
pub fn ntt_twiddles(inverse: bool, n_bits: usize) -> (res: Result<Vec<u32>, NttTwiddleError>)
    ensures
        n_bits >= BABY_BEAR_MAX_ROU_PO2 ==> res == Err::<Vec<u32>, NttTwiddleError>(
            NttTwiddleError::Po2TooLarge(n_bits),
        ),
        n_bits < BABY_BEAR_MAX_ROU_PO2 ==> res is Ok && res->Ok_0@.len() == two_pow(n_bits as nat) - 1
            && forall|s: int, k: int|
            1 <= s <= n_bits && 0 <= k < two_pow((s - 1) as nat) ==> #[trigger] res->Ok_0@[two_pow(
                (s - 1) as nat,
            ) - 1 + k] == elem_pow_spec(level_root(inverse, s), k as nat),
{
    if n_bits >= BABY_BEAR_MAX_ROU_PO2 {
        return Err(NttTwiddleError::Po2TooLarge(n_bits));
    }
    let mut twiddles: Vec<u32> = Vec::new();
    let mut s_bits: usize = 1;
    let mut s_size: usize = 1;
    while s_bits <= n_bits
        invariant
            n_bits < BABY_BEAR_MAX_ROU_PO2,
            1 <= s_bits <= n_bits + 1,
            s_size == two_pow((s_bits - 1) as nat),
            s_size <= 67108864,
            twiddles@.len() == s_size - 1,
            forall|s: int, k: int|
                1 <= s < s_bits && 0 <= k < two_pow((s - 1) as nat) ==> #[trigger] twiddles@[two_pow(
                    (s - 1) as nat,
                ) - 1 + k] == elem_pow_spec(level_root(inverse, s), k as nat),
        decreases n_bits + 1 - s_bits,
    {
        let step = if inverse {
            rou_rev_word(s_bits)
        } else {
            rou_fwd_word(s_bits)
        };
        assert(step == level_root(inverse, s_bits as int));
        let ghost base = twiddles@;
        let mut cur = elem_one();
        let mut k: usize = 0;
        while k < s_size
            invariant
                s_size == two_pow((s_bits - 1) as nat),
                base.len() == s_size - 1,
                step == level_root(inverse, s_bits as int),
                step < BABY_BEAR_P,
                k <= s_size,
                twiddles@.len() == base.len() + k,
                forall|j: int| 0 <= j < base.len() ==> #[trigger] twiddles@[j] == base[j],
                forall|j: int| 0 <= j < k ==> #[trigger] twiddles@[base.len() + j] == elem_pow_spec(step, j as nat),
                cur == elem_pow_spec(step, k as nat),
            decreases s_size - k,
        {
            twiddles.push(cur);
            proof {
                lemma_elem_pow_reduced(step, k as nat);
                assert(twiddles@[base.len() + k] == cur);
            }
            cur = elem_mul(cur, step);
            k = k + 1;
        }
        proof {
            assert forall|s: int, k: int|
                1 <= s < s_bits + 1 && 0 <= k < two_pow((s - 1) as nat) implies #[trigger] twiddles@[two_pow(
                (s - 1) as nat,
            ) - 1 + k] == elem_pow_spec(level_root(inverse, s), k as nat) by {
                if s < s_bits {
                    lemma_two_pow_mono((s - 1) as nat, (s_bits - 1) as nat);
                    assert(twiddles@[two_pow((s - 1) as nat) - 1 + k] == base[two_pow((s - 1) as nat) - 1 + k]);
                } else {
                    assert(twiddles@[base.len() + k] == elem_pow_spec(step, k as nat));
                }
            }
            assert(two_pow(s_bits as nat) == 2 * s_size);
            if (s_bits as nat) < 26 {
                lemma_two_pow_mono(s_bits as nat, 26);
            }
            assert(two_pow(26) == 67108864) by {
                reveal_with_fuel(two_pow, 27);
            }
        }
        s_bits = s_bits + 1;
        s_size = s_size * 2;
    }
    Ok(twiddles)
}

proof fn lemma_two_pow_mono(a: nat, b: nat)
    requires
        a < b,
    ensures
        two_pow(a) < two_pow(b),
        two_pow(a) * 2 <= two_pow(b),
    decreases b,
{
    lemma_two_pow_pos(a);
    if a + 1 < b {
        lemma_two_pow_mono(a, (b - 1) as nat);
    }
}

proof fn lemma_two_pow_pos(a: nat)
    ensures
        two_pow(a) >= 1,
    decreases a,
{
    if a > 0 {
        lemma_two_pow_pos((a - 1) as nat);
    }
}

/// The factor by which the inverse NTT scales each of its outputs: the
/// Montgomery word of `1 / row_size` (by Fermat, `row_size^(P-2)`).
pub fn ntt_inverse_norm(row_size: u32) -> (w: u32)
    ensures
        w == elem_pow_spec(mont_encode(row_size as int), (BABY_BEAR_P - 2) as nat),
{
    let x = elem_const_word(row_size);
    elem_inv(x)
}

} // verus!
