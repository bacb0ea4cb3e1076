//! Powers of the mix challenge used by each mix var, and the extension
//! constants and zerofier inverses handed to the shaders.

use vstd::prelude::*;
use super::tape::{PolyExtStepDef, EvalCheckError};
use super::program::{eval_check_mix_exponents, mix_exponents_result, mix_exps_fit, seq_usize_as_int};
use crate::field::{
    ExtWords, ext_mul, ext_one, ext_pow_spec, ext_reduced, lemma_ext_pow_reduced, elem_const_word, elem_inv, elem_mul,
    elem_mul_spec, elem_one, elem_pow, elem_pow_spec, elem_sub, elem_sub_spec, mont_encode, mont_r, rou_fwd_values,
    rou_fwd_word, BABY_BEAR_P, ROU_TABLE_LEN,
};
use crate::text::{decimal, push_decimal};

verus! {

/// The largest entry of `s` (0 for an empty sequence).
pub open spec fn seq_max(s: Seq<int>) -> int
    decreases s.len(),
{
    if s.len() == 0 {
        0
    } else {
        let m = seq_max(s.drop_last());
        if s.last() > m {
            s.last()
        } else {
            m
        }
    }
}

proof fn lemma_seq_max_bounds(s: Seq<int>)
    requires
        forall|k: int| 0 <= k < s.len() ==> s[k] >= 0,
    ensures
        forall|k: int| 0 <= k < s.len() ==> s[k] <= seq_max(s),
        seq_max(s) >= 0,
    decreases s.len(),
{
    if s.len() > 0 {
        let d = s.drop_last();
        lemma_seq_max_bounds(d);
        assert forall|k: int| 0 <= k < s.len() implies s[k] <= seq_max(s) by {
            if k < s.len() - 1 {
                assert(s[k] == d[k]);
            }
        }
    }
}

/// The mix exponents of the tape, if they can be computed, have a largest
/// power that can be counted up to.
pub open spec fn mix_pows_fit(def_block: Seq<super::tape::PolyExtStep>, ret: usize) -> bool {
    mix_exponents_result(def_block, ret) is Ok ==> seq_max(mix_exponents_result(def_block, ret)->Ok_0)
        < usize::MAX
}

/// `poly_mix^0 .. poly_mix^n`.
fn powers_up_to(poly_mix: ExtWords, n: usize) -> (powers: Vec<ExtWords>)
    requires
        ext_reduced(poly_mix),
        n < usize::MAX,
    ensures
        powers@.len() == n + 1,
        forall|k: int| 0 <= k <= n ==> #[trigger] powers@[k] == ext_pow_spec(poly_mix, k as nat),
{
    let mut powers: Vec<ExtWords> = Vec::new();
    let mut cur = ext_one();
    let mut k: usize = 0;
    while k <= n
        invariant
            ext_reduced(poly_mix),
            n < usize::MAX,
            k <= n + 1,
            powers@.len() == k,
            cur == ext_pow_spec(poly_mix, k as nat),
            forall|j: int| 0 <= j < k ==> #[trigger] powers@[j] == ext_pow_spec(poly_mix, j as nat),
        decreases n + 1 - k,
    {
        powers.push(cur);
        proof {
            lemma_ext_pow_reduced(poly_mix, k as nat);
        }
        cur = ext_mul(cur, poly_mix);
        k = k + 1;
    }
    powers
}

/// Largest entry of `v` (0 when empty).
fn max_exponent(v: &Vec<usize>) -> (m: usize)
    ensures
        m == seq_max(seq_usize_as_int(v@)),
{
    let mut m: usize = 0;
    let mut i: usize = 0;
    assert(seq_usize_as_int(v@).take(0) =~= Seq::<int>::empty());
    while i < v.len()
        invariant
            i <= v@.len(),
            m == seq_max(seq_usize_as_int(v@).take(i as int)),
        decreases v@.len() - i,
    {
        assert(seq_usize_as_int(v@).take(i + 1).drop_last() =~= seq_usize_as_int(v@).take(i as int));
        if v[i] > m {
            m = v[i];
        }
        i = i + 1;
    }
    assert(seq_usize_as_int(v@).take(v@.len() as int) =~= seq_usize_as_int(v@));
    m
}

/// The power of `poly_mix` for each mix var of the tape.
pub fn eval_check_mix_pows(def: &PolyExtStepDef, poly_mix: ExtWords) -> (res: Result<
    Vec<ExtWords>,
    EvalCheckError,
>)
    requires
        mix_exps_fit(def.block@),
        mix_pows_fit(def.block@, def.ret),
        ext_reduced(poly_mix),
    ensures
        match (res, mix_exponents_result(def.block@, def.ret)) {
            (Ok(v), Ok(e)) => v@.len() == e.len() && forall|i: int|
                0 <= i < e.len() ==> #[trigger] v@[i] == ext_pow_spec(poly_mix, e[i] as nat),
            (Err(x), Err(y)) => x == y,
            _ => false,
        },
{
    let exponents = match eval_check_mix_exponents(def) {
        Ok(e) => e,
        Err(e) => return Err(e),
    };
    let ghost e = seq_usize_as_int(exponents@);
    let max_exp = max_exponent(&exponents);
    proof {
        lemma_seq_max_bounds(e);
    }
    let powers = powers_up_to(poly_mix, max_exp);
    let mut out: Vec<ExtWords> = Vec::new();
    let mut i: usize = 0;
    while i < exponents.len()
        invariant
            e == seq_usize_as_int(exponents@),
            forall|k: int| 0 <= k < e.len() ==> e[k] <= max_exp,
            powers@.len() == max_exp + 1,
            forall|k: int| 0 <= k <= max_exp ==> #[trigger] powers@[k] == ext_pow_spec(poly_mix, k as nat),
            i <= exponents@.len(),
            out@.len() == i,
            forall|k: int| 0 <= k < i ==> #[trigger] out@[k] == ext_pow_spec(poly_mix, e[k] as nat),
        decreases exponents@.len() - i,
    {
        assert(e[i as int] == exponents@[i as int]);
        out.push(powers[exponents[i]]);
        i = i + 1;
    }
    Ok(out)
}

/// Every power of `poly_mix` up to the largest mix exponent of the tape.
pub fn eval_check_all_mix_pows(def: &PolyExtStepDef, poly_mix: ExtWords) -> (res: Result<
    Vec<ExtWords>,
    EvalCheckError,
>)
    requires
        mix_exps_fit(def.block@),
        mix_pows_fit(def.block@, def.ret),
        ext_reduced(poly_mix),
    ensures
        match (res, mix_exponents_result(def.block@, def.ret)) {
            (Ok(v), Ok(e)) => v@.len() == seq_max(e) + 1 && forall|k: int|
                0 <= k < v@.len() ==> #[trigger] v@[k] == ext_pow_spec(poly_mix, k as nat),
            (Err(x), Err(y)) => x == y,
            _ => false,
        },
{
    let exponents = match eval_check_mix_exponents(def) {
        Ok(e) => e,
        Err(e) => return Err(e),
    };
    let max_exp = max_exponent(&exponents);
    Ok(powers_up_to(poly_mix, max_exp))
}

/// WGSL text of a `vec4<u32>` of four words.
pub open spec fn ext_const_text(w0: nat, w1: nat, w2: nat, w3: nat) -> Seq<char> {
    "vec4<u32>("@ + decimal(w0) + "u, "@ + decimal(w1) + "u, "@ + decimal(w2) + "u, "@ + decimal(w3) + "u)"@
}

/// WGSL source of an extension constant from its four words.
pub fn eval_check_ext_const(words: [u32; 4]) -> (s: String)
    ensures
        s@ == ext_const_text(words@[0] as nat, words@[1] as nat, words@[2] as nat, words@[3] as nat),
{
    let mut s = String::from_str("vec4<u32>(");
    push_decimal(&mut s, words[0] as u64);
    s.append("u, ");
    push_decimal(&mut s, words[1] as u64);
    s.append("u, ");
    push_decimal(&mut s, words[2] as u64);
    s.append("u, ");
    push_decimal(&mut s, words[3] as u64);
    s.append("u)");
    s
}

/// Rows of the evaluation domain per trace row.
pub const INV_RATE: usize = 4;

/// `log2(INV_RATE)`.
pub const INV_RATE_PO2: usize = 2;

/// Inverse of the zerofier at the `k`-th coset point: `(3^steps * w^(steps
/// k) - 1)^-1`, with `w` the root of unity of the evaluation domain.
pub open spec fn zerofier_inv_spec(po2: nat, steps: nat, k: nat) -> u32 {
    let three_to_steps = elem_pow_spec(mont_encode(3), steps);
    let rou_to_steps = elem_pow_spec(mont_encode(rou_fwd_values()[po2 + INV_RATE_PO2]), steps);
    let x_to_steps = elem_pow_spec(rou_to_steps, k);
    elem_pow_spec(
        elem_sub_spec(elem_mul_spec(three_to_steps, x_to_steps), mont_r() as u32),
        (BABY_BEAR_P - 2) as nat,
    )
}

proof fn lemma_elem_pow_lt_p(x: u32, n: nat)
    ensures
        elem_pow_spec(x, n) < BABY_BEAR_P,
    decreases n,
{
    if n > 0 {
        lemma_elem_pow_lt_p(x, (n - 1) as nat);
    }
}

/// The zerofier inverses, as words, of the `INV_RATE` cosets of a trace of
/// `2^po2` rows evaluated `steps` rows long.
pub fn eval_check_zerofier_inv_words(po2: usize, steps: usize) -> (invs: [u32; 4])
    requires
        po2 + INV_RATE_PO2 < ROU_TABLE_LEN,
    ensures
        forall|k: int| 0 <= k < INV_RATE ==> #[trigger] invs@[k] == zerofier_inv_spec(po2 as nat, steps as nat, k as nat),
{
    let rou = rou_fwd_word(po2 + INV_RATE_PO2);
    let three = elem_const_word(3);
    let three_to_steps = elem_pow(three, steps);
    let rou_to_steps = elem_pow(rou, steps);
    let one = elem_one();
    let mut x_to_steps = one;
    let mut invs: [u32; 4] = [0, 0, 0, 0];
    let mut k: usize = 0;
    while k < INV_RATE
        invariant
            k <= INV_RATE,
            invs@.len() == 4,
            three_to_steps == elem_pow_spec(mont_encode(3), steps as nat),
            rou_to_steps == elem_pow_spec(mont_encode(rou_fwd_values()[po2 + INV_RATE_PO2]), steps as nat),
            one == mont_r(),
            x_to_steps == elem_pow_spec(rou_to_steps, k as nat),
            forall|j: int| 0 <= j < k ==> #[trigger] invs@[j] == zerofier_inv_spec(po2 as nat, steps as nat, j as nat),
        decreases INV_RATE - k,
    {
        proof {
            lemma_elem_pow_lt_p(mont_encode(3), steps as nat);
            lemma_elem_pow_lt_p(rou_to_steps, k as nat);
            lemma_elem_pow_lt_p(rou_to_steps, 0);
        }
        let prod = elem_mul(three_to_steps, x_to_steps);
        let diff = elem_sub(prod, one);
        invs[k] = elem_inv(diff);
        proof {
            lemma_elem_pow_lt_p(mont_encode(rou_fwd_values()[po2 + INV_RATE_PO2]), steps as nat);
        }
        x_to_steps = elem_mul(x_to_steps, rou_to_steps);
        k = k + 1;
    }
    invs
}

} // verus!
