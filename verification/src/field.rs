//! BabyBear field values as the raw Montgomery words the GPU kernels read,
//! and the field operations of `risc0-core` on them.
//!
//! A base element is the word `x * R mod P` for its value `x` (with
//! `R = 2^32`); an extension element of `F_p[X] / (X^4 + 11)` is the four
//! words of its coefficients.

use vstd::prelude::*;
use risc0_core::field::baby_bear::{BabyBearElem, BabyBearExtElem};
use risc0_core::field::Elem as FieldElem;

verus! {

/// The BabyBear modulus `15 * 2^27 + 1`.
pub const BABY_BEAR_P: u32 = 2013265921;

/// `2^32 mod P`: the Montgomery form of one.
pub open spec fn mont_r() -> int {
    268435454
}

/// The inverse of `2^32` modulo `P`.
pub open spec fn mont_rinv() -> int {
    943718400
}

/// The canonical Montgomery word of `x * 2^-32` modulo `P`.
pub open spec fn mont_reduce(x: int) -> u32 {
    ((x * mont_rinv()) % (BABY_BEAR_P as int)) as u32
}

/// The Montgomery word of the integer `v`.
pub open spec fn mont_encode(v: int) -> u32 {
    ((v % (BABY_BEAR_P as int)) * mont_r() % (BABY_BEAR_P as int)) as u32
}

/// Raw Montgomery words of an extension field element, lowest coefficient
/// first.
#[derive(Clone, Copy, Debug, PartialEq, Eq, Structural)]
pub struct ExtWords {
    pub w0: u32,
    pub w1: u32,
    pub w2: u32,
    pub w3: u32,
}

/// Every word is a canonical field element (below `P`).
pub open spec fn ext_reduced(a: ExtWords) -> bool {
    a.w0 < BABY_BEAR_P && a.w1 < BABY_BEAR_P && a.w2 < BABY_BEAR_P && a.w3 < BABY_BEAR_P
}

/// The product in `F_p[X] / (X^4 + 11)`, in Montgomery words.
pub open spec fn ext_mul_spec(a: ExtWords, b: ExtWords) -> ExtWords {
    let (a0, a1, a2, a3) = (a.w0 as int, a.w1 as int, a.w2 as int, a.w3 as int);
    let (b0, b1, b2, b3) = (b.w0 as int, b.w1 as int, b.w2 as int, b.w3 as int);
    ExtWords {
        w0: mont_reduce(a0 * b0 - 11 * (a1 * b3 + a2 * b2 + a3 * b1)),
        w1: mont_reduce(a0 * b1 + a1 * b0 - 11 * (a2 * b3 + a3 * b2)),
        w2: mont_reduce(a0 * b2 + a1 * b1 + a2 * b0 - 11 * (a3 * b3)),
        w3: mont_reduce(a0 * b3 + a1 * b2 + a2 * b1 + a3 * b0),
    }
}

/// The extension field's one.
pub open spec fn ext_one_spec() -> ExtWords {
    ExtWords { w0: mont_r() as u32, w1: 0, w2: 0, w3: 0 }
}

/// `x^n`, multiplied up from one, one factor at a time.
pub open spec fn ext_pow_spec(x: ExtWords, n: nat) -> ExtWords
    decreases n,
{
    if n == 0 {
        ext_one_spec()
    } else {
        ext_mul_spec(ext_pow_spec(x, (n - 1) as nat), x)
    }
}

pub proof fn lemma_ext_mul_reduced(a: ExtWords, b: ExtWords)
    ensures
        ext_reduced(ext_mul_spec(a, b)),
{
}

pub proof fn lemma_ext_pow_reduced(x: ExtWords, n: nat)
    ensures
        ext_reduced(ext_pow_spec(x, n)),
    decreases n,
{
    if n > 0 {
        lemma_ext_pow_reduced(x, (n - 1) as nat);
    }
}

/// `risc0-core`'s `BabyBearExtElem::ONE`, as words: the Montgomery form
/// of one in the lowest coefficient, zero elsewhere.
#[verifier::external_body]
pub(crate) fn ext_one() -> (r: ExtWords)
    ensures
        r == ext_one_spec(),
{
    let w = BabyBearExtElem::ONE.to_u32_words();
    ExtWords { w0: w[0], w1: w[1], w2: w[2], w3: w[3] }
}

/// `risc0-core`'s multiplication of `BabyBearExtElem`s. On canonical
/// words its source computes each coefficient of the product modulo
/// `X^4 + 11` with Montgomery multiplications and modular additions, so
/// the result is the canonical word `ext_mul_spec` states.
#[verifier::external_body]
pub(crate) fn ext_mul(a: ExtWords, b: ExtWords) -> (r: ExtWords)
    requires
        ext_reduced(a),
        ext_reduced(b),
    ensures
        r == ext_mul_spec(a, b),
{
    let x = BabyBearExtElem::from_u32_words(&[a.w0, a.w1, a.w2, a.w3]);
    let y = BabyBearExtElem::from_u32_words(&[b.w0, b.w1, b.w2, b.w3]);
    let w = (x * y).to_u32_words();
    ExtWords { w0: w[0], w1: w[1], w2: w[2], w3: w[3] }
}

/// `risc0-core`'s `Elem::pow` on a `BabyBearExtElem`: `x^n`, which its
/// source computes by square and multiply from one; in the field that is
/// the same canonical value as multiplying up one factor at a time.
#[verifier::external_body]
pub(crate) fn ext_pow(x: ExtWords, n: usize) -> (r: ExtWords)
    requires
        ext_reduced(x),
    ensures
        r == ext_pow_spec(x, n as nat),
{
    let e = BabyBearExtElem::from_u32_words(&[x.w0, x.w1, x.w2, x.w3]);
    let w = e.pow(n).to_u32_words();
    ExtWords { w0: w[0], w1: w[1], w2: w[2], w3: w[3] }
}

/// `risc0-core`'s `BabyBearElem::from_u64`, as a word: the Montgomery
/// form of `value` reduced modulo `P`.
#[verifier::external_body]
pub(crate) fn elem_const_word(value: u32) -> (w: u32)
    ensures
        w == mont_encode(value as int),
{
    BabyBearElem::from_u64(value as u64).as_u32_montgomery()
}

/// The product of two base field elements, in Montgomery words.
pub open spec fn elem_mul_spec(a: u32, b: u32) -> u32 {
    mont_reduce(a as int * b as int)
}

/// `x^n`, multiplied up from one, one factor at a time.
pub open spec fn elem_pow_spec(x: u32, n: nat) -> u32
    decreases n,
{
    if n == 0 {
        mont_r() as u32
    } else {
        elem_mul_spec(elem_pow_spec(x, (n - 1) as nat), x)
    }
}

/// The values of `risc0-core`'s forward roots of unity: entry `i` is a
/// primitive `2^i`-th root of unity.
pub open spec fn rou_fwd_values() -> Seq<int> {
    seq![
        1, 2013265920, 284861408, 1801542727, 567209306, 740045640, 918899846,
        1881002012, 1453957774, 65325759, 1538055801, 515192888, 483885487, 157393079,
        1695124103, 2005211659, 1540072241, 88064245, 1542985445, 1269900459, 1461624142,
        825701067, 682402162, 1311873874, 1164520853, 352275361, 18769, 137,
    ]
}

/// The values of `risc0-core`'s reverse roots of unity: entry `i` is the
/// inverse of forward entry `i`.
pub open spec fn rou_rev_values() -> Seq<int> {
    seq![
        1, 2013265920, 1728404513, 1592366214, 196396260, 1253260071, 72041623,
        1091445674, 145223211, 1446820157, 1030796471, 2010749425, 1827366325, 1239938613,
        246299276, 596347512, 1893145354, 246074437, 1525739923, 1194341128, 1463599021,
        704606912, 95395244, 15672543, 647517488, 584175179, 137728885, 749463956,
    ]
}

/// Number of entries in each root-of-unity table.
pub const ROU_TABLE_LEN: usize = 28;

/// `risc0-core`'s `BabyBearElem::ONE`, as a word.
#[verifier::external_body]
pub(crate) fn elem_one() -> (w: u32)
    ensures
        w == mont_r(),
{
    BabyBearElem::ONE.as_u32_montgomery()
}

/// `risc0-core`'s multiplication of `BabyBearElem`s: on canonical words
/// its source computes the Montgomery product and reduces it once.
#[verifier::external_body]
pub(crate) fn elem_mul(a: u32, b: u32) -> (w: u32)
    requires
        a < BABY_BEAR_P,
        b < BABY_BEAR_P,
    ensures
        w == elem_mul_spec(a, b),
{
    (BabyBearElem::new_raw(a) * BabyBearElem::new_raw(b)).as_u32_montgomery()
}

/// Entry `i` of `risc0-core`'s `BabyBearElem::ROU_FWD`, as a word: the
/// Montgomery form of the listed value.
#[verifier::external_body]
pub(crate) fn rou_fwd_word(i: usize) -> (w: u32)
    requires
        i < ROU_TABLE_LEN,
    ensures
        w == mont_encode(rou_fwd_values()[i as int]),
{
    <BabyBearElem as risc0_core::field::RootsOfUnity>::ROU_FWD[i].as_u32_montgomery()
}

/// Entry `i` of `risc0-core`'s `BabyBearElem::ROU_REV`, as a word: the
/// Montgomery form of the listed value.
#[verifier::external_body]
pub(crate) fn rou_rev_word(i: usize) -> (w: u32)
    requires
        i < ROU_TABLE_LEN,
    ensures
        w == mont_encode(rou_rev_values()[i as int]),
{
    <BabyBearElem as risc0_core::field::RootsOfUnity>::ROU_REV[i].as_u32_montgomery()
}

/// The difference of two base field elements, in Montgomery words.
pub open spec fn elem_sub_spec(a: u32, b: u32) -> u32 {
    ((a as int - b as int) % (BABY_BEAR_P as int)) as u32
}

/// `risc0-core`'s subtraction of `BabyBearElem`s: on canonical words its
/// source subtracts and adds `P` back on wrap-around.
#[verifier::external_body]
pub(crate) fn elem_sub(a: u32, b: u32) -> (w: u32)
    requires
        a < BABY_BEAR_P,
        b < BABY_BEAR_P,
    ensures
        w == elem_sub_spec(a, b),
{
    (BabyBearElem::new_raw(a) - BabyBearElem::new_raw(b)).as_u32_montgomery()
}

/// `risc0-core`'s `Elem::pow` on a `BabyBearElem`: `x^n` (square and
/// multiply, which gives the same canonical word as multiplying up one
/// factor at a time).
#[verifier::external_body]
pub(crate) fn elem_pow(x: u32, n: usize) -> (w: u32)
    requires
        x < BABY_BEAR_P,
    ensures
        w == elem_pow_spec(x, n as nat),
{
    BabyBearElem::new_raw(x).pow(n).as_u32_montgomery()
}

/// `risc0-core`'s `BabyBearElem::inv`, which its source computes as
/// `x^(P-2)` (so zero maps to zero).
#[verifier::external_body]
pub(crate) fn elem_inv(x: u32) -> (w: u32)
    requires
        x < BABY_BEAR_P,
    ensures
        w == elem_pow_spec(x, (BABY_BEAR_P - 2) as nat),
{
    BabyBearElem::new_raw(x).inv().as_u32_montgomery()
}

} // verus!
