//! The check-polynomial shader with one WGSL variable per scratch slot:
//! each step assigns its value to the slot it was given, so the shader
//! declares only as many variables as values are live at once.

use vstd::prelude::*;
use super::tape::{PolyExtStep, PolyExtStepDef, EvalCheckError, EvalCheckTap, fp_count, mix_count};
use super::slots::{
    last_fp_uses, last_mix_uses, last_uses_error, reads_error, slot_run, tape_slots, live_after,
    eval_check_last_uses, eval_check_mix_slot, EvalCheckSlotAllocator, slot_step, lemma_run_inv, lemma_take_step,
    lemma_reads_ok_at, reads_fp, reads_mix, fp_slot_kept, mix_slot_kept, lemma_operands_kept,
};
use super::interpreter::{leaf_error, leaves_error, WEBGPU_EVAL_CHECK_MAX_FP_SLOTS, WEBGPU_EVAL_CHECK_MAX_MIX_SLOTS};
use super::unrolled::{
    EVAL_CHECK_UNROLLED_EPILOGUE, tap_row_line, tap_read_text, global_read_text, bin_text, result_line, tap_backs_fit,
    step_lines, fp_let, tot_let, mul_line,
};
use super::powers::{INV_RATE, ext_const_text, eval_check_ext_const};
use crate::field::{mont_encode, elem_const_word};
use crate::text::{decimal, push_decimal};

verus! {

/// Everything of the slotted shader before its variable declarations.
pub const EVAL_CHECK_WGSL_PREFIX: &'static str = r#"
const P: u32 = 2013265921u;
const M: u32 = 2281701377u;
const NBETA: u32 = 1073741848u;

struct ElemBuffer {
    data: array<u32>,
};

struct Params {
    check_base: u32,
    group0_base: u32,
    group1_base: u32,
    group2_base: u32,
    global0_base: u32,
    global1_base: u32,
    domain: u32,
    _pad0: u32,
    invs: vec4<u32>,
};

@group(0) @binding(0) var<storage, read_write> check: ElemBuffer;
@group(0) @binding(1) var<storage, read> group0: ElemBuffer;
@group(0) @binding(2) var<storage, read> group1: ElemBuffer;
@group(0) @binding(3) var<storage, read> group2: ElemBuffer;
@group(0) @binding(4) var<storage, read> global0: ElemBuffer;
@group(0) @binding(5) var<storage, read> global1: ElemBuffer;
@group(0) @binding(6) var<storage, read> mix_pows: ElemBuffer;
@group(0) @binding(7) var<uniform> params: Params;

fn add(lhs: u32, rhs: u32) -> u32 {
    let sum = lhs + rhs;
    if (sum >= P) {
        return sum - P;
    }
    return sum;
}

fn sub(lhs: u32, rhs: u32) -> u32 {
    if (lhs >= rhs) {
        return lhs - rhs;
    }
    return lhs + P - rhs;
}

fn mul_wide(lhs: u32, rhs: u32) -> vec2<u32> {
    let lhs_lo = lhs & 0xffffu;
    let lhs_hi = lhs >> 16u;
    let rhs_lo = rhs & 0xffffu;
    let rhs_hi = rhs >> 16u;

    let p0 = lhs_lo * rhs_lo;
    let p1 = lhs_hi * rhs_lo;
    let p2 = lhs_lo * rhs_hi;
    let p3 = lhs_hi * rhs_hi;

    let carry = (p0 >> 16u) + (p1 & 0xffffu) + (p2 & 0xffffu);
    let lo = (p0 & 0xffffu) | ((carry & 0xffffu) << 16u);
    let hi = p3 + (p1 >> 16u) + (p2 >> 16u) + (carry >> 16u);
    return vec2<u32>(lo, hi);
}

fn mul(lhs: u32, rhs: u32) -> u32 {
    let product = mul_wide(lhs, rhs);
    let low = 0u - product.x;
    let red = M * low;
    let red_product = mul_wide(red, P);
    var ret = product.y + red_product.y;
    if (product.x + red_product.x < product.x) {
        ret = ret + 1u;
    }
    if (ret >= P) {
        return ret - P;
    }
    return ret;
}

fn ext_add(lhs: vec4<u32>, rhs: vec4<u32>) -> vec4<u32> {
    return vec4<u32>(
        add(lhs.x, rhs.x),
        add(lhs.y, rhs.y),
        add(lhs.z, rhs.z),
        add(lhs.w, rhs.w),
    );
}

fn ext_sub(lhs: vec4<u32>, rhs: vec4<u32>) -> vec4<u32> {
    return vec4<u32>(
        sub(lhs.x, rhs.x),
        sub(lhs.y, rhs.y),
        sub(lhs.z, rhs.z),
        sub(lhs.w, rhs.w),
    );
}

fn ext_mul(lhs: vec4<u32>, rhs: vec4<u32>) -> vec4<u32> {
    return vec4<u32>(
        add(
            mul(lhs.x, rhs.x),
            mul(NBETA, add(add(mul(lhs.y, rhs.w), mul(lhs.z, rhs.z)), mul(lhs.w, rhs.y))),
        ),
        add(
            add(mul(lhs.x, rhs.y), mul(lhs.y, rhs.x)),
            mul(NBETA, add(mul(lhs.z, rhs.w), mul(lhs.w, rhs.z))),
        ),
        add(
            add(add(mul(lhs.x, rhs.z), mul(lhs.y, rhs.y)), mul(lhs.z, rhs.x)),
            mul(NBETA, mul(lhs.w, rhs.w)),
        ),
        add(add(add(mul(lhs.x, rhs.w), mul(lhs.y, rhs.z)), mul(lhs.z, rhs.y)), mul(lhs.w, rhs.x)),
    );
}

fn ext_scale(lhs: vec4<u32>, rhs: u32) -> vec4<u32> {
    return vec4<u32>(
        mul(lhs.x, rhs),
        mul(lhs.y, rhs),
        mul(lhs.z, rhs),
        mul(lhs.w, rhs),
    );
}

fn load_mix_pow(idx: u32) -> vec4<u32> {
    let base = idx * 4u;
    return vec4<u32>(
        mix_pows.data[base + 0u],
        mix_pows.data[base + 1u],
        mix_pows.data[base + 2u],
        mix_pows.data[base + 3u],
    );
}

fn zerofier_inv(idx: u32) -> u32 {
    switch (idx & 3u) {
        case 0u: { return params.invs.x; }
        case 1u: { return params.invs.y; }
        case 2u: { return params.invs.z; }
        default: { return params.invs.w; }
    }
}

@compute @workgroup_size(256)
fn main(@builtin(global_invocation_id) gid: vec3<u32>) {
    let cycle = gid.x + gid.y * 16776960u;
    if (cycle >= params.domain) {
        return;
    }
"#;

/// `    f<slot> = <rhs>;` and a newline.
pub open spec fn fp_set(slot: nat, rhs: Seq<char>) -> Seq<char> {
    "    f"@ + decimal(slot) + " = "@ + rhs + ";\n"@
}

/// The two lines setting mix slot `slot`: its total to `tot`, its factor to
/// the power of the challenge for mix var `idx`.
pub open spec fn mix_set(slot: nat, tot: Seq<char>, idx: nat) -> Seq<char> {
    "    m"@ + decimal(slot) + "_tot = "@ + tot + ";\n"@ + "    m"@ + decimal(slot) + "_mul = load_mix_pow("@
        + decimal(idx) + "u);\n"@
}

/// The shader lines of step `op`, which defines fp var `fc` or mix var
/// `mc`, with fp vars in slots `fat` and mix vars in slots `mat`.
pub open spec fn slotted_step_text(
    op: PolyExtStep,
    fc: nat,
    mc: nat,
    fat: Seq<usize>,
    mat: Seq<usize>,
    taps: Seq<EvalCheckTap>,
) -> Seq<char> {
    let of = fat[fc as int] as nat;
    let om = mat[mc as int] as nat;
    match op {
        PolyExtStep::Const(v) => fp_set(of, "vec4<u32>("@ + decimal(mont_encode(v as int) as nat) + "u, 0u, 0u, 0u)"@),
        PolyExtStep::ConstExt(a, b, c, d) => fp_set(
            of,
            ext_const_text(
                mont_encode(a as int) as nat,
                mont_encode(b as int) as nat,
                mont_encode(c as int) as nat,
                mont_encode(d as int) as nat,
            ),
        ),
        PolyExtStep::Get(t) => tap_row_line(fc, (taps[t as int].back * INV_RATE) as nat) + fp_set(
            of,
            tap_read_text(fc, taps[t as int].group as nat, taps[t as int].offset as nat),
        ),
        PolyExtStep::GetGlobal(arg, off) => fp_set(of, global_read_text(arg as nat, off as nat)),
        PolyExtStep::Add(l, r) => fp_set(of, bin_text("ext_add"@, fat[l as int] as nat, fat[r as int] as nat)),
        PolyExtStep::Sub(l, r) => fp_set(of, bin_text("ext_sub"@, fat[l as int] as nat, fat[r as int] as nat)),
        PolyExtStep::Mul(l, r) => fp_set(of, bin_text("ext_mul"@, fat[l as int] as nat, fat[r as int] as nat)),
        PolyExtStep::True => mix_set(om, "vec4<u32>(0u, 0u, 0u, 0u)"@, mc),
        PolyExtStep::AndEqz(c, i) => mix_set(
            om,
            "ext_add(m"@ + decimal(mat[c as int] as nat) + "_tot, ext_mul(m"@ + decimal(mat[c as int] as nat)
                + "_mul, f"@ + decimal(fat[i as int] as nat) + "))"@,
            mc,
        ),
        PolyExtStep::AndCond(c, d, i) => mix_set(
            om,
            "ext_add(m"@ + decimal(mat[c as int] as nat) + "_tot, ext_mul(ext_mul(f"@ + decimal(
                fat[d as int] as nat,
            ) + ", m"@ + decimal(mat[i as int] as nat) + "_tot), m"@ + decimal(mat[c as int] as nat) + "_mul))"@,
            mc,
        ),
    }
}

/// The shader lines of the steps of `s`, in order.
pub open spec fn slotted_tape_text(
    s: Seq<PolyExtStep>,
    taps: Seq<EvalCheckTap>,
    fat: Seq<usize>,
    mat: Seq<usize>,
) -> Seq<char>
    decreases s.len(),
{
    if s.len() == 0 {
        Seq::empty()
    } else {
        slotted_tape_text(s.drop_last(), taps, fat, mat) + slotted_step_text(
            s.last(),
            fp_count(s.drop_last()),
            mix_count(s.drop_last()),
            fat,
            mat,
            taps,
        )
    }
}

/// Declarations of fp slot variables `f0` to `f<n-1>`.
pub open spec fn fp_decls(n: nat) -> Seq<char>
    decreases n,
{
    if n == 0 {
        Seq::empty()
    } else {
        fp_decls((n - 1) as nat) + "    var f"@ + decimal((n - 1) as nat) + ": vec4<u32>;\n"@
    }
}

/// Declarations of the total and factor variables of mix slots `0` to
/// `n-1`.
pub open spec fn mix_decls(n: nat) -> Seq<char>
    decreases n,
{
    if n == 0 {
        Seq::empty()
    } else {
        mix_decls((n - 1) as nat) + "    var m"@ + decimal((n - 1) as nat) + "_tot: vec4<u32>;\n"@ + "    var m"@
            + decimal((n - 1) as nat) + "_mul: vec4<u32>;\n"@
    }
}

/// The slotted shader of tape `s` returning mix var `ret`, or why it
/// cannot be built.
pub open spec fn slotted_shader(s: Seq<PolyExtStep>, ret: usize, taps: Seq<EvalCheckTap>) -> Result<
    Seq<char>,
    EvalCheckError,
> {
    match last_uses_error(s, ret) {
        Some(e) => Err(e),
        None => match leaves_error(s, taps) {
            Some(e) => Err(e),
            None => {
                let r = tape_slots(s, ret);
                if r.fp.pool.max > WEBGPU_EVAL_CHECK_MAX_FP_SLOTS {
                    Err(
                        EvalCheckError::FpSlotsExceeded {
                            needed: r.fp.pool.max,
                            max: WEBGPU_EVAL_CHECK_MAX_FP_SLOTS,
                        },
                    )
                } else if r.mix.pool.max > WEBGPU_EVAL_CHECK_MAX_MIX_SLOTS {
                    Err(
                        EvalCheckError::MixSlotsExceeded {
                            needed: r.mix.pool.max,
                            max: WEBGPU_EVAL_CHECK_MAX_MIX_SLOTS,
                        },
                    )
                } else {
                    Ok(
                        EVAL_CHECK_WGSL_PREFIX@ + fp_decls(if r.fp.pool.max > 1 { r.fp.pool.max as nat } else { 1 })
                            + mix_decls(if r.mix.pool.max > 1 { r.mix.pool.max as nat } else { 1 })
                            + slotted_tape_text(s, taps, r.fp.at, r.mix.at) + result_line(r.mix.at[ret as int] as nat)
                            + EVAL_CHECK_UNROLLED_EPILOGUE@,
                    )
                }
            },
        },
    }
}

pub(crate) fn push_num(out: &mut String, n: usize)
    ensures
        final(out)@ == old(out)@ + decimal(n as nat),
{
    push_decimal(out, n as u64);
}

/// Appends `    f<slot> = `.
pub(crate) fn push_fp_set_head(out: &mut String, slot: usize)
    ensures
        final(out)@ == old(out)@ + "    f"@ + decimal(slot as nat) + " = "@,
{
    out.append("    f");
    push_num(out, slot);
    out.append(" = ");
}

/// Appends the first half of `mix_set`: `    m<slot>_tot = `.
fn push_mix_set_head(out: &mut String, slot: usize)
    ensures
        final(out)@ == old(out)@ + "    m"@ + decimal(slot as nat) + "_tot = "@,
{
    out.append("    m");
    push_num(out, slot);
    out.append("_tot = ");
}

/// Appends the end of `mix_set` after its total: `;`, a newline and the
/// factor line.
fn push_mix_set_tail(out: &mut String, slot: usize, idx: usize)
    ensures
        final(out)@ == old(out)@ + ";\n"@ + "    m"@ + decimal(slot as nat) + "_mul = load_mix_pow("@ + decimal(
            idx as nat,
        ) + "u);\n"@,
{
    out.append(";\n");
    out.append("    m");
    push_num(out, slot);
    out.append("_mul = load_mix_pow(");
    push_num(out, idx);
    out.append("u);\n");
}

/// Appends `<name>(f<l>, f<r>)`.
pub(crate) fn push_bin(out: &mut String, name: &str, l: usize, r: usize)
    ensures
        final(out)@ == old(out)@ + bin_text(name@, l as nat, r as nat),
{
    let ghost o = out@;
    out.append(name);
    out.append("(f");
    push_num(out, l);
    out.append(", f");
    push_num(out, r);
    out.append(")");
    assert(out@ =~= o + bin_text(name@, l as nat, r as nat));
}

pub(crate) fn push_const_set(out: &mut String, o: usize, v: u32)
    ensures
        final(out)@ == old(out)@ + fp_set(o as nat, "vec4<u32>("@ + decimal(mont_encode(v as int) as nat) + "u, 0u, 0u, 0u)"@),
{
    let ghost o0 = out@;
    let word = elem_const_word(v);
    push_fp_set_head(out, o);
    out.append("vec4<u32>(");
    push_decimal(out, word as u64);
    out.append("u, 0u, 0u, 0u)");
    out.append(";\n");
    assert(out@ =~= o0 + fp_set(o as nat, "vec4<u32>("@ + decimal(word as nat) + "u, 0u, 0u, 0u)"@));
}

pub(crate) fn push_const_ext_set(out: &mut String, o: usize, a: u32, b: u32, c: u32, d: u32)
    ensures
        final(out)@ == old(out)@ + fp_set(
            o as nat,
            ext_const_text(
                mont_encode(a as int) as nat,
                mont_encode(b as int) as nat,
                mont_encode(c as int) as nat,
                mont_encode(d as int) as nat,
            ),
        ),
{
    let ghost o0 = out@;
    let value = eval_check_ext_const([elem_const_word(a), elem_const_word(b), elem_const_word(c), elem_const_word(d)]);
    push_fp_set_head(out, o);
    out.append(value.as_str());
    out.append(";\n");
    assert(out@ =~= o0 + fp_set(o as nat, value@));
}

pub(crate) fn push_tap_set(out: &mut String, o: usize, fc: usize, tap: EvalCheckTap)
    requires
        tap.back * INV_RATE <= usize::MAX,
    ensures
        final(out)@ == old(out)@ + tap_row_line(fc as nat, (tap.back * INV_RATE) as nat) + fp_set(
            o as nat,
            tap_read_text(fc as nat, tap.group as nat, tap.offset as nat),
        ),
{
    let ghost o0 = out@;
    let back = tap.back * INV_RATE;
    out.append("    let f");
    push_num(out, fc);
    out.append("_row = (cycle + params.domain - (");
    push_num(out, back);
    out.append("u % params.domain)) % params.domain;\n");
    let ghost o2 = out@;
    assert(o2 =~= o0 + tap_row_line(fc as nat, back as nat));
    push_fp_set_head(out, o);
    let ghost o3 = out@;
    out.append("vec4<u32>(group");
    push_num(out, tap.group);
    out.append(".data[params.group");
    push_num(out, tap.group);
    out.append("_base + ");
    push_num(out, tap.offset);
    out.append("u * params.domain + f");
    push_num(out, fc);
    out.append("_row], 0u, 0u, 0u)");
    assert(out@ =~= o3 + tap_read_text(fc as nat, tap.group as nat, tap.offset as nat));
    out.append(";\n");
    assert(out@ =~= o2 + fp_set(o as nat, tap_read_text(fc as nat, tap.group as nat, tap.offset as nat)));
}

pub(crate) fn push_global_set(out: &mut String, o: usize, arg: usize, off: usize)
    ensures
        final(out)@ == old(out)@ + fp_set(o as nat, global_read_text(arg as nat, off as nat)),
{
    let ghost o0 = out@;
    push_fp_set_head(out, o);
    let ghost o3 = out@;
    out.append("vec4<u32>(global");
    push_num(out, arg);
    out.append(".data[params.global");
    push_num(out, arg);
    out.append("_base + ");
    push_num(out, off);
    out.append("u], 0u, 0u, 0u)");
    assert(out@ =~= o3 + global_read_text(arg as nat, off as nat));
    out.append(";\n");
    assert(out@ =~= o0 + fp_set(o as nat, global_read_text(arg as nat, off as nat)));
}

pub(crate) fn push_bin_set(out: &mut String, o: usize, name: &str, a: usize, b: usize)
    ensures
        final(out)@ == old(out)@ + fp_set(o as nat, bin_text(name@, a as nat, b as nat)),
{
    let ghost o0 = out@;
    push_fp_set_head(out, o);
    push_bin(out, name, a, b);
    out.append(";\n");
    assert(out@ =~= o0 + fp_set(o as nat, bin_text(name@, a as nat, b as nat)));
}

fn push_true_set(out: &mut String, o: usize, mc: usize)
    ensures
        final(out)@ == old(out)@ + mix_set(o as nat, "vec4<u32>(0u, 0u, 0u, 0u)"@, mc as nat),
{
    let ghost o0 = out@;
    push_mix_set_head(out, o);
    out.append("vec4<u32>(0u, 0u, 0u, 0u)");
    push_mix_set_tail(out, o, mc);
    assert(out@ =~= o0 + mix_set(o as nat, "vec4<u32>(0u, 0u, 0u, 0u)"@, mc as nat));
}

fn push_eqz_set(out: &mut String, o: usize, ma: usize, fa: usize, mc: usize)
    ensures
        final(out)@ == old(out)@ + mix_set(
            o as nat,
            "ext_add(m"@ + decimal(ma as nat) + "_tot, ext_mul(m"@ + decimal(ma as nat) + "_mul, f"@ + decimal(
                fa as nat,
            ) + "))"@,
            mc as nat,
        ),
{
    let ghost o0 = out@;
    push_mix_set_head(out, o);
    let ghost o3 = out@;
    out.append("ext_add(m");
    push_num(out, ma);
    out.append("_tot, ext_mul(m");
    push_num(out, ma);
    out.append("_mul, f");
    push_num(out, fa);
    out.append("))");
    let ghost tot = "ext_add(m"@ + decimal(ma as nat) + "_tot, ext_mul(m"@ + decimal(ma as nat) + "_mul, f"@
        + decimal(fa as nat) + "))"@;
    assert(out@ =~= o3 + tot);
    push_mix_set_tail(out, o, mc);
    assert(out@ =~= o0 + mix_set(o as nat, tot, mc as nat));
}

fn push_cond_set(out: &mut String, o: usize, ma: usize, fa: usize, mb: usize, mc: usize)
    ensures
        final(out)@ == old(out)@ + mix_set(
            o as nat,
            "ext_add(m"@ + decimal(ma as nat) + "_tot, ext_mul(ext_mul(f"@ + decimal(fa as nat) + ", m"@ + decimal(
                mb as nat,
            ) + "_tot), m"@ + decimal(ma as nat) + "_mul))"@,
            mc as nat,
        ),
{
    let ghost o0 = out@;
    push_mix_set_head(out, o);
    let ghost o3 = out@;
    out.append("ext_add(m");
    push_num(out, ma);
    out.append("_tot, ext_mul(ext_mul(f");
    push_num(out, fa);
    out.append(", m");
    push_num(out, mb);
    out.append("_tot), m");
    push_num(out, ma);
    out.append("_mul))");
    let ghost tot = "ext_add(m"@ + decimal(ma as nat) + "_tot, ext_mul(ext_mul(f"@ + decimal(fa as nat) + ", m"@
        + decimal(mb as nat) + "_tot), m"@ + decimal(ma as nat) + "_mul))"@;
    assert(out@ =~= o3 + tot);
    push_mix_set_tail(out, o, mc);
    assert(out@ =~= o0 + mix_set(o as nat, tot, mc as nat));
}

/// Appends the shader lines of step `op`, whose own var is in slot `o`,
/// with operand slots as `slot_step` gives them.
fn push_slotted_step(
    out: &mut String,
    op: PolyExtStep,
    fc: usize,
    mc: usize,
    o: usize,
    fa: usize,
    fb: usize,
    ma: usize,
    mb: usize,
    taps: &[EvalCheckTap],
    Ghost(fat): Ghost<Seq<usize>>,
    Ghost(mat): Ghost<Seq<usize>>,
)
    requires
        super::tape::is_fp_step(op) ==> fat[fc as int] == o,
        !super::tape::is_fp_step(op) ==> mat[mc as int] == o,
        match op {
            PolyExtStep::Add(l, r) | PolyExtStep::Sub(l, r) | PolyExtStep::Mul(l, r) => fat[l as int] == fa
                && fat[r as int] == fb,
            PolyExtStep::AndEqz(c, i) => fa == fat[i as int] && ma == mat[c as int],
            PolyExtStep::AndCond(c, d, i) => fa == fat[d as int] && ma == mat[c as int] && mb == mat[i as int],
            PolyExtStep::Get(t) => t < taps@.len() && taps@[t as int].back * INV_RATE <= usize::MAX,
            _ => true,
        },
    ensures
        final(out)@ == old(out)@ + slotted_step_text(op, fc as nat, mc as nat, fat, mat, taps@),
{
    match op {
        PolyExtStep::Const(v) => push_const_set(out, o, v),
        PolyExtStep::ConstExt(a, b, c, d) => push_const_ext_set(out, o, a, b, c, d),
        PolyExtStep::Get(t) => push_tap_set(out, o, fc, taps[t]),
        PolyExtStep::GetGlobal(arg, off) => push_global_set(out, o, arg, off),
        PolyExtStep::Add(_, _) => push_bin_set(out, o, "ext_add", fa, fb),
        PolyExtStep::Sub(_, _) => push_bin_set(out, o, "ext_sub", fa, fb),
        PolyExtStep::Mul(_, _) => push_bin_set(out, o, "ext_mul", fa, fb),
        PolyExtStep::True => push_true_set(out, o, mc),
        PolyExtStep::AndEqz(_, _) => push_eqz_set(out, o, ma, fa, mc),
        PolyExtStep::AndCond(_, _, _) => push_cond_set(out, o, ma, fa, mb, mc),
    }
    proof {
        reveal_strlit("ext_add");
        reveal_strlit("ext_sub");
        reveal_strlit("ext_mul");
    }
}

proof fn lemma_slotted_text_extend(
    t: Seq<PolyExtStep>,
    taps: Seq<EvalCheckTap>,
    fa: Seq<usize>,
    ma: Seq<usize>,
    fb: Seq<usize>,
    mb: Seq<usize>,
)
    requires
        reads_error(t) is None,
        forall|v: int| 0 <= v < fp_count(t) ==> fa[v] == fb[v],
        forall|v: int| 0 <= v < mix_count(t) ==> ma[v] == mb[v],
    ensures
        slotted_tape_text(t, taps, fa, ma) == slotted_tape_text(t, taps, fb, mb),
    decreases t.len(),
{
    if t.len() > 0 {
        let d = t.drop_last();
        super::tape::lemma_fp_steps_push(d, t.last());
        assert(d.push(t.last()) =~= t);
        lemma_slotted_text_extend(d, taps, fa, ma, fb, mb);
    }
}

/// One step of the slotted shader compiler: checks the step's tap or
/// global read, moves the slot banks past it, and appends its lines.
#[verifier::rlimit(40)]
fn slotted_step(
    op: PolyExtStep,
    k: usize,
    taps: &[EvalCheckTap],
    last_fp: &Vec<Option<usize>>,
    last_mix: &Vec<Option<usize>>,
    fp_alloc: &mut EvalCheckSlotAllocator,
    mix_alloc: &mut EvalCheckSlotAllocator,
    fp_slots: &mut Vec<Option<usize>>,
    mix_slots: &mut Vec<Option<usize>>,
    body: &mut String,
    Ghost(s): Ghost<Seq<PolyExtStep>>,
    Ghost(ret): Ghost<usize>,
) -> (res: Result<(), EvalCheckError>)
    requires
        last_uses_error(s, ret) is None,
        s.len() < usize::MAX,
        tap_backs_fit(s, taps@),
        k < s.len(),
        s[k as int] == op,
        last_fp@ == last_fp_uses(s),
        last_mix@ == last_mix_uses(s, ret),
        old(fp_alloc)@ == slot_run(s.take(k as int), last_fp_uses(s), last_mix_uses(s, ret)).fp.pool,
        old(fp_slots)@ == slot_run(s.take(k as int), last_fp_uses(s), last_mix_uses(s, ret)).fp.live,
        old(mix_alloc)@ == slot_run(s.take(k as int), last_fp_uses(s), last_mix_uses(s, ret)).mix.pool,
        old(mix_slots)@ == slot_run(s.take(k as int), last_fp_uses(s), last_mix_uses(s, ret)).mix.live,
    ensures
        match leaf_error(op, taps@) {
            Some(e) => res is Err && res->Err_0 == e,
            None => {
                let r1 = slot_run(s.take(k + 1), last_fp_uses(s), last_mix_uses(s, ret));
                &&& res is Ok
                &&& final(fp_alloc)@ == r1.fp.pool
                &&& final(fp_slots)@ == r1.fp.live
                &&& final(mix_alloc)@ == r1.mix.pool
                &&& final(mix_slots)@ == r1.mix.live
                &&& final(body)@ == old(body)@ + slotted_step_text(
                    op,
                    fp_count(s.take(k as int)),
                    mix_count(s.take(k as int)),
                    r1.fp.at,
                    r1.mix.at,
                    taps@,
                )
                &&& forall|v: int|
                    0 <= v < fp_count(s.take(k as int)) ==> #[trigger] r1.fp.at[v] == slot_run(
                        s.take(k as int),
                        last_fp_uses(s),
                        last_mix_uses(s, ret),
                    ).fp.at[v]
                &&& forall|v: int|
                    0 <= v < mix_count(s.take(k as int)) ==> #[trigger] r1.mix.at[v] == slot_run(
                        s.take(k as int),
                        last_fp_uses(s),
                        last_mix_uses(s, ret),
                    ).mix.at[v]
            },
        },
{
    proof {
        lemma_run_inv(s, ret, k as int);
        assert(match s[k as int] {
            PolyExtStep::Get(t) => t < taps@.len() ==> taps@[t as int].back * INV_RATE <= usize::MAX,
            _ => true,
        });
    }
    match op {
        PolyExtStep::Get(t) => {
            if t >= taps.len() {
                return Err(EvalCheckError::TapOutOfRange(t));
            }
            if taps[t].group >= 3 {
                return Err(EvalCheckError::TapGroupUnsupported(taps[t].group));
            }
        },
        PolyExtStep::GetGlobal(arg, _) => {
            if arg >= 2 {
                return Err(EvalCheckError::GlobalArgUnsupported(arg));
            }
        },
        _ => {},
    }
    let fc = fp_slots.len();
    let mc = mix_slots.len();
    let ghost r1 = slot_run(s.take(k + 1), last_fp_uses(s), last_mix_uses(s, ret));
    let (out_slot, fa, fb, ma, mb) = slot_step(
        op,
        k,
        last_fp,
        last_mix,
        fp_alloc,
        mix_alloc,
        fp_slots,
        mix_slots,
        Ghost(s),
        Ghost(ret),
    );
    push_slotted_step(body, op, fc, mc, out_slot, fa, fb, ma, mb, taps, Ghost(r1.fp.at), Ghost(r1.mix.at));
    proof {
        let r0 = slot_run(s.take(k as int), last_fp_uses(s), last_mix_uses(s, ret));
        assert forall|v: int| 0 <= v < fp_count(s.take(k as int)) implies #[trigger] r1.fp.at[v] == r0.fp.at[v] by {}
        assert forall|v: int| 0 <= v < mix_count(s.take(k as int)) implies #[trigger] r1.mix.at[v] == r0.mix.at[v] by {}
    }
    Ok(())
}

pub(crate) fn push_fp_decls(out: &mut String, n: usize)
    ensures
        final(out)@ == old(out)@ + fp_decls(n as nat),
{
    let ghost o0 = out@;
    let mut i: usize = 0;
    assert(out@ =~= o0 + fp_decls(0));
    while i < n
        invariant
            i <= n,
            out@ == o0 + fp_decls(i as nat),
        decreases n - i,
    {
        out.append("    var f");
        push_num(out, i);
        out.append(": vec4<u32>;\n");
        assert(out@ =~= o0 + fp_decls((i + 1) as nat));
        i = i + 1;
    }
}

fn push_mix_decls(out: &mut String, n: usize)
    ensures
        final(out)@ == old(out)@ + mix_decls(n as nat),
{
    let ghost o0 = out@;
    let mut i: usize = 0;
    assert(out@ =~= o0 + mix_decls(0));
    while i < n
        invariant
            i <= n,
            out@ == o0 + mix_decls(i as nat),
        decreases n - i,
    {
        out.append("    var m");
        push_num(out, i);
        out.append("_tot: vec4<u32>;\n");
        out.append("    var m");
        push_num(out, i);
        out.append("_mul: vec4<u32>;\n");
        assert(out@ =~= o0 + mix_decls((i + 1) as nat));
        i = i + 1;
    }
}

/// The check-polynomial shader of `def` with one variable per scratch slot,
/// the steps taken in tape order: the prefix, the slot declarations (at
/// least one of each kind), one assignment per step (two for a tap read and
/// for a mix step), the returned mix total scaled by the zerofier inverse,
/// and the result stores. Fails as `eval_check_last_uses` does, on a tap or
/// global read the shader cannot do, or on more slots than the limits.
pub fn build_eval_check_wgsl(taps: &[EvalCheckTap], def: &PolyExtStepDef) -> (res: Result<String, EvalCheckError>)
    requires
        def.block@.len() < usize::MAX,
        tap_backs_fit(def.block@, taps@),
    ensures
        match slotted_shader(def.block@, def.ret, taps@) {
            Ok(text) => res is Ok && res->Ok_0@ == text,
            Err(e) => res is Err && res->Err_0 == e,
        },
{
    let block = def.block;
    let ret = def.ret;
    let ghost s = block@;
    let (last_fp, last_mix, _fp_count, _mix_count) = match eval_check_last_uses(def) {
        Ok(t) => t,
        Err(e) => return Err(e),
    };
    let ghost lf = last_fp_uses(s);
    let ghost lm = last_mix_uses(s, ret);
    let mut fp_alloc = EvalCheckSlotAllocator::default();
    let mut mix_alloc = EvalCheckSlotAllocator::default();
    let mut fp_slots: Vec<Option<usize>> = Vec::new();
    let mut mix_slots: Vec<Option<usize>> = Vec::new();
    let mut body = String::new();
    let mut i: usize = 0;
    proof {
        assert(s.take(0) =~= Seq::<PolyExtStep>::empty());
        assert(fp_slots@ =~= Seq::<Option<usize>>::empty());
        assert(mix_slots@ =~= Seq::<Option<usize>>::empty());
        assert(body@ =~= Seq::<char>::empty());
    }
    while i < block.len()
        invariant
            s == block@,
            s == def.block@,
            ret == def.ret,
            lf == last_fp_uses(s),
            lm == last_mix_uses(s, ret),
            last_fp@ == lf,
            last_mix@ == lm,
            last_uses_error(s, ret) is None,
            s.len() < usize::MAX,
            tap_backs_fit(s, taps@),
            i <= s.len(),
            leaves_error(s.take(i as int), taps@) is None,
            fp_alloc@ == slot_run(s.take(i as int), lf, lm).fp.pool,
            fp_slots@ == slot_run(s.take(i as int), lf, lm).fp.live,
            mix_alloc@ == slot_run(s.take(i as int), lf, lm).mix.pool,
            mix_slots@ == slot_run(s.take(i as int), lf, lm).mix.live,
            body@ == slotted_tape_text(
                s.take(i as int),
                taps@,
                slot_run(s.take(i as int), lf, lm).fp.at,
                slot_run(s.take(i as int), lf, lm).mix.at,
            ),
        decreases s.len() - i,
    {
        let op = block[i];
        let ghost r0 = slot_run(s.take(i as int), lf, lm);
        let ghost r1 = slot_run(s.take(i + 1), lf, lm);
        proof {
            lemma_take_step(s, i as int);
        }
        match slotted_step(
            op,
            i,
            taps,
            &last_fp,
            &last_mix,
            &mut fp_alloc,
            &mut mix_alloc,
            &mut fp_slots,
            &mut mix_slots,
            &mut body,
            Ghost(s),
            Ghost(ret),
        ) {
            Ok(()) => {},
            Err(e) => {
                proof {
                    super::interpreter::lemma_leaves_error_sticks(s, taps@, i + 1);
                }
                return Err(e);
            },
        }
        proof {
            lemma_reads_ok_at(s, i as int);
            lemma_slotted_text_extend(s.take(i as int), taps@, r0.fp.at, r0.mix.at, r1.fp.at, r1.mix.at);
        }
        i = i + 1;
    }
    proof {
        assert(s.take(s.len() as int) =~= s);
        super::slots::lemma_tape_slots_bounds(s, ret);
        assert(live_after(lm[ret as int], s.len() as int));
    }
    let ret_slot = match eval_check_mix_slot(&mix_slots, ret) {
        Ok(slot) => slot,
        Err(e) => return Err(e),
    };
    let fp_used = fp_alloc.max_used();
    let mix_used = mix_alloc.max_used();
    if fp_used > WEBGPU_EVAL_CHECK_MAX_FP_SLOTS {
        return Err(EvalCheckError::FpSlotsExceeded { needed: fp_used, max: WEBGPU_EVAL_CHECK_MAX_FP_SLOTS });
    }
    if mix_used > WEBGPU_EVAL_CHECK_MAX_MIX_SLOTS {
        return Err(EvalCheckError::MixSlotsExceeded { needed: mix_used, max: WEBGPU_EVAL_CHECK_MAX_MIX_SLOTS });
    }
    let mut wgsl = String::from_str(EVAL_CHECK_WGSL_PREFIX);
    let fp_decl_count = if fp_used > 1 { fp_used } else { 1 };
    let mix_decl_count = if mix_used > 1 { mix_used } else { 1 };
    push_fp_decls(&mut wgsl, fp_decl_count);
    push_mix_decls(&mut wgsl, mix_decl_count);
    wgsl.append(body.as_str());
    let ghost before_result = wgsl@;
    wgsl.append("    let result = ext_mul(m");
    push_num(&mut wgsl, ret_slot);
    wgsl.append("_tot, vec4<u32>(zerofier_inv(cycle), 0u, 0u, 0u));\n");
    wgsl.append(EVAL_CHECK_UNROLLED_EPILOGUE);
    assert(wgsl@ =~= before_result + result_line(ret_slot as nat) + EVAL_CHECK_UNROLLED_EPILOGUE@);
    Ok(wgsl)
}

/// `ext_add(m<c>_tot, ext_mul(m<c>_mul, f<i>))`: an `AndEqz` total with
/// chain in `m<c>` and inner value in `f<i>`.
pub open spec fn eqz_tot_text(c: nat, i: nat) -> Seq<char> {
    "ext_add(m"@ + decimal(c) + "_tot, ext_mul(m"@ + decimal(c) + "_mul, f"@ + decimal(i) + "))"@
}

/// `ext_add(m<c>_tot, ext_mul(ext_mul(f<d>, m<i>_tot), m<c>_mul))`: an
/// `AndCond` total with chain in `m<c>`, condition in `f<d>` and inner
/// total in `m<i>`.
pub open spec fn cond_tot_text(c: nat, d: nat, i: nat) -> Seq<char> {
    "ext_add(m"@ + decimal(c) + "_tot, ext_mul(ext_mul(f"@ + decimal(d) + ", m"@ + decimal(i) + "_tot), m"@
        + decimal(c) + "_mul))"@
}

proof fn lemma_slotted_text_prefix(
    s: Seq<PolyExtStep>,
    taps: Seq<EvalCheckTap>,
    fat: Seq<usize>,
    mat: Seq<usize>,
    i: int,
)
    requires
        0 <= i <= s.len(),
    ensures
        slotted_tape_text(s.take(i), taps, fat, mat).is_prefix_of(slotted_tape_text(s, taps, fat, mat)),
    decreases s.len() - i,
{
    if i == s.len() {
        assert(s.take(i) =~= s);
    } else {
        lemma_slotted_text_prefix(s, taps, fat, mat, i + 1);
        assert(s.take(i + 1).drop_last() =~= s.take(i));
        let a = slotted_tape_text(s.take(i), taps, fat, mat);
        let b = slotted_tape_text(s.take(i + 1), taps, fat, mat);
        let c = slotted_tape_text(s, taps, fat, mat);
        assert(b.subrange(0, a.len() as int) =~= a);
        assert(c.subrange(0, a.len() as int) =~= c.subrange(0, b.len() as int).subrange(0, a.len() as int));
    }
}

/// Law of the slotted shader: the lines of step `k` of the tape follow, in
/// the shader's body, those of the steps before it, and they are the
/// unrolled shader's lines for that step with every var renamed to its
/// slot. So an `Add`, `Sub` or `Mul` step applies its operation to the slot
/// of its left operand and the slot of its right operand, in that order,
/// and stores into the slot of the fp var it defines; a mix step reads its
/// chain, condition and inner vars from their slots. Every var that the
/// step reads still holds its slot when the step runs, so each line
/// computes the same value as the unrolled shader's line.
pub proof fn lemma_slotted_step_renames_unrolled(s: Seq<PolyExtStep>, ret: usize, taps: Seq<EvalCheckTap>, k: int)
    requires
        slotted_shader(s, ret, taps) is Ok,
        s.len() < usize::MAX,
        0 <= k < s.len(),
    ensures
        ({
            let fat = tape_slots(s, ret).fp.at;
            let mat = tape_slots(s, ret).mix.at;
            let fc = fp_count(s.take(k));
            let mc = mix_count(s.take(k));
            let line = slotted_step_text(s[k], fc, mc, fat, mat, taps);
            &&& (slotted_tape_text(s.take(k), taps, fat, mat) + line).is_prefix_of(
                slotted_tape_text(s, taps, fat, mat),
            )
            &&& forall|v: usize| #[trigger] reads_fp(s[k], v) ==> fp_slot_kept(s, ret, v, k)
            &&& forall|v: usize| #[trigger] reads_mix(s[k], v) ==> mix_slot_kept(s, ret, v, k)
            &&& match s[k] {
                PolyExtStep::Add(l, r) => step_lines(s[k], fc, mc, taps) == Ok::<Seq<char>, EvalCheckError>(
                    fp_let(fc, bin_text("ext_add"@, l as nat, r as nat)),
                ) && line == fp_set(fat[fc as int] as nat, bin_text("ext_add"@, fat[l as int] as nat, fat[r as int] as nat)),
                PolyExtStep::Sub(l, r) => step_lines(s[k], fc, mc, taps) == Ok::<Seq<char>, EvalCheckError>(
                    fp_let(fc, bin_text("ext_sub"@, l as nat, r as nat)),
                ) && line == fp_set(fat[fc as int] as nat, bin_text("ext_sub"@, fat[l as int] as nat, fat[r as int] as nat)),
                PolyExtStep::Mul(l, r) => step_lines(s[k], fc, mc, taps) == Ok::<Seq<char>, EvalCheckError>(
                    fp_let(fc, bin_text("ext_mul"@, l as nat, r as nat)),
                ) && line == fp_set(fat[fc as int] as nat, bin_text("ext_mul"@, fat[l as int] as nat, fat[r as int] as nat)),
                PolyExtStep::AndEqz(c, i) => step_lines(s[k], fc, mc, taps) == Ok::<Seq<char>, EvalCheckError>(
                    tot_let(mc, eqz_tot_text(c as nat, i as nat)) + mul_line(mc),
                ) && line == mix_set(mat[mc as int] as nat, eqz_tot_text(mat[c as int] as nat, fat[i as int] as nat), mc),
                PolyExtStep::AndCond(c, d, i) => step_lines(s[k], fc, mc, taps) == Ok::<Seq<char>, EvalCheckError>(
                    tot_let(mc, cond_tot_text(c as nat, d as nat, i as nat)) + mul_line(mc),
                ) && line == mix_set(
                    mat[mc as int] as nat,
                    cond_tot_text(mat[c as int] as nat, fat[d as int] as nat, mat[i as int] as nat),
                    mc,
                ),
                _ => true,
            }
        }),
{
    let fat = tape_slots(s, ret).fp.at;
    let mat = tape_slots(s, ret).mix.at;
    let fc = fp_count(s.take(k));
    let mc = mix_count(s.take(k));
    assert(last_uses_error(s, ret) is None);
    lemma_slotted_text_prefix(s, taps, fat, mat, k + 1);
    assert(s.take(k + 1).drop_last() =~= s.take(k));
    assert(s.take(k + 1).last() == s[k]);
    lemma_operands_kept(s, ret, k);
    reveal_strlit("ext_add");
    reveal_strlit("ext_sub");
    reveal_strlit("ext_mul");
}

} // verus!
