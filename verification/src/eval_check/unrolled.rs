//! The fully unrolled check-polynomial shader: one WGSL `let` per tape step.

use vstd::prelude::*;
use super::tape::{
    PolyExtStep, PolyExtStepDef, EvalCheckError, EvalCheckTap, fp_count, mix_count, lemma_fp_steps_push,
    lemma_fp_steps_len, is_fp_step,
};
use super::powers::{eval_check_ext_const, ext_const_text, INV_RATE};
use crate::field::{elem_const_word, mont_encode};
use crate::text::{decimal, push_decimal};

verus! {

/// Shader text before the per-step lines: field arithmetic, bindings, and
/// the entry point's domain check.
pub const EVAL_CHECK_UNROLLED_PRELUDE: &'static str = r#"
const P: u32 = 2013265921u;
const M: u32 = 2281701377u;
const NBETA: u32 = 1073741848u;

struct ElemBuffer {
    data: array<u32>,
};

struct Params {
    check_base: u32,
    group0_base: u32,
    group1_base: u32,
    group2_base: u32,
    global0_base: u32,
    global1_base: u32,
    domain: u32,
    _pad0: u32,
    invs: vec4<u32>,
};

@group(0) @binding(0) var<storage, read_write> check: ElemBuffer;
@group(0) @binding(1) var<storage, read> group0: ElemBuffer;
@group(0) @binding(2) var<storage, read> group1: ElemBuffer;
@group(0) @binding(3) var<storage, read> group2: ElemBuffer;
@group(0) @binding(4) var<storage, read> global0: ElemBuffer;
@group(0) @binding(5) var<storage, read> global1: ElemBuffer;
@group(0) @binding(6) var<storage, read> mix_pows: ElemBuffer;
@group(0) @binding(7) var<uniform> params: Params;

fn add(lhs: u32, rhs: u32) -> u32 {
    let sum = lhs + rhs;
    if (sum >= P) {
        return sum - P;
    }
    return sum;
}

fn sub(lhs: u32, rhs: u32) -> u32 {
    if (lhs >= rhs) {
        return lhs - rhs;
    }
    return lhs + P - rhs;
}

fn mul_wide(lhs: u32, rhs: u32) -> vec2<u32> {
    let lhs_lo = lhs & 0xffffu;
    let lhs_hi = lhs >> 16u;
    let rhs_lo = rhs & 0xffffu;
    let rhs_hi = rhs >> 16u;

    let p0 = lhs_lo * rhs_lo;
    let p1 = lhs_hi * rhs_lo;
    let p2 = lhs_lo * rhs_hi;
    let p3 = lhs_hi * rhs_hi;

    let carry = (p0 >> 16u) + (p1 & 0xffffu) + (p2 & 0xffffu);
    let lo = (p0 & 0xffffu) | ((carry & 0xffffu) << 16u);
    let hi = p3 + (p1 >> 16u) + (p2 >> 16u) + (carry >> 16u);
    return vec2<u32>(lo, hi);
}

fn mul(lhs: u32, rhs: u32) -> u32 {
    let product = mul_wide(lhs, rhs);
    let low = 0u - product.x;
    let red = M * low;
    let red_product = mul_wide(red, P);
    var ret = product.y + red_product.y;
    if (product.x + red_product.x < product.x) {
        ret = ret + 1u;
    }
    if (ret >= P) {
        return ret - P;
    }
    return ret;
}

fn ext_add(lhs: vec4<u32>, rhs: vec4<u32>) -> vec4<u32> {
    return vec4<u32>(
        add(lhs.x, rhs.x),
        add(lhs.y, rhs.y),
        add(lhs.z, rhs.z),
        add(lhs.w, rhs.w),
    );
}

fn ext_sub(lhs: vec4<u32>, rhs: vec4<u32>) -> vec4<u32> {
    return vec4<u32>(
        sub(lhs.x, rhs.x),
        sub(lhs.y, rhs.y),
        sub(lhs.z, rhs.z),
        sub(lhs.w, rhs.w),
    );
}

fn ext_mul(lhs: vec4<u32>, rhs: vec4<u32>) -> vec4<u32> {
    return vec4<u32>(
        add(
            mul(lhs.x, rhs.x),
            mul(NBETA, add(add(mul(lhs.y, rhs.w), mul(lhs.z, rhs.z)), mul(lhs.w, rhs.y))),
        ),
        add(
            add(mul(lhs.x, rhs.y), mul(lhs.y, rhs.x)),
            mul(NBETA, add(mul(lhs.z, rhs.w), mul(lhs.w, rhs.z))),
        ),
        add(
            add(add(mul(lhs.x, rhs.z), mul(lhs.y, rhs.y)), mul(lhs.z, rhs.x)),
            mul(NBETA, mul(lhs.w, rhs.w)),
        ),
        add(add(add(mul(lhs.x, rhs.w), mul(lhs.y, rhs.z)), mul(lhs.z, rhs.y)), mul(lhs.w, rhs.x)),
    );
}

fn load_mix_pow(idx: u32) -> vec4<u32> {
    let base = idx * 4u;
    return vec4<u32>(
        mix_pows.data[base + 0u],
        mix_pows.data[base + 1u],
        mix_pows.data[base + 2u],
        mix_pows.data[base + 3u],
    );
}

fn zerofier_inv(idx: u32) -> u32 {
    switch (idx & 3u) {
        case 0u: { return params.invs.x; }
        case 1u: { return params.invs.y; }
        case 2u: { return params.invs.z; }
        default: { return params.invs.w; }
    }
}

@compute @workgroup_size(256)
fn main(@builtin(global_invocation_id) gid: vec3<u32>) {
    let cycle = gid.x + gid.y * 16776960u;
    if (cycle >= params.domain) {
        return;
    }
"#;

/// Shader text after the result line: the four stores of the result.
pub const EVAL_CHECK_UNROLLED_EPILOGUE: &'static str = r#"
    check.data[params.check_base + 0u * params.domain + cycle] = result.x;
    check.data[params.check_base + 1u * params.domain + cycle] = result.y;
    check.data[params.check_base + 2u * params.domain + cycle] = result.z;
    check.data[params.check_base + 3u * params.domain + cycle] = result.w;
}
"#;

/// `    let f<fp> = <rhs>;` and a newline.
pub open spec fn fp_let(fp: nat, rhs: Seq<char>) -> Seq<char> {
    "    let f"@ + decimal(fp) + " = "@ + rhs + ";\n"@
}

/// `    let m<mix>_tot = <rhs>;` and a newline.
pub open spec fn tot_let(mix: nat, rhs: Seq<char>) -> Seq<char> {
    "    let m"@ + decimal(mix) + "_tot = "@ + rhs + ";\n"@
}

/// The line loading mix var `mix`'s power of the challenge.
pub open spec fn mul_line(mix: nat) -> Seq<char> {
    "    let m"@ + decimal(mix) + "_mul = load_mix_pow("@ + decimal(mix) + "u);\n"@
}

/// `<name>(f<l>, f<r>)`.
pub open spec fn bin_text(name: Seq<char>, l: nat, r: nat) -> Seq<char> {
    name + "(f"@ + decimal(l) + ", f"@ + decimal(r) + ")"@
}

/// The row line of a tap read `back` evaluation rows back.
pub open spec fn tap_row_line(fp: nat, back: nat) -> Seq<char> {
    "    let f"@ + decimal(fp) + "_row = (cycle + params.domain - ("@ + decimal(back)
        + "u % params.domain)) % params.domain;\n"@
}

/// The read of a tap of group `g` at column `off`.
pub open spec fn tap_read_text(fp: nat, g: nat, off: nat) -> Seq<char> {
    "vec4<u32>(group"@ + decimal(g) + ".data[params.group"@ + decimal(g) + "_base + "@ + decimal(off)
        + "u * params.domain + f"@ + decimal(fp) + "_row], 0u, 0u, 0u)"@
}

/// The read of word `off` of global buffer `arg`.
pub open spec fn global_read_text(arg: nat, off: nat) -> Seq<char> {
    "vec4<u32>(global"@ + decimal(arg) + ".data[params.global"@ + decimal(arg) + "_base + "@ + decimal(off)
        + "u], 0u, 0u, 0u)"@
}

/// The shader lines of one step, given the numbers of fp and mix vars
/// before it, or why the step cannot be compiled.
pub open spec fn step_lines(op: PolyExtStep, fp: nat, mix: nat, taps: Seq<EvalCheckTap>) -> Result<
    Seq<char>,
    EvalCheckError,
> {
    match op {
        PolyExtStep::Const(v) => Ok(
            fp_let(fp, "vec4<u32>("@ + decimal(mont_encode(v as int) as nat) + "u, 0u, 0u, 0u)"@),
        ),
        PolyExtStep::ConstExt(a, b, c, d) => Ok(
            fp_let(
                fp,
                ext_const_text(
                    mont_encode(a as int) as nat,
                    mont_encode(b as int) as nat,
                    mont_encode(c as int) as nat,
                    mont_encode(d as int) as nat,
                ),
            ),
        ),
        PolyExtStep::Get(t) => if t >= taps.len() {
            Err(EvalCheckError::TapOutOfRange(t))
        } else if taps[t as int].group >= 3 {
            Err(EvalCheckError::TapGroupUnsupported(taps[t as int].group))
        } else {
            Ok(
                tap_row_line(fp, (taps[t as int].back * INV_RATE) as nat) + fp_let(
                    fp,
                    tap_read_text(fp, taps[t as int].group as nat, taps[t as int].offset as nat),
                ),
            )
        },
        PolyExtStep::GetGlobal(arg, off) => if arg >= 2 {
            Err(EvalCheckError::GlobalArgUnsupported(arg))
        } else {
            Ok(fp_let(fp, global_read_text(arg as nat, off as nat)))
        },
        PolyExtStep::Add(l, r) => Ok(fp_let(fp, bin_text("ext_add"@, l as nat, r as nat))),
        PolyExtStep::Sub(l, r) => Ok(fp_let(fp, bin_text("ext_sub"@, l as nat, r as nat))),
        PolyExtStep::Mul(l, r) => Ok(fp_let(fp, bin_text("ext_mul"@, l as nat, r as nat))),
        PolyExtStep::True => Ok(tot_let(mix, "vec4<u32>(0u, 0u, 0u, 0u)"@) + mul_line(mix)),
        PolyExtStep::AndEqz(c, i) => Ok(
            tot_let(
                mix,
                "ext_add(m"@ + decimal(c as nat) + "_tot, ext_mul(m"@ + decimal(c as nat) + "_mul, f"@
                    + decimal(i as nat) + "))"@,
            ) + mul_line(mix),
        ),
        PolyExtStep::AndCond(c, cond, i) => Ok(
            tot_let(
                mix,
                "ext_add(m"@ + decimal(c as nat) + "_tot, ext_mul(ext_mul(f"@ + decimal(cond as nat) + ", m"@
                    + decimal(i as nat) + "_tot), m"@ + decimal(c as nat) + "_mul))"@,
            ) + mul_line(mix),
        ),
    }
}

/// The shader lines of a tape, step by step; the first step that cannot be
/// compiled is the error.
pub open spec fn tape_lines(s: Seq<PolyExtStep>, taps: Seq<EvalCheckTap>) -> Result<Seq<char>, EvalCheckError>
    decreases s.len(),
{
    if s.len() == 0 {
        Ok(Seq::empty())
    } else {
        match tape_lines(s.drop_last(), taps) {
            Err(e) => Err(e),
            Ok(b) => match step_lines(s.last(), fp_count(s.drop_last()), mix_count(s.drop_last()), taps) {
                Err(e) => Err(e),
                Ok(l) => Ok(b + l),
            },
        }
    }
}

/// The line scaling the returned mix total by the zerofier inverse.
pub open spec fn result_line(ret: nat) -> Seq<char> {
    "    let result = ext_mul(m"@ + decimal(ret) + "_tot, vec4<u32>(zerofier_inv(cycle), 0u, 0u, 0u));\n"@
}

/// The unrolled shader for a tape, or why it cannot be built.
pub open spec fn unrolled_shader(s: Seq<PolyExtStep>, ret: usize, taps: Seq<EvalCheckTap>) -> Result<
    Seq<char>,
    EvalCheckError,
> {
    match tape_lines(s, taps) {
        Err(e) => Err(e),
        Ok(b) => if ret < mix_count(s) {
            Ok(EVAL_CHECK_UNROLLED_PRELUDE@ + b + result_line(ret as nat) + EVAL_CHECK_UNROLLED_EPILOGUE@)
        } else {
            Err(EvalCheckError::ReturnOutOfRange { ret, mix_count: mix_count(s) as usize })
        },
    }
}

/// Every tap that the tape reads has a back offset whose evaluation-row
/// count fits in `usize`.
pub open spec fn tap_backs_fit(s: Seq<PolyExtStep>, taps: Seq<EvalCheckTap>) -> bool {
    forall|k: int|
        0 <= k < s.len() ==> match #[trigger] s[k] {
            PolyExtStep::Get(t) => t < taps.len() ==> taps[t as int].back * INV_RATE <= usize::MAX,
            _ => true,
        }
}

fn push_num(out: &mut String, n: usize)
    ensures
        final(out)@ == old(out)@ + decimal(n as nat),
{
    push_decimal(out, n as u64);
}

/// Appends `    let f<fp> = ` .
fn push_fp_let_head(out: &mut String, fp: usize)
    ensures
        final(out)@ == old(out)@ + "    let f"@ + decimal(fp as nat) + " = "@,
{
    out.append("    let f");
    push_num(out, fp);
    out.append(" = ");
}

fn push_const_lines(out: &mut String, fp: usize, v: u32)
    ensures
        final(out)@ == old(out)@ + fp_let(
            fp as nat,
            "vec4<u32>("@ + decimal(mont_encode(v as int) as nat) + "u, 0u, 0u, 0u)"@,
        ),
{
    let ghost o = out@;
    let word = elem_const_word(v);
    push_fp_let_head(out, fp);
    out.append("vec4<u32>(");
    push_decimal(out, word as u64);
    out.append("u, 0u, 0u, 0u)");
    out.append(";\n");
    assert(out@ =~= o + fp_let(fp as nat, "vec4<u32>("@ + decimal(word as nat) + "u, 0u, 0u, 0u)"@));
}

fn push_const_ext_lines(out: &mut String, fp: usize, a: u32, b: u32, c: u32, d: u32)
    ensures
        final(out)@ == old(out)@ + fp_let(
            fp as nat,
            ext_const_text(
                mont_encode(a as int) as nat,
                mont_encode(b as int) as nat,
                mont_encode(c as int) as nat,
                mont_encode(d as int) as nat,
            ),
        ),
{
    let ghost o = out@;
    let value = eval_check_ext_const([elem_const_word(a), elem_const_word(b), elem_const_word(c), elem_const_word(d)]);
    push_fp_let_head(out, fp);
    out.append(value.as_str());
    out.append(";\n");
    assert(out@ =~= o + fp_let(fp as nat, value@));
}

fn push_tap_lines(out: &mut String, fp: usize, tap: EvalCheckTap)
    requires
        tap.back * INV_RATE <= usize::MAX,
    ensures
        final(out)@ == old(out)@ + tap_row_line(fp as nat, (tap.back * INV_RATE) as nat) + fp_let(
            fp as nat,
            tap_read_text(fp as nat, tap.group as nat, tap.offset as nat),
        ),
{
    let ghost o = out@;
    let back = tap.back * INV_RATE;
    out.append("    let f");
    push_num(out, fp);
    out.append("_row = (cycle + params.domain - (");
    push_num(out, back);
    out.append("u % params.domain)) % params.domain;\n");
    let ghost o2 = out@;
    assert(o2 =~= o + tap_row_line(fp as nat, back as nat));
    push_fp_let_head(out, fp);
    let ghost o3 = out@;
    out.append("vec4<u32>(group");
    push_num(out, tap.group);
    out.append(".data[params.group");
    push_num(out, tap.group);
    out.append("_base + ");
    push_num(out, tap.offset);
    out.append("u * params.domain + f");
    push_num(out, fp);
    out.append("_row], 0u, 0u, 0u)");
    let ghost o4 = out@;
    assert(o4 =~= o3 + tap_read_text(fp as nat, tap.group as nat, tap.offset as nat));
    out.append(";\n");
    assert(out@ =~= o2 + fp_let(fp as nat, tap_read_text(fp as nat, tap.group as nat, tap.offset as nat)));
}

fn push_global_lines(out: &mut String, fp: usize, arg: usize, off: usize)
    ensures
        final(out)@ == old(out)@ + fp_let(fp as nat, global_read_text(arg as nat, off as nat)),
{
    let ghost o = out@;
    push_fp_let_head(out, fp);
    let ghost o3 = out@;
    out.append("vec4<u32>(global");
    push_num(out, arg);
    out.append(".data[params.global");
    push_num(out, arg);
    out.append("_base + ");
    push_num(out, off);
    out.append("u], 0u, 0u, 0u)");
    assert(out@ =~= o3 + global_read_text(arg as nat, off as nat));
    out.append(";\n");
    assert(out@ =~= o + fp_let(fp as nat, global_read_text(arg as nat, off as nat)));
}

fn push_bin_lines(out: &mut String, fp: usize, name: &str, l: usize, r: usize)
    ensures
        final(out)@ == old(out)@ + fp_let(fp as nat, bin_text(name@, l as nat, r as nat)),
{
    let ghost o = out@;
    push_fp_let_head(out, fp);
    let ghost o3 = out@;
    out.append(name);
    out.append("(f");
    push_num(out, l);
    out.append(", f");
    push_num(out, r);
    out.append(")");
    assert(out@ =~= o3 + bin_text(name@, l as nat, r as nat));
    out.append(";\n");
    assert(out@ =~= o + fp_let(fp as nat, bin_text(name@, l as nat, r as nat)));
}

/// The right-hand side of a mix step's `_tot` line.
pub open spec fn mix_tot_text(op: PolyExtStep) -> Seq<char> {
    match op {
        PolyExtStep::AndEqz(c, i) => "ext_add(m"@ + decimal(c as nat) + "_tot, ext_mul(m"@ + decimal(c as nat)
            + "_mul, f"@ + decimal(i as nat) + "))"@,
        PolyExtStep::AndCond(c, cond, i) => "ext_add(m"@ + decimal(c as nat) + "_tot, ext_mul(ext_mul(f"@
            + decimal(cond as nat) + ", m"@ + decimal(i as nat) + "_tot), m"@ + decimal(c as nat) + "_mul))"@,
        _ => "vec4<u32>(0u, 0u, 0u, 0u)"@,
    }
}

fn push_mix_tot_text(out: &mut String, op: PolyExtStep)
    ensures
        final(out)@ == old(out)@ + mix_tot_text(op),
{
    let ghost o = out@;
    match op {
        PolyExtStep::AndEqz(c, i) => {
            out.append("ext_add(m");
            push_num(out, c);
            out.append("_tot, ext_mul(m");
            push_num(out, c);
            out.append("_mul, f");
            push_num(out, i);
            out.append("))");
        },
        PolyExtStep::AndCond(c, cond, i) => {
            out.append("ext_add(m");
            push_num(out, c);
            out.append("_tot, ext_mul(ext_mul(f");
            push_num(out, cond);
            out.append(", m");
            push_num(out, i);
            out.append("_tot), m");
            push_num(out, c);
            out.append("_mul))");
        },
        _ => {
            out.append("vec4<u32>(0u, 0u, 0u, 0u)");
        },
    }
    assert(out@ =~= o + mix_tot_text(op));
}

fn push_mix_lines(out: &mut String, mix: usize, op: PolyExtStep)
    ensures
        final(out)@ == old(out)@ + tot_let(mix as nat, mix_tot_text(op)) + mul_line(mix as nat),
{
    let ghost o = out@;
    out.append("    let m");
    push_num(out, mix);
    out.append("_tot = ");
    push_mix_tot_text(out, op);
    out.append(";\n");
    let ghost o3 = out@;
    assert(o3 =~= o + tot_let(mix as nat, mix_tot_text(op)));
    out.append("    let m");
    push_num(out, mix);
    out.append("_mul = load_mix_pow(");
    push_num(out, mix);
    out.append("u);\n");
    assert(out@ =~= o3 + mul_line(mix as nat));
}

/// Appends the shader lines of one step.
fn push_step_lines(out: &mut String, op: PolyExtStep, fp: usize, mix: usize, taps: &[EvalCheckTap]) -> (r: Result<
    (),
    EvalCheckError,
>)
    requires
        match op {
            PolyExtStep::Get(t) => t < taps@.len() ==> taps@[t as int].back * INV_RATE <= usize::MAX,
            _ => true,
        },
    ensures
        match step_lines(op, fp as nat, mix as nat, taps@) {
            Ok(l) => r is Ok && final(out)@ == old(out)@ + l,
            Err(e) => r == Err::<(), EvalCheckError>(e),
        },
{
    let ghost o = out@;
    match op {
        PolyExtStep::Const(v) => push_const_lines(out, fp, v),
        PolyExtStep::ConstExt(a, b, c, d) => push_const_ext_lines(out, fp, a, b, c, d),
        PolyExtStep::Get(t) => {
            if t >= taps.len() {
                return Err(EvalCheckError::TapOutOfRange(t));
            }
            let tap = taps[t];
            if tap.group >= 3 {
                return Err(EvalCheckError::TapGroupUnsupported(tap.group));
            }
            push_tap_lines(out, fp, tap);
            assert(out@ =~= o + (tap_row_line(fp as nat, (tap.back * INV_RATE) as nat) + fp_let(
                fp as nat,
                tap_read_text(fp as nat, tap.group as nat, tap.offset as nat),
            )));
        },
        PolyExtStep::GetGlobal(arg, off) => {
            if arg >= 2 {
                return Err(EvalCheckError::GlobalArgUnsupported(arg));
            }
            push_global_lines(out, fp, arg, off);
        },
        PolyExtStep::Add(l, r) => push_bin_lines(out, fp, "ext_add", l, r),
        PolyExtStep::Sub(l, r) => push_bin_lines(out, fp, "ext_sub", l, r),
        PolyExtStep::Mul(l, r) => push_bin_lines(out, fp, "ext_mul", l, r),
        PolyExtStep::True | PolyExtStep::AndEqz(_, _) | PolyExtStep::AndCond(_, _, _) => {
            push_mix_lines(out, mix, op);
            assert(out@ =~= o + (tot_let(mix as nat, mix_tot_text(op)) + mul_line(mix as nat)));
        },
    }
    Ok(())
}

proof fn lemma_tape_lines_err_sticks(s: Seq<PolyExtStep>, taps: Seq<EvalCheckTap>, i: int)
    requires
        0 <= i <= s.len(),
        tape_lines(s.take(i), taps) is Err,
    ensures
        tape_lines(s, taps) == tape_lines(s.take(i), taps),
    decreases s.len() - i,
{
    if i < s.len() {
        assert(s.take(i + 1).drop_last() =~= s.take(i));
        lemma_tape_lines_err_sticks(s, taps, i + 1);
    } else {
        assert(s.take(i) =~= s);
    }
}

/// The fully unrolled check-polynomial shader for a tape: the prelude, one
/// `let` per step (two for a tap read, two for a mix step), the returned
/// mix total scaled by the zerofier inverse, and the result stores.
pub fn build_eval_check_wgsl_unrolled(taps: &[EvalCheckTap], def: &PolyExtStepDef) -> (res: Result<
    String,
    EvalCheckError,
>)
    requires
        tap_backs_fit(def.block@, taps@),
    ensures
        match unrolled_shader(def.block@, def.ret, taps@) {
            Ok(text) => res is Ok && res->Ok_0@ == text,
            Err(e) => res == Err::<String, EvalCheckError>(e),
        },
{
    let block = def.block;
    let mut wgsl = String::from_str(EVAL_CHECK_UNROLLED_PRELUDE);
    let mut fp: usize = 0;
    let mut mix: usize = 0;
    let mut i: usize = 0;
    assert(block@.take(0) =~= Seq::<PolyExtStep>::empty());
    assert(wgsl@ =~= EVAL_CHECK_UNROLLED_PRELUDE@ + Seq::<char>::empty());
    while i < block.len()
        invariant
            block@ == def.block@,
            tap_backs_fit(block@, taps@),
            i <= block@.len(),
            fp == fp_count(block@.take(i as int)),
            mix == mix_count(block@.take(i as int)),
            tape_lines(block@.take(i as int), taps@) is Ok,
            wgsl@ == EVAL_CHECK_UNROLLED_PRELUDE@ + tape_lines(block@.take(i as int), taps@)->Ok_0,
        decreases block@.len() - i,
    {
        let op = block[i];
        let ghost pre = block@.take(i as int);
        let ghost before = wgsl@;
        proof {
            assert(block@.take(i + 1).drop_last() =~= pre);
            assert(block@.take(i + 1).last() == op);
            lemma_fp_steps_push(pre, op);
            assert(block@.take(i + 1) =~= pre.push(op));
            lemma_fp_steps_len(pre);
            assert(tap_backs_fit(block@, taps@) ==> match block@[i as int] {
                PolyExtStep::Get(t) => t < taps@.len() ==> taps@[t as int].back * INV_RATE <= usize::MAX,
                _ => true,
            });
        }
        match push_step_lines(&mut wgsl, op, fp, mix, taps) {
            Ok(()) => {},
            Err(e) => {
                proof {
                    lemma_tape_lines_err_sticks(block@, taps@, i + 1);
                }
                return Err(e);
            },
        }
        proof {
            assert(wgsl@ =~= EVAL_CHECK_UNROLLED_PRELUDE@ + tape_lines(block@.take(i + 1), taps@)->Ok_0);
        }
        match op {
            PolyExtStep::True | PolyExtStep::AndEqz(_, _) | PolyExtStep::AndCond(_, _, _) => {
                mix = mix + 1;
            },
            _ => {
                fp = fp + 1;
            },
        }
        i = i + 1;
    }
    assert(block@.take(block@.len() as int) =~= block@);
    if def.ret >= mix {
        return Err(EvalCheckError::ReturnOutOfRange { ret: def.ret, mix_count: mix });
    }
    let ghost body = wgsl@;
    wgsl.append("    let result = ext_mul(m");
    push_num(&mut wgsl, def.ret);
    wgsl.append("_tot, vec4<u32>(zerofier_inv(cycle), 0u, 0u, 0u));\n");
    wgsl.append(EVAL_CHECK_UNROLLED_EPILOGUE);
    assert(wgsl@ =~= body + result_line(def.ret as nat) + EVAL_CHECK_UNROLLED_EPILOGUE@);
    Ok(wgsl)
}

} // verus!
