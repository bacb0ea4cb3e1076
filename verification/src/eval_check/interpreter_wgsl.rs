//! The interpreter shaders: fixed WGSL templates whose placeholders are
//! filled with the scratch sizes a tape needs.

use vstd::prelude::*;
use crate::text::{decimal, push_decimal};
use crate::dispatch::WEBGPU_MAX_WORKGROUPS_PER_DIMENSION;

verus! {

/// `s` with every match of `p` replaced by `t`, matches taken left to right
/// without overlap.
pub open spec fn replace_spec(s: Seq<char>, p: Seq<char>, t: Seq<char>) -> Seq<char>
    decreases s.len(),
{
    if p.len() == 0 || s.len() < p.len() {
        s
    } else if s.take(p.len() as int) == p {
        t + replace_spec(s.skip(p.len() as int), p, t)
    } else {
        seq![s[0]] + replace_spec(s.skip(1), p, t)
    }
}

/// `str::replace` of std with a string pattern: every non-overlapping match
/// of `from`, leftmost first, replaced by `to`.
#[verifier::external_body]
fn str_replace(s: &str, from: &str, to: &str) -> (r: String)
    requires
        from@.len() > 0,
    ensures
        r@ == replace_spec(s@, from@, to@),
{
    s.replace(from, to)
}

/// Template of the all-extension interpreter.
pub const EVAL_CHECK_INTERPRETER_WGSL: &'static str = r#"
const P: u32 = 2013265921u;
const M: u32 = 2281701377u;
const NBETA: u32 = 1073741848u;
const INSTRUCTION_WORDS: u32 = 8u;
const LINEAR_DISPATCH_STRIDE: u32 = 2097120u;

struct ElemBuffer {
    data: array<u32>,
};

struct Params {
    check_base: u32,
    group0_base: u32,
    group1_base: u32,
    group2_base: u32,
    global0_base: u32,
    global1_base: u32,
    domain: u32,
    instr_count: u32,
    instr_base: u32,
    mix_pows_base: u32,
    ret_mix_slot: u32,
    dispatch_count: u32,
    cycle_base: u32,
    group0_chunk_base: u32,
    group0_chunk_rows: u32,
    group1_chunk_base: u32,
    group1_chunk_rows: u32,
    group2_chunk_base: u32,
    group2_chunk_rows: u32,
    _pad0: u32,
    invs: vec4<u32>,
};

@group(0) @binding(0) var<storage, read_write> check: ElemBuffer;
@group(0) @binding(1) var<storage, read> group0: ElemBuffer;
@group(0) @binding(2) var<storage, read> group1: ElemBuffer;
@group(0) @binding(3) var<storage, read> group2: ElemBuffer;
@group(0) @binding(4) var<storage, read> global0: ElemBuffer;
@group(0) @binding(5) var<storage, read> global1: ElemBuffer;
@group(0) @binding(6) var<storage, read> instrs: ElemBuffer;
@group(0) @binding(7) var<storage, read> mix_pows: ElemBuffer;
@group(0) @binding(8) var<uniform> params: Params;

fn add(lhs: u32, rhs: u32) -> u32 {
    let sum = lhs + rhs;
    if (sum >= P) {
        return sum - P;
    }
    return sum;
}

fn sub(lhs: u32, rhs: u32) -> u32 {
    if (lhs >= rhs) {
        return lhs - rhs;
    }
    return lhs + P - rhs;
}

fn mul_wide(lhs: u32, rhs: u32) -> vec2<u32> {
    let lhs_lo = lhs & 0xffffu;
    let lhs_hi = lhs >> 16u;
    let rhs_lo = rhs & 0xffffu;
    let rhs_hi = rhs >> 16u;

    let p0 = lhs_lo * rhs_lo;
    let p1 = lhs_hi * rhs_lo;
    let p2 = lhs_lo * rhs_hi;
    let p3 = lhs_hi * rhs_hi;

    let carry = (p0 >> 16u) + (p1 & 0xffffu) + (p2 & 0xffffu);
    let lo = (p0 & 0xffffu) | ((carry & 0xffffu) << 16u);
    let hi = p3 + (p1 >> 16u) + (p2 >> 16u) + (carry >> 16u);
    return vec2<u32>(lo, hi);
}

fn mul(lhs: u32, rhs: u32) -> u32 {
    let product = mul_wide(lhs, rhs);
    let low = 0u - product.x;
    let red = M * low;
    let red_product = mul_wide(red, P);
    var ret = product.y + red_product.y;
    if (product.x + red_product.x < product.x) {
        ret = ret + 1u;
    }
    if (ret >= P) {
        return ret - P;
    }
    return ret;
}

fn ext_add(lhs: vec4<u32>, rhs: vec4<u32>) -> vec4<u32> {
    return vec4<u32>(
        add(lhs.x, rhs.x),
        add(lhs.y, rhs.y),
        add(lhs.z, rhs.z),
        add(lhs.w, rhs.w),
    );
}

fn ext_sub(lhs: vec4<u32>, rhs: vec4<u32>) -> vec4<u32> {
    return vec4<u32>(
        sub(lhs.x, rhs.x),
        sub(lhs.y, rhs.y),
        sub(lhs.z, rhs.z),
        sub(lhs.w, rhs.w),
    );
}

fn ext_mul(lhs: vec4<u32>, rhs: vec4<u32>) -> vec4<u32> {
    return vec4<u32>(
        add(
            mul(lhs.x, rhs.x),
            mul(NBETA, add(add(mul(lhs.y, rhs.w), mul(lhs.z, rhs.z)), mul(lhs.w, rhs.y))),
        ),
        add(
            add(mul(lhs.x, rhs.y), mul(lhs.y, rhs.x)),
            mul(NBETA, add(mul(lhs.z, rhs.w), mul(lhs.w, rhs.z))),
        ),
        add(
            add(add(mul(lhs.x, rhs.z), mul(lhs.y, rhs.y)), mul(lhs.z, rhs.x)),
            mul(NBETA, mul(lhs.w, rhs.w)),
        ),
        add(add(add(mul(lhs.x, rhs.w), mul(lhs.y, rhs.z)), mul(lhs.z, rhs.y)), mul(lhs.w, rhs.x)),
    );
}

fn instr_word(op_idx: u32, word_idx: u32) -> u32 {
    return instrs.data[params.instr_base + op_idx * INSTRUCTION_WORDS + word_idx];
}

fn load_mix_pow(mix_idx: u32) -> vec4<u32> {
    let base = params.mix_pows_base + mix_idx * 4u;
    return vec4<u32>(
        mix_pows.data[base + 0u],
        mix_pows.data[base + 1u],
        mix_pows.data[base + 2u],
        mix_pows.data[base + 3u],
    );
}

fn zerofier_inv(idx: u32) -> u32 {
    switch (idx & 3u) {
        case 0u: { return params.invs.x; }
        case 1u: { return params.invs.y; }
        case 2u: { return params.invs.z; }
        default: { return params.invs.w; }
    }
}

@compute @workgroup_size(32)
fn main(@builtin(global_invocation_id) gid: vec3<u32>) {
    let local_cycle = gid.x + gid.y * LINEAR_DISPATCH_STRIDE;
    if (local_cycle >= params.dispatch_count) {
        return;
    }
    let cycle = params.cycle_base + local_cycle;
    if (cycle >= params.domain) {
        return;
    }

    var fp: array<vec4<u32>, {FP_SLOTS}>;
    var mix_tot: array<vec4<u32>, {MIX_SLOTS}>;
    var mix_mul: array<vec4<u32>, {MIX_SLOTS}>;

    for (var op_idx = 0u; op_idx < params.instr_count; op_idx = op_idx + 1u) {
        let op = instr_word(op_idx, 0u);
        switch (op) {
            case 0u: {
                fp[instr_word(op_idx, 1u)] =
                    vec4<u32>(instr_word(op_idx, 2u), 0u, 0u, 0u);
            }
            case 1u: {
                fp[instr_word(op_idx, 1u)] = vec4<u32>(
                    instr_word(op_idx, 2u),
                    instr_word(op_idx, 3u),
                    instr_word(op_idx, 4u),
                    instr_word(op_idx, 5u),
                );
            }
            case 2u: {
                let out = instr_word(op_idx, 1u);
                let group_id = instr_word(op_idx, 2u);
                let offset = instr_word(op_idx, 3u);
                let back = instr_word(op_idx, 4u);
                let row = (cycle + params.domain - (back % params.domain)) % params.domain;
                var value = 0u;
                if (group_id == 0u) {
                    let local_row =
                        (row + params.domain - (params.group0_chunk_base % params.domain)) %
                        params.domain;
                    value = group0.data[
                        params.group0_base + offset * params.group0_chunk_rows + local_row
                    ];
                } else if (group_id == 1u) {
                    let local_row =
                        (row + params.domain - (params.group1_chunk_base % params.domain)) %
                        params.domain;
                    value = group1.data[
                        params.group1_base + offset * params.group1_chunk_rows + local_row
                    ];
                } else {
                    let local_row =
                        (row + params.domain - (params.group2_chunk_base % params.domain)) %
                        params.domain;
                    value = group2.data[
                        params.group2_base + offset * params.group2_chunk_rows + local_row
                    ];
                }
                fp[out] = vec4<u32>(value, 0u, 0u, 0u);
            }
            case 3u: {
                let out = instr_word(op_idx, 1u);
                let arg = instr_word(op_idx, 2u);
                let offset = instr_word(op_idx, 3u);
                var value = 0u;
                if (arg == 0u) {
                    value = global0.data[params.global0_base + offset];
                } else {
                    value = global1.data[params.global1_base + offset];
                }
                fp[out] = vec4<u32>(value, 0u, 0u, 0u);
            }
            case 4u: {
                fp[instr_word(op_idx, 1u)] =
                    ext_add(fp[instr_word(op_idx, 2u)], fp[instr_word(op_idx, 3u)]);
            }
            case 5u: {
                fp[instr_word(op_idx, 1u)] =
                    ext_sub(fp[instr_word(op_idx, 2u)], fp[instr_word(op_idx, 3u)]);
            }
            case 6u: {
                fp[instr_word(op_idx, 1u)] =
                    ext_mul(fp[instr_word(op_idx, 2u)], fp[instr_word(op_idx, 3u)]);
            }
            case 7u: {
                let out = instr_word(op_idx, 1u);
                mix_tot[out] = vec4<u32>(0u, 0u, 0u, 0u);
                mix_mul[out] = load_mix_pow(instr_word(op_idx, 2u));
            }
            case 8u: {
                let out = instr_word(op_idx, 1u);
                let chain = instr_word(op_idx, 2u);
                let inner = instr_word(op_idx, 3u);
                mix_tot[out] = ext_add(mix_tot[chain], ext_mul(mix_mul[chain], fp[inner]));
                mix_mul[out] = load_mix_pow(instr_word(op_idx, 4u));
            }
            case 9u: {
                let out = instr_word(op_idx, 1u);
                let chain = instr_word(op_idx, 2u);
                let cond = instr_word(op_idx, 3u);
                let inner = instr_word(op_idx, 4u);
                mix_tot[out] =
                    ext_add(mix_tot[chain], ext_mul(ext_mul(fp[cond], mix_tot[inner]), mix_mul[chain]));
                mix_mul[out] = load_mix_pow(instr_word(op_idx, 5u));
            }
            default: {}
        }
    }

    let result = ext_mul(
        mix_tot[params.ret_mix_slot],
        vec4<u32>(zerofier_inv(cycle), 0u, 0u, 0u),
    );
    check.data[params.check_base + 0u * params.domain + cycle] = result.x;
    check.data[params.check_base + 1u * params.domain + cycle] = result.y;
    check.data[params.check_base + 2u * params.domain + cycle] = result.z;
    check.data[params.check_base + 3u * params.domain + cycle] = result.w;
}
"#;

/// Template of the hybrid base-field interpreter.
pub const EVAL_CHECK_BASE_INTERPRETER_WGSL: &'static str = r#"
const P: u32 = 2013265921u;
const M: u32 = 2281701377u;
const NBETA: u32 = 1073741848u;
const INSTRUCTION_WORDS: u32 = 8u;
const LINEAR_DISPATCH_STRIDE: u32 = {LINEAR_DISPATCH_STRIDE}u;

struct ElemBuffer {
    data: array<u32>,
};

struct Params {
    check_base: u32,
    group0_base: u32,
    group1_base: u32,
    group2_base: u32,
    global0_base: u32,
    global1_base: u32,
    domain: u32,
    instr_count: u32,
    instr_base: u32,
    mix_pows_base: u32,
    ret_mix_slot: u32,
    dispatch_count: u32,
    cycle_base: u32,
    group0_chunk_base: u32,
    group0_chunk_rows: u32,
    group1_chunk_base: u32,
    group1_chunk_rows: u32,
    group2_chunk_base: u32,
    group2_chunk_rows: u32,
    _pad0: u32,
    invs: vec4<u32>,
};

@group(0) @binding(0) var<storage, read_write> check: ElemBuffer;
@group(0) @binding(1) var<storage, read> group0: ElemBuffer;
@group(0) @binding(2) var<storage, read> group1: ElemBuffer;
@group(0) @binding(3) var<storage, read> group2: ElemBuffer;
@group(0) @binding(4) var<storage, read> global0: ElemBuffer;
@group(0) @binding(5) var<storage, read> global1: ElemBuffer;
@group(0) @binding(6) var<storage, read> instrs: ElemBuffer;
@group(0) @binding(7) var<storage, read> mix_pows: ElemBuffer;
@group(0) @binding(8) var<uniform> params: Params;

{BASE_SCRATCH_DECLS}

fn add(lhs: u32, rhs: u32) -> u32 {
    let sum = lhs + rhs;
    if (sum >= P) {
        return sum - P;
    }
    return sum;
}

fn sub(lhs: u32, rhs: u32) -> u32 {
    if (lhs >= rhs) {
        return lhs - rhs;
    }
    return lhs + P - rhs;
}

fn mul_wide(lhs: u32, rhs: u32) -> vec2<u32> {
    let lhs_lo = lhs & 0xffffu;
    let lhs_hi = lhs >> 16u;
    let rhs_lo = rhs & 0xffffu;
    let rhs_hi = rhs >> 16u;

    let p0 = lhs_lo * rhs_lo;
    let p1 = lhs_hi * rhs_lo;
    let p2 = lhs_lo * rhs_hi;
    let p3 = lhs_hi * rhs_hi;

    let carry = (p0 >> 16u) + (p1 & 0xffffu) + (p2 & 0xffffu);
    let lo = (p0 & 0xffffu) | ((carry & 0xffffu) << 16u);
    let hi = p3 + (p1 >> 16u) + (p2 >> 16u) + (carry >> 16u);
    return vec2<u32>(lo, hi);
}

fn mul(lhs: u32, rhs: u32) -> u32 {
    let product = mul_wide(lhs, rhs);
    let low = 0u - product.x;
    let red = M * low;
    let red_product = mul_wide(red, P);
    var ret = product.y + red_product.y;
    if (product.x + red_product.x < product.x) {
        ret = ret + 1u;
    }
    if (ret >= P) {
        return ret - P;
    }
    return ret;
}

fn ext_add(lhs: vec4<u32>, rhs: vec4<u32>) -> vec4<u32> {
    return vec4<u32>(
        add(lhs.x, rhs.x),
        add(lhs.y, rhs.y),
        add(lhs.z, rhs.z),
        add(lhs.w, rhs.w),
    );
}

fn ext_mul(lhs: vec4<u32>, rhs: vec4<u32>) -> vec4<u32> {
    return vec4<u32>(
        add(
            mul(lhs.x, rhs.x),
            mul(NBETA, add(add(mul(lhs.y, rhs.w), mul(lhs.z, rhs.z)), mul(lhs.w, rhs.y))),
        ),
        add(
            add(mul(lhs.x, rhs.y), mul(lhs.y, rhs.x)),
            mul(NBETA, add(mul(lhs.z, rhs.w), mul(lhs.w, rhs.z))),
        ),
        add(
            add(add(mul(lhs.x, rhs.z), mul(lhs.y, rhs.y)), mul(lhs.z, rhs.x)),
            mul(NBETA, mul(lhs.w, rhs.w)),
        ),
        add(add(add(mul(lhs.x, rhs.w), mul(lhs.y, rhs.z)), mul(lhs.z, rhs.y)), mul(lhs.w, rhs.x)),
    );
}

fn ext_sub(lhs: vec4<u32>, rhs: vec4<u32>) -> vec4<u32> {
    return vec4<u32>(
        sub(lhs.x, rhs.x),
        sub(lhs.y, rhs.y),
        sub(lhs.z, rhs.z),
        sub(lhs.w, rhs.w),
    );
}

fn ext_scale(lhs: vec4<u32>, rhs: u32) -> vec4<u32> {
    return vec4<u32>(
        mul(lhs.x, rhs),
        mul(lhs.y, rhs),
        mul(lhs.z, rhs),
        mul(lhs.w, rhs),
    );
}

fn promote(value: u32) -> vec4<u32> {
    return vec4<u32>(value, 0u, 0u, 0u);
}

fn instr_word(op_idx: u32, word_idx: u32) -> u32 {
    return instrs.data[params.instr_base + op_idx * INSTRUCTION_WORDS + word_idx];
}

fn load_mix_pow(mix_idx: u32) -> vec4<u32> {
    let base = params.mix_pows_base + mix_idx * 4u;
    return vec4<u32>(
        mix_pows.data[base + 0u],
        mix_pows.data[base + 1u],
        mix_pows.data[base + 2u],
        mix_pows.data[base + 3u],
    );
}

fn zerofier_inv(idx: u32) -> u32 {
    switch (idx & 3u) {
        case 0u: { return params.invs.x; }
        case 1u: { return params.invs.y; }
        case 2u: { return params.invs.z; }
        default: { return params.invs.w; }
    }
}

{EXT_BANK_DECLS}

{MIX_BANK_DECLS}

@compute @workgroup_size({WORKGROUP_SIZE})
fn main(
    @builtin(global_invocation_id) gid: vec3<u32>,
    @builtin(local_invocation_id) lid: vec3<u32>,
) {
    let local_cycle = gid.x + gid.y * LINEAR_DISPATCH_STRIDE;
    if (local_cycle >= params.dispatch_count) {
        return;
    }
    let cycle = params.cycle_base + local_cycle;
    if (cycle >= params.domain) {
        return;
    }

{BASE_LOCAL_DECLS}

    let lane = {LANE_INDEX};
    for (var op_idx = 0u; op_idx < params.instr_count; op_idx = op_idx + 1u) {
        let op = instr_word(op_idx, 0u);
        switch (op) {
            case 0u: {
                fp[lane][instr_word(op_idx, 1u)] = instr_word(op_idx, 2u);
            }
            case 2u: {
                let out = instr_word(op_idx, 1u);
                let group_id = instr_word(op_idx, 2u);
                let offset = instr_word(op_idx, 3u);
                let back = instr_word(op_idx, 4u);
                let row = (cycle + params.domain - (back % params.domain)) % params.domain;
                var value = 0u;
                if (group_id == 0u) {
                    let local_row =
                        (row + params.domain - (params.group0_chunk_base % params.domain)) %
                        params.domain;
                    value = group0.data[
                        params.group0_base + offset * params.group0_chunk_rows + local_row
                    ];
                } else if (group_id == 1u) {
                    let local_row =
                        (row + params.domain - (params.group1_chunk_base % params.domain)) %
                        params.domain;
                    value = group1.data[
                        params.group1_base + offset * params.group1_chunk_rows + local_row
                    ];
                } else {
                    let local_row =
                        (row + params.domain - (params.group2_chunk_base % params.domain)) %
                        params.domain;
                    value = group2.data[
                        params.group2_base + offset * params.group2_chunk_rows + local_row
                    ];
                }
                fp[lane][out] = value;
            }
            case 3u: {
                let out = instr_word(op_idx, 1u);
                let arg = instr_word(op_idx, 2u);
                let offset = instr_word(op_idx, 3u);
                var value = 0u;
                if (arg == 0u) {
                    value = global0.data[params.global0_base + offset];
                } else {
                    value = global1.data[params.global1_base + offset];
                }
                fp[lane][out] = value;
            }
            case 4u: {
                fp[lane][instr_word(op_idx, 1u)] =
                    add(fp[lane][instr_word(op_idx, 2u)], fp[lane][instr_word(op_idx, 3u)]);
            }
            case 5u: {
                fp[lane][instr_word(op_idx, 1u)] =
                    sub(fp[lane][instr_word(op_idx, 2u)], fp[lane][instr_word(op_idx, 3u)]);
            }
            case 6u: {
                fp[lane][instr_word(op_idx, 1u)] =
                    mul(fp[lane][instr_word(op_idx, 2u)], fp[lane][instr_word(op_idx, 3u)]);
            }
            case 7u: {
                let out = instr_word(op_idx, 1u);
                mix_tot_store(lane, out, vec4<u32>(0u, 0u, 0u, 0u));
                mix_mul_store(lane, out, load_mix_pow(instr_word(op_idx, 2u)));
            }
            case 8u: {
                let out = instr_word(op_idx, 1u);
                let chain = instr_word(op_idx, 2u);
                let inner = instr_word(op_idx, 3u);
                mix_tot_store(lane, out, ext_add(
                    mix_tot_load(lane, chain),
                    ext_scale(mix_mul_load(lane, chain), fp[lane][inner]),
                ));
                mix_mul_store(lane, out, load_mix_pow(instr_word(op_idx, 4u)));
            }
            case 9u: {
                let out = instr_word(op_idx, 1u);
                let chain = instr_word(op_idx, 2u);
                let cond = instr_word(op_idx, 3u);
                let inner = instr_word(op_idx, 4u);
                mix_tot_store(lane, out, ext_add(
                    mix_tot_load(lane, chain),
                    ext_scale(
                        ext_mul(mix_tot_load(lane, inner), mix_mul_load(lane, chain)),
                        fp[lane][cond],
                    ),
                ));
                mix_mul_store(lane, out, load_mix_pow(instr_word(op_idx, 5u)));
            }
            case 1u: {
                ext_store(lane, instr_word(op_idx, 1u), vec4<u32>(
                    instr_word(op_idx, 2u),
                    instr_word(op_idx, 3u),
                    instr_word(op_idx, 4u),
                    instr_word(op_idx, 5u),
                ));
            }
            case 10u: {
                ext_store(lane, instr_word(op_idx, 1u), ext_add(
                    ext_load(lane, instr_word(op_idx, 2u)),
                    ext_load(lane, instr_word(op_idx, 3u)),
                ));
            }
            case 11u: {
                ext_store(lane, instr_word(op_idx, 1u), ext_add(
                    ext_load(lane, instr_word(op_idx, 2u)),
                    promote(fp[lane][instr_word(op_idx, 3u)]),
                ));
            }
            case 12u: {
                ext_store(lane, instr_word(op_idx, 1u), ext_sub(
                    ext_load(lane, instr_word(op_idx, 2u)),
                    ext_load(lane, instr_word(op_idx, 3u)),
                ));
            }
            case 13u: {
                ext_store(lane, instr_word(op_idx, 1u), ext_sub(
                    ext_load(lane, instr_word(op_idx, 2u)),
                    promote(fp[lane][instr_word(op_idx, 3u)]),
                ));
            }
            case 14u: {
                ext_store(lane, instr_word(op_idx, 1u), ext_sub(
                    promote(fp[lane][instr_word(op_idx, 2u)]),
                    ext_load(lane, instr_word(op_idx, 3u)),
                ));
            }
            case 15u: {
                ext_store(lane, instr_word(op_idx, 1u), ext_mul(
                    ext_load(lane, instr_word(op_idx, 2u)),
                    ext_load(lane, instr_word(op_idx, 3u)),
                ));
            }
            case 16u: {
                ext_store(lane, instr_word(op_idx, 1u), ext_scale(
                    ext_load(lane, instr_word(op_idx, 2u)),
                    fp[lane][instr_word(op_idx, 3u)],
                ));
            }
            case 17u: {
                let out = instr_word(op_idx, 1u);
                let chain = instr_word(op_idx, 2u);
                let inner = instr_word(op_idx, 3u);
                mix_tot_store(lane, out, ext_add(
                    mix_tot_load(lane, chain),
                    ext_mul(mix_mul_load(lane, chain), ext_load(lane, inner)),
                ));
                mix_mul_store(lane, out, load_mix_pow(instr_word(op_idx, 4u)));
            }
            case 18u: {
                let out = instr_word(op_idx, 1u);
                let chain = instr_word(op_idx, 2u);
                let cond = instr_word(op_idx, 3u);
                let inner = instr_word(op_idx, 4u);
                mix_tot_store(lane, out, ext_add(
                    mix_tot_load(lane, chain),
                    ext_mul(
                        ext_mul(mix_tot_load(lane, inner), mix_mul_load(lane, chain)),
                        ext_load(lane, cond),
                    ),
                ));
                mix_mul_store(lane, out, load_mix_pow(instr_word(op_idx, 5u)));
            }
            default: {}
        }
    }

    let result = ext_scale(mix_tot_load(lane, params.ret_mix_slot), zerofier_inv(cycle));
    check.data[params.check_base + 0u * params.domain + cycle] = result.x;
    check.data[params.check_base + 1u * params.domain + cycle] = result.y;
    check.data[params.check_base + 2u * params.domain + cycle] = result.z;
    check.data[params.check_base + 3u * params.domain + cycle] = result.w;
}
"#;

/// Scratch-bank helpers of the extension bank, per-invocation scratch.
pub const EXT_BANK_PRIVATE_FNS: &'static str = r#"fn ext_load(lane: u32, idx: u32) -> vec4<u32> {
let base = idx * 4u;
return vec4<u32>(fpe[base], fpe[base + 1u], fpe[base + 2u], fpe[base + 3u]);
}
fn ext_store(lane: u32, idx: u32, value: vec4<u32>) {
let base = idx * 4u;
fpe[base] = value.x;
fpe[base + 1u] = value.y;
fpe[base + 2u] = value.z;
fpe[base + 3u] = value.w;
}"#;

/// Scratch-bank helpers of the extension bank, per-lane workgroup scratch.
pub const EXT_BANK_SHARED_FNS: &'static str = r#"fn ext_load(lane: u32, idx: u32) -> vec4<u32> {
let base = idx * 4u;
return vec4<u32>(fpe[lane][base], fpe[lane][base + 1u], fpe[lane][base + 2u], fpe[lane][base + 3u]);
}
fn ext_store(lane: u32, idx: u32, value: vec4<u32>) {
let base = idx * 4u;
fpe[lane][base] = value.x;
fpe[lane][base + 1u] = value.y;
fpe[lane][base + 2u] = value.z;
fpe[lane][base + 3u] = value.w;
}"#;

/// Scratch-bank helpers of the mix bank, per-invocation scratch.
pub const MIX_BANK_PRIVATE_FNS: &'static str = r#"fn mix_tot_load(lane: u32, idx: u32) -> vec4<u32> {
let base = idx * 4u;
return vec4<u32>(mixw_tot[base], mixw_tot[base + 1u], mixw_tot[base + 2u], mixw_tot[base + 3u]);
}
fn mix_tot_store(lane: u32, idx: u32, value: vec4<u32>) {
let base = idx * 4u;
mixw_tot[base] = value.x;
mixw_tot[base + 1u] = value.y;
mixw_tot[base + 2u] = value.z;
mixw_tot[base + 3u] = value.w;
}
fn mix_mul_load(lane: u32, idx: u32) -> vec4<u32> {
let base = idx * 4u;
return vec4<u32>(mixw_mul[base], mixw_mul[base + 1u], mixw_mul[base + 2u], mixw_mul[base + 3u]);
}
fn mix_mul_store(lane: u32, idx: u32, value: vec4<u32>) {
let base = idx * 4u;
mixw_mul[base] = value.x;
mixw_mul[base + 1u] = value.y;
mixw_mul[base + 2u] = value.z;
mixw_mul[base + 3u] = value.w;
}"#;

/// Scratch-bank helpers of the mix bank, per-lane workgroup scratch.
pub const MIX_BANK_SHARED_FNS: &'static str = r#"fn mix_tot_load(lane: u32, idx: u32) -> vec4<u32> {
let base = idx * 4u;
return vec4<u32>(mixw_tot[lane][base], mixw_tot[lane][base + 1u], mixw_tot[lane][base + 2u], mixw_tot[lane][base + 3u]);
}
fn mix_tot_store(lane: u32, idx: u32, value: vec4<u32>) {
let base = idx * 4u;
mixw_tot[lane][base] = value.x;
mixw_tot[lane][base + 1u] = value.y;
mixw_tot[lane][base + 2u] = value.z;
mixw_tot[lane][base + 3u] = value.w;
}
fn mix_mul_load(lane: u32, idx: u32) -> vec4<u32> {
let base = idx * 4u;
return vec4<u32>(mixw_mul[lane][base], mixw_mul[lane][base + 1u], mixw_mul[lane][base + 2u], mixw_mul[lane][base + 3u]);
}
fn mix_mul_store(lane: u32, idx: u32, value: vec4<u32>) {
let base = idx * 4u;
mixw_mul[lane][base] = value.x;
mixw_mul[lane][base + 1u] = value.y;
mixw_mul[lane][base + 2u] = value.z;
mixw_mul[lane][base + 3u] = value.w;
}"#;

pub open spec fn at_least_one(n: int) -> int {
    if n > 1 {
        n
    } else {
        1
    }
}

/// The all-extension interpreter for `fp_slots` and `mix_slots` scratch
/// slots (each at least one).
pub open spec fn interpreter_wgsl(fp_slots: usize, mix_slots: usize) -> Seq<char> {
    replace_spec(
        replace_spec(
            EVAL_CHECK_INTERPRETER_WGSL@,
            "{FP_SLOTS}"@,
            decimal(at_least_one(fp_slots as int) as nat),
        ),
        "{MIX_SLOTS}"@,
        decimal(at_least_one(mix_slots as int) as nat),
    )
}

fn decimal_string(n: u64) -> (s: String)
    ensures
        s@ == decimal(n as nat),
{
    let mut s = String::new();
    push_decimal(&mut s, n);
    assert(s@ =~= Seq::<char>::empty() + decimal(n as nat));
    s
}

/// The all-extension interpreter shader sized for `fp_slots` fp values and
/// `mix_slots` mix values.
pub fn build_eval_check_interpreter_wgsl(fp_slots: usize, mix_slots: usize) -> (wgsl: String)
    ensures
        wgsl@ == interpreter_wgsl(fp_slots, mix_slots),
{
    let fp = if fp_slots > 1 { fp_slots } else { 1 };
    let mix = if mix_slots > 1 { mix_slots } else { 1 };
    let fp_text = decimal_string(fp as u64);
    let mix_text = decimal_string(mix as u64);
    proof {
        reveal_strlit("{FP_SLOTS}");
        reveal_strlit("{MIX_SLOTS}");
    }
    let with_fp = str_replace(EVAL_CHECK_INTERPRETER_WGSL, "{FP_SLOTS}", fp_text.as_str());
    str_replace(with_fp.as_str(), "{MIX_SLOTS}", mix_text.as_str())
}

/// Declaration of the base-field scratch bank shared by a workgroup's
/// lanes (none with per-invocation scratch).
pub open spec fn scratch_decls_text(private: bool, fp: nat, lanes: nat) -> Seq<char> {
    if private {
        Seq::empty()
    } else {
        "var<workgroup> fp: array<array<u32, "@ + decimal(fp) + ">, "@ + decimal(lanes) + ">;"@
    }
}

/// Declaration of the per-invocation base-field scratch bank (none with
/// workgroup scratch).
pub open spec fn local_decls_text(private: bool, fp: nat) -> Seq<char> {
    if private {
        "    var fp: array<u32, "@ + decimal(fp) + ">;"@
    } else {
        Seq::empty()
    }
}

/// Declarations of the extension bank of `words` words and its helpers.
pub open spec fn ext_decls_text(private: bool, words: nat, lanes: nat) -> Seq<char> {
    if private {
        "var<private> fpe: array<u32, "@ + decimal(words) + ">;\n"@ + EXT_BANK_PRIVATE_FNS@
    } else {
        "var<workgroup> fpe: array<array<u32, "@ + decimal(words) + ">, "@ + decimal(lanes) + ">;\n"@
            + EXT_BANK_SHARED_FNS@
    }
}

/// Declarations of the mix banks of `words` words each and their helpers.
pub open spec fn mix_decls_text(private: bool, words: nat, lanes: nat) -> Seq<char> {
    if private {
        "var<private> mixw_tot: array<u32, "@ + decimal(words) + ">;\nvar<private> mixw_mul: array<u32, "@
            + decimal(words) + ">;\n"@ + MIX_BANK_PRIVATE_FNS@
    } else {
        "var<workgroup> mixw_tot: array<array<u32, "@ + decimal(words) + ">, "@ + decimal(lanes)
            + ">;\nvar<workgroup> mixw_mul: array<array<u32, "@ + decimal(words) + ">, "@ + decimal(lanes)
            + ">;\n"@ + MIX_BANK_SHARED_FNS@
    }
}

/// The hybrid base-field interpreter: the template with its placeholders
/// filled, and with per-invocation scratch the per-lane index of the base
/// bank dropped.
pub open spec fn base_interpreter_wgsl(
    fp_slots: usize,
    ext_slots: usize,
    mix_slots: usize,
    private: bool,
    workgroup_size: u32,
) -> Seq<char> {
    let fp = at_least_one(fp_slots as int) as nat;
    let ext = at_least_one(ext_slots as int);
    let mix = at_least_one(mix_slots as int) as nat;
    let lanes: nat = if private { 1 } else { workgroup_size as nat };
    let w = replace_spec(
        replace_spec(
            replace_spec(
                replace_spec(
                    replace_spec(
                        replace_spec(
                            replace_spec(
                                replace_spec(
                                    replace_spec(EVAL_CHECK_BASE_INTERPRETER_WGSL@, "{FP_SLOTS}"@, decimal(fp)),
                                    "{MIX_SLOTS}"@,
                                    decimal(mix),
                                ),
                                "{BASE_SCRATCH_DECLS}"@,
                                scratch_decls_text(private, fp, lanes),
                            ),
                            "{BASE_LOCAL_DECLS}"@,
                            local_decls_text(private, fp),
                        ),
                        "{EXT_BANK_DECLS}"@,
                        ext_decls_text(private, (ext * 4) as nat, lanes),
                    ),
                    "{MIX_BANK_DECLS}"@,
                    mix_decls_text(private, mix * 4, lanes),
                ),
                "{LANE_INDEX}"@,
                if private { "0u"@ } else { "lid.x"@ },
            ),
            "{WORKGROUP_SIZE}"@,
            decimal(workgroup_size as nat),
        ),
        "{LINEAR_DISPATCH_STRIDE}"@,
        decimal((workgroup_size * WEBGPU_MAX_WORKGROUPS_PER_DIMENSION) as nat),
    );
    if private {
        replace_spec(w, "fp[lane]"@, "fp"@)
    } else {
        w
    }
}

fn scratch_decls(private: bool, fp: usize, lanes: u32) -> (s: String)
    ensures
        s@ == scratch_decls_text(private, fp as nat, lanes as nat),
{
    let mut s = String::new();
    if !private {
        s.append("var<workgroup> fp: array<array<u32, ");
        push_decimal(&mut s, fp as u64);
        s.append(">, ");
        push_decimal(&mut s, lanes as u64);
        s.append(">;");
    }
    assert(s@ =~= scratch_decls_text(private, fp as nat, lanes as nat));
    s
}

fn local_decls(private: bool, fp: usize) -> (s: String)
    ensures
        s@ == local_decls_text(private, fp as nat),
{
    let mut s = String::new();
    if private {
        s.append("    var fp: array<u32, ");
        push_decimal(&mut s, fp as u64);
        s.append(">;");
    }
    assert(s@ =~= local_decls_text(private, fp as nat));
    s
}

fn ext_decls(private: bool, words: usize, lanes: u32) -> (s: String)
    ensures
        s@ == ext_decls_text(private, words as nat, lanes as nat),
{
    let mut s = String::new();
    if private {
        s.append("var<private> fpe: array<u32, ");
        push_decimal(&mut s, words as u64);
        s.append(">;\n");
        s.append(EXT_BANK_PRIVATE_FNS);
    } else {
        s.append("var<workgroup> fpe: array<array<u32, ");
        push_decimal(&mut s, words as u64);
        s.append(">, ");
        push_decimal(&mut s, lanes as u64);
        s.append(">;\n");
        s.append(EXT_BANK_SHARED_FNS);
    }
    assert(s@ =~= ext_decls_text(private, words as nat, lanes as nat));
    s
}

fn mix_decls(private: bool, words: usize, lanes: u32) -> (s: String)
    ensures
        s@ == mix_decls_text(private, words as nat, lanes as nat),
{
    let mut s = String::new();
    if private {
        s.append("var<private> mixw_tot: array<u32, ");
        push_decimal(&mut s, words as u64);
        s.append(">;\nvar<private> mixw_mul: array<u32, ");
        push_decimal(&mut s, words as u64);
        s.append(">;\n");
        s.append(MIX_BANK_PRIVATE_FNS);
    } else {
        s.append("var<workgroup> mixw_tot: array<array<u32, ");
        push_decimal(&mut s, words as u64);
        s.append(">, ");
        push_decimal(&mut s, lanes as u64);
        s.append(">;\nvar<workgroup> mixw_mul: array<array<u32, ");
        push_decimal(&mut s, words as u64);
        s.append(">, ");
        push_decimal(&mut s, lanes as u64);
        s.append(">;\n");
        s.append(MIX_BANK_SHARED_FNS);
    }
    assert(s@ =~= mix_decls_text(private, words as nat, lanes as nat));
    s
}

/// The hybrid base-field interpreter shader for the given scratch sizes,
/// with per-invocation scratch (`private_parallel`) or per-lane workgroup
/// scratch for `workgroup_size` lanes.
pub fn build_eval_check_base_interpreter_wgsl(
    fp_slots: usize,
    ext_slots: usize,
    mix_slots: usize,
    private_parallel: bool,
    workgroup_size: u32,
) -> (wgsl: String)
    requires
        at_least_one(ext_slots as int) * 4 <= usize::MAX,
        at_least_one(mix_slots as int) * 4 <= usize::MAX,
        workgroup_size * WEBGPU_MAX_WORKGROUPS_PER_DIMENSION <= u32::MAX,
    ensures
        wgsl@ == base_interpreter_wgsl(fp_slots, ext_slots, mix_slots, private_parallel, workgroup_size),
{
    let fp = if fp_slots > 1 { fp_slots } else { 1 };
    let ext = if ext_slots > 1 { ext_slots } else { 1 };
    let mix = if mix_slots > 1 { mix_slots } else { 1 };
    let ext_words = ext * 4;
    let mix_words = mix * 4;
    let scratch_lanes: u32 = if private_parallel { 1 } else { workgroup_size };
    let lane_index = if private_parallel { "0u" } else { "lid.x" };
    let stride = workgroup_size * WEBGPU_MAX_WORKGROUPS_PER_DIMENSION;
    proof {
        reveal_strlit("{FP_SLOTS}");
        reveal_strlit("{MIX_SLOTS}");
        reveal_strlit("{BASE_SCRATCH_DECLS}");
        reveal_strlit("{BASE_LOCAL_DECLS}");
        reveal_strlit("{EXT_BANK_DECLS}");
        reveal_strlit("{MIX_BANK_DECLS}");
        reveal_strlit("{LANE_INDEX}");
        reveal_strlit("{WORKGROUP_SIZE}");
        reveal_strlit("{LINEAR_DISPATCH_STRIDE}");
        reveal_strlit("fp[lane]");
    }
    let w = str_replace(EVAL_CHECK_BASE_INTERPRETER_WGSL, "{FP_SLOTS}", decimal_string(fp as u64).as_str());
    let w = str_replace(w.as_str(), "{MIX_SLOTS}", decimal_string(mix as u64).as_str());
    let w = str_replace(w.as_str(), "{BASE_SCRATCH_DECLS}", scratch_decls(private_parallel, fp, scratch_lanes).as_str());
    let w = str_replace(w.as_str(), "{BASE_LOCAL_DECLS}", local_decls(private_parallel, fp).as_str());
    let w = str_replace(w.as_str(), "{EXT_BANK_DECLS}", ext_decls(private_parallel, ext_words, scratch_lanes).as_str());
    let w = str_replace(w.as_str(), "{MIX_BANK_DECLS}", mix_decls(private_parallel, mix_words, scratch_lanes).as_str());
    let w = str_replace(w.as_str(), "{LANE_INDEX}", lane_index);
    let w = str_replace(w.as_str(), "{WORKGROUP_SIZE}", decimal_string(workgroup_size as u64).as_str());
    let w = str_replace(w.as_str(), "{LINEAR_DISPATCH_STRIDE}", decimal_string(stride as u64).as_str());
    if private_parallel {
        str_replace(w.as_str(), "fp[lane]", "fp")
    } else {
        w
    }
}

} // verus!
