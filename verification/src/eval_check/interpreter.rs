//! The instruction stream of the all-extension interpreter shader: eight
//! words per tape step, naming the scratch slots the step reads and writes.

use vstd::prelude::*;
use super::tape::{
    PolyExtStep, PolyExtStepDef, EvalCheckError, EvalCheckTap, is_fp_step, fp_count, mix_count, fp_steps,
    lemma_fp_steps_len, lemma_fp_steps_push,
};
use super::slots::{
    last_fp_uses, last_mix_uses, last_uses_error, reads_error, slot_run, tape_slots, live_after,
    eval_check_last_uses_block, eval_check_mix_slot, EvalCheckSlotAllocator, slot_step, lemma_run_inv,
    lemma_take_step, lemma_reads_ok_at, reads_fp, reads_mix, fp_slot_kept, mix_slot_kept, lemma_operands_kept,
};
use super::reorder::{reordered, reorder_valid, eval_check_reorder_lazy, lazy_order, from_fp_steps, lemma_lazy_walk_from};
use super::powers::INV_RATE;
use crate::field::{mont_encode, elem_const_word};

verus! {

/// Words per interpreter instruction.
pub const WEBGPU_EVAL_CHECK_INSTRUCTION_WORDS: usize = 8;

/// Most fp scratch slots the interpreter shader may declare.
pub const WEBGPU_EVAL_CHECK_MAX_FP_SLOTS: usize = 1536;

/// Most mix scratch slots the interpreter shader may declare.
pub const WEBGPU_EVAL_CHECK_MAX_MIX_SLOTS: usize = 64;

pub const WEBGPU_EVAL_OP_CONST: u32 = 0;
pub const WEBGPU_EVAL_OP_CONST_EXT: u32 = 1;
pub const WEBGPU_EVAL_OP_GET: u32 = 2;
pub const WEBGPU_EVAL_OP_GET_GLOBAL: u32 = 3;
pub const WEBGPU_EVAL_OP_ADD: u32 = 4;
pub const WEBGPU_EVAL_OP_SUB: u32 = 5;
pub const WEBGPU_EVAL_OP_MUL: u32 = 6;
pub const WEBGPU_EVAL_OP_TRUE: u32 = 7;
pub const WEBGPU_EVAL_OP_AND_EQZ: u32 = 8;
pub const WEBGPU_EVAL_OP_AND_COND: u32 = 9;

/// Why a tap or global read cannot be compiled.
pub open spec fn leaf_error(op: PolyExtStep, taps: Seq<EvalCheckTap>) -> Option<EvalCheckError> {
    match op {
        PolyExtStep::Get(t) => if t >= taps.len() {
            Some(EvalCheckError::TapOutOfRange(t))
        } else if taps[t as int].group >= 3 {
            Some(EvalCheckError::TapGroupUnsupported(taps[t as int].group))
        } else {
            None
        },
        PolyExtStep::GetGlobal(arg, _) => if arg >= 2 {
            Some(EvalCheckError::GlobalArgUnsupported(arg))
        } else {
            None
        },
        _ => None,
    }
}

/// The first step of `s` whose tap or global read cannot be compiled.
pub open spec fn leaves_error(s: Seq<PolyExtStep>, taps: Seq<EvalCheckTap>) -> Option<EvalCheckError>
    decreases s.len(),
{
    if s.len() == 0 {
        None
    } else {
        match leaves_error(s.drop_last(), taps) {
            Some(e) => Some(e),
            None => leaf_error(s.last(), taps),
        }
    }
}

/// The fields a readable tap or global read puts in an instruction fit in
/// a word.
pub open spec fn leaf_fits(op: PolyExtStep, taps: Seq<EvalCheckTap>) -> bool {
    match op {
        PolyExtStep::Get(t) => t < taps.len() && taps[t as int].group < 3 ==> taps[t as int].offset <= u32::MAX
            && taps[t as int].back * INV_RATE <= u32::MAX,
        PolyExtStep::GetGlobal(arg, off) => arg < 2 ==> off <= u32::MAX,
        _ => true,
    }
}

pub open spec fn leaves_fit(s: Seq<PolyExtStep>, taps: Seq<EvalCheckTap>) -> bool {
    forall|k: int| 0 <= k < s.len() ==> leaf_fits(#[trigger] s[k], taps)
}

/// The instruction of step `op`, which defines fp var `fc` or mix var `mc`,
/// with fp vars in slots `fat` and mix vars in slots `mat`.
pub open spec fn op_words(
    op: PolyExtStep,
    fc: nat,
    mc: nat,
    fat: Seq<usize>,
    mat: Seq<usize>,
    taps: Seq<EvalCheckTap>,
) -> Seq<u32> {
    let out_fp = fat[fc as int] as u32;
    let out_mix = mat[mc as int] as u32;
    match op {
        PolyExtStep::Const(v) => seq![WEBGPU_EVAL_OP_CONST, out_fp, mont_encode(v as int), 0u32, 0u32, 0u32, 0u32, 0u32],
        PolyExtStep::ConstExt(a, b, c, d) => seq![
            WEBGPU_EVAL_OP_CONST_EXT,
            out_fp,
            mont_encode(a as int),
            mont_encode(b as int),
            mont_encode(c as int),
            mont_encode(d as int),
            0u32,
            0u32,
        ],
        PolyExtStep::Get(t) => seq![
            WEBGPU_EVAL_OP_GET,
            out_fp,
            taps[t as int].group as u32,
            taps[t as int].offset as u32,
            (taps[t as int].back * INV_RATE) as u32,
            0u32,
            0u32,
            0u32,
        ],
        PolyExtStep::GetGlobal(arg, off) => seq![
            WEBGPU_EVAL_OP_GET_GLOBAL,
            out_fp,
            arg as u32,
            off as u32,
            0u32,
            0u32,
            0u32,
            0u32,
        ],
        PolyExtStep::Add(l, r) => seq![
            WEBGPU_EVAL_OP_ADD,
            out_fp,
            fat[l as int] as u32,
            fat[r as int] as u32,
            0u32,
            0u32,
            0u32,
            0u32,
        ],
        PolyExtStep::Sub(l, r) => seq![
            WEBGPU_EVAL_OP_SUB,
            out_fp,
            fat[l as int] as u32,
            fat[r as int] as u32,
            0u32,
            0u32,
            0u32,
            0u32,
        ],
        PolyExtStep::Mul(l, r) => seq![
            WEBGPU_EVAL_OP_MUL,
            out_fp,
            fat[l as int] as u32,
            fat[r as int] as u32,
            0u32,
            0u32,
            0u32,
            0u32,
        ],
        PolyExtStep::True => seq![WEBGPU_EVAL_OP_TRUE, out_mix, mc as u32, 0u32, 0u32, 0u32, 0u32, 0u32],
        PolyExtStep::AndEqz(chain, inner) => seq![
            WEBGPU_EVAL_OP_AND_EQZ,
            out_mix,
            mat[chain as int] as u32,
            fat[inner as int] as u32,
            mc as u32,
            0u32,
            0u32,
            0u32,
        ],
        PolyExtStep::AndCond(chain, cond, inner) => seq![
            WEBGPU_EVAL_OP_AND_COND,
            out_mix,
            mat[chain as int] as u32,
            fat[cond as int] as u32,
            mat[inner as int] as u32,
            mc as u32,
            0u32,
            0u32,
        ],
    }
}

/// The instructions of the steps of `s`, in order.
pub open spec fn tape_words(s: Seq<PolyExtStep>, taps: Seq<EvalCheckTap>, fat: Seq<usize>, mat: Seq<usize>) -> Seq<u32>
    decreases s.len(),
{
    if s.len() == 0 {
        Seq::empty()
    } else {
        tape_words(s.drop_last(), taps, fat, mat) + op_words(
            s.last(),
            fp_count(s.drop_last()),
            mix_count(s.drop_last()),
            fat,
            mat,
            taps,
        )
    }
}

/// The interpreter program of tape `s` returning mix var `ret`: its
/// instructions, the fp and mix slot counts, and the slot of the returned
/// var; or why it cannot be built.
pub open spec fn interpreter_program(
    s: Seq<PolyExtStep>,
    ret: usize,
    taps: Seq<EvalCheckTap>,
    max_fp_slots: usize,
) -> Result<(Seq<u32>, usize, usize, usize), EvalCheckError> {
    match last_uses_error(s, ret) {
        Some(e) => Err(e),
        None => match leaves_error(s, taps) {
            Some(e) => Err(e),
            None => {
                let r = tape_slots(s, ret);
                if r.fp.pool.max > max_fp_slots {
                    Err(EvalCheckError::FpSlotsExceeded { needed: r.fp.pool.max, max: max_fp_slots })
                } else if r.mix.pool.max > WEBGPU_EVAL_CHECK_MAX_MIX_SLOTS {
                    Err(
                        EvalCheckError::MixSlotsExceeded {
                            needed: r.mix.pool.max,
                            max: WEBGPU_EVAL_CHECK_MAX_MIX_SLOTS,
                        },
                    )
                } else {
                    Ok((tape_words(s, taps, r.fp.at, r.mix.at), r.fp.pool.max, r.mix.pool.max, r.mix.at[ret as int]))
                }
            },
        },
    }
}

/// `res` is the program (or error) `p`.
pub open spec fn program_returned(
    res: Result<(Vec<u32>, usize, usize, usize), EvalCheckError>,
    p: Result<(Seq<u32>, usize, usize, usize), EvalCheckError>,
) -> bool {
    match p {
        Ok(q) => res is Ok && res->Ok_0.0@ == q.0 && res->Ok_0.1 == q.1 && res->Ok_0.2 == q.2 && res->Ok_0.3 == q.3,
        Err(e) => res is Err && res->Err_0 == e,
    }
}

pub(crate) proof fn lemma_leaves_error_sticks(s: Seq<PolyExtStep>, taps: Seq<EvalCheckTap>, i: int)
    requires
        0 <= i <= s.len(),
        leaves_error(s.take(i), taps) is Some,
    ensures
        leaves_error(s, taps) == leaves_error(s.take(i), taps),
    decreases s.len() - i,
{
    if i < s.len() {
        lemma_take_step(s, i);
        lemma_leaves_error_sticks(s, taps, i + 1);
    } else {
        assert(s.take(i) =~= s);
    }
}

proof fn lemma_tape_words_extend(
    t: Seq<PolyExtStep>,
    taps: Seq<EvalCheckTap>,
    fa: Seq<usize>,
    ma: Seq<usize>,
    fb: Seq<usize>,
    mb: Seq<usize>,
)
    requires
        reads_error(t) is None,
        forall|v: int| 0 <= v < fp_count(t) ==> fa[v] == fb[v],
        forall|v: int| 0 <= v < mix_count(t) ==> ma[v] == mb[v],
    ensures
        tape_words(t, taps, fa, ma) == tape_words(t, taps, fb, mb),
    decreases t.len(),
{
    if t.len() > 0 {
        let d = t.drop_last();
        lemma_fp_steps_push(d, t.last());
        assert(d.push(t.last()) =~= t);
        lemma_tape_words_extend(d, taps, fa, ma, fb, mb);
    }
}

/// Appends the eight words of one instruction.
fn push_instr(words: &mut Vec<u32>, w: [u32; 8])
    ensures
        final(words)@ == old(words)@ + w@,
{
    let mut i: usize = 0;
    let ghost w0 = old(words)@;
    while i < 8
        invariant
            i <= 8,
            words@ == w0 + w@.take(i as int),
        decreases 8 - i,
    {
        words.push(w[i]);
        assert(w@.take(i + 1) =~= w@.take(i as int).push(w@[i as int]));
        i = i + 1;
    }
    assert(w@.take(8) =~= w@);
}

/// The instruction of step `op` whose own var is in slot `o`, with operand
/// slots as `read_operands` gives them.
fn instr_words(
    op: PolyExtStep,
    o: usize,
    fa: usize,
    fb: usize,
    ma: usize,
    mb: usize,
    mc: usize,
    taps: &[EvalCheckTap],
    Ghost(fc): Ghost<nat>,
    Ghost(fat): Ghost<Seq<usize>>,
    Ghost(mat): Ghost<Seq<usize>>,
) -> (w: [u32; 8])
    requires
        is_fp_step(op) ==> fat[fc as int] == o,
        !is_fp_step(op) ==> mat[mc as int] == o,
        match op {
            PolyExtStep::Add(l, r) | PolyExtStep::Sub(l, r) | PolyExtStep::Mul(l, r) => fat[l as int] == fa
                && fat[r as int] == fb,
            PolyExtStep::AndEqz(c, i) => fa == fat[i as int] && ma == mat[c as int],
            PolyExtStep::AndCond(c, d, i) => fa == fat[d as int] && ma == mat[c as int] && mb == mat[i as int],
            PolyExtStep::Get(t) => t < taps@.len() && taps@[t as int].back * INV_RATE <= usize::MAX,
            _ => true,
        },
    ensures
        w@ == op_words(op, fc, mc as nat, fat, mat, taps@),
{
    let o = o as u32;
    let w: [u32; 8] = match op {
        PolyExtStep::Const(v) => [WEBGPU_EVAL_OP_CONST, o, elem_const_word(v), 0, 0, 0, 0, 0],
        PolyExtStep::ConstExt(a, b, c, d) => [
            WEBGPU_EVAL_OP_CONST_EXT,
            o,
            elem_const_word(a),
            elem_const_word(b),
            elem_const_word(c),
            elem_const_word(d),
            0,
            0,
        ],
        PolyExtStep::Get(t) => [
            WEBGPU_EVAL_OP_GET,
            o,
            taps[t].group as u32,
            taps[t].offset as u32,
            (taps[t].back * INV_RATE) as u32,
            0,
            0,
            0,
        ],
        PolyExtStep::GetGlobal(arg, off) => [WEBGPU_EVAL_OP_GET_GLOBAL, o, arg as u32, off as u32, 0, 0, 0, 0],
        PolyExtStep::Add(_, _) => [WEBGPU_EVAL_OP_ADD, o, fa as u32, fb as u32, 0, 0, 0, 0],
        PolyExtStep::Sub(_, _) => [WEBGPU_EVAL_OP_SUB, o, fa as u32, fb as u32, 0, 0, 0, 0],
        PolyExtStep::Mul(_, _) => [WEBGPU_EVAL_OP_MUL, o, fa as u32, fb as u32, 0, 0, 0, 0],
        PolyExtStep::True => [WEBGPU_EVAL_OP_TRUE, o, mc as u32, 0, 0, 0, 0, 0],
        PolyExtStep::AndEqz(_, _) => [WEBGPU_EVAL_OP_AND_EQZ, o, ma as u32, fa as u32, mc as u32, 0, 0, 0],
        PolyExtStep::AndCond(_, _, _) => [WEBGPU_EVAL_OP_AND_COND, o, ma as u32, fa as u32, mb as u32, mc as u32, 0, 0],
    };
    assert(w@ =~= op_words(op, fc, mc as nat, fat, mat, taps@));
    w
}



/// One step of the interpreter compiler: checks the step's tap or global
/// read, moves the slot banks past it, and appends its instruction.
#[verifier::rlimit(40)]
fn interp_step(
    op: PolyExtStep,
    k: usize,
    taps: &[EvalCheckTap],
    last_fp: &Vec<Option<usize>>,
    last_mix: &Vec<Option<usize>>,
    fp_alloc: &mut EvalCheckSlotAllocator,
    mix_alloc: &mut EvalCheckSlotAllocator,
    fp_slots: &mut Vec<Option<usize>>,
    mix_slots: &mut Vec<Option<usize>>,
    words: &mut Vec<u32>,
    Ghost(s): Ghost<Seq<PolyExtStep>>,
    Ghost(ret): Ghost<usize>,
) -> (res: Result<(), EvalCheckError>)
    requires
        last_uses_error(s, ret) is None,
        s.len() < u32::MAX,
        leaves_fit(s, taps@),
        k < s.len(),
        s[k as int] == op,
        last_fp@ == last_fp_uses(s),
        last_mix@ == last_mix_uses(s, ret),
        old(fp_alloc)@ == slot_run(s.take(k as int), last_fp_uses(s), last_mix_uses(s, ret)).fp.pool,
        old(fp_slots)@ == slot_run(s.take(k as int), last_fp_uses(s), last_mix_uses(s, ret)).fp.live,
        old(mix_alloc)@ == slot_run(s.take(k as int), last_fp_uses(s), last_mix_uses(s, ret)).mix.pool,
        old(mix_slots)@ == slot_run(s.take(k as int), last_fp_uses(s), last_mix_uses(s, ret)).mix.live,
    ensures
        match leaf_error(op, taps@) {
            Some(e) => res is Err && res->Err_0 == e,
            None => {
                let r1 = slot_run(s.take(k + 1), last_fp_uses(s), last_mix_uses(s, ret));
                &&& res is Ok
                &&& final(fp_alloc)@ == r1.fp.pool
                &&& final(fp_slots)@ == r1.fp.live
                &&& final(mix_alloc)@ == r1.mix.pool
                &&& final(mix_slots)@ == r1.mix.live
                &&& final(words)@ == old(words)@ + op_words(
                    op,
                    fp_count(s.take(k as int)),
                    mix_count(s.take(k as int)),
                    r1.fp.at,
                    r1.mix.at,
                    taps@,
                )
                &&& forall|v: int|
                    0 <= v < fp_count(s.take(k as int)) ==> #[trigger] r1.fp.at[v] == slot_run(
                        s.take(k as int),
                        last_fp_uses(s),
                        last_mix_uses(s, ret),
                    ).fp.at[v]
                &&& forall|v: int|
                    0 <= v < mix_count(s.take(k as int)) ==> #[trigger] r1.mix.at[v] == slot_run(
                        s.take(k as int),
                        last_fp_uses(s),
                        last_mix_uses(s, ret),
                    ).mix.at[v]
            },
        },
{
    proof {
        assert(leaf_fits(s[k as int], taps@));
        lemma_run_inv(s, ret, k as int);
    }
    match op {
        PolyExtStep::Get(t) => {
            if t >= taps.len() {
                return Err(EvalCheckError::TapOutOfRange(t));
            }
            if taps[t].group >= 3 {
                return Err(EvalCheckError::TapGroupUnsupported(taps[t].group));
            }
        },
        PolyExtStep::GetGlobal(arg, _) => {
            if arg >= 2 {
                return Err(EvalCheckError::GlobalArgUnsupported(arg));
            }
        },
        _ => {},
    }
    let ghost fc0 = fp_count(s.take(k as int));
    let mc = mix_slots.len();
    let ghost r1 = slot_run(s.take(k + 1), last_fp_uses(s), last_mix_uses(s, ret));
    let (out_slot, fa, fb, ma, mb) = slot_step(
        op,
        k,
        last_fp,
        last_mix,
        fp_alloc,
        mix_alloc,
        fp_slots,
        mix_slots,
        Ghost(s),
        Ghost(ret),
    );
    let w = instr_words(op, out_slot, fa, fb, ma, mb, mc, taps, Ghost(fc0), Ghost(r1.fp.at), Ghost(r1.mix.at));
    push_instr(words, w);
    proof {
        let r0 = slot_run(s.take(k as int), last_fp_uses(s), last_mix_uses(s, ret));
        assert forall|v: int| 0 <= v < fp_count(s.take(k as int)) implies #[trigger] r1.fp.at[v] == r0.fp.at[v] by {}
        assert forall|v: int| 0 <= v < mix_count(s.take(k as int)) implies #[trigger] r1.mix.at[v] == r0.mix.at[v] by {}
    }
    Ok(())
}

/// The all-extension interpreter program of a tape taken in the given step
/// order: eight words per step naming the fp and mix scratch slots it reads
/// and writes, the numbers of fp and mix slots used, and the slot of the
/// returned mix var. Fails on a step that reads an undefined var, a missing
/// returned var, a tap or global read the shader cannot do, or more slots
/// than `max_fp_slots` fp slots or the mix slot limit.
pub fn eval_check_interpreter_instructions_for_block(
    taps: &[EvalCheckTap],
    block: &[PolyExtStep],
    ret: usize,
    max_fp_slots: usize,
) -> (res: Result<(Vec<u32>, usize, usize, usize), EvalCheckError>)
    requires
        block@.len() < u32::MAX,
        leaves_fit(block@, taps@),
    ensures
        program_returned(res, interpreter_program(block@, ret, taps@, max_fp_slots)),
{
    let ghost s = block@;
    let (last_fp, last_mix, _fp_count, _mix_count) = match eval_check_last_uses_block(block, ret) {
        Ok(t) => t,
        Err(e) => return Err(e),
    };
    let ghost lf = last_fp_uses(s);
    let ghost lm = last_mix_uses(s, ret);
    let mut fp_alloc = EvalCheckSlotAllocator::default();
    let mut mix_alloc = EvalCheckSlotAllocator::default();
    let mut fp_slots: Vec<Option<usize>> = Vec::new();
    let mut mix_slots: Vec<Option<usize>> = Vec::new();
    let mut instructions: Vec<u32> = Vec::new();
    let mut i: usize = 0;
    proof {
        assert(s.take(0) =~= Seq::<PolyExtStep>::empty());
        assert(fp_slots@ =~= Seq::<Option<usize>>::empty());
        assert(mix_slots@ =~= Seq::<Option<usize>>::empty());
        assert(instructions@ =~= Seq::<u32>::empty());
    }
    while i < block.len()
        invariant
            s == block@,
            lf == last_fp_uses(s),
            lm == last_mix_uses(s, ret),
            last_fp@ == lf,
            last_mix@ == lm,
            last_uses_error(s, ret) is None,
            s.len() < u32::MAX,
            leaves_fit(s, taps@),
            i <= s.len(),
            leaves_error(s.take(i as int), taps@) is None,
            fp_alloc@ == slot_run(s.take(i as int), lf, lm).fp.pool,
            fp_slots@ == slot_run(s.take(i as int), lf, lm).fp.live,
            mix_alloc@ == slot_run(s.take(i as int), lf, lm).mix.pool,
            mix_slots@ == slot_run(s.take(i as int), lf, lm).mix.live,
            instructions@ == tape_words(
                s.take(i as int),
                taps@,
                slot_run(s.take(i as int), lf, lm).fp.at,
                slot_run(s.take(i as int), lf, lm).mix.at,
            ),
        decreases s.len() - i,
    {
        let op = block[i];
        let ghost r0 = slot_run(s.take(i as int), lf, lm);
        let ghost r1 = slot_run(s.take(i + 1), lf, lm);
        proof {
            lemma_take_step(s, i as int);
        }
        match interp_step(
            op,
            i,
            taps,
            &last_fp,
            &last_mix,
            &mut fp_alloc,
            &mut mix_alloc,
            &mut fp_slots,
            &mut mix_slots,
            &mut instructions,
            Ghost(s),
            Ghost(ret),
        ) {
            Ok(()) => {},
            Err(e) => {
                proof {
                    lemma_leaves_error_sticks(s, taps@, i + 1);
                }
                return Err(e);
            },
        }
        proof {
            lemma_reads_ok_at(s, i as int);
            lemma_tape_words_extend(s.take(i as int), taps@, r0.fp.at, r0.mix.at, r1.fp.at, r1.mix.at);
        }
        i = i + 1;
    }
    proof {
        assert(s.take(s.len() as int) =~= s);
        super::slots::lemma_tape_slots_bounds(s, ret);
        assert(live_after(lm[ret as int], s.len() as int));
    }
    let ret_slot = match eval_check_mix_slot(&mix_slots, ret) {
        Ok(slot) => slot,
        Err(e) => return Err(e),
    };
    let fp_used = fp_alloc.max_used();
    let mix_used = mix_alloc.max_used();
    if fp_used > max_fp_slots {
        return Err(EvalCheckError::FpSlotsExceeded { needed: fp_used, max: max_fp_slots });
    }
    if mix_used > WEBGPU_EVAL_CHECK_MAX_MIX_SLOTS {
        return Err(EvalCheckError::MixSlotsExceeded { needed: mix_used, max: WEBGPU_EVAL_CHECK_MAX_MIX_SLOTS });
    }
    Ok((instructions, fp_used, mix_used, ret_slot))
}

pub(crate) proof fn lemma_fp_step_in_tape(s: Seq<PolyExtStep>, v: int)
    requires
        0 <= v < fp_count(s),
    ensures
        exists|k: int| 0 <= k < s.len() && s[k] == fp_steps(s)[v],
    decreases s.len(),
{
    let d = s.drop_last();
    lemma_fp_steps_push(d, s.last());
    assert(d.push(s.last()) =~= s);
    lemma_fp_steps_len(d);
    if is_fp_step(s.last()) && v == fp_count(d) {
        assert(s[s.len() - 1] == fp_steps(s)[v]);
    } else {
        lemma_fp_step_in_tape(d, v);
        let k = choose|k: int| 0 <= k < d.len() && d[k] == fp_steps(d)[v];
        assert(s[k] == fp_steps(s)[v]);
    }
}

/// Reordering lazily reads only taps and globals the tape itself reads: a
/// tape whose leaves fit still fits once reordered.
pub proof fn lemma_lazy_order_fits(block: Seq<PolyExtStep>, taps: Seq<EvalCheckTap>)
    requires
        leaves_fit(block, taps),
    ensures
        leaves_fit(lazy_order(block), taps),
{
    let out = lazy_order(block);
    let fs = fp_steps(block);
    lemma_lazy_walk_from(block, block.len() as int);
    lemma_fp_steps_len(block);
    assert forall|k: int| 0 <= k < out.len() implies leaf_fits(#[trigger] out[k], taps) by {
        if is_fp_step(out[k]) {
            assert(from_fp_steps(out[k], fs));
            let v = choose|v: int| 0 <= v < fs.len() && super::reorder::step_from(out[k], #[trigger] fs[v]);
            lemma_fp_step_in_tape(block, v);
            let j = choose|j: int| 0 <= j < block.len() && block[j] == fs[v];
            assert(leaf_fits(block[j], taps));
        }
    }
}

/// The fp slot limit only gates the program: a limit that admits the
/// program gives the very same program, and one below its fp slot count
/// refuses it with that count.
pub proof fn lemma_limit_only_gates(s: Seq<PolyExtStep>, ret: usize, taps: Seq<EvalCheckTap>, l1: usize, l2: usize)
    requires
        interpreter_program(s, ret, taps, l1) is Ok,
    ensures
        ({
            let p = interpreter_program(s, ret, taps, l1)->Ok_0;
            &&& p.1 <= l1
            &&& p.2 <= WEBGPU_EVAL_CHECK_MAX_MIX_SLOTS
            &&& interpreter_program(s, ret, taps, l2) == if p.1 <= l2 {
                Ok::<(Seq<u32>, usize, usize, usize), EvalCheckError>(p)
            } else {
                Err(EvalCheckError::FpSlotsExceeded { needed: p.1, max: l2 })
            }
        }),
{
}

/// A lazy reordering is no longer than the tape it reorders.
pub(crate) proof fn lemma_reordered_len(block: Seq<PolyExtStep>, out: Seq<PolyExtStep>)
    requires
        reordered(block, out),
    ensures
        out.len() <= block.len(),
{
    lemma_fp_steps_len(out);
    lemma_fp_steps_len(block);
}

/// The interpreter program of `def`: its tape is first lazily reordered so
/// that fewer fp values are live at once, then compiled with at most
/// `max_fp_slots` fp slots.
pub fn eval_check_interpreter_instructions_with_limit(
    taps: &[EvalCheckTap],
    def: &PolyExtStepDef,
    max_fp_slots: usize,
) -> (res: Result<(Vec<u32>, usize, usize, usize), EvalCheckError>)
    requires
        def.block@.len() < u32::MAX,
        reorder_valid(def.block@) ==> leaves_fit(lazy_order(def.block@), taps@),
    ensures
        !reorder_valid(def.block@) ==> res is Err && (res->Err_0 is FpOperandOutOfRange
            || res->Err_0 is FpOperandForwardReference),
        reorder_valid(def.block@) ==> program_returned(
            res,
            interpreter_program(lazy_order(def.block@), def.ret, taps@, max_fp_slots),
        ),
{
    let block = match eval_check_reorder_lazy(def.block) {
        Ok(b) => b,
        Err(e) => return Err(e),
    };
    proof {
        lemma_reordered_len(def.block@, block@);
    }
    eval_check_interpreter_instructions_for_block(taps, block.as_slice(), def.ret, max_fp_slots)
}

/// `eval_check_interpreter_instructions_with_limit` with the interpreter's
/// own fp slot limit.
pub fn eval_check_interpreter_instructions(taps: &[EvalCheckTap], def: &PolyExtStepDef) -> (res: Result<
    (Vec<u32>, usize, usize, usize),
    EvalCheckError,
>)
    requires
        def.block@.len() < u32::MAX,
        reorder_valid(def.block@) ==> leaves_fit(lazy_order(def.block@), taps@),
    ensures
        !reorder_valid(def.block@) ==> res is Err && (res->Err_0 is FpOperandOutOfRange
            || res->Err_0 is FpOperandForwardReference),
        reorder_valid(def.block@) ==> program_returned(
            res,
            interpreter_program(lazy_order(def.block@), def.ret, taps@, WEBGPU_EVAL_CHECK_MAX_FP_SLOTS),
        ),
{
    eval_check_interpreter_instructions_with_limit(taps, def, WEBGPU_EVAL_CHECK_MAX_FP_SLOTS)
}

proof fn lemma_tape_words_prefix(
    s: Seq<PolyExtStep>,
    taps: Seq<EvalCheckTap>,
    fat: Seq<usize>,
    mat: Seq<usize>,
    i: int,
)
    requires
        0 <= i <= s.len(),
    ensures
        tape_words(s.take(i), taps, fat, mat).len() == 8 * i,
        tape_words(s, taps, fat, mat).len() == 8 * s.len(),
        tape_words(s.take(i), taps, fat, mat) =~= tape_words(s, taps, fat, mat).subrange(0, 8 * i),
    decreases s.len() - i,
{
    if i == s.len() {
        assert(s.take(i) =~= s);
        lemma_tape_words_len(s, taps, fat, mat);
    } else {
        lemma_tape_words_prefix(s, taps, fat, mat, i + 1);
        assert(s.take(i + 1).drop_last() =~= s.take(i));
        lemma_tape_words_len(s.take(i), taps, fat, mat);
        let a = tape_words(s.take(i), taps, fat, mat);
        let b = tape_words(s.take(i + 1), taps, fat, mat);
        let c = tape_words(s, taps, fat, mat);
        assert(b.subrange(0, 8 * i) =~= a);
        assert(c.subrange(0, 8 * i) =~= c.subrange(0, 8 * (i + 1)).subrange(0, 8 * i));
    }
}

proof fn lemma_tape_words_len(s: Seq<PolyExtStep>, taps: Seq<EvalCheckTap>, fat: Seq<usize>, mat: Seq<usize>)
    ensures
        tape_words(s, taps, fat, mat).len() == 8 * s.len(),
    decreases s.len(),
{
    if s.len() > 0 {
        lemma_tape_words_len(s.drop_last(), taps, fat, mat);
    }
}

/// Law of the interpreter program: instruction `k` (words `8k` to `8k+7`)
/// is that of step `k` of the tape. An `Add`, `Sub` or `Mul` step becomes
/// its opcode, the slot of the fp var it defines, then the slot of its left
/// operand and the slot of its right operand, in that order; a mix step
/// names the slot of the mix var it defines, then the slots of its chain,
/// condition or inner vars as the opcode lays them out, then its mix var's
/// number. Every var that the step reads still holds its slot when the
/// instruction runs.
pub proof fn lemma_instruction_of_step(
    s: Seq<PolyExtStep>,
    ret: usize,
    taps: Seq<EvalCheckTap>,
    max_fp_slots: usize,
    k: int,
)
    requires
        interpreter_program(s, ret, taps, max_fp_slots) is Ok,
        s.len() < usize::MAX,
        0 <= k < s.len(),
    ensures
        ({
            let w = interpreter_program(s, ret, taps, max_fp_slots)->Ok_0.0;
            let fat = tape_slots(s, ret).fp.at;
            let mat = tape_slots(s, ret).mix.at;
            let fc = fp_count(s.take(k));
            let mc = mix_count(s.take(k));
            let i = w.subrange(8 * k, 8 * k + 8);
            &&& w.len() == 8 * s.len()
            &&& forall|v: usize| #[trigger] reads_fp(s[k], v) ==> fp_slot_kept(s, ret, v, k)
            &&& forall|v: usize| #[trigger] reads_mix(s[k], v) ==> mix_slot_kept(s, ret, v, k)
            &&& match s[k] {
                PolyExtStep::Add(l, r) => i[0] == WEBGPU_EVAL_OP_ADD && i[1] == fat[fc as int] as u32 && i[2]
                    == fat[l as int] as u32 && i[3] == fat[r as int] as u32,
                PolyExtStep::Sub(l, r) => i[0] == WEBGPU_EVAL_OP_SUB && i[1] == fat[fc as int] as u32 && i[2]
                    == fat[l as int] as u32 && i[3] == fat[r as int] as u32,
                PolyExtStep::Mul(l, r) => i[0] == WEBGPU_EVAL_OP_MUL && i[1] == fat[fc as int] as u32 && i[2]
                    == fat[l as int] as u32 && i[3] == fat[r as int] as u32,
                PolyExtStep::True => i[0] == WEBGPU_EVAL_OP_TRUE && i[1] == mat[mc as int] as u32 && i[2] == mc as u32,
                PolyExtStep::AndEqz(c, x) => i[0] == WEBGPU_EVAL_OP_AND_EQZ && i[1] == mat[mc as int] as u32 && i[2]
                    == mat[c as int] as u32 && i[3] == fat[x as int] as u32 && i[4] == mc as u32,
                PolyExtStep::AndCond(c, d, x) => i[0] == WEBGPU_EVAL_OP_AND_COND && i[1] == mat[mc as int] as u32
                    && i[2] == mat[c as int] as u32 && i[3] == fat[d as int] as u32 && i[4] == mat[x as int] as u32
                    && i[5] == mc as u32,
                _ => true,
            }
        }),
{
    let fat = tape_slots(s, ret).fp.at;
    let mat = tape_slots(s, ret).mix.at;
    lemma_tape_words_prefix(s, taps, fat, mat, k + 1);
    lemma_tape_words_prefix(s, taps, fat, mat, k);
    assert(s.take(k + 1).drop_last() =~= s.take(k));
    assert(s.take(k + 1).last() == s[k]);
    let w = tape_words(s, taps, fat, mat);
    assert(w.subrange(8 * k, 8 * k + 8) =~= w.subrange(0, 8 * (k + 1)).subrange(8 * k, 8 * k + 8));
    lemma_operands_kept(s, ret, k);
}

} // verus!
