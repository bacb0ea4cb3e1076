//! The instruction stream of the hybrid interpreter shader: base-field
//! values live in a scalar bank and values that depend on an extension
//! constant in a small extension bank, each bank with its own slots.

use vstd::prelude::*;
use super::tape::{
    PolyExtStep, PolyExtStepDef, EvalCheckError, EvalCheckTap, is_fp_step, fp_count, mix_count, fp_steps,
    lemma_fp_steps_len, lemma_fp_steps_push,
};
use super::slots::{
    SlotBank, bank_define, bank_skip, bank_release_all, bank_inv, bank_ok, empty_bank, fp_reads, mix_reads,
    reads_fp, reads_mix, last_fp_uses, last_mix_uses, last_fp_read, last_mix_use, last_uses_error, reads_error,
    live_after, pool_take, lemma_define, lemma_skip, lemma_release_all, lemma_take_step, lemma_reads_ok_at,
    lemma_reads_distinct, lemma_counts_mono, lemma_last_read, lemma_read_defined, lemma_new_var_last,
    EvalCheckSlotAllocator, eval_check_mix_slot,
};
use super::interpreter::{leaf_error, leaves_error, leaves_fit, WEBGPU_EVAL_CHECK_MAX_MIX_SLOTS};
use super::powers::INV_RATE;
use crate::field::{mont_encode, elem_const_word};

verus! {

/// Most base-field scratch slots of the hybrid interpreter.
pub const WEBGPU_EVAL_CHECK_MAX_FP_ELEM_SLOTS: usize = 8192;

/// Most extension-bank scratch slots of the hybrid interpreter.
pub const WEBGPU_EVAL_CHECK_MAX_EXT_BANK_SLOTS: usize = 256;

/// Most base-field scratch slots with per-invocation scratch.
pub const WEBGPU_EVAL_CHECK_BASE_PRIVATE_MAX_FP_SLOTS: usize = 1536;

pub const WEBGPU_EVAL_OP_ADD_EE: u32 = 10;
pub const WEBGPU_EVAL_OP_ADD_EB: u32 = 11;
pub const WEBGPU_EVAL_OP_SUB_EE: u32 = 12;
pub const WEBGPU_EVAL_OP_SUB_EB: u32 = 13;
pub const WEBGPU_EVAL_OP_SUB_BE: u32 = 14;
pub const WEBGPU_EVAL_OP_MUL_EE: u32 = 15;
pub const WEBGPU_EVAL_OP_MUL_EB: u32 = 16;
pub const WEBGPU_EVAL_OP_AND_EQZ_EXT: u32 = 17;
pub const WEBGPU_EVAL_OP_AND_COND_EXT: u32 = 18;

/// Whether fp var `v` of fp steps `fs` is an extension value: an extension
/// constant, or arithmetic on at least one extension value.
pub open spec fn fp_is_ext(fs: Seq<PolyExtStep>, v: int) -> bool
    decreases v,
{
    if !(0 <= v < fs.len()) {
        false
    } else {
        match fs[v] {
            PolyExtStep::ConstExt(_, _, _, _) => true,
            PolyExtStep::Add(l, r) | PolyExtStep::Sub(l, r) | PolyExtStep::Mul(l, r) => (l < v && fp_is_ext(
                fs,
                l as int,
            )) || (r < v && fp_is_ext(fs, r as int)),
            _ => false,
        }
    }
}

/// For each fp var of `s`, whether it is an extension value.
pub open spec fn ext_flags(s: Seq<PolyExtStep>) -> Seq<bool> {
    Seq::new(fp_count(s), |v: int| fp_is_ext(fp_steps(s), v))
}

/// The base, extension and mix slot banks of the hybrid compiler.
pub struct HybridRun {
    pub base: SlotBank,
    pub ext: SlotBank,
    pub mix: SlotBank,
}

/// Step `k`, `op`: its fp var takes a slot from the bank of its kind (the
/// other bank skips it), its mix var from the mix bank; then the slots of
/// the vars it read for the last time are given back.
pub open spec fn hybrid_step(
    r: HybridRun,
    op: PolyExtStep,
    k: usize,
    lf: Seq<Option<usize>>,
    lm: Seq<Option<usize>>,
    flags: Seq<bool>,
) -> HybridRun {
    let v = r.base.live.len() as int;
    let keep = lf[v] is Some;
    let base1 = if is_fp_step(op) && !flags[v] {
        bank_define(r.base, k, keep)
    } else if is_fp_step(op) {
        bank_skip(r.base, k)
    } else {
        r.base
    };
    let ext1 = if is_fp_step(op) && flags[v] {
        bank_define(r.ext, k, keep)
    } else if is_fp_step(op) {
        bank_skip(r.ext, k)
    } else {
        r.ext
    };
    let mix1 = if is_fp_step(op) {
        r.mix
    } else {
        bank_define(r.mix, k, lm[r.mix.live.len() as int] is Some)
    };
    HybridRun {
        base: bank_release_all(base1, fp_reads(op), lf, k),
        ext: bank_release_all(ext1, fp_reads(op), lf, k),
        mix: bank_release_all(mix1, mix_reads(op), lm, k),
    }
}

/// The hybrid slot banks after the steps of `s`.
pub open spec fn hybrid_run(
    s: Seq<PolyExtStep>,
    lf: Seq<Option<usize>>,
    lm: Seq<Option<usize>>,
    flags: Seq<bool>,
) -> HybridRun
    decreases s.len(),
{
    if s.len() == 0 {
        HybridRun { base: empty_bank(), ext: empty_bank(), mix: empty_bank() }
    } else {
        hybrid_step(hybrid_run(s.drop_last(), lf, lm, flags), s.last(), (s.len() - 1) as usize, lf, lm, flags)
    }
}

/// The hybrid slot banks of tape `s` returning mix var `ret`.
pub open spec fn tape_hybrid(s: Seq<PolyExtStep>, ret: usize) -> HybridRun {
    hybrid_run(s, last_fp_uses(s), last_mix_uses(s, ret), ext_flags(s))
}

/// The hybrid banks before step `k`: each keeps its invariant, the base and
/// extension banks hold exactly the fp vars of their kind, and the mix bank
/// holds every mix var.
pub open spec fn hybrid_inv(s: Seq<PolyExtStep>, ret: usize, k: int, r: HybridRun) -> bool {
    &&& bank_inv(r.base, last_fp_uses(s), k)
    &&& bank_inv(r.ext, last_fp_uses(s), k)
    &&& bank_inv(r.mix, last_mix_uses(s, ret), k)
    &&& r.base.live.len() == fp_count(s.take(k))
    &&& r.ext.live.len() == fp_count(s.take(k))
    &&& r.mix.live.len() == mix_count(s.take(k))
    &&& forall|v: int| 0 <= v < r.base.live.len() ==> #[trigger] r.base.held[v] == !ext_flags(s)[v]
    &&& forall|v: int| 0 <= v < r.ext.live.len() ==> #[trigger] r.ext.held[v] == ext_flags(s)[v]
    &&& forall|v: int| 0 <= v < r.mix.live.len() ==> #[trigger] r.mix.held[v]
}

/// The fp var step `k` defines is that step, and it is an extension value
/// exactly when the step is an extension constant or reads one.
pub(crate) proof fn lemma_step_flag(s: Seq<PolyExtStep>, k: int)
    requires
        reads_error(s) is None,
        0 <= k < s.len(),
        is_fp_step(s[k]),
    ensures
        fp_count(s.take(k)) < fp_count(s),
        fp_steps(s)[fp_count(s.take(k)) as int] == s[k],
        ext_flags(s)[fp_count(s.take(k)) as int] == match s[k] {
            PolyExtStep::ConstExt(_, _, _, _) => true,
            PolyExtStep::Add(l, r) | PolyExtStep::Sub(l, r) | PolyExtStep::Mul(l, r) => ext_flags(s)[l as int]
                || ext_flags(s)[r as int],
            _ => false,
        },
{
    let n = fp_count(s.take(k)) as int;
    lemma_take_step(s, k);
    lemma_fp_steps_len(s);
    super::reorder::lemma_steps_prefix(s, k + 1);
    lemma_fp_steps_push(s.take(k), s[k]);
    lemma_fp_steps_len(s.take(k));
    lemma_counts_mono(s, k + 1, s.len() as int);
    assert(s.take(s.len() as int) =~= s);
    assert(fp_steps(s.take(k + 1)) == fp_steps(s.take(k)).push(s[k]));
    assert(fp_steps(s)[n] == fp_steps(s.take(k + 1))[n]);
    lemma_reads_ok_at(s, k);
    lemma_fp_steps_len(s);
}

#[verifier::rlimit(60)]
pub(crate) proof fn lemma_hybrid_inv(s: Seq<PolyExtStep>, ret: usize, k: int)
    requires
        last_uses_error(s, ret) is None,
        0 <= k <= s.len(),
        s.len() < usize::MAX,
    ensures
        hybrid_inv(s, ret, k, hybrid_run(s.take(k), last_fp_uses(s), last_mix_uses(s, ret), ext_flags(s))),
    decreases k,
{
    let lf = last_fp_uses(s);
    let lm = last_mix_uses(s, ret);
    let flags = ext_flags(s);
    lemma_counts_mono(s, k, s.len() as int);
    assert(s.take(s.len() as int) =~= s);
    if k == 0 {
        assert(s.take(0) =~= Seq::<PolyExtStep>::empty());
    } else {
        let j = k - 1;
        lemma_hybrid_inv(s, ret, j);
        lemma_take_step(s, j);
        lemma_reads_ok_at(s, j);
        lemma_counts_mono(s, j, k);
        lemma_new_var_last(s, ret, j);
        let r0 = hybrid_run(s.take(j), lf, lm, flags);
        let op = s[j];
        assert(hybrid_run(s.take(k), lf, lm, flags) == hybrid_step(r0, op, j as usize, lf, lm, flags));
        let v = r0.base.live.len() as int;
        let keep = lf[v] is Some;
        lemma_reads_distinct(op);
        let base1 = if is_fp_step(op) && !flags[v] {
            bank_define(r0.base, j as usize, keep)
        } else if is_fp_step(op) {
            bank_skip(r0.base, j as usize)
        } else {
            r0.base
        };
        let ext1 = if is_fp_step(op) && flags[v] {
            bank_define(r0.ext, j as usize, keep)
        } else if is_fp_step(op) {
            bank_skip(r0.ext, j as usize)
        } else {
            r0.ext
        };
        let mix1 = if is_fp_step(op) {
            r0.mix
        } else {
            bank_define(r0.mix, j as usize, lm[r0.mix.live.len() as int] is Some)
        };
        if is_fp_step(op) {
            if flags[v] {
                lemma_define(r0.ext, lf, j as usize);
                lemma_skip(r0.base, lf, j as usize);
            } else {
                lemma_define(r0.base, lf, j as usize);
                lemma_skip(r0.ext, lf, j as usize);
            }
            assert forall|u: int| 0 <= u < base1.live.len() implies #[trigger] base1.held[u] == !flags[u] by {
                if u < v {
                    assert(base1.held[u] == base1.held.take(v)[u]);
                }
            }
            assert forall|u: int| 0 <= u < ext1.live.len() implies #[trigger] ext1.held[u] == flags[u] by {
                if u < v {
                    assert(ext1.held[u] == ext1.held.take(v)[u]);
                }
            }
        } else {
            lemma_define(r0.mix, lm, j as usize);
            assert forall|u: int| 0 <= u < mix1.live.len() implies #[trigger] mix1.held[u] by {
                if u < r0.mix.live.len() {
                    assert(mix1.held[u] == mix1.held.take(r0.mix.held.len() as int)[u]);
                }
            }
        }
        let xf = fp_reads(op);
        let xm = mix_reads(op);
        assert forall|i: int| 0 <= i < xf.len() implies #[trigger] xf[i] < base1.live.len() by {
            lemma_read_defined(s, j, xf[i]);
        }
        assert forall|i: int| 0 <= i < xm.len() implies #[trigger] xm[i] < mix1.live.len() by {
            lemma_read_defined(s, j, xm[i]);
        }
        lemma_release_all(base1, xf, lf, j as usize);
        lemma_release_all(ext1, xf, lf, j as usize);
        lemma_release_all(mix1, xm, lm, j as usize);
        let r1 = hybrid_run(s.take(k), lf, lm, flags);
        assert forall|u: int| 0 <= u < r1.base.live.len() && r1.base.held[u] && live_after(#[trigger] lf[u], k) implies r1.base.live[u] is Some by {
            assert(live_after(lf[u], j));
        }
        assert forall|u: int| 0 <= u < r1.ext.live.len() && r1.ext.held[u] && live_after(#[trigger] lf[u], k) implies r1.ext.live[u] is Some by {
            assert(live_after(lf[u], j));
        }
        assert forall|u: int| 0 <= u < r1.mix.live.len() && r1.mix.held[u] && live_after(#[trigger] lm[u], k) implies r1.mix.live[u] is Some by {
            assert(live_after(lm[u], j));
        }
        assert forall|u: int| 0 <= u < r1.base.live.len() implies #[trigger] r1.base.born[u] <= k by {
            assert(r1.base.born[u] == base1.born[u]);
        }
        assert forall|u: int| 0 <= u < r1.ext.live.len() implies #[trigger] r1.ext.born[u] <= k by {
            assert(r1.ext.born[u] == ext1.born[u]);
        }
        assert forall|u: int| 0 <= u < r1.mix.live.len() implies #[trigger] r1.mix.born[u] <= k by {
            assert(r1.mix.born[u] == mix1.born[u]);
        }
        assert forall|u: int| 0 <= u < r1.base.live.len() implies #[trigger] r1.base.held[u] == !flags[u] by {
            assert(r1.base.held[u] == base1.held[u]);
        }
        assert forall|u: int| 0 <= u < r1.ext.live.len() implies #[trigger] r1.ext.held[u] == flags[u] by {
            assert(r1.ext.held[u] == ext1.held[u]);
        }
        assert forall|u: int| 0 <= u < r1.mix.live.len() implies #[trigger] r1.mix.held[u] by {
            assert(r1.mix.held[u] == mix1.held[u]);
        }
    }
}

/// The slot of fp var `v` in the bank of its kind.
pub open spec fn hybrid_slot(flags: Seq<bool>, bat: Seq<usize>, eat: Seq<usize>, v: int) -> usize {
    if flags[v] {
        eat[v]
    } else {
        bat[v]
    }
}

/// The opcode of arithmetic step `op` whose operands are extension values
/// as `le` and `re` say, and whether its operand slots are swapped: base
/// operands keep the plain opcodes, and a commutative step with one
/// extension operand puts that operand first.
pub open spec fn arith_code(op: PolyExtStep, le: bool, re: bool) -> (u32, bool) {
    match op {
        PolyExtStep::Add(_, _) => if !le && !re {
            (super::interpreter::WEBGPU_EVAL_OP_ADD, false)
        } else if le && re {
            (WEBGPU_EVAL_OP_ADD_EE, false)
        } else if le {
            (WEBGPU_EVAL_OP_ADD_EB, false)
        } else {
            (WEBGPU_EVAL_OP_ADD_EB, true)
        },
        PolyExtStep::Sub(_, _) => if !le && !re {
            (super::interpreter::WEBGPU_EVAL_OP_SUB, false)
        } else if le && re {
            (WEBGPU_EVAL_OP_SUB_EE, false)
        } else if le {
            (WEBGPU_EVAL_OP_SUB_EB, false)
        } else {
            (WEBGPU_EVAL_OP_SUB_BE, false)
        },
        PolyExtStep::Mul(_, _) => if !le && !re {
            (super::interpreter::WEBGPU_EVAL_OP_MUL, false)
        } else if le && re {
            (WEBGPU_EVAL_OP_MUL_EE, false)
        } else if le {
            (WEBGPU_EVAL_OP_MUL_EB, false)
        } else {
            (WEBGPU_EVAL_OP_MUL_EB, true)
        },
        _ => (0, false),
    }
}

/// The hybrid instruction of step `op`, which defines fp var `fc` or mix
/// var `mc`; fp vars of kind `flags` are in slots `bat` (base) or `eat`
/// (extension), mix vars in slots `mat`.
pub open spec fn hybrid_op_words(
    op: PolyExtStep,
    fc: nat,
    mc: nat,
    flags: Seq<bool>,
    bat: Seq<usize>,
    eat: Seq<usize>,
    mat: Seq<usize>,
    taps: Seq<EvalCheckTap>,
) -> Seq<u32> {
    let out_fp = hybrid_slot(flags, bat, eat, fc as int) as u32;
    let out_mix = mat[mc as int] as u32;
    match op {
        PolyExtStep::Const(v) => seq![
            super::interpreter::WEBGPU_EVAL_OP_CONST,
            out_fp,
            mont_encode(v as int),
            0u32,
            0u32,
            0u32,
            0u32,
            0u32,
        ],
        PolyExtStep::ConstExt(a, b, c, d) => seq![
            super::interpreter::WEBGPU_EVAL_OP_CONST_EXT,
            out_fp,
            mont_encode(a as int),
            mont_encode(b as int),
            mont_encode(c as int),
            mont_encode(d as int),
            0u32,
            0u32,
        ],
        PolyExtStep::Get(t) => seq![
            super::interpreter::WEBGPU_EVAL_OP_GET,
            out_fp,
            taps[t as int].group as u32,
            taps[t as int].offset as u32,
            (taps[t as int].back * INV_RATE) as u32,
            0u32,
            0u32,
            0u32,
        ],
        PolyExtStep::GetGlobal(arg, off) => seq![
            super::interpreter::WEBGPU_EVAL_OP_GET_GLOBAL,
            out_fp,
            arg as u32,
            off as u32,
            0u32,
            0u32,
            0u32,
            0u32,
        ],
        PolyExtStep::Add(l, r) | PolyExtStep::Sub(l, r) | PolyExtStep::Mul(l, r) => {
            let (code, swap) = arith_code(op, flags[l as int], flags[r as int]);
            let sl = hybrid_slot(flags, bat, eat, l as int) as u32;
            let sr = hybrid_slot(flags, bat, eat, r as int) as u32;
            seq![code, out_fp, if swap { sr } else { sl }, if swap { sl } else { sr }, 0u32, 0u32, 0u32, 0u32]
        },
        PolyExtStep::True => seq![
            super::interpreter::WEBGPU_EVAL_OP_TRUE,
            out_mix,
            mc as u32,
            0u32,
            0u32,
            0u32,
            0u32,
            0u32,
        ],
        PolyExtStep::AndEqz(c, i) => seq![
            if flags[i as int] {
                WEBGPU_EVAL_OP_AND_EQZ_EXT
            } else {
                super::interpreter::WEBGPU_EVAL_OP_AND_EQZ
            },
            out_mix,
            mat[c as int] as u32,
            hybrid_slot(flags, bat, eat, i as int) as u32,
            mc as u32,
            0u32,
            0u32,
            0u32,
        ],
        PolyExtStep::AndCond(c, d, i) => seq![
            if flags[d as int] {
                WEBGPU_EVAL_OP_AND_COND_EXT
            } else {
                super::interpreter::WEBGPU_EVAL_OP_AND_COND
            },
            out_mix,
            mat[c as int] as u32,
            hybrid_slot(flags, bat, eat, d as int) as u32,
            mat[i as int] as u32,
            mc as u32,
            0u32,
            0u32,
        ],
    }
}

/// The hybrid instructions of the steps of `s`, in order.
pub open spec fn hybrid_tape_words(
    s: Seq<PolyExtStep>,
    taps: Seq<EvalCheckTap>,
    flags: Seq<bool>,
    bat: Seq<usize>,
    eat: Seq<usize>,
    mat: Seq<usize>,
) -> Seq<u32>
    decreases s.len(),
{
    if s.len() == 0 {
        Seq::empty()
    } else {
        hybrid_tape_words(s.drop_last(), taps, flags, bat, eat, mat) + hybrid_op_words(
            s.last(),
            fp_count(s.drop_last()),
            mix_count(s.drop_last()),
            flags,
            bat,
            eat,
            mat,
            taps,
        )
    }
}

/// The hybrid interpreter program of tape `s` returning mix var `ret`: its
/// instructions, the numbers of base, extension and mix slots, and the
/// slot of the returned var; or why it cannot be built.
pub open spec fn hybrid_program(s: Seq<PolyExtStep>, ret: usize, taps: Seq<EvalCheckTap>) -> Result<
    (Seq<u32>, usize, usize, usize, usize),
    EvalCheckError,
> {
    match last_uses_error(s, ret) {
        Some(e) => Err(e),
        None => match leaves_error(s, taps) {
            Some(e) => Err(e),
            None => {
                let r = tape_hybrid(s, ret);
                if r.base.pool.max > WEBGPU_EVAL_CHECK_MAX_FP_ELEM_SLOTS {
                    Err(
                        EvalCheckError::FpSlotsExceeded {
                            needed: r.base.pool.max,
                            max: WEBGPU_EVAL_CHECK_MAX_FP_ELEM_SLOTS,
                        },
                    )
                } else if r.ext.pool.max > WEBGPU_EVAL_CHECK_MAX_EXT_BANK_SLOTS {
                    Err(
                        EvalCheckError::ExtSlotsExceeded {
                            needed: r.ext.pool.max,
                            max: WEBGPU_EVAL_CHECK_MAX_EXT_BANK_SLOTS,
                        },
                    )
                } else if r.mix.pool.max > WEBGPU_EVAL_CHECK_MAX_MIX_SLOTS {
                    Err(
                        EvalCheckError::MixSlotsExceeded {
                            needed: r.mix.pool.max,
                            max: WEBGPU_EVAL_CHECK_MAX_MIX_SLOTS,
                        },
                    )
                } else {
                    Ok(
                        (
                            hybrid_tape_words(s, taps, ext_flags(s), r.base.at, r.ext.at, r.mix.at),
                            r.base.pool.max,
                            r.ext.pool.max,
                            r.mix.pool.max,
                            r.mix.at[ret as int],
                        ),
                    )
                }
            },
        },
    }
}

/// Where an fp var lives in the hybrid compiler: its bank and its slot.
#[derive(Clone, Copy)]
pub struct HybridSlot {
    pub is_ext: bool,
    pub slot: usize,
}

/// The entry of an fp var of kind `flag` whose base-bank and
/// extension-bank slots are `b` and `e`.
pub open spec fn hybrid_entry(flag: bool, b: Option<usize>, e: Option<usize>) -> Option<HybridSlot> {
    if flag {
        match e {
            Some(x) => Some(HybridSlot { is_ext: true, slot: x }),
            None => None,
        }
    } else {
        match b {
            Some(x) => Some(HybridSlot { is_ext: false, slot: x }),
            None => None,
        }
    }
}

/// The entries of all fp vars of the base bank `b` and extension bank `e`.
pub open spec fn hybrid_live(flags: Seq<bool>, b: SlotBank, e: SlotBank) -> Seq<Option<HybridSlot>> {
    Seq::new(b.live.len(), |v: int| hybrid_entry(flags[v], b.live[v], e.live[v]))
}

/// The bank and slot fp var `var` holds, or why it holds none.
pub fn hybrid_fp_slot(slots: &Vec<Option<HybridSlot>>, var: usize) -> (res: Result<HybridSlot, EvalCheckError>)
    ensures
        var < slots@.len() && slots@[var as int] is Some ==> res is Ok && res->Ok_0 == slots@[var as int]->Some_0,
        var >= slots@.len() ==> res is Err && res->Err_0 == EvalCheckError::FpVarOutOfRange(var),
        var < slots@.len() && slots@[var as int] is None ==> res is Err && res->Err_0
            == EvalCheckError::FpValueReleased(var),
{
    if var >= slots.len() {
        return Err(EvalCheckError::FpVarOutOfRange(var));
    }
    match slots[var] {
        Some(slot) => Ok(slot),
        None => Err(EvalCheckError::FpValueReleased(var)),
    }
}

/// Takes a slot for the fp var step `k` defines from the bank of its kind,
/// giving it back at once when nothing reads the var.
fn define_hybrid(
    base_alloc: &mut EvalCheckSlotAllocator,
    ext_alloc: &mut EvalCheckSlotAllocator,
    fp_slots: &mut Vec<Option<HybridSlot>>,
    last_fp: &Vec<Option<usize>>,
    k: usize,
    is_ext: bool,
    Ghost(b): Ghost<SlotBank>,
    Ghost(e): Ghost<SlotBank>,
    Ghost(flags): Ghost<Seq<bool>>,
) -> (slot: usize)
    requires
        old(base_alloc)@ == b.pool,
        old(ext_alloc)@ == e.pool,
        old(fp_slots)@ == hybrid_live(flags, b, e),
        b.live.len() == e.live.len(),
        b.live.len() < last_fp@.len(),
        b.live.len() < flags.len(),
        flags[b.live.len() as int] == is_ext,
        b.pool.max < usize::MAX,
        e.pool.max < usize::MAX,
    ensures
        ({
            let keep = last_fp@[b.live.len() as int] is Some;
            let b1 = if is_ext {
                bank_skip(b, k)
            } else {
                bank_define(b, k, keep)
            };
            let e1 = if is_ext {
                bank_define(e, k, keep)
            } else {
                bank_skip(e, k)
            };
            &&& final(base_alloc)@ == b1.pool
            &&& final(ext_alloc)@ == e1.pool
            &&& final(fp_slots)@ == hybrid_live(flags, b1, e1)
            &&& slot == if is_ext {
                pool_take(e.pool).0
            } else {
                pool_take(b.pool).0
            }
        }),
{
    let n = fp_slots.len();
    let slot = if is_ext {
        ext_alloc.allocate()
    } else {
        base_alloc.allocate()
    };
    fp_slots.push(Some(HybridSlot { is_ext, slot }));
    let keep = match last_fp[n] {
        Some(_) => true,
        None => false,
    };
    if !keep {
        fp_slots.set(n, None);
        if is_ext {
            ext_alloc.free(slot);
        } else {
            base_alloc.free(slot);
        }
    }
    let ghost b1 = if is_ext {
        bank_skip(b, k)
    } else {
        bank_define(b, k, keep)
    };
    let ghost e1 = if is_ext {
        bank_define(e, k, keep)
    } else {
        bank_skip(e, k)
    };
    assert(fp_slots@ =~= hybrid_live(flags, b1, e1));
    slot
}

/// Gives back, to its bank, the slot of each of `xs` whose last use is
/// step `k`.
fn release_hybrid_reads(
    base_alloc: &mut EvalCheckSlotAllocator,
    ext_alloc: &mut EvalCheckSlotAllocator,
    fp_slots: &mut Vec<Option<HybridSlot>>,
    xs: &Vec<usize>,
    last: &Vec<Option<usize>>,
    k: usize,
    Ghost(b): Ghost<SlotBank>,
    Ghost(e): Ghost<SlotBank>,
    Ghost(flags): Ghost<Seq<bool>>,
)
    requires
        old(base_alloc)@ == b.pool,
        old(ext_alloc)@ == e.pool,
        old(fp_slots)@ == hybrid_live(flags, b, e),
        bank_ok(b, last@),
        bank_ok(e, last@),
        b.live.len() == e.live.len(),
        last@.len() <= usize::MAX,
        forall|v: int| 0 <= v < b.live.len() ==> #[trigger] b.held[v] == !flags[v],
        forall|v: int| 0 <= v < e.live.len() ==> #[trigger] e.held[v] == flags[v],
        forall|i: int| 0 <= i < xs@.len() ==> #[trigger] xs@[i] < b.live.len(),
        forall|i: int, m: int| 0 <= i < m < xs@.len() ==> xs@[i] != xs@[m],
    ensures
        final(base_alloc)@ == bank_release_all(b, xs@, last@, k).pool,
        final(ext_alloc)@ == bank_release_all(e, xs@, last@, k).pool,
        final(fp_slots)@ == hybrid_live(flags, bank_release_all(b, xs@, last@, k), bank_release_all(e, xs@, last@, k)),
{
    let mut j: usize = 0;
    assert(xs@.take(0) =~= Seq::<usize>::empty());
    while j < xs.len()
        invariant
            j <= xs@.len(),
            bank_ok(b, last@),
            bank_ok(e, last@),
            b.live.len() == e.live.len(),
            last@.len() <= usize::MAX,
            forall|v: int| 0 <= v < b.live.len() ==> #[trigger] b.held[v] == !flags[v],
            forall|v: int| 0 <= v < e.live.len() ==> #[trigger] e.held[v] == flags[v],
            forall|i: int| 0 <= i < xs@.len() ==> #[trigger] xs@[i] < b.live.len(),
            forall|i: int, m: int| 0 <= i < m < xs@.len() ==> xs@[i] != xs@[m],
            base_alloc@ == bank_release_all(b, xs@.take(j as int), last@, k).pool,
            ext_alloc@ == bank_release_all(e, xs@.take(j as int), last@, k).pool,
            fp_slots@ == hybrid_live(
                flags,
                bank_release_all(b, xs@.take(j as int), last@, k),
                bank_release_all(e, xs@.take(j as int), last@, k),
            ),
        decreases xs@.len() - j,
    {
        let x = xs[j];
        let ghost pre = xs@.take(j as int);
        let ghost bj = bank_release_all(b, pre, last@, k);
        let ghost ej = bank_release_all(e, pre, last@, k);
        proof {
            assert(xs@.take(j + 1).drop_last() =~= pre);
            assert(xs@.take(j + 1).last() == x);
            assert forall|i: int| 0 <= i < pre.len() implies #[trigger] pre[i] < b.live.len() by {
                assert(pre[i] == xs@[i]);
            }
            assert forall|i: int, m: int| 0 <= i < m < pre.len() implies pre[i] != pre[m] by {
                assert(pre[i] == xs@[i] && pre[m] == xs@[m]);
            }
            lemma_release_all(b, pre, last@, k);
            lemma_release_all(e, pre, last@, k);
            assert(bj.held[x as int] == !flags[x as int]);
            assert(ej.held[x as int] == flags[x as int]);
        }
        let is_last = match last[x] {
            Some(l) => l == k,
            None => false,
        };
        if is_last {
            match hybrid_fp_slot(fp_slots, x) {
                Ok(hs) => {
                    fp_slots.set(x, None);
                    if hs.is_ext {
                        ext_alloc.free(hs.slot);
                    } else {
                        base_alloc.free(hs.slot);
                    }
                },
                Err(_) => {},
            }
        }
        proof {
            let bj1 = bank_release_all(b, xs@.take(j + 1), last@, k);
            let ej1 = bank_release_all(e, xs@.take(j + 1), last@, k);
            assert(fp_slots@ =~= hybrid_live(flags, bj1, ej1));
        }
        j = j + 1;
    }
    assert(xs@.take(xs@.len() as int) =~= xs@);
}

/// The banks and slots of the vars `op` reads: `f1`, `f2` for fp operands
/// (the condition of `AndCond`, the inner value of `AndEqz`), `m1`, `m2`
/// for mix operands (chain first).
fn read_hybrid_operands(
    op: PolyExtStep,
    fp_slots: &Vec<Option<HybridSlot>>,
    mix_slots: &Vec<Option<usize>>,
    Ghost(flags): Ghost<Seq<bool>>,
    Ghost(bat): Ghost<Seq<usize>>,
    Ghost(eat): Ghost<Seq<usize>>,
    Ghost(mat): Ghost<Seq<usize>>,
) -> (r: (HybridSlot, HybridSlot, usize, usize))
    requires
        forall|x: usize|
            #[trigger] reads_fp(op, x) ==> x < fp_slots@.len() && fp_slots@[x as int] == Some(
                HybridSlot { is_ext: flags[x as int], slot: hybrid_slot(flags, bat, eat, x as int) },
            ),
        forall|x: usize|
            #[trigger] reads_mix(op, x) ==> x < mix_slots@.len() && mix_slots@[x as int] == Some(mat[x as int]),
    ensures
        match op {
            PolyExtStep::Add(l, rr) | PolyExtStep::Sub(l, rr) | PolyExtStep::Mul(l, rr) => r.0.is_ext == flags[l as int]
                && r.0.slot == hybrid_slot(flags, bat, eat, l as int) && r.1.is_ext == flags[rr as int] && r.1.slot
                == hybrid_slot(flags, bat, eat, rr as int),
            PolyExtStep::AndEqz(c, i) => r.0.is_ext == flags[i as int] && r.0.slot == hybrid_slot(
                flags,
                bat,
                eat,
                i as int,
            ) && r.2 == mat[c as int],
            PolyExtStep::AndCond(c, d, i) => r.0.is_ext == flags[d as int] && r.0.slot == hybrid_slot(
                flags,
                bat,
                eat,
                d as int,
            ) && r.2 == mat[c as int] && r.3 == mat[i as int],
            _ => true,
        },
{
    let none = HybridSlot { is_ext: false, slot: 0 };
    match op {
        PolyExtStep::Add(l, r) | PolyExtStep::Sub(l, r) | PolyExtStep::Mul(l, r) => {
            assert(reads_fp(op, l) && reads_fp(op, r));
            let a = match hybrid_fp_slot(fp_slots, l) {
                Ok(x) => x,
                Err(_) => none,
            };
            let b = match hybrid_fp_slot(fp_slots, r) {
                Ok(x) => x,
                Err(_) => none,
            };
            (a, b, 0, 0)
        },
        PolyExtStep::AndEqz(chain, inner) => {
            assert(reads_fp(op, inner) && reads_mix(op, chain));
            let c = match eval_check_mix_slot(mix_slots, chain) {
                Ok(x) => x,
                Err(_) => 0,
            };
            let i = match hybrid_fp_slot(fp_slots, inner) {
                Ok(x) => x,
                Err(_) => none,
            };
            (i, none, c, 0)
        },
        PolyExtStep::AndCond(chain, cond, inner) => {
            assert(reads_fp(op, cond) && reads_mix(op, chain) && reads_mix(op, inner));
            let c = match eval_check_mix_slot(mix_slots, chain) {
                Ok(x) => x,
                Err(_) => 0,
            };
            let d = match hybrid_fp_slot(fp_slots, cond) {
                Ok(x) => x,
                Err(_) => none,
            };
            let i = match eval_check_mix_slot(mix_slots, inner) {
                Ok(x) => x,
                Err(_) => 0,
            };
            (d, none, c, i)
        },
        _ => (none, none, 0, 0),
    }
}

/// Before step `k`, every var the step reads holds its slot, fp vars in
/// the bank of their kind.
proof fn lemma_hybrid_operands_live(s: Seq<PolyExtStep>, ret: usize, k: int)
    requires
        last_uses_error(s, ret) is None,
        0 <= k < s.len(),
        s.len() < usize::MAX,
    ensures
        ({
            let r0 = hybrid_run(s.take(k), last_fp_uses(s), last_mix_uses(s, ret), ext_flags(s));
            let flags = ext_flags(s);
            &&& forall|x: usize|
                #[trigger] reads_fp(s[k], x) ==> x < fp_count(s.take(k)) && hybrid_live(flags, r0.base, r0.ext)[x as int]
                    == Some(HybridSlot { is_ext: flags[x as int], slot: hybrid_slot(flags, r0.base.at, r0.ext.at, x as int) })
            &&& forall|x: usize|
                #[trigger] reads_mix(s[k], x) ==> x < mix_count(s.take(k)) && r0.mix.live[x as int] == Some(
                    r0.mix.at[x as int],
                )
        }),
{
    let lf = last_fp_uses(s);
    let lm = last_mix_uses(s, ret);
    let flags = ext_flags(s);
    lemma_hybrid_inv(s, ret, k);
    lemma_counts_mono(s, k, s.len() as int);
    assert(s.take(s.len() as int) =~= s);
    let r0 = hybrid_run(s.take(k), lf, lm, flags);
    assert forall|x: usize| #[trigger] reads_fp(s[k], x) implies x < fp_count(s.take(k)) && hybrid_live(
        flags,
        r0.base,
        r0.ext,
    )[x as int] == Some(HybridSlot { is_ext: flags[x as int], slot: hybrid_slot(flags, r0.base.at, r0.ext.at, x as int) }) by {
        lemma_read_defined(s, k, x);
        lemma_last_read(s, x);
        assert(lf[x as int] == last_fp_read(s, x));
        assert(live_after(lf[x as int], k));
        assert(r0.base.held[x as int] == !flags[x as int]);
        assert(r0.ext.held[x as int] == flags[x as int]);
    }
    assert forall|x: usize| #[trigger] reads_mix(s[k], x) implies x < mix_count(s.take(k)) && r0.mix.live[x as int]
        == Some(r0.mix.at[x as int]) by {
        lemma_read_defined(s, k, x);
        lemma_last_read(s, x);
        assert(lm[x as int] == last_mix_use(s, ret, x));
        assert(live_after(lm[x as int], k));
        assert(r0.mix.held[x as int]);
    }
}

/// Step `k` of tape `s`, `op`, on the hybrid banks: reads its operands,
/// defines its var in the bank of its kind, and gives back the slots it
/// read for the last time. Returns the slot of the new var and the operands
/// as `read_hybrid_operands` gives them.
#[verifier::rlimit(60)]
fn hybrid_slot_step(
    op: PolyExtStep,
    k: usize,
    last_fp: &Vec<Option<usize>>,
    last_mix: &Vec<Option<usize>>,
    base_alloc: &mut EvalCheckSlotAllocator,
    ext_alloc: &mut EvalCheckSlotAllocator,
    mix_alloc: &mut EvalCheckSlotAllocator,
    fp_slots: &mut Vec<Option<HybridSlot>>,
    mix_slots: &mut Vec<Option<usize>>,
    Ghost(s): Ghost<Seq<PolyExtStep>>,
    Ghost(ret): Ghost<usize>,
) -> (r: (usize, HybridSlot, HybridSlot, usize, usize))
    requires
        last_uses_error(s, ret) is None,
        s.len() < usize::MAX,
        k < s.len(),
        s[k as int] == op,
        last_fp@ == last_fp_uses(s),
        last_mix@ == last_mix_uses(s, ret),
        old(base_alloc)@ == hybrid_run(s.take(k as int), last_fp_uses(s), last_mix_uses(s, ret), ext_flags(s)).base.pool,
        old(ext_alloc)@ == hybrid_run(s.take(k as int), last_fp_uses(s), last_mix_uses(s, ret), ext_flags(s)).ext.pool,
        old(mix_alloc)@ == hybrid_run(s.take(k as int), last_fp_uses(s), last_mix_uses(s, ret), ext_flags(s)).mix.pool,
        old(fp_slots)@ == hybrid_live(
            ext_flags(s),
            hybrid_run(s.take(k as int), last_fp_uses(s), last_mix_uses(s, ret), ext_flags(s)).base,
            hybrid_run(s.take(k as int), last_fp_uses(s), last_mix_uses(s, ret), ext_flags(s)).ext,
        ),
        old(mix_slots)@ == hybrid_run(s.take(k as int), last_fp_uses(s), last_mix_uses(s, ret), ext_flags(s)).mix.live,
    ensures
        ({
            let flags = ext_flags(s);
            let r0 = hybrid_run(s.take(k as int), last_fp_uses(s), last_mix_uses(s, ret), flags);
            let r1 = hybrid_run(s.take(k + 1), last_fp_uses(s), last_mix_uses(s, ret), flags);
            let fc = fp_count(s.take(k as int)) as int;
            let mc = mix_count(s.take(k as int)) as int;
            &&& final(base_alloc)@ == r1.base.pool
            &&& final(ext_alloc)@ == r1.ext.pool
            &&& final(mix_alloc)@ == r1.mix.pool
            &&& final(fp_slots)@ == hybrid_live(flags, r1.base, r1.ext)
            &&& final(mix_slots)@ == r1.mix.live
            &&& forall|v: int| 0 <= v < fc ==> #[trigger] r1.base.at[v] == r0.base.at[v]
            &&& forall|v: int| 0 <= v < fc ==> #[trigger] r1.ext.at[v] == r0.ext.at[v]
            &&& forall|v: int| 0 <= v < mc ==> #[trigger] r1.mix.at[v] == r0.mix.at[v]
            &&& is_fp_step(op) ==> r.0 == hybrid_slot(flags, r1.base.at, r1.ext.at, fc)
            &&& !is_fp_step(op) ==> r.0 == r1.mix.at[mc]
            &&& match op {
                PolyExtStep::Add(l, rr) | PolyExtStep::Sub(l, rr) | PolyExtStep::Mul(l, rr) => r.1.is_ext
                    == flags[l as int] && r.1.slot == hybrid_slot(flags, r1.base.at, r1.ext.at, l as int) && r.2.is_ext
                    == flags[rr as int] && r.2.slot == hybrid_slot(flags, r1.base.at, r1.ext.at, rr as int),
                PolyExtStep::AndEqz(c, i) => r.1.is_ext == flags[i as int] && r.1.slot == hybrid_slot(
                    flags,
                    r1.base.at,
                    r1.ext.at,
                    i as int,
                ) && r.3 == r1.mix.at[c as int],
                PolyExtStep::AndCond(c, d, i) => r.1.is_ext == flags[d as int] && r.1.slot == hybrid_slot(
                    flags,
                    r1.base.at,
                    r1.ext.at,
                    d as int,
                ) && r.3 == r1.mix.at[c as int] && r.4 == r1.mix.at[i as int],
                _ => true,
            }
        }),
{
    let ghost lf = last_fp_uses(s);
    let ghost lm = last_mix_uses(s, ret);
    let ghost flags = ext_flags(s);
    let ghost r0 = hybrid_run(s.take(k as int), lf, lm, flags);
    let ghost fc = fp_count(s.take(k as int)) as int;
    proof {
        lemma_hybrid_inv(s, ret, k as int);
        lemma_new_var_last(s, ret, k as int);
        lemma_hybrid_operands_live(s, ret, k as int);
        lemma_take_step(s, k as int);
        lemma_reads_distinct(op);
        lemma_counts_mono(s, k + 1, s.len() as int);
        assert(s.take(s.len() as int) =~= s);
        assert(hybrid_run(s.take(k + 1), lf, lm, flags) == hybrid_step(r0, op, k, lf, lm, flags));
        if is_fp_step(op) {
            lemma_step_flag(s, k as int);
        }
    }
    let (f1, f2, m1, m2) = read_hybrid_operands(
        op,
        fp_slots,
        mix_slots,
        Ghost(flags),
        Ghost(r0.base.at),
        Ghost(r0.ext.at),
        Ghost(r0.mix.at),
    );
    let is_fp = match op {
        PolyExtStep::True | PolyExtStep::AndEqz(_, _) | PolyExtStep::AndCond(_, _, _) => false,
        _ => true,
    };
    let out_is_ext = match op {
        PolyExtStep::ConstExt(_, _, _, _) => true,
        PolyExtStep::Add(_, _) | PolyExtStep::Sub(_, _) | PolyExtStep::Mul(_, _) => f1.is_ext || f2.is_ext,
        _ => false,
    };
    let ghost keep = lf[fc] is Some;
    let ghost base1 = if is_fp && !flags[fc] {
        bank_define(r0.base, k, keep)
    } else if is_fp {
        bank_skip(r0.base, k)
    } else {
        r0.base
    };
    let ghost ext1 = if is_fp && flags[fc] {
        bank_define(r0.ext, k, keep)
    } else if is_fp {
        bank_skip(r0.ext, k)
    } else {
        r0.ext
    };
    let ghost mix1 = if is_fp {
        r0.mix
    } else {
        bank_define(r0.mix, k, lm[r0.mix.live.len() as int] is Some)
    };
    let out_slot = if is_fp {
        proof {
            if flags[fc] {
                lemma_define(r0.ext, lf, k);
                lemma_skip(r0.base, lf, k);
            } else {
                lemma_define(r0.base, lf, k);
                lemma_skip(r0.ext, lf, k);
            }
        }
        define_hybrid(
            base_alloc,
            ext_alloc,
            fp_slots,
            last_fp,
            k,
            out_is_ext,
            Ghost(r0.base),
            Ghost(r0.ext),
            Ghost(flags),
        )
    } else {
        proof {
            lemma_define(r0.mix, lm, k);
        }
        super::slots::define_slot(mix_alloc, mix_slots, last_mix, k, Ghost(r0.mix))
    };
    proof {
        assert forall|x: int| 0 <= x < fc implies base1.at[x] == r0.base.at[x] && ext1.at[x] == r0.ext.at[x]
            && base1.held[x] == r0.base.held[x] && ext1.held[x] == r0.ext.held[x] by {
            if is_fp {
                assert(base1.at[x] == base1.at.take(fc)[x]);
                assert(ext1.at[x] == ext1.at.take(fc)[x]);
                assert(base1.held[x] == base1.held.take(fc)[x]);
                assert(ext1.held[x] == ext1.held.take(fc)[x]);
            }
        }
        assert forall|x: int| 0 <= x < r0.mix.at.len() implies mix1.at[x] == r0.mix.at[x] by {
            if !is_fp {
                assert(mix1.at[x] == mix1.at.take(r0.mix.at.len() as int)[x]);
            }
        }
        assert forall|x: int| 0 <= x < base1.live.len() implies #[trigger] base1.held[x] == !flags[x] by {
            if x < fc {
                assert(base1.held[x] == r0.base.held[x]);
            }
        }
        assert forall|x: int| 0 <= x < ext1.live.len() implies #[trigger] ext1.held[x] == flags[x] by {
            if x < fc {
                assert(ext1.held[x] == r0.ext.held[x]);
            }
        }
    }
    let fxs = super::slots::fp_reads_of(op);
    let mxs = super::slots::mix_reads_of(op);
    proof {
        assert forall|i: int| 0 <= i < fxs@.len() implies #[trigger] fxs@[i] < base1.live.len() by {
            assert(reads_fp(op, fxs@[i]));
        }
        assert forall|i: int| 0 <= i < mxs@.len() implies #[trigger] mxs@[i] < mix1.live.len() by {
            assert(reads_mix(op, mxs@[i]));
        }
        assert forall|i: int| 0 <= i < mxs@.len() && lm[#[trigger] mxs@[i] as int] == Some(k) implies mix1.live[mxs@[i] as int] is Some by {
            assert(reads_mix(op, mxs@[i]));
            if !is_fp {
                assert(mix1.live[mxs@[i] as int] == mix1.live.take(r0.mix.live.len() as int)[mxs@[i] as int]);
            }
        }
    }
    release_hybrid_reads(base_alloc, ext_alloc, fp_slots, &fxs, last_fp, k, Ghost(base1), Ghost(ext1), Ghost(flags));
    super::slots::release_reads(mix_alloc, mix_slots, &mxs, last_mix, k, Ghost(mix1));
    proof {
        lemma_release_all(base1, fxs@, lf, k);
        lemma_release_all(ext1, fxs@, lf, k);
        lemma_release_all(mix1, mxs@, lm, k);
    }
    (out_slot, f1, f2, m1, m2)
}

/// The hybrid instruction of step `op` whose own var is in slot `o`, with
/// operands as `hybrid_slot_step` gives them.
fn hybrid_instr_words(
    op: PolyExtStep,
    o: usize,
    f1: HybridSlot,
    f2: HybridSlot,
    m1: usize,
    m2: usize,
    mc: usize,
    taps: &[EvalCheckTap],
    Ghost(fc): Ghost<nat>,
    Ghost(flags): Ghost<Seq<bool>>,
    Ghost(bat): Ghost<Seq<usize>>,
    Ghost(eat): Ghost<Seq<usize>>,
    Ghost(mat): Ghost<Seq<usize>>,
) -> (w: [u32; 8])
    requires
        is_fp_step(op) ==> hybrid_slot(flags, bat, eat, fc as int) == o,
        !is_fp_step(op) ==> mat[mc as int] == o,
        match op {
            PolyExtStep::Add(l, r) | PolyExtStep::Sub(l, r) | PolyExtStep::Mul(l, r) => f1.is_ext == flags[l as int]
                && f1.slot == hybrid_slot(flags, bat, eat, l as int) && f2.is_ext == flags[r as int] && f2.slot
                == hybrid_slot(flags, bat, eat, r as int),
            PolyExtStep::AndEqz(c, i) => f1.is_ext == flags[i as int] && f1.slot == hybrid_slot(
                flags,
                bat,
                eat,
                i as int,
            ) && m1 == mat[c as int],
            PolyExtStep::AndCond(c, d, i) => f1.is_ext == flags[d as int] && f1.slot == hybrid_slot(
                flags,
                bat,
                eat,
                d as int,
            ) && m1 == mat[c as int] && m2 == mat[i as int],
            PolyExtStep::Get(t) => t < taps@.len() && taps@[t as int].back * INV_RATE <= usize::MAX,
            _ => true,
        },
    ensures
        w@ == hybrid_op_words(op, fc, mc as nat, flags, bat, eat, mat, taps@),
{
    let o = o as u32;
    let w: [u32; 8] = match op {
        PolyExtStep::Const(v) => [super::interpreter::WEBGPU_EVAL_OP_CONST, o, elem_const_word(v), 0, 0, 0, 0, 0],
        PolyExtStep::ConstExt(a, b, c, d) => [
            super::interpreter::WEBGPU_EVAL_OP_CONST_EXT,
            o,
            elem_const_word(a),
            elem_const_word(b),
            elem_const_word(c),
            elem_const_word(d),
            0,
            0,
        ],
        PolyExtStep::Get(t) => [
            super::interpreter::WEBGPU_EVAL_OP_GET,
            o,
            taps[t].group as u32,
            taps[t].offset as u32,
            (taps[t].back * INV_RATE) as u32,
            0,
            0,
            0,
        ],
        PolyExtStep::GetGlobal(arg, off) => [
            super::interpreter::WEBGPU_EVAL_OP_GET_GLOBAL,
            o,
            arg as u32,
            off as u32,
            0,
            0,
            0,
            0,
        ],
        PolyExtStep::Add(_, _) | PolyExtStep::Sub(_, _) | PolyExtStep::Mul(_, _) => {
            let le = f1.is_ext;
            let re = f2.is_ext;
            let (code, swap): (u32, bool) = match op {
                PolyExtStep::Add(_, _) => if !le && !re {
                    (super::interpreter::WEBGPU_EVAL_OP_ADD, false)
                } else if le && re {
                    (WEBGPU_EVAL_OP_ADD_EE, false)
                } else if le {
                    (WEBGPU_EVAL_OP_ADD_EB, false)
                } else {
                    (WEBGPU_EVAL_OP_ADD_EB, true)
                },
                PolyExtStep::Sub(_, _) => if !le && !re {
                    (super::interpreter::WEBGPU_EVAL_OP_SUB, false)
                } else if le && re {
                    (WEBGPU_EVAL_OP_SUB_EE, false)
                } else if le {
                    (WEBGPU_EVAL_OP_SUB_EB, false)
                } else {
                    (WEBGPU_EVAL_OP_SUB_BE, false)
                },
                _ => if !le && !re {
                    (super::interpreter::WEBGPU_EVAL_OP_MUL, false)
                } else if le && re {
                    (WEBGPU_EVAL_OP_MUL_EE, false)
                } else if le {
                    (WEBGPU_EVAL_OP_MUL_EB, false)
                } else {
                    (WEBGPU_EVAL_OP_MUL_EB, true)
                },
            };
            let (a, b) = if swap {
                (f2.slot, f1.slot)
            } else {
                (f1.slot, f2.slot)
            };
            [code, o, a as u32, b as u32, 0, 0, 0, 0]
        },
        PolyExtStep::True => [super::interpreter::WEBGPU_EVAL_OP_TRUE, o, mc as u32, 0, 0, 0, 0, 0],
        PolyExtStep::AndEqz(_, _) => {
            let code = if f1.is_ext {
                WEBGPU_EVAL_OP_AND_EQZ_EXT
            } else {
                super::interpreter::WEBGPU_EVAL_OP_AND_EQZ
            };
            [code, o, m1 as u32, f1.slot as u32, mc as u32, 0, 0, 0]
        },
        PolyExtStep::AndCond(_, _, _) => {
            let code = if f1.is_ext {
                WEBGPU_EVAL_OP_AND_COND_EXT
            } else {
                super::interpreter::WEBGPU_EVAL_OP_AND_COND
            };
            [code, o, m1 as u32, f1.slot as u32, m2 as u32, mc as u32, 0, 0]
        },
    };
    assert(w@ =~= hybrid_op_words(op, fc, mc as nat, flags, bat, eat, mat, taps@));
    w
}

/// Appends the eight words of one instruction.
fn push_words(words: &mut Vec<u32>, w: [u32; 8])
    ensures
        final(words)@ == old(words)@ + w@,
{
    let mut i: usize = 0;
    let ghost w0 = old(words)@;
    while i < 8
        invariant
            i <= 8,
            words@ == w0 + w@.take(i as int),
        decreases 8 - i,
    {
        words.push(w[i]);
        assert(w@.take(i + 1) =~= w@.take(i as int).push(w@[i as int]));
        i = i + 1;
    }
    assert(w@.take(8) =~= w@);
}

/// One step of the hybrid compiler: checks the step's tap or global read,
/// moves the banks past it, and appends its instruction.
#[verifier::rlimit(40)]
fn hybrid_step_exec(
    op: PolyExtStep,
    k: usize,
    taps: &[EvalCheckTap],
    last_fp: &Vec<Option<usize>>,
    last_mix: &Vec<Option<usize>>,
    base_alloc: &mut EvalCheckSlotAllocator,
    ext_alloc: &mut EvalCheckSlotAllocator,
    mix_alloc: &mut EvalCheckSlotAllocator,
    fp_slots: &mut Vec<Option<HybridSlot>>,
    mix_slots: &mut Vec<Option<usize>>,
    words: &mut Vec<u32>,
    Ghost(s): Ghost<Seq<PolyExtStep>>,
    Ghost(ret): Ghost<usize>,
) -> (res: Result<(), EvalCheckError>)
    requires
        last_uses_error(s, ret) is None,
        s.len() < u32::MAX,
        leaves_fit(s, taps@),
        k < s.len(),
        s[k as int] == op,
        last_fp@ == last_fp_uses(s),
        last_mix@ == last_mix_uses(s, ret),
        old(base_alloc)@ == hybrid_run(s.take(k as int), last_fp_uses(s), last_mix_uses(s, ret), ext_flags(s)).base.pool,
        old(ext_alloc)@ == hybrid_run(s.take(k as int), last_fp_uses(s), last_mix_uses(s, ret), ext_flags(s)).ext.pool,
        old(mix_alloc)@ == hybrid_run(s.take(k as int), last_fp_uses(s), last_mix_uses(s, ret), ext_flags(s)).mix.pool,
        old(fp_slots)@ == hybrid_live(
            ext_flags(s),
            hybrid_run(s.take(k as int), last_fp_uses(s), last_mix_uses(s, ret), ext_flags(s)).base,
            hybrid_run(s.take(k as int), last_fp_uses(s), last_mix_uses(s, ret), ext_flags(s)).ext,
        ),
        old(mix_slots)@ == hybrid_run(s.take(k as int), last_fp_uses(s), last_mix_uses(s, ret), ext_flags(s)).mix.live,
    ensures
        match leaf_error(op, taps@) {
            Some(e) => res is Err && res->Err_0 == e,
            None => {
                let flags = ext_flags(s);
                let r0 = hybrid_run(s.take(k as int), last_fp_uses(s), last_mix_uses(s, ret), flags);
                let r1 = hybrid_run(s.take(k + 1), last_fp_uses(s), last_mix_uses(s, ret), flags);
                let fc = fp_count(s.take(k as int)) as int;
                let mc = mix_count(s.take(k as int)) as int;
                &&& res is Ok
                &&& final(base_alloc)@ == r1.base.pool
                &&& final(ext_alloc)@ == r1.ext.pool
                &&& final(mix_alloc)@ == r1.mix.pool
                &&& final(fp_slots)@ == hybrid_live(flags, r1.base, r1.ext)
                &&& final(mix_slots)@ == r1.mix.live
                &&& final(words)@ == old(words)@ + hybrid_op_words(
                    op,
                    fc as nat,
                    mc as nat,
                    flags,
                    r1.base.at,
                    r1.ext.at,
                    r1.mix.at,
                    taps@,
                )
                &&& forall|v: int| 0 <= v < fc ==> #[trigger] r1.base.at[v] == r0.base.at[v]
                &&& forall|v: int| 0 <= v < fc ==> #[trigger] r1.ext.at[v] == r0.ext.at[v]
                &&& forall|v: int| 0 <= v < mc ==> #[trigger] r1.mix.at[v] == r0.mix.at[v]
            },
        },
{
    proof {
        assert(super::interpreter::leaf_fits(s[k as int], taps@));
        lemma_hybrid_inv(s, ret, k as int);
    }
    match op {
        PolyExtStep::Get(t) => {
            if t >= taps.len() {
                return Err(EvalCheckError::TapOutOfRange(t));
            }
            if taps[t].group >= 3 {
                return Err(EvalCheckError::TapGroupUnsupported(taps[t].group));
            }
        },
        PolyExtStep::GetGlobal(arg, _) => {
            if arg >= 2 {
                return Err(EvalCheckError::GlobalArgUnsupported(arg));
            }
        },
        _ => {},
    }
    let ghost fc0 = fp_count(s.take(k as int));
    let mc = mix_slots.len();
    let ghost r1 = hybrid_run(s.take(k + 1), last_fp_uses(s), last_mix_uses(s, ret), ext_flags(s));
    let (out_slot, f1, f2, m1, m2) = hybrid_slot_step(
        op,
        k,
        last_fp,
        last_mix,
        base_alloc,
        ext_alloc,
        mix_alloc,
        fp_slots,
        mix_slots,
        Ghost(s),
        Ghost(ret),
    );
    let w = hybrid_instr_words(
        op,
        out_slot,
        f1,
        f2,
        m1,
        m2,
        mc,
        taps,
        Ghost(fc0),
        Ghost(ext_flags(s)),
        Ghost(r1.base.at),
        Ghost(r1.ext.at),
        Ghost(r1.mix.at),
    );
    push_words(words, w);
    Ok(())
}

proof fn lemma_hybrid_words_extend(
    t: Seq<PolyExtStep>,
    taps: Seq<EvalCheckTap>,
    flags: Seq<bool>,
    ba: Seq<usize>,
    ea: Seq<usize>,
    ma: Seq<usize>,
    bb: Seq<usize>,
    eb: Seq<usize>,
    mb: Seq<usize>,
)
    requires
        reads_error(t) is None,
        forall|v: int| 0 <= v < fp_count(t) ==> ba[v] == bb[v] && ea[v] == eb[v],
        forall|v: int| 0 <= v < mix_count(t) ==> ma[v] == mb[v],
    ensures
        hybrid_tape_words(t, taps, flags, ba, ea, ma) == hybrid_tape_words(t, taps, flags, bb, eb, mb),
    decreases t.len(),
{
    if t.len() > 0 {
        let d = t.drop_last();
        lemma_fp_steps_push(d, t.last());
        assert(d.push(t.last()) =~= t);
        lemma_hybrid_words_extend(d, taps, flags, ba, ea, ma, bb, eb, mb);
    }
}

/// The hybrid interpreter program of a tape taken in the given step order:
/// eight words per step naming the slots it reads and writes (base-field
/// values in the base bank, extension values in the extension bank), the
/// numbers of base, extension and mix slots, and the slot of the returned
/// mix var. Fails on a step that reads an undefined var, a missing returned
/// var, a tap or global read the shader cannot do, or more slots than a
/// bank's limit.
pub fn eval_check_base_interpreter_instructions_for_block(
    taps: &[EvalCheckTap],
    block: &[PolyExtStep],
    ret: usize,
) -> (res: Result<(Vec<u32>, usize, usize, usize, usize), EvalCheckError>)
    requires
        block@.len() < u32::MAX,
        leaves_fit(block@, taps@),
    ensures
        hybrid_returned(res, hybrid_program(block@, ret, taps@)),
{
    let ghost s = block@;
    let (last_fp, last_mix, _fp_count, _mix_count) = match super::slots::eval_check_last_uses_block(block, ret) {
        Ok(t) => t,
        Err(e) => return Err(e),
    };
    let ghost lf = last_fp_uses(s);
    let ghost lm = last_mix_uses(s, ret);
    let ghost flags = ext_flags(s);
    let mut base_alloc = EvalCheckSlotAllocator::default();
    let mut ext_alloc = EvalCheckSlotAllocator::default();
    let mut mix_alloc = EvalCheckSlotAllocator::default();
    let mut fp_slots: Vec<Option<HybridSlot>> = Vec::new();
    let mut mix_slots: Vec<Option<usize>> = Vec::new();
    let mut instructions: Vec<u32> = Vec::new();
    let mut i: usize = 0;
    proof {
        assert(s.take(0) =~= Seq::<PolyExtStep>::empty());
        assert(fp_slots@ =~= hybrid_live(flags, empty_bank(), empty_bank()));
        assert(mix_slots@ =~= Seq::<Option<usize>>::empty());
        assert(instructions@ =~= Seq::<u32>::empty());
    }
    while i < block.len()
        invariant
            s == block@,
            lf == last_fp_uses(s),
            lm == last_mix_uses(s, ret),
            flags == ext_flags(s),
            last_fp@ == lf,
            last_mix@ == lm,
            last_uses_error(s, ret) is None,
            s.len() < u32::MAX,
            leaves_fit(s, taps@),
            i <= s.len(),
            leaves_error(s.take(i as int), taps@) is None,
            base_alloc@ == hybrid_run(s.take(i as int), lf, lm, flags).base.pool,
            ext_alloc@ == hybrid_run(s.take(i as int), lf, lm, flags).ext.pool,
            mix_alloc@ == hybrid_run(s.take(i as int), lf, lm, flags).mix.pool,
            fp_slots@ == hybrid_live(
                flags,
                hybrid_run(s.take(i as int), lf, lm, flags).base,
                hybrid_run(s.take(i as int), lf, lm, flags).ext,
            ),
            mix_slots@ == hybrid_run(s.take(i as int), lf, lm, flags).mix.live,
            instructions@ == hybrid_tape_words(
                s.take(i as int),
                taps@,
                flags,
                hybrid_run(s.take(i as int), lf, lm, flags).base.at,
                hybrid_run(s.take(i as int), lf, lm, flags).ext.at,
                hybrid_run(s.take(i as int), lf, lm, flags).mix.at,
            ),
        decreases s.len() - i,
    {
        let op = block[i];
        let ghost r0 = hybrid_run(s.take(i as int), lf, lm, flags);
        let ghost r1 = hybrid_run(s.take(i + 1), lf, lm, flags);
        proof {
            lemma_take_step(s, i as int);
        }
        match hybrid_step_exec(
            op,
            i,
            taps,
            &last_fp,
            &last_mix,
            &mut base_alloc,
            &mut ext_alloc,
            &mut mix_alloc,
            &mut fp_slots,
            &mut mix_slots,
            &mut instructions,
            Ghost(s),
            Ghost(ret),
        ) {
            Ok(()) => {},
            Err(e) => {
                proof {
                    super::interpreter::lemma_leaves_error_sticks(s, taps@, i + 1);
                }
                return Err(e);
            },
        }
        proof {
            lemma_reads_ok_at(s, i as int);
            lemma_hybrid_words_extend(
                s.take(i as int),
                taps@,
                flags,
                r0.base.at,
                r0.ext.at,
                r0.mix.at,
                r1.base.at,
                r1.ext.at,
                r1.mix.at,
            );
        }
        i = i + 1;
    }
    proof {
        assert(s.take(s.len() as int) =~= s);
        lemma_hybrid_inv(s, ret, s.len() as int);
        assert(live_after(lm[ret as int], s.len() as int));
    }
    let ret_slot = match eval_check_mix_slot(&mix_slots, ret) {
        Ok(slot) => slot,
        Err(e) => return Err(e),
    };
    let base_used = base_alloc.max_used();
    let ext_used = ext_alloc.max_used();
    let mix_used = mix_alloc.max_used();
    if base_used > WEBGPU_EVAL_CHECK_MAX_FP_ELEM_SLOTS {
        return Err(EvalCheckError::FpSlotsExceeded { needed: base_used, max: WEBGPU_EVAL_CHECK_MAX_FP_ELEM_SLOTS });
    }
    if ext_used > WEBGPU_EVAL_CHECK_MAX_EXT_BANK_SLOTS {
        return Err(EvalCheckError::ExtSlotsExceeded { needed: ext_used, max: WEBGPU_EVAL_CHECK_MAX_EXT_BANK_SLOTS });
    }
    if mix_used > WEBGPU_EVAL_CHECK_MAX_MIX_SLOTS {
        return Err(EvalCheckError::MixSlotsExceeded { needed: mix_used, max: WEBGPU_EVAL_CHECK_MAX_MIX_SLOTS });
    }
    Ok((instructions, base_used, ext_used, mix_used, ret_slot))
}

/// `res` is the hybrid program (or error) `p`.
pub open spec fn hybrid_returned(
    res: Result<(Vec<u32>, usize, usize, usize, usize), EvalCheckError>,
    p: Result<(Seq<u32>, usize, usize, usize, usize), EvalCheckError>,
) -> bool {
    match p {
        Ok(q) => res is Ok && res->Ok_0.0@ == q.0 && res->Ok_0.1 == q.1 && res->Ok_0.2 == q.2 && res->Ok_0.3 == q.3
            && res->Ok_0.4 == q.4,
        Err(e) => res is Err && res->Err_0 == e,
    }
}

/// The hybrid interpreter program of `def`: its tape is first lazily
/// reordered so that fewer fp values are live at once, then compiled.
pub fn eval_check_base_interpreter_instructions(taps: &[EvalCheckTap], def: &PolyExtStepDef) -> (res: Result<
    (Vec<u32>, usize, usize, usize, usize),
    EvalCheckError,
>)
    requires
        def.block@.len() < u32::MAX,
        super::reorder::reorder_valid(def.block@) ==> leaves_fit(super::reorder::lazy_order(def.block@), taps@),
    ensures
        !super::reorder::reorder_valid(def.block@) ==> res is Err && (res->Err_0 is FpOperandOutOfRange
            || res->Err_0 is FpOperandForwardReference),
        super::reorder::reorder_valid(def.block@) ==> hybrid_returned(
            res,
            hybrid_program(super::reorder::lazy_order(def.block@), def.ret, taps@),
        ),
{
    let block = match super::reorder::eval_check_reorder_lazy(def.block) {
        Ok(b) => b,
        Err(e) => return Err(e),
    };
    proof {
        super::interpreter::lemma_reordered_len(def.block@, block@);
    }
    eval_check_base_interpreter_instructions_for_block(taps, block.as_slice(), def.ret)
}

/// No step of `s` is an extension constant.
pub open spec fn base_only(s: Seq<PolyExtStep>) -> bool {
    forall|k: int| 0 <= k < s.len() ==> !(#[trigger] s[k] is ConstExt)
}

proof fn lemma_not_ext(fs: Seq<PolyExtStep>, v: int)
    requires
        forall|u: int| 0 <= u < fs.len() ==> !(#[trigger] fs[u] is ConstExt),
    ensures
        !fp_is_ext(fs, v),
    decreases v,
{
    if 0 <= v < fs.len() {
        match fs[v] {
            PolyExtStep::Add(l, r) | PolyExtStep::Sub(l, r) | PolyExtStep::Mul(l, r) => {
                if l < v {
                    lemma_not_ext(fs, l as int);
                }
                if r < v {
                    lemma_not_ext(fs, r as int);
                }
            },
            _ => {},
        }
    }
}

proof fn lemma_base_only_flags(s: Seq<PolyExtStep>)
    requires
        base_only(s),
    ensures
        forall|v: int| 0 <= v < fp_count(s) ==> !(#[trigger] ext_flags(s)[v]),
{
    let fs = fp_steps(s);
    lemma_fp_steps_len(s);
    assert forall|u: int| 0 <= u < fs.len() implies !(#[trigger] fs[u] is ConstExt) by {
        super::interpreter::lemma_fp_step_in_tape(s, u);
        let k = choose|k: int| 0 <= k < s.len() && s[k] == fs[u];
        assert(!(s[k] is ConstExt));
    }
    assert forall|v: int| 0 <= v < fp_count(s) implies !(#[trigger] ext_flags(s)[v]) by {
        lemma_not_ext(fs, v);
    }
}

proof fn lemma_release_all_none(b: SlotBank, xs: Seq<usize>, last: Seq<Option<usize>>, k: usize)
    requires
        forall|v: int| 0 <= v < b.live.len() ==> (#[trigger] b.live[v]) is None,
        forall|i: int| 0 <= i < xs.len() ==> #[trigger] xs[i] < b.live.len(),
    ensures
        bank_release_all(b, xs, last, k) == b,
    decreases xs.len(),
{
    if xs.len() > 0 {
        assert forall|i: int| 0 <= i < xs.drop_last().len() implies #[trigger] xs.drop_last()[i] < b.live.len() by {
            assert(xs.drop_last()[i] == xs[i]);
        }
        lemma_release_all_none(b, xs.drop_last(), last, k);
        assert(xs[xs.len() - 1] < b.live.len());
    }
}

/// With no extension values, the base bank runs exactly as the fp bank of
/// the plain interpreter, and the extension bank holds nothing.
proof fn lemma_hybrid_is_plain(s: Seq<PolyExtStep>, ret: usize, k: int)
    requires
        last_uses_error(s, ret) is None,
        s.len() < usize::MAX,
        0 <= k <= s.len(),
        forall|v: int| 0 <= v < fp_count(s) ==> !(#[trigger] ext_flags(s)[v]),
    ensures
        ({
            let h = hybrid_run(s.take(k), last_fp_uses(s), last_mix_uses(s, ret), ext_flags(s));
            let r = super::slots::slot_run(s.take(k), last_fp_uses(s), last_mix_uses(s, ret));
            &&& h.base == r.fp
            &&& h.mix == r.mix
            &&& h.ext.pool == super::slots::SlotPool { free: Seq::empty(), max: 0 }
            &&& h.ext.live.len() == fp_count(s.take(k))
            &&& forall|v: int| 0 <= v < h.ext.live.len() ==> (#[trigger] h.ext.live[v]) is None
        }),
    decreases k,
{
    let lf = last_fp_uses(s);
    let lm = last_mix_uses(s, ret);
    let flags = ext_flags(s);
    if k == 0 {
        assert(s.take(0) =~= Seq::<PolyExtStep>::empty());
    } else {
        let j = k - 1;
        lemma_hybrid_is_plain(s, ret, j);
        lemma_take_step(s, j);
        lemma_counts_mono(s, k, s.len() as int);
        assert(s.take(s.len() as int) =~= s);
        lemma_reads_ok_at(s, j);
        let op = s[j];
        let h0 = hybrid_run(s.take(j), lf, lm, flags);
        let r0 = super::slots::slot_run(s.take(j), lf, lm);
        assert(hybrid_run(s.take(k), lf, lm, flags) == hybrid_step(h0, op, j as usize, lf, lm, flags));
        assert(super::slots::slot_run(s.take(k), lf, lm) == super::slots::run_step(r0, op, j as usize, lf, lm));
        lemma_hybrid_inv(s, ret, j);
        let v = h0.base.live.len() as int;
        let ext1 = if is_fp_step(op) {
            bank_skip(h0.ext, j as usize)
        } else {
            h0.ext
        };
        if is_fp_step(op) {
            assert(!flags[v]);
        }
        assert forall|u: int| 0 <= u < ext1.live.len() implies (#[trigger] ext1.live[u]) is None by {
            if u < h0.ext.live.len() {
                assert(ext1.live[u] == h0.ext.live[u]);
            }
        }
        lemma_reads_distinct(op);
        assert forall|i: int| 0 <= i < fp_reads(op).len() implies #[trigger] fp_reads(op)[i] < ext1.live.len() by {
            lemma_read_defined(s, j, fp_reads(op)[i]);
        }
        lemma_release_all_none(ext1, fp_reads(op), lf, j as usize);
    }
}

proof fn lemma_hybrid_words_plain(
    t: Seq<PolyExtStep>,
    taps: Seq<EvalCheckTap>,
    flags: Seq<bool>,
    bat: Seq<usize>,
    eat: Seq<usize>,
    mat: Seq<usize>,
)
    requires
        reads_error(t) is None,
        base_only(t),
        forall|v: int| 0 <= v < fp_count(t) ==> !(#[trigger] flags[v]),
    ensures
        hybrid_tape_words(t, taps, flags, bat, eat, mat) == super::interpreter::tape_words(t, taps, bat, mat),
    decreases t.len(),
{
    if t.len() > 0 {
        let d = t.drop_last();
        lemma_fp_steps_push(d, t.last());
        assert(d.push(t.last()) =~= t);
        assert(base_only(d)) by {
            assert forall|k: int| 0 <= k < d.len() implies !(#[trigger] d[k] is ConstExt) by {
                assert(d[k] == t[k]);
            }
        }
        lemma_hybrid_words_plain(d, taps, flags, bat, eat, mat);
        assert(!(t[t.len() - 1] is ConstExt));
        let op = t.last();
        let fc = fp_count(d);
        let mc = mix_count(d);
        assert(hybrid_op_words(op, fc, mc, flags, bat, eat, mat, taps) =~= super::interpreter::op_words(
            op,
            fc,
            mc,
            bat,
            mat,
            taps,
        ));
    }
}

/// On a tape with no extension constant the hybrid program is the plain
/// interpreter program: the same instruction words, every fp value in the
/// base bank, and the extension bank unused; and both fail alike.
pub proof fn lemma_hybrid_matches_plain_on_base_tapes(s: Seq<PolyExtStep>, ret: usize, taps: Seq<EvalCheckTap>)
    requires
        s.len() < usize::MAX,
        base_only(s),
    ensures
        match super::interpreter::interpreter_program(s, ret, taps, WEBGPU_EVAL_CHECK_MAX_FP_ELEM_SLOTS) {
            Ok(p) => hybrid_program(s, ret, taps) == Ok::<(Seq<u32>, usize, usize, usize, usize), EvalCheckError>(
                (p.0, p.1, 0usize, p.2, p.3),
            ),
            Err(e) => hybrid_program(s, ret, taps) == Err::<(Seq<u32>, usize, usize, usize, usize), EvalCheckError>(
                e,
            ),
        },
{
    if last_uses_error(s, ret) is None && leaves_error(s, taps) is None {
        lemma_base_only_flags(s);
        lemma_hybrid_is_plain(s, ret, s.len() as int);
        assert(s.take(s.len() as int) =~= s);
        let r = super::slots::tape_slots(s, ret);
        lemma_hybrid_words_plain(s, taps, ext_flags(s), r.fp.at, tape_hybrid(s, ret).ext.at, r.mix.at);
    }
}

/// The lazy order of a tape with no extension constant has none either.
pub proof fn lemma_lazy_order_base_only(block: Seq<PolyExtStep>)
    requires
        base_only(block),
    ensures
        base_only(super::reorder::lazy_order(block)),
{
    let out = super::reorder::lazy_order(block);
    let fs = fp_steps(block);
    super::reorder::lemma_lazy_walk_from(block, block.len() as int);
    lemma_fp_steps_len(block);
    assert forall|k: int| 0 <= k < out.len() implies !(#[trigger] out[k] is ConstExt) by {
        if out[k] is ConstExt {
            assert(super::reorder::from_fp_steps(out[k], fs));
            let v = choose|v: int| 0 <= v < fs.len() && super::reorder::step_from(out[k], #[trigger] fs[v]);
            super::interpreter::lemma_fp_step_in_tape(block, v);
            let j = choose|j: int| 0 <= j < block.len() && block[j] == fs[v];
            assert(!(block[j] is ConstExt));
        }
    }
}

/// For a tape with no extension constant, the base-field interpreter
/// program of its lazy order is the plain interpreter program (with the
/// interpreter's fp slot limit) whenever that one is built: the same
/// instruction words, fp slots, mix slots and return slot, with the
/// extension bank unused.
pub proof fn lemma_base_program_is_plain(block: Seq<PolyExtStep>, ret: usize, taps: Seq<EvalCheckTap>)
    requires
        block.len() < usize::MAX,
        base_only(block),
        super::interpreter::interpreter_program(
            super::reorder::lazy_order(block),
            ret,
            taps,
            super::interpreter::WEBGPU_EVAL_CHECK_MAX_FP_SLOTS,
        ) is Ok,
    ensures
        ({
            let p = super::interpreter::interpreter_program(
                super::reorder::lazy_order(block),
                ret,
                taps,
                super::interpreter::WEBGPU_EVAL_CHECK_MAX_FP_SLOTS,
            )->Ok_0;
            hybrid_program(super::reorder::lazy_order(block), ret, taps) == Ok::<
                (Seq<u32>, usize, usize, usize, usize),
                EvalCheckError,
            >((p.0, p.1, 0usize, p.2, p.3))
        }),
{
    let s = super::reorder::lazy_order(block);
    lemma_lazy_order_base_only(block);
    super::reorder::lemma_lazy_walk_len(block, block.len() as int);
    super::interpreter::lemma_limit_only_gates(
        s,
        ret,
        taps,
        super::interpreter::WEBGPU_EVAL_CHECK_MAX_FP_SLOTS,
        WEBGPU_EVAL_CHECK_MAX_FP_ELEM_SLOTS,
    );
    lemma_hybrid_matches_plain_on_base_tapes(s, ret, taps);
}

proof fn lemma_hybrid_words_len(
    s: Seq<PolyExtStep>,
    taps: Seq<EvalCheckTap>,
    flags: Seq<bool>,
    bat: Seq<usize>,
    eat: Seq<usize>,
    mat: Seq<usize>,
)
    ensures
        hybrid_tape_words(s, taps, flags, bat, eat, mat).len() == 8 * s.len(),
    decreases s.len(),
{
    if s.len() > 0 {
        lemma_hybrid_words_len(s.drop_last(), taps, flags, bat, eat, mat);
    }
}

proof fn lemma_hybrid_words_prefix(
    s: Seq<PolyExtStep>,
    taps: Seq<EvalCheckTap>,
    flags: Seq<bool>,
    bat: Seq<usize>,
    eat: Seq<usize>,
    mat: Seq<usize>,
    i: int,
)
    requires
        0 <= i <= s.len(),
    ensures
        hybrid_tape_words(s.take(i), taps, flags, bat, eat, mat).len() == 8 * i,
        hybrid_tape_words(s, taps, flags, bat, eat, mat).len() == 8 * s.len(),
        hybrid_tape_words(s.take(i), taps, flags, bat, eat, mat) =~= hybrid_tape_words(
            s,
            taps,
            flags,
            bat,
            eat,
            mat,
        ).subrange(0, 8 * i),
    decreases s.len() - i,
{
    if i == s.len() {
        assert(s.take(i) =~= s);
        lemma_hybrid_words_len(s, taps, flags, bat, eat, mat);
    } else {
        lemma_hybrid_words_prefix(s, taps, flags, bat, eat, mat, i + 1);
        assert(s.take(i + 1).drop_last() =~= s.take(i));
        lemma_hybrid_words_len(s.take(i), taps, flags, bat, eat, mat);
        let a = hybrid_tape_words(s.take(i), taps, flags, bat, eat, mat);
        let b = hybrid_tape_words(s.take(i + 1), taps, flags, bat, eat, mat);
        let c = hybrid_tape_words(s, taps, flags, bat, eat, mat);
        assert(b.subrange(0, 8 * i) =~= a);
        assert(c.subrange(0, 8 * i) =~= c.subrange(0, 8 * (i + 1)).subrange(0, 8 * i));
    }
}

/// Law of the hybrid program's arithmetic instructions: instruction `k`
/// (words `8k` to `8k+7`) of an `Add`, `Sub` or `Mul` step names the slot
/// of the fp var it defines, then the slots of its two operands, each in
/// the bank of its kind. A `Sub` keeps its operands in order, left then
/// right, and its opcode says which of them is an extension value; an `Add`
/// or `Mul` keeps them in order too, except that an extension right operand
/// of a base left operand comes first.
pub proof fn lemma_hybrid_arith_instruction(s: Seq<PolyExtStep>, ret: usize, taps: Seq<EvalCheckTap>, k: int)
    requires
        hybrid_program(s, ret, taps) is Ok,
        0 <= k < s.len(),
    ensures
        ({
            let w = hybrid_program(s, ret, taps)->Ok_0.0;
            let r = tape_hybrid(s, ret);
            let flags = ext_flags(s);
            let fc = fp_count(s.take(k));
            let i = w.subrange(8 * k, 8 * k + 8);
            &&& w.len() == 8 * s.len()
            &&& match s[k] {
                PolyExtStep::Sub(a, b) => {
                    let sa = hybrid_slot(flags, r.base.at, r.ext.at, a as int) as u32;
                    let sb = hybrid_slot(flags, r.base.at, r.ext.at, b as int) as u32;
                    &&& i[0] == if !flags[a as int] && !flags[b as int] {
                        super::interpreter::WEBGPU_EVAL_OP_SUB
                    } else if flags[a as int] && flags[b as int] {
                        WEBGPU_EVAL_OP_SUB_EE
                    } else if flags[a as int] {
                        WEBGPU_EVAL_OP_SUB_EB
                    } else {
                        WEBGPU_EVAL_OP_SUB_BE
                    }
                    &&& i[1] == hybrid_slot(flags, r.base.at, r.ext.at, fc as int) as u32
                    &&& i[2] == sa
                    &&& i[3] == sb
                },
                PolyExtStep::Add(a, b) | PolyExtStep::Mul(a, b) => {
                    let sa = hybrid_slot(flags, r.base.at, r.ext.at, a as int) as u32;
                    let sb = hybrid_slot(flags, r.base.at, r.ext.at, b as int) as u32;
                    &&& i[1] == hybrid_slot(flags, r.base.at, r.ext.at, fc as int) as u32
                    &&& !flags[a as int] && flags[b as int] ==> i[2] == sb && i[3] == sa
                    &&& !(!flags[a as int] && flags[b as int]) ==> i[2] == sa && i[3] == sb
                },
                _ => true,
            }
        }),
{
    let r = tape_hybrid(s, ret);
    let flags = ext_flags(s);
    lemma_hybrid_words_prefix(s, taps, flags, r.base.at, r.ext.at, r.mix.at, k + 1);
    lemma_hybrid_words_prefix(s, taps, flags, r.base.at, r.ext.at, r.mix.at, k);
    assert(s.take(k + 1).drop_last() =~= s.take(k));
    assert(s.take(k + 1).last() == s[k]);
    let w = hybrid_tape_words(s, taps, flags, r.base.at, r.ext.at, r.mix.at);
    assert(w.subrange(8 * k, 8 * k + 8) =~= w.subrange(0, 8 * (k + 1)).subrange(8 * k, 8 * k + 8));
}

} // verus!
