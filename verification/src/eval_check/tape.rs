//! The check-polynomial tape (`PolyExtStep`) and its compiled program form.

use vstd::prelude::*;

verus! {

/// One step of a check-polynomial tape. Steps that produce a field value
/// ("fp" steps: constants, taps, globals and arithmetic) are numbered in tape
/// order; steps that produce a mix accumulator ("mix" steps: `True`,
/// `AndEqz`, `AndCond`) are numbered separately, also in tape order.
/// Operands refer to those numbers.
#[derive(Clone, Copy, Debug, PartialEq, Eq, Structural)]
pub enum PolyExtStep {
    Const(u32),
    ConstExt(u32, u32, u32, u32),
    Get(usize),
    GetGlobal(usize, usize),
    Add(usize, usize),
    Sub(usize, usize),
    Mul(usize, usize),
    True,
    AndEqz(usize, usize),
    AndCond(usize, usize, usize),
}

/// A tape together with the mix value it returns.
pub struct PolyExtStepDef<'a> {
    pub block: &'a [PolyExtStep],
    pub ret: usize,
}

/// A field-value operation of a compiled program.
#[derive(Clone, Copy, Debug, PartialEq, Eq, Structural)]
pub enum EvalCheckFpOp {
    Const(u32),
    ConstExt(u32, u32, u32, u32),
    Get(usize),
    GetGlobal(usize, usize),
    Add(usize, usize),
    Sub(usize, usize),
    Mul(usize, usize),
}

/// A mix-accumulator operation of a compiled program.
#[derive(Clone, Copy, Debug, PartialEq, Eq, Structural)]
pub enum EvalCheckMixOp {
    True,
    AndEqz { chain: usize, inner: usize },
    AndCond { chain: usize, cond: usize, inner: usize },
}

/// Why a tape could not be compiled or analysed.
#[derive(Clone, Copy, Debug, PartialEq, Eq, Structural)]
pub enum EvalCheckError {
    AndEqzChainOutOfRange(usize),
    AndEqzInnerOutOfRange(usize),
    AndCondChainOutOfRange(usize),
    AndCondInnerOutOfRange(usize),
    AndCondCondOutOfRange(usize),
    ReturnOutOfRange { ret: usize, mix_count: usize },
    FpVarOutOfRange(usize),
    SplitTermTooLarge { needed: usize, max: usize },
    FpOperandOutOfRange(usize),
    FpOperandForwardReference,
    TapOutOfRange(usize),
    TapGroupUnsupported(usize),
    GlobalArgUnsupported(usize),
    MixVarOutOfRange(usize),
    FpValueReleased(usize),
    MixValueReleased(usize),
    FpSlotsExceeded { needed: usize, max: usize },
    ExtSlotsExceeded { needed: usize, max: usize },
    MixSlotsExceeded { needed: usize, max: usize },
    SplitChunkTooLarge { needed: usize, max: usize },
}

/// Where a tap reads: register group, column offset, and how many cycles
/// back.
#[derive(Clone, Copy, Debug, PartialEq, Eq, Structural)]
pub struct EvalCheckTap {
    pub group: usize,
    pub offset: usize,
    pub back: usize,
}

/// Whether a step produces a field value.
pub open spec fn is_fp_step(op: PolyExtStep) -> bool {
    match op {
        PolyExtStep::True | PolyExtStep::AndEqz(..) | PolyExtStep::AndCond(..) => false,
        _ => true,
    }
}

/// Number of field-value steps in a tape.
pub open spec fn fp_count(s: Seq<PolyExtStep>) -> nat
    decreases s.len(),
{
    if s.len() == 0 {
        0
    } else {
        fp_count(s.drop_last()) + if is_fp_step(s.last()) { 1nat } else { 0nat }
    }
}

/// Number of mix steps in a tape.
pub open spec fn mix_count(s: Seq<PolyExtStep>) -> nat
    decreases s.len(),
{
    if s.len() == 0 {
        0
    } else {
        mix_count(s.drop_last()) + if is_fp_step(s.last()) { 0nat } else { 1nat }
    }
}

/// The field-value steps of a tape, in tape order (indexed by fp var).
pub open spec fn fp_steps(s: Seq<PolyExtStep>) -> Seq<PolyExtStep>
    decreases s.len(),
{
    if s.len() == 0 {
        Seq::empty()
    } else if is_fp_step(s.last()) {
        fp_steps(s.drop_last()).push(s.last())
    } else {
        fp_steps(s.drop_last())
    }
}

/// The mix steps of a tape, in tape order (indexed by mix var).
pub open spec fn mix_steps(s: Seq<PolyExtStep>) -> Seq<PolyExtStep>
    decreases s.len(),
{
    if s.len() == 0 {
        Seq::empty()
    } else if is_fp_step(s.last()) {
        mix_steps(s.drop_last())
    } else {
        mix_steps(s.drop_last()).push(s.last())
    }
}

pub proof fn lemma_fp_steps_len(s: Seq<PolyExtStep>)
    ensures
        fp_steps(s).len() == fp_count(s),
        mix_steps(s).len() == mix_count(s),
        fp_count(s) + mix_count(s) == s.len(),
    decreases s.len(),
{
    if s.len() > 0 {
        lemma_fp_steps_len(s.drop_last());
    }
}

pub proof fn lemma_fp_steps_push(s: Seq<PolyExtStep>, op: PolyExtStep)
    ensures
        fp_steps(s.push(op)) == if is_fp_step(op) { fp_steps(s).push(op) } else { fp_steps(s) },
        mix_steps(s.push(op)) == if is_fp_step(op) { mix_steps(s) } else { mix_steps(s).push(op) },
        fp_count(s.push(op)) == fp_count(s) + if is_fp_step(op) { 1nat } else { 0nat },
        mix_count(s.push(op)) == mix_count(s) + if is_fp_step(op) { 0nat } else { 1nat },
{
    assert(s.push(op).drop_last() =~= s);
}

} // verus!
