//! Scratch slots for the values of a compiled tape: when each value is read
//! for the last time, a pool that hands slots out and takes them back, and
//! the slot every value gets when the tape is compiled in order.

use vstd::prelude::*;
use super::tape::{PolyExtStep, PolyExtStepDef, EvalCheckError, is_fp_step, fp_count, mix_count, lemma_fp_steps_push};

verus! {

/// Whether step `op` reads fp var `v`.
pub open spec fn reads_fp(op: PolyExtStep, v: usize) -> bool {
    match op {
        PolyExtStep::Add(l, r) => v == l || v == r,
        PolyExtStep::Sub(l, r) => v == l || v == r,
        PolyExtStep::Mul(l, r) => v == l || v == r,
        PolyExtStep::AndEqz(_, inner) => v == inner,
        PolyExtStep::AndCond(_, cond, _) => v == cond,
        _ => false,
    }
}

/// Whether step `op` reads mix var `v`.
pub open spec fn reads_mix(op: PolyExtStep, v: usize) -> bool {
    match op {
        PolyExtStep::AndEqz(chain, _) => v == chain,
        PolyExtStep::AndCond(chain, _, inner) => v == chain || v == inner,
        _ => false,
    }
}

/// `a` and `b` in ascending order, once if equal.
pub open spec fn ascending(a: usize, b: usize) -> Seq<usize> {
    if a == b {
        seq![a]
    } else if a < b {
        seq![a, b]
    } else {
        seq![b, a]
    }
}

/// The fp vars step `op` reads, ascending and each once.
pub open spec fn fp_reads(op: PolyExtStep) -> Seq<usize> {
    match op {
        PolyExtStep::Add(l, r) => ascending(l, r),
        PolyExtStep::Sub(l, r) => ascending(l, r),
        PolyExtStep::Mul(l, r) => ascending(l, r),
        PolyExtStep::AndEqz(_, inner) => seq![inner],
        PolyExtStep::AndCond(_, cond, _) => seq![cond],
        _ => Seq::empty(),
    }
}

/// The mix vars step `op` reads, ascending and each once.
pub open spec fn mix_reads(op: PolyExtStep) -> Seq<usize> {
    match op {
        PolyExtStep::AndEqz(chain, _) => seq![chain],
        PolyExtStep::AndCond(chain, _, inner) => ascending(chain, inner),
        _ => Seq::empty(),
    }
}

/// Why step `op`, coming after `fc` fp vars and `mc` mix vars, cannot be
/// compiled: it reads a var that is not defined before it.
pub open spec fn read_error(op: PolyExtStep, fc: nat, mc: nat) -> Option<EvalCheckError> {
    match op {
        PolyExtStep::Add(l, r) | PolyExtStep::Sub(l, r) | PolyExtStep::Mul(l, r) => if l >= fc {
            Some(EvalCheckError::FpOperandOutOfRange(l))
        } else if r >= fc {
            Some(EvalCheckError::FpOperandOutOfRange(r))
        } else {
            None
        },
        PolyExtStep::AndEqz(chain, inner) => if chain >= mc {
            Some(EvalCheckError::AndEqzChainOutOfRange(chain))
        } else if inner >= fc {
            Some(EvalCheckError::AndEqzInnerOutOfRange(inner))
        } else {
            None
        },
        PolyExtStep::AndCond(chain, cond, inner) => if chain >= mc {
            Some(EvalCheckError::AndCondChainOutOfRange(chain))
        } else if cond >= fc {
            Some(EvalCheckError::AndCondCondOutOfRange(cond))
        } else if inner >= mc {
            Some(EvalCheckError::AndCondInnerOutOfRange(inner))
        } else {
            None
        },
        _ => None,
    }
}

/// The first step of `s`, in tape order, that reads an undefined var.
pub open spec fn reads_error(s: Seq<PolyExtStep>) -> Option<EvalCheckError>
    decreases s.len(),
{
    if s.len() == 0 {
        None
    } else {
        match reads_error(s.drop_last()) {
            Some(e) => Some(e),
            None => read_error(s.last(), fp_count(s.drop_last()), mix_count(s.drop_last())),
        }
    }
}

/// Why the last uses of tape `s` returning mix var `ret` cannot be found.
pub open spec fn last_uses_error(s: Seq<PolyExtStep>, ret: usize) -> Option<EvalCheckError> {
    match reads_error(s) {
        Some(e) => Some(e),
        None => if ret >= mix_count(s) {
            Some(EvalCheckError::ReturnOutOfRange { ret, mix_count: mix_count(s) as usize })
        } else {
            None
        },
    }
}

/// The last step of `s` that reads fp var `v`.
pub open spec fn last_fp_read(s: Seq<PolyExtStep>, v: usize) -> Option<usize>
    decreases s.len(),
{
    if s.len() == 0 {
        None
    } else if reads_fp(s.last(), v) {
        Some((s.len() - 1) as usize)
    } else {
        last_fp_read(s.drop_last(), v)
    }
}

/// The last step of `s` that reads mix var `v`.
pub open spec fn last_mix_read(s: Seq<PolyExtStep>, v: usize) -> Option<usize>
    decreases s.len(),
{
    if s.len() == 0 {
        None
    } else if reads_mix(s.last(), v) {
        Some((s.len() - 1) as usize)
    } else {
        last_mix_read(s.drop_last(), v)
    }
}

/// When mix var `v` is used for the last time; the returned var is used
/// once more after the last step.
pub open spec fn last_mix_use(s: Seq<PolyExtStep>, ret: usize, v: usize) -> Option<usize> {
    if v == ret {
        Some(s.len() as usize)
    } else {
        last_mix_read(s, v)
    }
}

/// For each fp var of `s`, its last read.
pub open spec fn last_fp_uses(s: Seq<PolyExtStep>) -> Seq<Option<usize>> {
    Seq::new(fp_count(s), |v: int| last_fp_read(s, v as usize))
}

/// For each mix var of `s`, its last use.
pub open spec fn last_mix_uses(s: Seq<PolyExtStep>, ret: usize) -> Seq<Option<usize>> {
    Seq::new(mix_count(s), |v: int| last_mix_use(s, ret, v as usize))
}

/// A pool of scratch slots: the slots given back, most recent last, and
/// how many slots were ever handed out.
pub struct SlotPool {
    pub free: Seq<usize>,
    pub max: usize,
}

/// Taking a slot: the most recently given back one, else a new one.
pub open spec fn pool_take(p: SlotPool) -> (usize, SlotPool) {
    if p.free.len() > 0 {
        (p.free.last(), SlotPool { free: p.free.drop_last(), max: p.max })
    } else {
        (p.max, SlotPool { free: p.free, max: (p.max + 1) as usize })
    }
}

/// Giving `slot` back.
pub open spec fn pool_give(p: SlotPool, slot: usize) -> SlotPool {
    SlotPool { free: p.free.push(slot), max: p.max }
}

/// The slots of one kind of value while a tape is compiled: the pool, the
/// slot each var holds while it is still to be read, the slot each var was
/// given, the step that defined it, and whether it took a slot from this
/// bank at all (a bank may skip vars that live in another bank).
pub struct SlotBank {
    pub pool: SlotPool,
    pub live: Seq<Option<usize>>,
    pub at: Seq<usize>,
    pub born: Seq<usize>,
    pub held: Seq<bool>,
}

pub open spec fn empty_bank() -> SlotBank {
    SlotBank {
        pool: SlotPool { free: Seq::empty(), max: 0 },
        live: Seq::empty(),
        at: Seq::empty(),
        born: Seq::empty(),
        held: Seq::empty(),
    }
}

/// Step `k` defines a new var: it takes a slot, and gives it back at once
/// when nothing reads the var (`keep` false).
pub open spec fn bank_define(b: SlotBank, k: usize, keep: bool) -> SlotBank {
    let (slot, p) = pool_take(b.pool);
    SlotBank {
        pool: if keep { p } else { pool_give(p, slot) },
        live: b.live.push(if keep { Some(slot) } else { None }),
        at: b.at.push(slot),
        born: b.born.push(k),
        held: b.held.push(true),
    }
}

/// Step `k` defines a var that lives in another bank: it takes no slot here.
pub open spec fn bank_skip(b: SlotBank, k: usize) -> SlotBank {
    SlotBank { pool: b.pool, live: b.live.push(None), at: b.at.push(0), born: b.born.push(k), held: b.held.push(false) }
}

/// After step `k` read var `x`: its slot is given back if `k` was its last
/// use and it holds one in this bank.
pub open spec fn bank_release(b: SlotBank, x: usize, last: Seq<Option<usize>>, k: usize) -> SlotBank {
    if last[x as int] == Some(k) && b.live[x as int] is Some {
        SlotBank {
            pool: pool_give(b.pool, b.live[x as int]->Some_0),
            live: b.live.update(x as int, None),
            at: b.at,
            born: b.born,
            held: b.held,
        }
    } else {
        b
    }
}

/// `bank_release` for each of `xs`, in order.
pub open spec fn bank_release_all(b: SlotBank, xs: Seq<usize>, last: Seq<Option<usize>>, k: usize) -> SlotBank
    decreases xs.len(),
{
    if xs.len() == 0 {
        b
    } else {
        bank_release(bank_release_all(b, xs.drop_last(), last, k), xs.last(), last, k)
    }
}

/// The fp and mix slot banks.
pub struct SlotRun {
    pub fp: SlotBank,
    pub mix: SlotBank,
}

/// Step `k`, `op`: define its var, then give back the slots of the vars it
/// read for the last time (fp first, each kind in ascending var order).
pub open spec fn run_step(
    r: SlotRun,
    op: PolyExtStep,
    k: usize,
    lf: Seq<Option<usize>>,
    lm: Seq<Option<usize>>,
) -> SlotRun {
    let fp1 = if is_fp_step(op) {
        bank_define(r.fp, k, lf[r.fp.live.len() as int] is Some)
    } else {
        r.fp
    };
    let mix1 = if is_fp_step(op) {
        r.mix
    } else {
        bank_define(r.mix, k, lm[r.mix.live.len() as int] is Some)
    };
    SlotRun { fp: bank_release_all(fp1, fp_reads(op), lf, k), mix: bank_release_all(mix1, mix_reads(op), lm, k) }
}

/// The slot banks after the steps of `s`, with last uses `lf` and `lm`.
pub open spec fn slot_run(s: Seq<PolyExtStep>, lf: Seq<Option<usize>>, lm: Seq<Option<usize>>) -> SlotRun
    decreases s.len(),
{
    if s.len() == 0 {
        SlotRun { fp: empty_bank(), mix: empty_bank() }
    } else {
        run_step(slot_run(s.drop_last(), lf, lm), s.last(), (s.len() - 1) as usize, lf, lm)
    }
}

/// The slots given to the vars of tape `s` returning mix var `ret`.
pub open spec fn tape_slots(s: Seq<PolyExtStep>, ret: usize) -> SlotRun {
    slot_run(s, last_fp_uses(s), last_mix_uses(s, ret))
}

/// A var with last use `last` is still to be used at step `k` or later.
pub open spec fn live_after(last: Option<usize>, k: int) -> bool {
    last matches Some(l) && l >= k
}

/// The pool's free slots are distinct, handed out before, and held by no
/// live var; live vars hold distinct slots handed out before.
pub open spec fn pool_ok(b: SlotBank) -> bool {
    &&& forall|i: int, j: int|
        0 <= i < j < b.pool.free.len() ==> #[trigger] b.pool.free[i] != #[trigger] b.pool.free[j]
    &&& forall|i: int| 0 <= i < b.pool.free.len() ==> #[trigger] b.pool.free[i] < b.pool.max
    &&& forall|v: int| 0 <= v < b.live.len() && (#[trigger] b.live[v]) is Some ==> b.live[v]->Some_0 < b.pool.max
    &&& forall|v: int, w: int|
        0 <= v < w < b.live.len() && (#[trigger] b.live[v]) is Some && (#[trigger] b.live[w]) is Some ==> b.live[v]
            != b.live[w]
    &&& forall|v: int, i: int|
        0 <= v < b.live.len() && (#[trigger] b.live[v]) is Some && 0 <= i < b.pool.free.len() ==> b.live[v]->Some_0
            != #[trigger] b.pool.free[i]
}

/// What holds of a bank whatever step it is at: the pool is consistent, a
/// live var holds the slot it was given, and no var was given the slot of
/// an earlier var that was still to be used when it was defined.
pub open spec fn bank_ok(b: SlotBank, last: Seq<Option<usize>>) -> bool {
    &&& b.live.len() == b.at.len()
    &&& b.live.len() == b.born.len()
    &&& b.live.len() == b.held.len()
    &&& b.live.len() <= last.len()
    &&& b.pool.max <= b.live.len()
    &&& pool_ok(b)
    &&& forall|v: int| 0 <= v < b.live.len() && b.held[v] ==> (#[trigger] b.at[v]) < b.pool.max
    &&& forall|v: int|
        0 <= v < b.live.len() && (#[trigger] b.live[v]) is Some ==> b.held[v] && b.live[v]->Some_0 == b.at[v]
    &&& forall|v: int, w: int|
        0 <= v < w < b.live.len() && b.held[v] && b.held[w] && live_after(last[v], b.born[w] as int)
            ==> #[trigger] b.at[v] != #[trigger] b.at[w]
}

/// A bank before step `k`: every var still to be used at `k` or later
/// holds its slot.
pub open spec fn bank_inv(b: SlotBank, last: Seq<Option<usize>>, k: int) -> bool {
    &&& bank_ok(b, last)
    &&& forall|v: int| 0 <= v < b.live.len() ==> #[trigger] b.born[v] <= k
    &&& forall|v: int| 0 <= v < b.live.len() && b.held[v] && live_after(#[trigger] last[v], k) ==> b.live[v] is Some
}

pub(crate) proof fn lemma_define(b: SlotBank, last: Seq<Option<usize>>, k: usize)
    requires
        bank_inv(b, last, k as int),
        b.live.len() < last.len(),
        last.len() <= usize::MAX,
        last[b.live.len() as int] matches Some(l) ==> l > k,
    ensures
        bank_inv(bank_define(b, k, last[b.live.len() as int] is Some), last, k as int),
        bank_define(b, k, last[b.live.len() as int] is Some).at.len() == b.at.len() + 1,
        bank_define(b, k, last[b.live.len() as int] is Some).live.take(b.live.len() as int) == b.live,
        bank_define(b, k, last[b.live.len() as int] is Some).at.take(b.at.len() as int) == b.at,
        bank_define(b, k, last[b.live.len() as int] is Some).born.take(b.born.len() as int) == b.born,
        bank_define(b, k, last[b.live.len() as int] is Some).held.take(b.held.len() as int) == b.held,
        bank_define(b, k, last[b.live.len() as int] is Some).held.last(),
        bank_define(b, k, last[b.live.len() as int] is Some).at.last() == pool_take(b.pool).0,
        bank_define(b, k, last[b.live.len() as int] is Some).born.last() == k,
{
    let w = b.live.len() as int;
    let keep = last[w] is Some;
    let (slot, p) = pool_take(b.pool);
    let b2 = bank_define(b, k, keep);
    // The new slot is held by no live var and is not free afterwards.
    assert forall|v: int| 0 <= v < w && (#[trigger] b.live[v]) is Some implies b.live[v]->Some_0 != slot by {
        if b.pool.free.len() > 0 {
            assert(b.pool.free[b.pool.free.len() - 1] == slot);
        }
    }
    assert forall|i: int| 0 <= i < p.free.len() implies #[trigger] p.free[i] != slot && p.free[i] < p.max by {
        if b.pool.free.len() > 0 {
            assert(p.free[i] == b.pool.free[i]);
            assert(b.pool.free[b.pool.free.len() - 1] == slot);
        } else {
            assert(p.free[i] == b.pool.free[i]);
        }
    }
    assert(slot < p.max);
    assert forall|v: int| 0 <= v < b2.live.len() && (#[trigger] b2.live[v]) is Some implies b2.live[v]->Some_0
        < b2.pool.max by {
        if v < w {
            assert(b2.live[v] == b.live[v]);
        }
    }
    assert forall|v: int, u: int|
        0 <= v < u < b2.live.len() && (#[trigger] b2.live[v]) is Some && (#[trigger] b2.live[u]) is Some implies b2.live[v]
        != b2.live[u] by {
        assert(b2.live[v] == b.live[v]);
        if u < w {
            assert(b2.live[u] == b.live[u]);
        }
    }
    assert forall|v: int, i: int|
        0 <= v < b2.live.len() && (#[trigger] b2.live[v]) is Some && 0 <= i < b2.pool.free.len() implies b2.live[v]->Some_0
        != #[trigger] b2.pool.free[i] by {
        if v < w {
            assert(b2.live[v] == b.live[v]);
            if i < p.free.len() {
                assert(b2.pool.free[i] == p.free[i]);
                if b.pool.free.len() > 0 {
                    assert(p.free[i] == b.pool.free[i]);
                } else {
                    assert(p.free[i] == b.pool.free[i]);
                }
            }
        } else {
            assert(b2.pool.free[i] == p.free[i]);
        }
    }
    assert forall|i: int, j: int|
        0 <= i < j < b2.pool.free.len() implies #[trigger] b2.pool.free[i] != #[trigger] b2.pool.free[j] by {
        if b.pool.free.len() > 0 {
            if j < p.free.len() {
                assert(b2.pool.free[i] == b.pool.free[i]);
                assert(b2.pool.free[j] == b.pool.free[j]);
            }
        } else {
            assert(b2.pool.free[i] == b.pool.free[i]);
            if j < p.free.len() {
                assert(b2.pool.free[j] == b.pool.free[j]);
            }
        }
    }
    assert forall|i: int| 0 <= i < b2.pool.free.len() implies #[trigger] b2.pool.free[i] < b2.pool.max by {
        if i < p.free.len() {
            assert(b2.pool.free[i] == p.free[i]);
        }
    }
    assert forall|v: int| 0 <= v < b2.live.len() && b2.held[v] implies (#[trigger] b2.at[v]) < b2.pool.max by {
        if v < w {
            assert(b2.at[v] == b.at[v]);
            assert(b2.held[v] == b.held[v]);
        }
    }
    assert forall|v: int| 0 <= v < b2.live.len() && (#[trigger] b2.live[v]) is Some implies b2.held[v]
        && b2.live[v]->Some_0 == b2.at[v] by {
        if v < w {
            assert(b2.live[v] == b.live[v]);
            assert(b2.at[v] == b.at[v]);
            assert(b2.held[v] == b.held[v]);
        }
    }
    assert forall|v: int, u: int|
        0 <= v < u < b2.live.len() && b2.held[v] && b2.held[u] && live_after(last[v], b2.born[u] as int) implies #[trigger] b2.at[v]
        != #[trigger] b2.at[u] by {
        assert(b2.at[v] == b.at[v]);
        assert(b2.held[v] == b.held[v]);
        if u < w {
            assert(b2.held[u] == b.held[u]);
            assert(b2.at[u] == b.at[u]);
            assert(b2.born[u] == b.born[u]);
        } else {
            assert(b2.born[u] == k);
            assert(b.born[v] <= k);
            assert(b.live[v] is Some);
            assert(b.live[v]->Some_0 == b.at[v]);
        }
    }
    assert forall|v: int| 0 <= v < b2.live.len() implies #[trigger] b2.born[v] <= k by {
        if v < w {
            assert(b2.born[v] == b.born[v]);
        }
    }
    assert forall|v: int| 0 <= v < b2.live.len() && b2.held[v] && live_after(#[trigger] last[v], k as int) implies b2.live[v] is Some by {
        if v < w {
            assert(b2.live[v] == b.live[v]);
            assert(b2.held[v] == b.held[v]);
        }
    }
    assert(b2.live.take(w) =~= b.live);
    assert(b2.at.take(w) =~= b.at);
    assert(b2.born.take(w) =~= b.born);
    assert(b2.held.take(w) =~= b.held);
}

pub(crate) proof fn lemma_skip(b: SlotBank, last: Seq<Option<usize>>, k: usize)
    requires
        bank_inv(b, last, k as int),
        b.live.len() < last.len(),
    ensures
        bank_inv(bank_skip(b, k), last, k as int),
        bank_skip(b, k).live.take(b.live.len() as int) == b.live,
        bank_skip(b, k).at.take(b.at.len() as int) == b.at,
        bank_skip(b, k).born.take(b.born.len() as int) == b.born,
        bank_skip(b, k).held.take(b.held.len() as int) == b.held,
        bank_skip(b, k).held.last() == false,
        bank_skip(b, k).born.last() == k,
        bank_skip(b, k).pool == b.pool,
{
    let w = b.live.len() as int;
    let b2 = bank_skip(b, k);
    assert forall|v: int| 0 <= v < b2.live.len() && (#[trigger] b2.live[v]) is Some implies b2.live[v]->Some_0
        < b2.pool.max by {
        assert(b2.live[v] == b.live[v]);
    }
    assert forall|v: int, u: int|
        0 <= v < u < b2.live.len() && (#[trigger] b2.live[v]) is Some && (#[trigger] b2.live[u]) is Some implies b2.live[v]
        != b2.live[u] by {
        assert(b2.live[v] == b.live[v]);
        assert(b2.live[u] == b.live[u]);
    }
    assert forall|v: int, i: int|
        0 <= v < b2.live.len() && (#[trigger] b2.live[v]) is Some && 0 <= i < b2.pool.free.len() implies b2.live[v]->Some_0
        != #[trigger] b2.pool.free[i] by {
        assert(b2.live[v] == b.live[v]);
    }
    assert forall|v: int| 0 <= v < b2.live.len() && b2.held[v] implies (#[trigger] b2.at[v]) < b2.pool.max by {
        assert(b2.at[v] == b.at[v]);
        assert(b2.held[v] == b.held[v]);
    }
    assert forall|v: int| 0 <= v < b2.live.len() && (#[trigger] b2.live[v]) is Some implies b2.held[v]
        && b2.live[v]->Some_0 == b2.at[v] by {
        assert(b2.live[v] == b.live[v]);
        assert(b2.at[v] == b.at[v]);
        assert(b2.held[v] == b.held[v]);
    }
    assert forall|v: int, u: int|
        0 <= v < u < b2.live.len() && b2.held[v] && b2.held[u] && live_after(last[v], b2.born[u] as int) implies #[trigger] b2.at[v]
        != #[trigger] b2.at[u] by {
        assert(b2.held[u] == b.held[u]);
        assert(b2.held[v] == b.held[v]);
        assert(b2.at[v] == b.at[v]);
        assert(b2.at[u] == b.at[u]);
        assert(b2.born[u] == b.born[u]);
    }
    assert forall|v: int| 0 <= v < b2.live.len() implies #[trigger] b2.born[v] <= k by {
        if v < w {
            assert(b2.born[v] == b.born[v]);
        }
    }
    assert forall|v: int| 0 <= v < b2.live.len() && b2.held[v] && live_after(#[trigger] last[v], k as int) implies b2.live[v] is Some by {
        assert(b2.live[v] == b.live[v]);
        assert(b2.held[v] == b.held[v]);
    }
    assert(b2.live.take(w) =~= b.live);
    assert(b2.at.take(w) =~= b.at);
    assert(b2.born.take(w) =~= b.born);
    assert(b2.held.take(w) =~= b.held);
}

proof fn lemma_release(b: SlotBank, x: usize, last: Seq<Option<usize>>, k: usize)
    requires
        bank_ok(b, last),
        x < b.live.len(),
    ensures
        bank_ok(bank_release(b, x, last, k), last),
        bank_release(b, x, last, k).at == b.at,
        bank_release(b, x, last, k).born == b.born,
        bank_release(b, x, last, k).held == b.held,
        bank_release(b, x, last, k).live.len() == b.live.len(),
        forall|v: int|
            0 <= v < b.live.len() ==> #[trigger] bank_release(b, x, last, k).live[v] == if v == x && last[x as int]
                == Some(k) {
                None
            } else {
                b.live[v]
            },
{
    let b2 = bank_release(b, x, last, k);
    if last[x as int] == Some(k) {
        let s = b.live[x as int]->Some_0;
        assert forall|v: int, i: int|
            0 <= v < b2.live.len() && (#[trigger] b2.live[v]) is Some && 0 <= i < b2.pool.free.len() implies b2.live[v]->Some_0
            != #[trigger] b2.pool.free[i] by {
            assert(b2.live[v] == b.live[v]);
            if i < b.pool.free.len() {
                assert(b2.pool.free[i] == b.pool.free[i]);
            } else {
                assert(b2.pool.free[i] == s);
                if v < x {
                    assert(b.live[v] != b.live[x as int]);
                } else {
                    assert(b.live[x as int] != b.live[v]);
                }
            }
        }
        assert forall|i: int, j: int|
            0 <= i < j < b2.pool.free.len() implies #[trigger] b2.pool.free[i] != #[trigger] b2.pool.free[j] by {
            assert(b2.pool.free[i] == b.pool.free[i]);
            if j < b.pool.free.len() {
                assert(b2.pool.free[j] == b.pool.free[j]);
            } else {
                assert(b2.pool.free[j] == s);
                assert(b.live[x as int] is Some);
            }
        }
        assert forall|i: int| 0 <= i < b2.pool.free.len() implies #[trigger] b2.pool.free[i] < b2.pool.max by {
            if i < b.pool.free.len() {
                assert(b2.pool.free[i] == b.pool.free[i]);
            } else {
                assert(b.live[x as int] is Some);
            }
        }
        assert forall|v: int| 0 <= v < b2.live.len() && (#[trigger] b2.live[v]) is Some implies b2.live[v]->Some_0
            < b2.pool.max by {
            assert(b2.live[v] == b.live[v]);
        }
        assert forall|v: int, u: int|
            0 <= v < u < b2.live.len() && (#[trigger] b2.live[v]) is Some && (#[trigger] b2.live[u]) is Some implies b2.live[v]
            != b2.live[u] by {
            assert(b2.live[v] == b.live[v]);
            assert(b2.live[u] == b.live[u]);
        }
        assert forall|v: int| 0 <= v < b2.live.len() && (#[trigger] b2.live[v]) is Some implies b2.live[v]->Some_0
            == b2.at[v] by {
            assert(b2.live[v] == b.live[v]);
        }
    }
}

pub(crate) proof fn lemma_release_all(b: SlotBank, xs: Seq<usize>, last: Seq<Option<usize>>, k: usize)
    requires
        bank_ok(b, last),
        last.len() <= usize::MAX,
        forall|i: int, j: int| 0 <= i < j < xs.len() ==> xs[i] != xs[j],
        forall|i: int| 0 <= i < xs.len() ==> #[trigger] xs[i] < b.live.len(),
    ensures
        bank_ok(bank_release_all(b, xs, last, k), last),
        bank_release_all(b, xs, last, k).at == b.at,
        bank_release_all(b, xs, last, k).born == b.born,
        bank_release_all(b, xs, last, k).held == b.held,
        bank_release_all(b, xs, last, k).live.len() == b.live.len(),
        forall|v: int|
            0 <= v < b.live.len() ==> #[trigger] bank_release_all(b, xs, last, k).live[v] == if xs.contains(
                v as usize,
            ) && last[v] == Some(k) {
                None
            } else {
                b.live[v]
            },
    decreases xs.len(),
{
    if xs.len() > 0 {
        let d = xs.drop_last();
        let x = xs.last();
        lemma_release_all(b, d, last, k);
        let b1 = bank_release_all(b, d, last, k);
        assert(!d.contains(x)) by {
            if d.contains(x) {
                let i = choose|i: int| 0 <= i < d.len() && d[i] == x;
                assert(xs[i] == xs[xs.len() - 1]);
            }
        }
        lemma_release(b1, x, last, k);
        assert forall|v: int| 0 <= v < b.live.len() implies #[trigger] bank_release_all(b, xs, last, k).live[v]
            == if xs.contains(v as usize) && last[v] == Some(k) {
            None
        } else {
            b.live[v]
        } by {
            assert(v as usize as int == v);
            assert(xs.contains(v as usize) == (d.contains(v as usize) || v == x)) by {
                if d.contains(v as usize) {
                    let i = choose|i: int| 0 <= i < d.len() && d[i] == v as usize;
                    assert(xs[i] == v as usize);
                }
                if v == x {
                    assert(xs[xs.len() - 1] == v as usize);
                }
                if xs.contains(v as usize) {
                    let i = choose|i: int| 0 <= i < xs.len() && xs[i] == v as usize;
                    if i < xs.len() - 1 {
                        assert(d[i] == v as usize);
                    }
                }
            }
        }
    }
}

pub(crate) proof fn lemma_take_step(s: Seq<PolyExtStep>, k: int)
    requires
        0 <= k < s.len(),
    ensures
        s.take(k + 1).drop_last() == s.take(k),
        s.take(k + 1).last() == s[k],
        s.take(k + 1).len() == k + 1,
        fp_count(s.take(k + 1)) == fp_count(s.take(k)) + if is_fp_step(s[k]) { 1nat } else { 0nat },
        mix_count(s.take(k + 1)) == mix_count(s.take(k)) + if is_fp_step(s[k]) { 0nat } else { 1nat },
{
    assert(s.take(k + 1) =~= s.take(k).push(s[k]));
    assert(s.take(k + 1).drop_last() =~= s.take(k));
    lemma_fp_steps_push(s.take(k), s[k]);
}

pub(crate) proof fn lemma_counts_mono(s: Seq<PolyExtStep>, a: int, b: int)
    requires
        0 <= a <= b <= s.len(),
    ensures
        fp_count(s.take(a)) <= fp_count(s.take(b)),
        mix_count(s.take(a)) <= mix_count(s.take(b)),
        fp_count(s.take(b)) + mix_count(s.take(b)) == b,
    decreases b - a,
{
    if a < b {
        lemma_counts_mono(s, a, b - 1);
        lemma_take_step(s, b - 1);
    } else {
        crate::eval_check::tape::lemma_fp_steps_len(s.take(b));
    }
}

pub(crate) proof fn lemma_reads_ok_at(s: Seq<PolyExtStep>, k: int)
    requires
        reads_error(s) is None,
        0 <= k < s.len(),
    ensures
        reads_error(s.take(k)) is None,
        read_error(s[k], fp_count(s.take(k)), mix_count(s.take(k))) is None,
    decreases s.len(),
{
    let d = s.drop_last();
    if k == s.len() - 1 {
        assert(d =~= s.take(k));
    } else {
        lemma_reads_ok_at(d, k);
        assert(d.take(k) =~= s.take(k));
    }
}

pub(crate) proof fn lemma_read_defined(s: Seq<PolyExtStep>, q: int, v: usize)
    requires
        reads_error(s) is None,
        0 <= q < s.len(),
    ensures
        reads_fp(s[q], v) ==> v < fp_count(s.take(q)),
        reads_mix(s[q], v) ==> v < mix_count(s.take(q)),
{
    lemma_reads_ok_at(s, q);
}

pub(crate) proof fn lemma_last_read(s: Seq<PolyExtStep>, v: usize)
    requires
        s.len() <= usize::MAX,
    ensures
        last_fp_read(s, v) matches Some(l) ==> l < s.len() && reads_fp(s[l as int], v),
        last_mix_read(s, v) matches Some(l) ==> l < s.len() && reads_mix(s[l as int], v),
        forall|q: int|
            0 <= q < s.len() && reads_fp(#[trigger] s[q], v) ==> live_after(last_fp_read(s, v), q),
        forall|q: int|
            0 <= q < s.len() && reads_mix(#[trigger] s[q], v) ==> live_after(last_mix_read(s, v), q),
    decreases s.len(),
{
    if s.len() > 0 {
        let d = s.drop_last();
        lemma_last_read(d, v);
        assert forall|q: int| 0 <= q < s.len() && reads_fp(#[trigger] s[q], v) implies live_after(last_fp_read(s, v), q) by {
            if q < s.len() - 1 {
                assert(d[q] == s[q]);
            }
        }
        assert forall|q: int| 0 <= q < s.len() && reads_mix(#[trigger] s[q], v) implies live_after(last_mix_read(s, v), q) by {
            if q < s.len() - 1 {
                assert(d[q] == s[q]);
            }
        }
        if let Some(l) = last_fp_read(d, v) {
            assert(d[l as int] == s[l as int]);
        }
        if let Some(l) = last_mix_read(d, v) {
            assert(d[l as int] == s[l as int]);
        }
    }
}

/// The slot banks of tape `s` (returning `ret`) before step `k`: both banks
/// keep their invariant, each has one var per step of its kind so far, and
/// each var was defined by the step that produces it.
pub open spec fn run_inv(s: Seq<PolyExtStep>, ret: usize, k: int, r: SlotRun) -> bool {
    &&& bank_inv(r.fp, last_fp_uses(s), k)
    &&& bank_inv(r.mix, last_mix_uses(s, ret), k)
    &&& r.fp.live.len() == fp_count(s.take(k))
    &&& r.mix.live.len() == mix_count(s.take(k))
    &&& forall|v: int| 0 <= v < r.fp.live.len() ==> #[trigger] r.fp.held[v]
    &&& forall|v: int| 0 <= v < r.mix.live.len() ==> #[trigger] r.mix.held[v]
    &&& forall|v: int|
        0 <= v < r.fp.live.len() ==> #[trigger] r.fp.born[v] < k && is_fp_step(s[r.fp.born[v] as int]) && fp_count(
            s.take(r.fp.born[v] as int),
        ) == v
    &&& forall|v: int|
        0 <= v < r.mix.live.len() ==> #[trigger] r.mix.born[v] < k && !is_fp_step(s[r.mix.born[v] as int])
            && mix_count(s.take(r.mix.born[v] as int)) == v
}

pub(crate) proof fn lemma_reads_distinct(op: PolyExtStep)
    ensures
        forall|i: int, j: int| 0 <= i < j < fp_reads(op).len() ==> fp_reads(op)[i] != fp_reads(op)[j],
        forall|i: int, j: int| 0 <= i < j < mix_reads(op).len() ==> mix_reads(op)[i] != mix_reads(op)[j],
        forall|i: int| 0 <= i < fp_reads(op).len() ==> reads_fp(op, #[trigger] fp_reads(op)[i]),
        forall|i: int| 0 <= i < mix_reads(op).len() ==> reads_mix(op, #[trigger] mix_reads(op)[i]),
        forall|v: usize| reads_fp(op, v) ==> fp_reads(op).contains(v),
        forall|v: usize| reads_mix(op, v) ==> mix_reads(op).contains(v),
{
    assert forall|v: usize| reads_fp(op, v) implies fp_reads(op).contains(v) by {
        let xs = fp_reads(op);
        if xs[0] == v {
            assert(xs.len() > 0);
        } else {
            assert(xs.len() > 1 && xs[1] == v);
        }
    }
    assert forall|v: usize| reads_mix(op, v) implies mix_reads(op).contains(v) by {
        let xs = mix_reads(op);
        if xs[0] == v {
            assert(xs.len() > 0);
        } else {
            assert(xs.len() > 1 && xs[1] == v);
        }
    }
}

#[verifier::rlimit(40)]
pub(crate) proof fn lemma_run_inv(s: Seq<PolyExtStep>, ret: usize, k: int)
    requires
        last_uses_error(s, ret) is None,
        0 <= k <= s.len(),
        s.len() < usize::MAX,
    ensures
        run_inv(s, ret, k, slot_run(s.take(k), last_fp_uses(s), last_mix_uses(s, ret))),
    decreases k,
{
    let lf = last_fp_uses(s);
    let lm = last_mix_uses(s, ret);
    lemma_counts_mono(s, k, s.len() as int);
    assert(s.take(s.len() as int) =~= s);
    if k == 0 {
        assert(s.take(0) =~= Seq::<PolyExtStep>::empty());
    } else {
        let j = k - 1;
        lemma_run_inv(s, ret, j);
        lemma_take_step(s, j);
        lemma_reads_ok_at(s, j);
        lemma_counts_mono(s, j, k);
        let r0 = slot_run(s.take(j), lf, lm);
        let op = s[j];
        assert(slot_run(s.take(k), lf, lm) == run_step(r0, op, j as usize, lf, lm));
        let fc = fp_count(s.take(j));
        let mc = mix_count(s.take(j));
        lemma_reads_distinct(op);
        let fp1 = if is_fp_step(op) {
            bank_define(r0.fp, j as usize, lf[r0.fp.live.len() as int] is Some)
        } else {
            r0.fp
        };
        let mix1 = if is_fp_step(op) {
            r0.mix
        } else {
            bank_define(r0.mix, j as usize, lm[r0.mix.live.len() as int] is Some)
        };
        if is_fp_step(op) {
            if let Some(l) = lf[fc as int] {
                lemma_last_read(s, fc as usize);
                lemma_read_defined(s, l as int, fc as usize);
                if l <= j {
                    lemma_counts_mono(s, l as int, j);
                }
            }
            lemma_define(r0.fp, lf, j as usize);
            assert forall|v: int| 0 <= v < fp1.live.len() implies #[trigger] fp1.held[v] by {
                if v < r0.fp.live.len() {
                    assert(fp1.held[v] == fp1.held.take(r0.fp.held.len() as int)[v]);
                }
            }
            assert forall|v: int| 0 <= v < fp1.live.len() implies #[trigger] fp1.born[v] < k && is_fp_step(
                s[fp1.born[v] as int],
            ) && fp_count(s.take(fp1.born[v] as int)) == v by {
                if v < r0.fp.live.len() {
                    assert(fp1.born[v] == fp1.born.take(r0.fp.born.len() as int)[v]);
                }
            }
        } else {
            if let Some(l) = lm[mc as int] {
                if mc != ret {
                    lemma_last_read(s, mc as usize);
                    lemma_read_defined(s, l as int, mc as usize);
                    if l <= j {
                        lemma_counts_mono(s, l as int, j);
                    }
                }
            }
            lemma_define(r0.mix, lm, j as usize);
            assert forall|v: int| 0 <= v < mix1.live.len() implies #[trigger] mix1.held[v] by {
                if v < r0.mix.live.len() {
                    assert(mix1.held[v] == mix1.held.take(r0.mix.held.len() as int)[v]);
                }
            }
            assert forall|v: int| 0 <= v < mix1.live.len() implies #[trigger] mix1.born[v] < k && !is_fp_step(
                s[mix1.born[v] as int],
            ) && mix_count(s.take(mix1.born[v] as int)) == v by {
                if v < r0.mix.live.len() {
                    assert(mix1.born[v] == mix1.born.take(r0.mix.born.len() as int)[v]);
                }
            }
        }
        let xf = fp_reads(op);
        let xm = mix_reads(op);
        assert forall|i: int| 0 <= i < xf.len() implies #[trigger] xf[i] < fp1.live.len() by {
            lemma_read_defined(s, j, xf[i]);
        }
        assert forall|i: int| 0 <= i < xm.len() implies #[trigger] xm[i] < mix1.live.len() by {
            lemma_read_defined(s, j, xm[i]);
        }
        lemma_release_all(fp1, xf, lf, j as usize);
        lemma_release_all(mix1, xm, lm, j as usize);
        let r1 = slot_run(s.take(k), lf, lm);
        assert forall|v: int| 0 <= v < r1.fp.live.len() && r1.fp.held[v] && live_after(#[trigger] lf[v], k) implies r1.fp.live[v] is Some by {
            assert(live_after(lf[v], j));
        }
        assert forall|v: int| 0 <= v < r1.mix.live.len() && r1.mix.held[v] && live_after(#[trigger] lm[v], k) implies r1.mix.live[v] is Some by {
            assert(live_after(lm[v], j));
        }
        assert forall|v: int| 0 <= v < r1.fp.live.len() implies #[trigger] r1.fp.held[v] by {
            assert(r1.fp.held[v] == fp1.held[v]);
        }
        assert forall|v: int| 0 <= v < r1.mix.live.len() implies #[trigger] r1.mix.held[v] by {
            assert(r1.mix.held[v] == mix1.held[v]);
        }
        assert forall|v: int| 0 <= v < r1.fp.live.len() implies #[trigger] r1.fp.born[v] <= k by {
            assert(r1.fp.born[v] == fp1.born[v]);
        }
        assert forall|v: int| 0 <= v < r1.mix.live.len() implies #[trigger] r1.mix.born[v] <= k by {
            assert(r1.mix.born[v] == mix1.born[v]);
        }
    }
}

proof fn lemma_reads_error_sticks(s: Seq<PolyExtStep>, i: int)
    requires
        0 <= i <= s.len(),
        reads_error(s.take(i)) is Some,
    ensures
        reads_error(s) == reads_error(s.take(i)),
    decreases s.len() - i,
{
    if i < s.len() {
        lemma_take_step(s, i);
        lemma_reads_error_sticks(s, i + 1);
    } else {
        assert(s.take(i) =~= s);
    }
}

proof fn lemma_no_read_beyond(t: Seq<PolyExtStep>, v: usize)
    requires
        reads_error(t) is None,
        v >= fp_count(t) || v >= mix_count(t),
        t.len() <= usize::MAX,
    ensures
        v >= fp_count(t) ==> last_fp_read(t, v) is None,
        v >= mix_count(t) ==> last_mix_read(t, v) is None,
{
    lemma_last_read(t, v);
    if let Some(l) = last_fp_read(t, v) {
        if v >= fp_count(t) {
            lemma_read_defined(t, l as int, v);
            lemma_counts_mono(t, l as int, t.len() as int);
            assert(t.take(t.len() as int) =~= t);
        }
    }
    if let Some(l) = last_mix_read(t, v) {
        if v >= mix_count(t) {
            lemma_read_defined(t, l as int, v);
            lemma_counts_mono(t, l as int, t.len() as int);
            assert(t.take(t.len() as int) =~= t);
        }
    }
}

/// Records that `var` is read at step `op_pos`; a var out of range is
/// ignored.
pub fn eval_check_note_last(last: &mut Vec<Option<usize>>, var: usize, op_pos: usize)
    ensures
        final(last)@ == if var < old(last)@.len() {
            old(last)@.update(var as int, Some(op_pos))
        } else {
            old(last)@
        },
{
    if var < last.len() {
        last.set(var, Some(op_pos));
    }
}

/// For each fp var and each mix var of `block`, the step that reads it last
/// (`None` when nothing reads it; the returned var counts as read after the
/// last step), and the numbers of fp and mix vars; or the first step that
/// reads a var not defined before it, or a returned var that does not exist.
#[verifier::rlimit(30)]
pub fn eval_check_last_uses_block(block: &[PolyExtStep], ret: usize) -> (res: Result<
    (Vec<Option<usize>>, Vec<Option<usize>>, usize, usize),
    EvalCheckError,
>)
    ensures
        match last_uses_error(block@, ret) {
            Some(e) => res is Err && res->Err_0 == e,
            None => res is Ok && res->Ok_0.0@ == last_fp_uses(block@) && res->Ok_0.1@ == last_mix_uses(block@, ret)
                && res->Ok_0.2 == fp_count(block@) && res->Ok_0.3 == mix_count(block@),
        },
{
    let mut last_fp: Vec<Option<usize>> = Vec::new();
    let mut last_mix: Vec<Option<usize>> = Vec::new();
    let mut i: usize = 0;
    assert(block@.take(0) =~= Seq::<PolyExtStep>::empty());
    assert(last_fp@ =~= last_fp_uses(block@.take(0)));
    assert(last_mix@ =~= Seq::new(mix_count(block@.take(0)), |v: int| last_mix_read(block@.take(0), v as usize)));
    while i < block.len()
        invariant
            i <= block@.len(),
            reads_error(block@.take(i as int)) is None,
            last_fp@ == last_fp_uses(block@.take(i as int)),
            last_mix@ == Seq::new(
                mix_count(block@.take(i as int)),
                |v: int| last_mix_read(block@.take(i as int), v as usize),
            ),
        decreases block@.len() - i,
    {
        let op = block[i];
        let ghost t = block@.take(i as int);
        let ghost t1 = block@.take(i + 1);
        proof {
            lemma_take_step(block@, i as int);
        }
        let fc = last_fp.len();
        let mc = last_mix.len();
        match op {
            PolyExtStep::Add(l, r) | PolyExtStep::Sub(l, r) | PolyExtStep::Mul(l, r) => {
                if l >= fc {
                    proof {
                        lemma_reads_error_sticks(block@, i + 1);
                    }
                    return Err(EvalCheckError::FpOperandOutOfRange(l));
                }
                if r >= fc {
                    proof {
                        lemma_reads_error_sticks(block@, i + 1);
                    }
                    return Err(EvalCheckError::FpOperandOutOfRange(r));
                }
                eval_check_note_last(&mut last_fp, l, i);
                eval_check_note_last(&mut last_fp, r, i);
                last_fp.push(None);
            },
            PolyExtStep::AndEqz(chain, inner) => {
                if chain >= mc {
                    proof {
                        lemma_reads_error_sticks(block@, i + 1);
                    }
                    return Err(EvalCheckError::AndEqzChainOutOfRange(chain));
                }
                if inner >= fc {
                    proof {
                        lemma_reads_error_sticks(block@, i + 1);
                    }
                    return Err(EvalCheckError::AndEqzInnerOutOfRange(inner));
                }
                eval_check_note_last(&mut last_mix, chain, i);
                eval_check_note_last(&mut last_fp, inner, i);
                last_mix.push(None);
            },
            PolyExtStep::AndCond(chain, cond, inner) => {
                if chain >= mc {
                    proof {
                        lemma_reads_error_sticks(block@, i + 1);
                    }
                    return Err(EvalCheckError::AndCondChainOutOfRange(chain));
                }
                if cond >= fc {
                    proof {
                        lemma_reads_error_sticks(block@, i + 1);
                    }
                    return Err(EvalCheckError::AndCondCondOutOfRange(cond));
                }
                if inner >= mc {
                    proof {
                        lemma_reads_error_sticks(block@, i + 1);
                    }
                    return Err(EvalCheckError::AndCondInnerOutOfRange(inner));
                }
                eval_check_note_last(&mut last_mix, chain, i);
                eval_check_note_last(&mut last_fp, cond, i);
                eval_check_note_last(&mut last_mix, inner, i);
                last_mix.push(None);
            },
            PolyExtStep::True => {
                last_mix.push(None);
            },
            _ => {
                last_fp.push(None);
            },
        }
        proof {
            assert(reads_error(t1) is None);
            lemma_no_read_beyond(t, fc);
            lemma_no_read_beyond(t, mc);
            assert(last_fp@ =~= last_fp_uses(t1));
            assert(last_mix@ =~= Seq::new(mix_count(t1), |v: int| last_mix_read(t1, v as usize)));
        }
        i = i + 1;
    }
    assert(block@.take(block@.len() as int) =~= block@);
    let fc = last_fp.len();
    let mc = last_mix.len();
    if ret >= mc {
        return Err(EvalCheckError::ReturnOutOfRange { ret, mix_count: mc });
    }
    last_mix.set(ret, Some(block.len()));
    assert(last_mix@ =~= last_mix_uses(block@, ret));
    Ok((last_fp, last_mix, fc, mc))
}

/// `eval_check_last_uses_block` for the tape and returned var of `def`.
pub fn eval_check_last_uses(def: &PolyExtStepDef) -> (res: Result<
    (Vec<Option<usize>>, Vec<Option<usize>>, usize, usize),
    EvalCheckError,
>)
    ensures
        match last_uses_error(def.block@, def.ret) {
            Some(e) => res is Err && res->Err_0 == e,
            None => res is Ok && res->Ok_0.0@ == last_fp_uses(def.block@) && res->Ok_0.1@ == last_mix_uses(
                def.block@,
                def.ret,
            ) && res->Ok_0.2 == fp_count(def.block@) && res->Ok_0.3 == mix_count(def.block@),
        },
{
    eval_check_last_uses_block(def.block, def.ret)
}

/// Hands out scratch slots and takes them back; a slot given back is the
/// first to be handed out again.
pub struct EvalCheckSlotAllocator {
    free: Vec<usize>,
    max_used: usize,
}

impl View for EvalCheckSlotAllocator {
    type V = SlotPool;

    closed spec fn view(&self) -> SlotPool {
        SlotPool { free: self.free@, max: self.max_used }
    }
}

impl Default for EvalCheckSlotAllocator {
    fn default() -> (r: Self)
        ensures
            r@ == (SlotPool { free: Seq::empty(), max: 0 }),
    {
        let r = EvalCheckSlotAllocator { free: Vec::new(), max_used: 0 };
        assert(r@ =~= (SlotPool { free: Seq::empty(), max: 0 }));
        r
    }
}

impl EvalCheckSlotAllocator {
    /// A slot no one holds: the one most recently given back, else a new
    /// one.
    pub fn allocate(&mut self) -> (slot: usize)
        requires
            old(self)@.max < usize::MAX,
        ensures
            (slot, final(self)@) == pool_take(old(self)@),
    {
        match self.free.pop() {
            Some(slot) => slot,
            None => {
                let slot = self.max_used;
                self.max_used = slot + 1;
                slot
            },
        }
    }

    /// Gives `slot` back.
    pub fn free(&mut self, slot: usize)
        ensures
            final(self)@ == pool_give(old(self)@, slot),
    {
        self.free.push(slot);
    }

    /// How many distinct slots were ever handed out.
    pub fn max_used(&self) -> (n: usize)
        ensures
            n == self@.max,
    {
        self.max_used
    }
}

/// The slot fp var `var` holds, or why it holds none.
pub fn eval_check_fp_slot(slots: &Vec<Option<usize>>, var: usize) -> (res: Result<usize, EvalCheckError>)
    ensures
        var < slots@.len() && slots@[var as int] is Some ==> res == Ok::<usize, EvalCheckError>(
            slots@[var as int]->Some_0,
        ),
        var >= slots@.len() ==> res == Err::<usize, EvalCheckError>(EvalCheckError::FpVarOutOfRange(var)),
        var < slots@.len() && slots@[var as int] is None ==> res == Err::<usize, EvalCheckError>(
            EvalCheckError::FpValueReleased(var),
        ),
{
    if var >= slots.len() {
        return Err(EvalCheckError::FpVarOutOfRange(var));
    }
    match slots[var] {
        Some(slot) => Ok(slot),
        None => Err(EvalCheckError::FpValueReleased(var)),
    }
}

/// The slot mix var `var` holds, or why it holds none.
pub fn eval_check_mix_slot(slots: &Vec<Option<usize>>, var: usize) -> (res: Result<usize, EvalCheckError>)
    ensures
        var < slots@.len() && slots@[var as int] is Some ==> res == Ok::<usize, EvalCheckError>(
            slots@[var as int]->Some_0,
        ),
        var >= slots@.len() ==> res == Err::<usize, EvalCheckError>(EvalCheckError::MixVarOutOfRange(var)),
        var < slots@.len() && slots@[var as int] is None ==> res == Err::<usize, EvalCheckError>(
            EvalCheckError::MixValueReleased(var),
        ),
{
    if var >= slots.len() {
        return Err(EvalCheckError::MixVarOutOfRange(var));
    }
    match slots[var] {
        Some(slot) => Ok(slot),
        None => Err(EvalCheckError::MixValueReleased(var)),
    }
}

proof fn lemma_born_is_step(s: Seq<PolyExtStep>, ret: usize, p: int)
    requires
        last_uses_error(s, ret) is None,
        s.len() < usize::MAX,
        0 <= p < s.len(),
    ensures
        is_fp_step(s[p]) ==> fp_count(s.take(p)) < fp_count(s) && tape_slots(s, ret).fp.born[fp_count(s.take(p)) as int]
            == p,
        !is_fp_step(s[p]) ==> mix_count(s.take(p)) < mix_count(s) && tape_slots(s, ret).mix.born[mix_count(
            s.take(p),
        ) as int] == p,
{
    let n = s.len() as int;
    lemma_run_inv(s, ret, n);
    assert(s.take(n) =~= s);
    let r = tape_slots(s, ret);
    lemma_take_step(s, p);
    lemma_counts_mono(s, p + 1, n);
    if is_fp_step(s[p]) {
        let u = fp_count(s.take(p)) as int;
        let b = r.fp.born[u] as int;
        if b < p {
            lemma_take_step(s, b);
            lemma_counts_mono(s, b + 1, p);
        } else if b > p {
            lemma_counts_mono(s, p + 1, b);
        }
    } else {
        let u = mix_count(s.take(p)) as int;
        let b = r.mix.born[u] as int;
        if b < p {
            lemma_take_step(s, b);
            lemma_counts_mono(s, b + 1, p);
        } else if b > p {
            lemma_counts_mono(s, p + 1, b);
        }
    }
}

/// Once tape `s` is compiled, every var was given a slot below its bank's
/// slot count, and a bank never uses more slots than it has vars.
pub proof fn lemma_tape_slots_bounds(s: Seq<PolyExtStep>, ret: usize)
    requires
        last_uses_error(s, ret) is None,
        s.len() < usize::MAX,
    ensures
        run_inv(s, ret, s.len() as int, tape_slots(s, ret)),
        tape_slots(s, ret).fp.at.len() == fp_count(s),
        tape_slots(s, ret).mix.at.len() == mix_count(s),
        tape_slots(s, ret).fp.pool.max <= fp_count(s),
        tape_slots(s, ret).mix.pool.max <= mix_count(s),
        forall|v: int| 0 <= v < fp_count(s) ==> #[trigger] tape_slots(s, ret).fp.at[v] < tape_slots(s, ret).fp.pool.max,
        forall|v: int|
            0 <= v < mix_count(s) ==> #[trigger] tape_slots(s, ret).mix.at[v] < tape_slots(s, ret).mix.pool.max,
{
    lemma_run_inv(s, ret, s.len() as int);
    assert(s.take(s.len() as int) =~= s);
}

/// When step `q` reads fp var `v`, the fp var defined at any step `p` from
/// the definition of `v` up to `q` was given another slot: the read finds
/// the value `v` wrote.
pub proof fn lemma_fp_read_finds_its_value(s: Seq<PolyExtStep>, ret: usize, q: int, v: usize, p: int)
    requires
        last_uses_error(s, ret) is None,
        s.len() < usize::MAX,
        0 <= p <= q < s.len(),
        reads_fp(s[q], v),
        is_fp_step(s[p]),
        v < fp_count(s.take(p)),
    ensures
        tape_slots(s, ret).fp.at[v as int] != tape_slots(s, ret).fp.at[fp_count(s.take(p)) as int],
{
    lemma_tape_slots_bounds(s, ret);
    lemma_born_is_step(s, ret, p);
    lemma_counts_mono(s, p, s.len() as int);
    lemma_last_read(s, v);
    let r = tape_slots(s, ret);
    let u = fp_count(s.take(p)) as int;
    assert(last_fp_uses(s)[v as int] == last_fp_read(s, v));
    assert(live_after(last_fp_uses(s)[v as int], r.fp.born[u] as int));
}

/// When step `q` reads mix var `v`, the mix var defined at any step `p` from
/// the definition of `v` up to `q` was given another slot.
pub proof fn lemma_mix_read_finds_its_value(s: Seq<PolyExtStep>, ret: usize, q: int, v: usize, p: int)
    requires
        last_uses_error(s, ret) is None,
        s.len() < usize::MAX,
        0 <= p <= q < s.len(),
        reads_mix(s[q], v),
        !is_fp_step(s[p]),
        v < mix_count(s.take(p)),
    ensures
        tape_slots(s, ret).mix.at[v as int] != tape_slots(s, ret).mix.at[mix_count(s.take(p)) as int],
{
    lemma_tape_slots_bounds(s, ret);
    lemma_born_is_step(s, ret, p);
    lemma_counts_mono(s, p, s.len() as int);
    lemma_last_read(s, v);
    let r = tape_slots(s, ret);
    let u = mix_count(s.take(p)) as int;
    assert(last_mix_uses(s, ret)[v as int] == last_mix_use(s, ret, v));
    assert(live_after(last_mix_uses(s, ret)[v as int], r.mix.born[u] as int));
}

/// Fp var `v` is defined before step `k` of `s` and still holds its slot
/// when step `k` runs: every fp var defined from `v` up to step `k`, the
/// one step `k` defines included, was given another slot.
pub open spec fn fp_slot_kept(s: Seq<PolyExtStep>, ret: usize, v: usize, k: int) -> bool {
    &&& v < fp_count(s.take(k))
    &&& forall|p: int|
        0 <= p <= k && is_fp_step(s[p]) && v < #[trigger] fp_count(s.take(p)) ==> tape_slots(s, ret).fp.at[fp_count(
            s.take(p),
        ) as int] != tape_slots(s, ret).fp.at[v as int]
}

/// Mix var `v` is defined before step `k` of `s` and still holds its slot
/// when step `k` runs.
pub open spec fn mix_slot_kept(s: Seq<PolyExtStep>, ret: usize, v: usize, k: int) -> bool {
    &&& v < mix_count(s.take(k))
    &&& forall|p: int|
        0 <= p <= k && !is_fp_step(s[p]) && v < #[trigger] mix_count(s.take(p)) ==> tape_slots(s, ret).mix.at[mix_count(
            s.take(p),
        ) as int] != tape_slots(s, ret).mix.at[v as int]
}

/// Every var that step `k` reads is defined before it and still holds its
/// slot when the step runs.
pub(crate) proof fn lemma_operands_kept(s: Seq<PolyExtStep>, ret: usize, k: int)
    requires
        last_uses_error(s, ret) is None,
        s.len() < usize::MAX,
        0 <= k < s.len(),
    ensures
        forall|v: usize| #[trigger] reads_fp(s[k], v) ==> fp_slot_kept(s, ret, v, k),
        forall|v: usize| #[trigger] reads_mix(s[k], v) ==> mix_slot_kept(s, ret, v, k),
{
    lemma_operands_live(s, ret, k);
    assert forall|v: usize| #[trigger] reads_fp(s[k], v) implies fp_slot_kept(s, ret, v, k) by {
        assert forall|p: int|
            0 <= p <= k && is_fp_step(s[p]) && v < #[trigger] fp_count(s.take(p)) implies tape_slots(s, ret).fp.at[fp_count(
                s.take(p),
            ) as int] != tape_slots(s, ret).fp.at[v as int] by {
            lemma_fp_read_finds_its_value(s, ret, k, v, p);
        }
    }
    assert forall|v: usize| #[trigger] reads_mix(s[k], v) implies mix_slot_kept(s, ret, v, k) by {
        assert forall|p: int|
            0 <= p <= k && !is_fp_step(s[p]) && v < #[trigger] mix_count(s.take(p)) implies tape_slots(s, ret).mix.at[mix_count(
                s.take(p),
            ) as int] != tape_slots(s, ret).mix.at[v as int] by {
            lemma_mix_read_finds_its_value(s, ret, k, v, p);
        }
    }
}

/// The returned mix var keeps its slot to the end: no mix var defined after
/// it was given the same slot.
pub proof fn lemma_returned_value_kept(s: Seq<PolyExtStep>, ret: usize, p: int)
    requires
        last_uses_error(s, ret) is None,
        s.len() < usize::MAX,
        0 <= p < s.len(),
        !is_fp_step(s[p]),
        ret < mix_count(s.take(p)),
    ensures
        tape_slots(s, ret).mix.at[ret as int] != tape_slots(s, ret).mix.at[mix_count(s.take(p)) as int],
{
    lemma_tape_slots_bounds(s, ret);
    lemma_born_is_step(s, ret, p);
    let r = tape_slots(s, ret);
    let u = mix_count(s.take(p)) as int;
    assert(last_mix_uses(s, ret)[ret as int] == last_mix_use(s, ret, ret));
    assert(live_after(last_mix_uses(s, ret)[ret as int], r.mix.born[u] as int));
}

/// The var a step defines is read, if at all, only by later steps.
pub(crate) proof fn lemma_new_var_last(s: Seq<PolyExtStep>, ret: usize, j: int)
    requires
        last_uses_error(s, ret) is None,
        0 <= j < s.len(),
        s.len() < usize::MAX,
    ensures
        is_fp_step(s[j]) ==> fp_count(s.take(j)) < fp_count(s) && (last_fp_uses(s)[fp_count(s.take(j)) as int] matches Some(
            l,
        ) ==> l > j),
        !is_fp_step(s[j]) ==> mix_count(s.take(j)) < mix_count(s) && (last_mix_uses(s, ret)[mix_count(
            s.take(j),
        ) as int] matches Some(l) ==> l > j),
{
    let lf = last_fp_uses(s);
    let lm = last_mix_uses(s, ret);
    let fc = fp_count(s.take(j));
    let mc = mix_count(s.take(j));
    lemma_take_step(s, j);
    lemma_counts_mono(s, j + 1, s.len() as int);
    assert(s.take(s.len() as int) =~= s);
    if is_fp_step(s[j]) {
        if let Some(l) = lf[fc as int] {
            lemma_last_read(s, fc as usize);
            lemma_read_defined(s, l as int, fc as usize);
            if l <= j {
                lemma_counts_mono(s, l as int, j);
            }
        }
    } else {
        if let Some(l) = lm[mc as int] {
            if mc != ret {
                lemma_last_read(s, mc as usize);
                lemma_read_defined(s, l as int, mc as usize);
                if l <= j {
                    lemma_counts_mono(s, l as int, j);
                }
            }
        }
    }
}

/// Before step `k`, every var the step reads holds its slot.
pub(crate) proof fn lemma_operands_live(s: Seq<PolyExtStep>, ret: usize, k: int)
    requires
        last_uses_error(s, ret) is None,
        0 <= k < s.len(),
        s.len() < usize::MAX,
    ensures
        forall|x: usize|
            #[trigger] reads_fp(s[k], x) ==> x < fp_count(s.take(k)) && slot_run(
                s.take(k),
                last_fp_uses(s),
                last_mix_uses(s, ret),
            ).fp.live[x as int] == Some(slot_run(s.take(k), last_fp_uses(s), last_mix_uses(s, ret)).fp.at[x as int]),
        forall|x: usize|
            #[trigger] reads_mix(s[k], x) ==> x < mix_count(s.take(k)) && slot_run(
                s.take(k),
                last_fp_uses(s),
                last_mix_uses(s, ret),
            ).mix.live[x as int] == Some(slot_run(s.take(k), last_fp_uses(s), last_mix_uses(s, ret)).mix.at[x as int]),
{
    lemma_run_inv(s, ret, k);
    lemma_counts_mono(s, k, s.len() as int);
    assert(s.take(s.len() as int) =~= s);
    let r0 = slot_run(s.take(k), last_fp_uses(s), last_mix_uses(s, ret));
    assert forall|x: usize| #[trigger] reads_fp(s[k], x) implies x < fp_count(s.take(k)) && r0.fp.live[x as int] == Some(
        r0.fp.at[x as int],
    ) by {
        lemma_read_defined(s, k, x);
        lemma_last_read(s, x);
        assert(last_fp_uses(s)[x as int] == last_fp_read(s, x));
        assert(live_after(last_fp_uses(s)[x as int], k));
    }
    assert forall|x: usize| #[trigger] reads_mix(s[k], x) implies x < mix_count(s.take(k)) && r0.mix.live[x as int]
        == Some(r0.mix.at[x as int]) by {
        lemma_read_defined(s, k, x);
        lemma_last_read(s, x);
        assert(last_mix_uses(s, ret)[x as int] == last_mix_use(s, ret, x));
        assert(live_after(last_mix_uses(s, ret)[x as int], k));
    }
}

pub(crate) fn fp_reads_of(op: PolyExtStep) -> (xs: Vec<usize>)
    ensures
        xs@ == fp_reads(op),
{
    let mut xs: Vec<usize> = Vec::new();
    match op {
        PolyExtStep::Add(l, r) | PolyExtStep::Sub(l, r) | PolyExtStep::Mul(l, r) => {
            if l == r {
                xs.push(l);
            } else if l < r {
                xs.push(l);
                xs.push(r);
            } else {
                xs.push(r);
                xs.push(l);
            }
        },
        PolyExtStep::AndEqz(_, inner) => {
            xs.push(inner);
        },
        PolyExtStep::AndCond(_, cond, _) => {
            xs.push(cond);
        },
        _ => {},
    }
    assert(xs@ =~= fp_reads(op));
    xs
}

pub(crate) fn mix_reads_of(op: PolyExtStep) -> (xs: Vec<usize>)
    ensures
        xs@ == mix_reads(op),
{
    let mut xs: Vec<usize> = Vec::new();
    match op {
        PolyExtStep::AndEqz(chain, _) => {
            xs.push(chain);
        },
        PolyExtStep::AndCond(chain, _, inner) => {
            if chain == inner {
                xs.push(chain);
            } else if chain < inner {
                xs.push(chain);
                xs.push(inner);
            } else {
                xs.push(inner);
                xs.push(chain);
            }
        },
        _ => {},
    }
    assert(xs@ =~= mix_reads(op));
    xs
}

/// Gives back the slot of each of `xs` whose last use is step `k`.
pub(crate) fn release_reads(
    pool: &mut EvalCheckSlotAllocator,
    slots: &mut Vec<Option<usize>>,
    xs: &Vec<usize>,
    last: &Vec<Option<usize>>,
    k: usize,
    Ghost(b): Ghost<SlotBank>,
)
    requires
        old(pool)@ == b.pool,
        old(slots)@ == b.live,
        bank_ok(b, last@),
        last@.len() <= usize::MAX,
        forall|i: int, j: int| 0 <= i < j < xs@.len() ==> xs@[i] != xs@[j],
        forall|i: int| 0 <= i < xs@.len() ==> #[trigger] xs@[i] < b.live.len(),
        forall|i: int| 0 <= i < xs@.len() && last@[#[trigger] xs@[i] as int] == Some(k) ==> b.live[xs@[i] as int] is Some,
    ensures
        final(pool)@ == bank_release_all(b, xs@, last@, k).pool,
        final(slots)@ == bank_release_all(b, xs@, last@, k).live,
{
    let mut j: usize = 0;
    assert(xs@.take(0) =~= Seq::<usize>::empty());
    while j < xs.len()
        invariant
            j <= xs@.len(),
            bank_ok(b, last@),
            last@.len() <= usize::MAX,
            forall|i: int, m: int| 0 <= i < m < xs@.len() ==> xs@[i] != xs@[m],
            forall|i: int| 0 <= i < xs@.len() ==> #[trigger] xs@[i] < b.live.len(),
            forall|i: int| 0 <= i < xs@.len() && last@[#[trigger] xs@[i] as int] == Some(k) ==> b.live[xs@[i] as int] is Some,
            pool@ == bank_release_all(b, xs@.take(j as int), last@, k).pool,
            slots@ == bank_release_all(b, xs@.take(j as int), last@, k).live,
        decreases xs@.len() - j,
    {
        let x = xs[j];
        let ghost pre = xs@.take(j as int);
        proof {
            assert(xs@.take(j + 1).drop_last() =~= pre);
            assert(xs@.take(j + 1).last() == x);
            assert forall|i: int, m: int| 0 <= i < m < pre.len() implies pre[i] != pre[m] by {
                assert(pre[i] == xs@[i] && pre[m] == xs@[m]);
            }
            assert forall|i: int| 0 <= i < pre.len() implies #[trigger] pre[i] < b.live.len() by {
                assert(pre[i] == xs@[i]);
            }
            assert forall|i: int| 0 <= i < pre.len() && last@[#[trigger] pre[i] as int] == Some(k) implies b.live[pre[i] as int] is Some by {
                assert(pre[i] == xs@[i]);
            }
            lemma_release_all(b, pre, last@, k);
            assert(!pre.contains(x)) by {
                if pre.contains(x) {
                    let i = choose|i: int| 0 <= i < pre.len() && pre[i] == x;
                    assert(xs@[i] == xs@[j as int]);
                }
            }
        }
        let is_last = match last[x] {
            Some(l) => l == k,
            None => false,
        };
        if is_last {
            let slot = match eval_check_fp_slot(slots, x) {
                Ok(slot) => slot,
                Err(_) => {
                    proof {
                        assert(false);
                    }
                    0
                },
            };
            slots.set(x, None);
            pool.free(slot);
        }
        proof {
            assert(slots@ =~= bank_release_all(b, xs@.take(j + 1), last@, k).live);
        }
        j = j + 1;
    }
    assert(xs@.take(xs@.len() as int) =~= xs@);
}

/// The slots of the vars `op` reads: `fa`, `fb` for fp operands (the
/// condition of `AndCond`, the inner value of `AndEqz`), `ma`, `mb` for mix
/// operands (chain first).
pub(crate) fn read_operands(
    op: PolyExtStep,
    fp_slots: &Vec<Option<usize>>,
    mix_slots: &Vec<Option<usize>>,
    Ghost(fat): Ghost<Seq<usize>>,
    Ghost(mat): Ghost<Seq<usize>>,
) -> (r: (usize, usize, usize, usize))
    requires
        forall|x: usize|
            #[trigger] reads_fp(op, x) ==> x < fp_slots@.len() && fp_slots@[x as int] == Some(
                fat[x as int],
            ),
        forall|x: usize|
            #[trigger] reads_mix(op, x) ==> x < mix_slots@.len() && mix_slots@[x as int] == Some(
                mat[x as int],
            ),
    ensures
        match op {
            PolyExtStep::Add(l, rr) | PolyExtStep::Sub(l, rr) | PolyExtStep::Mul(l, rr) => r.0 == fat[l as int]
                && r.1 == fat[rr as int],
            PolyExtStep::AndEqz(c, i) => r.0 == fat[i as int] && r.2 == mat[c as int],
            PolyExtStep::AndCond(c, d, i) => r.0 == fat[d as int] && r.2 == mat[c as int] && r.3 == mat[i as int],
            _ => true,
        },
{
    match op {
        PolyExtStep::Add(l, r) | PolyExtStep::Sub(l, r) | PolyExtStep::Mul(l, r) => {
            assert(reads_fp(op, l) && reads_fp(op, r));
            let a = match eval_check_fp_slot(fp_slots, l) {
                Ok(x) => x,
                Err(_) => 0,
            };
            let b = match eval_check_fp_slot(fp_slots, r) {
                Ok(x) => x,
                Err(_) => 0,
            };
            (a, b, 0, 0)
        },
        PolyExtStep::AndEqz(chain, inner) => {
            assert(reads_fp(op, inner) && reads_mix(op, chain));
            let c = match eval_check_mix_slot(mix_slots, chain) {
                Ok(x) => x,
                Err(_) => 0,
            };
            let i = match eval_check_fp_slot(fp_slots, inner) {
                Ok(x) => x,
                Err(_) => 0,
            };
            (i, 0, c, 0)
        },
        PolyExtStep::AndCond(chain, cond, inner) => {
            assert(reads_fp(op, cond) && reads_mix(op, chain)
                && reads_mix(op, inner));
            let c = match eval_check_mix_slot(mix_slots, chain) {
                Ok(x) => x,
                Err(_) => 0,
            };
            let d = match eval_check_fp_slot(fp_slots, cond) {
                Ok(x) => x,
                Err(_) => 0,
            };
            let i = match eval_check_mix_slot(mix_slots, inner) {
                Ok(x) => x,
                Err(_) => 0,
            };
            (d, 0, c, i)
        },
        _ => (0, 0, 0, 0),
    }
}

/// Takes a slot for the var step `k` defines, giving it back at once when
/// nothing reads the var.
pub(crate) fn define_slot(
    pool: &mut EvalCheckSlotAllocator,
    slots: &mut Vec<Option<usize>>,
    last: &Vec<Option<usize>>,
    k: usize,
    Ghost(b): Ghost<SlotBank>,
) -> (slot: usize)
    requires
        old(pool)@ == b.pool,
        old(slots)@ == b.live,
        b.live.len() < last@.len(),
        b.pool.max < usize::MAX,
    ensures
        final(pool)@ == bank_define(b, k, last@[b.live.len() as int] is Some).pool,
        final(slots)@ == bank_define(b, k, last@[b.live.len() as int] is Some).live,
        slot == pool_take(b.pool).0,
{
    let n = slots.len();
    let slot = pool.allocate();
    slots.push(Some(slot));
    let keep = match last[n] {
        Some(_) => true,
        None => false,
    };
    if !keep {
        slots.set(n, None);
        pool.free(slot);
    }
    assert(slots@ =~= bank_define(b, k, last@[b.live.len() as int] is Some).live);
    slot
}



/// Step `k` of tape `s`, `op`, on the slot banks: reads the slots of its
/// operands, defines its var, and gives back the slots it read for the last
/// time. Returns the slot of the new var and the operand slots as
/// `read_operands` gives them.
#[verifier::rlimit(40)]
pub(crate) fn slot_step(
    op: PolyExtStep,
    k: usize,
    last_fp: &Vec<Option<usize>>,
    last_mix: &Vec<Option<usize>>,
    fp_alloc: &mut EvalCheckSlotAllocator,
    mix_alloc: &mut EvalCheckSlotAllocator,
    fp_slots: &mut Vec<Option<usize>>,
    mix_slots: &mut Vec<Option<usize>>,
    Ghost(s): Ghost<Seq<PolyExtStep>>,
    Ghost(ret): Ghost<usize>,
) -> (r: (usize, usize, usize, usize, usize))
    requires
        last_uses_error(s, ret) is None,
        s.len() < usize::MAX,
        k < s.len(),
        s[k as int] == op,
        last_fp@ == last_fp_uses(s),
        last_mix@ == last_mix_uses(s, ret),
        old(fp_alloc)@ == slot_run(s.take(k as int), last_fp_uses(s), last_mix_uses(s, ret)).fp.pool,
        old(fp_slots)@ == slot_run(s.take(k as int), last_fp_uses(s), last_mix_uses(s, ret)).fp.live,
        old(mix_alloc)@ == slot_run(s.take(k as int), last_fp_uses(s), last_mix_uses(s, ret)).mix.pool,
        old(mix_slots)@ == slot_run(s.take(k as int), last_fp_uses(s), last_mix_uses(s, ret)).mix.live,
    ensures
        ({
            let r0 = slot_run(s.take(k as int), last_fp_uses(s), last_mix_uses(s, ret));
            let r1 = slot_run(s.take(k + 1), last_fp_uses(s), last_mix_uses(s, ret));
            let fat = r1.fp.at;
            let mat = r1.mix.at;
            &&& final(fp_alloc)@ == r1.fp.pool
            &&& final(fp_slots)@ == r1.fp.live
            &&& final(mix_alloc)@ == r1.mix.pool
            &&& final(mix_slots)@ == r1.mix.live
            &&& forall|v: int| 0 <= v < fp_count(s.take(k as int)) ==> #[trigger] fat[v] == r0.fp.at[v]
            &&& forall|v: int| 0 <= v < mix_count(s.take(k as int)) ==> #[trigger] mat[v] == r0.mix.at[v]
            &&& is_fp_step(op) ==> r.0 == fat[fp_count(s.take(k as int)) as int]
            &&& !is_fp_step(op) ==> r.0 == mat[mix_count(s.take(k as int)) as int]
            &&& match op {
                PolyExtStep::Add(l, rr) | PolyExtStep::Sub(l, rr) | PolyExtStep::Mul(l, rr) => r.1 == fat[l as int]
                    && r.2 == fat[rr as int] && l < fp_count(s.take(k as int)) && rr < fp_count(s.take(k as int)),
                PolyExtStep::AndEqz(c, i) => r.1 == fat[i as int] && r.3 == mat[c as int] && i < fp_count(
                    s.take(k as int),
                ) && c < mix_count(s.take(k as int)),
                PolyExtStep::AndCond(c, d, i) => r.1 == fat[d as int] && r.3 == mat[c as int] && r.4 == mat[i as int]
                    && d < fp_count(s.take(k as int)) && c < mix_count(s.take(k as int)) && i < mix_count(
                    s.take(k as int),
                ),
                _ => true,
            }
        }),
{
    let ghost lf = last_fp_uses(s);
    let ghost lm = last_mix_uses(s, ret);
    let ghost r0 = slot_run(s.take(k as int), lf, lm);
    proof {
        lemma_run_inv(s, ret, k as int);
        lemma_new_var_last(s, ret, k as int);
        lemma_operands_live(s, ret, k as int);
        lemma_take_step(s, k as int);
        lemma_reads_distinct(op);
        lemma_counts_mono(s, k + 1, s.len() as int);
        assert(s.take(s.len() as int) =~= s);
        assert(slot_run(s.take(k + 1), lf, lm) == run_step(r0, op, k, lf, lm));
    }
    let (fa, fb, ma, mb) = read_operands(op, fp_slots, mix_slots, Ghost(r0.fp.at), Ghost(r0.mix.at));
    let is_fp = match op {
        PolyExtStep::True | PolyExtStep::AndEqz(_, _) | PolyExtStep::AndCond(_, _, _) => false,
        _ => true,
    };
    let ghost fp1 = if is_fp {
        bank_define(r0.fp, k, lf[r0.fp.live.len() as int] is Some)
    } else {
        r0.fp
    };
    let ghost mix1 = if is_fp {
        r0.mix
    } else {
        bank_define(r0.mix, k, lm[r0.mix.live.len() as int] is Some)
    };
    let out_slot = if is_fp {
        proof {
            lemma_define(r0.fp, lf, k);
        }
        define_slot(fp_alloc, fp_slots, last_fp, k, Ghost(r0.fp))
    } else {
        proof {
            lemma_define(r0.mix, lm, k);
        }
        define_slot(mix_alloc, mix_slots, last_mix, k, Ghost(r0.mix))
    };
    proof {
        assert forall|x: int| 0 <= x < r0.fp.at.len() implies fp1.at[x] == r0.fp.at[x] by {
            if is_fp {
                assert(fp1.at[x] == fp1.at.take(r0.fp.at.len() as int)[x]);
            }
        }
        assert forall|x: int| 0 <= x < r0.mix.at.len() implies mix1.at[x] == r0.mix.at[x] by {
            if !is_fp {
                assert(mix1.at[x] == mix1.at.take(r0.mix.at.len() as int)[x]);
            }
        }
        assert(match op {
            PolyExtStep::Add(l, r) | PolyExtStep::Sub(l, r) | PolyExtStep::Mul(l, r) => reads_fp(op, l) && reads_fp(
                op,
                r,
            ),
            PolyExtStep::AndEqz(c, i) => reads_fp(op, i) && reads_mix(op, c),
            PolyExtStep::AndCond(c, d, i) => reads_fp(op, d) && reads_mix(op, c) && reads_mix(op, i),
            _ => true,
        });
    }
    let fxs = fp_reads_of(op);
    let mxs = mix_reads_of(op);
    proof {
        assert forall|i: int| 0 <= i < fxs@.len() implies #[trigger] fxs@[i] < fp1.live.len() by {
            assert(reads_fp(op, fxs@[i]));
        }
        assert forall|i: int| 0 <= i < mxs@.len() implies #[trigger] mxs@[i] < mix1.live.len() by {
            assert(reads_mix(op, mxs@[i]));
        }
        assert forall|i: int| 0 <= i < fxs@.len() && lf[#[trigger] fxs@[i] as int] == Some(k) implies fp1.live[fxs@[i] as int] is Some by {
            assert(reads_fp(op, fxs@[i]));
            if is_fp {
                assert(fp1.live[fxs@[i] as int] == fp1.live.take(r0.fp.live.len() as int)[fxs@[i] as int]);
            }
        }
        assert forall|i: int| 0 <= i < mxs@.len() && lm[#[trigger] mxs@[i] as int] == Some(k) implies mix1.live[mxs@[i] as int] is Some by {
            assert(reads_mix(op, mxs@[i]));
            if !is_fp {
                assert(mix1.live[mxs@[i] as int] == mix1.live.take(r0.mix.live.len() as int)[mxs@[i] as int]);
            }
        }
    }
    release_reads(fp_alloc, fp_slots, &fxs, last_fp, k, Ghost(fp1));
    release_reads(mix_alloc, mix_slots, &mxs, last_mix, k, Ghost(mix1));
    proof {
        lemma_release_all(fp1, fxs@, lf, k);
        lemma_release_all(mix1, mxs@, lm, k);
    }
    (out_slot, fa, fb, ma, mb)
}

} // verus!
