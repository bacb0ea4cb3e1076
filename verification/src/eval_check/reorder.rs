//! Lazy reordering of a tape: each fp op is moved to just before its first
//! consumer, which lowers how many fp values are live at once.

use vstd::prelude::*;
use super::tape::{
    PolyExtStep, EvalCheckError, is_fp_step, fp_count, mix_count, fp_steps, mix_steps, lemma_fp_steps_push,
    lemma_fp_steps_len,
};

verus! {

/// The value an fp var computes, as an expression over the tape's leaves.
/// `Invalid` marks a var that does not exist or whose operands do not all
/// refer to earlier vars.
pub enum FpExpr {
    Const(u32),
    ConstExt(u32, u32, u32, u32),
    Get(usize),
    GetGlobal(usize, usize),
    Add(Box<FpExpr>, Box<FpExpr>),
    Sub(Box<FpExpr>, Box<FpExpr>),
    Mul(Box<FpExpr>, Box<FpExpr>),
    Invalid,
}

/// The expression fp var `v` computes, given the fp steps `fs` of a tape.
pub open spec fn fp_expr(fs: Seq<PolyExtStep>, v: int) -> FpExpr
    decreases v,
{
    if !(0 <= v < fs.len()) {
        FpExpr::Invalid
    } else {
        match fs[v] {
            PolyExtStep::Const(c) => FpExpr::Const(c),
            PolyExtStep::ConstExt(a, b, c, d) => FpExpr::ConstExt(a, b, c, d),
            PolyExtStep::Get(t) => FpExpr::Get(t),
            PolyExtStep::GetGlobal(a, o) => FpExpr::GetGlobal(a, o),
            PolyExtStep::Add(l, r) => if l < v && r < v {
                FpExpr::Add(Box::new(fp_expr(fs, l as int)), Box::new(fp_expr(fs, r as int)))
            } else {
                FpExpr::Invalid
            },
            PolyExtStep::Sub(l, r) => if l < v && r < v {
                FpExpr::Sub(Box::new(fp_expr(fs, l as int)), Box::new(fp_expr(fs, r as int)))
            } else {
                FpExpr::Invalid
            },
            PolyExtStep::Mul(l, r) => if l < v && r < v {
                FpExpr::Mul(Box::new(fp_expr(fs, l as int)), Box::new(fp_expr(fs, r as int)))
            } else {
                FpExpr::Invalid
            },
            _ => FpExpr::Invalid,
        }
    }
}

/// The expression contains no `Invalid` part.
pub open spec fn expr_ok(e: FpExpr) -> bool
    decreases e,
{
    match e {
        FpExpr::Invalid => false,
        FpExpr::Add(a, b) => expr_ok(*a) && expr_ok(*b),
        FpExpr::Sub(a, b) => expr_ok(*a) && expr_ok(*b),
        FpExpr::Mul(a, b) => expr_ok(*a) && expr_ok(*b),
        _ => true,
    }
}

/// Fp var `v` of tape `s` computes a well-defined value.
pub open spec fn fp_valid(s: Seq<PolyExtStep>, v: int) -> bool {
    expr_ok(fp_expr(fp_steps(s), v))
}

/// The fp var a mix step reads, if any.
pub open spec fn mix_fp_ref(m: PolyExtStep) -> Option<usize> {
    match m {
        PolyExtStep::AndEqz(_, inner) => Some(inner),
        PolyExtStep::AndCond(_, cond, _) => Some(cond),
        _ => None,
    }
}

/// Every fp value the mix steps of `s` read is well defined.
pub open spec fn reorder_valid(s: Seq<PolyExtStep>) -> bool {
    forall|k: int|
        0 <= k < mix_steps(s).len() && (#[trigger] mix_fp_ref(mix_steps(s)[k])) is Some ==> fp_valid(
            s,
            mix_fp_ref(mix_steps(s)[k])->Some_0 as int,
        )
}

/// Mix step `mo` of tape `o` is mix step `mi` of tape `i`, with its fp
/// operand replaced by one computing the same value.
pub open spec fn mix_step_matches(o: Seq<PolyExtStep>, mo: PolyExtStep, i: Seq<PolyExtStep>, mi: PolyExtStep) -> bool {
    match mi {
        PolyExtStep::True => mo == PolyExtStep::True,
        PolyExtStep::AndEqz(chain, inner) => mo matches PolyExtStep::AndEqz(chain2, inner2) && chain2
            == chain && fp_valid(i, inner as int) && fp_expr(fp_steps(o), inner2 as int) == fp_expr(
            fp_steps(i),
            inner as int,
        ),
        PolyExtStep::AndCond(chain, cond, inner) => mo matches PolyExtStep::AndCond(
            chain2,
            cond2,
            inner2,
        ) && chain2 == chain && inner2 == inner && fp_valid(i, cond as int) && fp_expr(
            fp_steps(o),
            cond2 as int,
        ) == fp_expr(fp_steps(i), cond as int),
        _ => false,
    }
}

/// Every mix step of `o` reads only fp vars defined before it in `o`.
pub open spec fn refs_defined_before(o: Seq<PolyExtStep>) -> bool {
    forall|p: int|
        0 <= p < o.len() && (#[trigger] mix_fp_ref(o[p])) is Some ==> mix_fp_ref(o[p])->Some_0 < fp_count(
            o.take(p),
        )
}

/// Every fp var of `o` computes a well-defined value.
pub open spec fn all_fp_valid(o: Seq<PolyExtStep>) -> bool {
    forall|n: int| 0 <= n < fp_count(o) ==> #[trigger] fp_valid(o, n)
}

/// Some fp var of the fp steps `fs` computes `e`.
pub open spec fn computed_by(fs: Seq<PolyExtStep>, e: FpExpr) -> bool {
    exists|v: int| 0 <= v < fs.len() && fp_expr(fs, v) == e
}

/// `out` is a lazy reordering of `block`: the same mix steps in the same
/// order, each reading an fp value equal to the one it read in `block`;
/// every fp value of `out` is well defined, defined before it is read, and
/// computed by some fp var of `block`; and `out` has no more fp steps than
/// `block`.
pub open spec fn reordered(block: Seq<PolyExtStep>, out: Seq<PolyExtStep>) -> bool {
    &&& mix_steps(out).len() == mix_steps(block).len()
    &&& forall|k: int|
        0 <= k < mix_steps(block).len() ==> mix_step_matches(
            out,
            #[trigger] mix_steps(out)[k],
            block,
            mix_steps(block)[k],
        )
    &&& all_fp_valid(out)
    &&& refs_defined_before(out)
    &&& forall|n: int|
        0 <= n < fp_count(out) ==> computed_by(fp_steps(block), #[trigger] fp_expr(fp_steps(out), n))
    &&& fp_count(out) <= fp_count(block)
}

pub open spec fn count_some(ids: Seq<Option<usize>>) -> nat
    decreases ids.len(),
{
    if ids.len() == 0 {
        0
    } else {
        count_some(ids.drop_last()) + if ids.last() is Some { 1nat } else { 0nat }
    }
}

proof fn lemma_count_some_update(ids: Seq<Option<usize>>, v: int, x: usize)
    requires
        0 <= v < ids.len(),
        ids[v] is None,
    ensures
        count_some(ids.update(v, Some(x))) == count_some(ids) + 1,
    decreases ids.len(),
{
    let u = ids.update(v, Some(x));
    if v == ids.len() - 1 {
        assert(u.drop_last() =~= ids.drop_last());
    } else {
        assert(u.drop_last() =~= ids.drop_last().update(v, Some(x)));
        lemma_count_some_update(ids.drop_last(), v, x);
    }
}

proof fn lemma_count_some_le(ids: Seq<Option<usize>>)
    ensures
        count_some(ids) <= ids.len(),
    decreases ids.len(),
{
    if ids.len() > 0 {
        lemma_count_some_le(ids.drop_last());
    }
}

proof fn lemma_fp_expr_push(s: Seq<PolyExtStep>, y: PolyExtStep, n: int)
    requires
        0 <= n < s.len(),
    ensures
        fp_expr(s.push(y), n) == fp_expr(s, n),
    decreases n,
{
    assert(s.push(y)[n] == s[n]);
    match s[n] {
        PolyExtStep::Add(l, r) | PolyExtStep::Sub(l, r) | PolyExtStep::Mul(l, r) => {
            if l < n && r < n {
                lemma_fp_expr_push(s, y, l as int);
                lemma_fp_expr_push(s, y, r as int);
            }
        },
        _ => {},
    }
}

proof fn lemma_fp_steps_are_fp(s: Seq<PolyExtStep>, v: int)
    requires
        0 <= v < fp_steps(s).len(),
    ensures
        is_fp_step(fp_steps(s)[v]),
    decreases s.len(),
{
    if s.len() > 0 {
        if is_fp_step(s.last()) && v == fp_steps(s.drop_last()).len() {
        } else {
            lemma_fp_steps_are_fp(s.drop_last(), v);
        }
    }
}

/// Pushing an fp step keeps every property of the earlier fp vars and of
/// the mix steps.
proof fn lemma_push_fp_keeps(o: Seq<PolyExtStep>, y: PolyExtStep)
    requires
        is_fp_step(y),
    ensures
        fp_steps(o.push(y)) == fp_steps(o).push(y),
        mix_steps(o.push(y)) == mix_steps(o),
        fp_count(o.push(y)) == fp_count(o) + 1,
        forall|n: int| 0 <= n < fp_count(o) ==> #[trigger] fp_expr(fp_steps(o.push(y)), n) == fp_expr(fp_steps(o), n),
        refs_defined_before(o) ==> refs_defined_before(o.push(y)),
{
    lemma_fp_steps_push(o, y);
    lemma_fp_steps_len(o);
    assert forall|n: int| 0 <= n < fp_count(o) implies #[trigger] fp_expr(fp_steps(o.push(y)), n) == fp_expr(fp_steps(o), n) by {
        lemma_fp_expr_push(fp_steps(o), y, n);
    }
    if refs_defined_before(o) {
        assert forall|p: int|
            0 <= p < o.push(y).len() && (#[trigger] mix_fp_ref(o.push(y)[p])) is Some implies mix_fp_ref(
            o.push(y)[p],
        )->Some_0 < fp_count(o.push(y).take(p)) by {
            if p < o.len() {
                assert(o.push(y)[p] == o[p]);
                assert(o.push(y).take(p) =~= o.take(p));
            }
        }
    }
}

/// Emission state: `ids[v]` is the new number of old fp var `v` once it has
/// been emitted into `out`.
pub open spec fn emit_inv(fs: Seq<PolyExtStep>, ids: Seq<Option<usize>>, out: Seq<PolyExtStep>, next_fp: usize) -> bool {
    &&& ids.len() == fs.len()
    &&& next_fp == fp_count(out)
    &&& next_fp == count_some(ids)
    &&& forall|v: int|
        0 <= v < ids.len() && (#[trigger] ids[v]) is Some ==> ids[v]->Some_0 < fp_count(out) && fp_expr(
            fp_steps(out),
            ids[v]->Some_0 as int,
        ) == fp_expr(fs, v) && expr_ok(fp_expr(fs, v))
    &&& all_fp_valid(out)
    &&& refs_defined_before(out)
    &&& forall|n: int| 0 <= n < fp_count(out) ==> computed_by(fs, #[trigger] fp_expr(fp_steps(out), n))
}

pub open spec fn pow3(n: nat) -> nat
    decreases n,
{
    if n == 0 {
        1
    } else {
        3 * pow3((n - 1) as nat)
    }
}

pub open spec fn entry_weight(e: (usize, bool)) -> nat {
    if e.1 {
        1
    } else {
        2 * pow3(e.0 as nat)
    }
}

pub open spec fn stack_weight(st: Seq<(usize, bool)>) -> nat
    decreases st.len(),
{
    if st.len() == 0 {
        0
    } else {
        stack_weight(st.drop_last()) + entry_weight(st.last())
    }
}

proof fn lemma_pow3_mono(a: nat, b: nat)
    requires
        a <= b,
    ensures
        pow3(a) <= pow3(b),
        pow3(a) >= 1,
    decreases b,
{
    if a < b {
        lemma_pow3_mono(a, (b - 1) as nat);
    } else if a > 0 {
        lemma_pow3_mono((a - 1) as nat, (a - 1) as nat);
    }
}

/// The operands of an arithmetic step.
pub open spec fn step_operands(op: PolyExtStep) -> Option<(usize, usize)> {
    match op {
        PolyExtStep::Add(l, r) | PolyExtStep::Sub(l, r) | PolyExtStep::Mul(l, r) => Some((l, r)),
        _ => None,
    }
}

/// The traversal stack of `emit_fp`: entries name existing vars; each is a
/// sub-expression of `root` (so it is well defined when `root` is); an
/// expanded entry's operands are earlier vars that are emitted or lie above
/// it on the stack; and `root` is emitted or on the stack.
pub open spec fn stack_ok(fs: Seq<PolyExtStep>, ids: Seq<Option<usize>>, st: Seq<(usize, bool)>, root: usize) -> bool {
    &&& forall|k: int| 0 <= k < st.len() ==> (#[trigger] st[k]).0 < fs.len()
    &&& forall|k: int|
        0 <= k < st.len() && expr_ok(fp_expr(fs, root as int)) ==> expr_ok(fp_expr(
            fs,
            (#[trigger] st[k]).0 as int,
        ))
    &&& forall|k: int|
        #![trigger st[k]]
        0 <= k < st.len() && st[k].1 && step_operands(fs[st[k].0 as int]) is Some ==> {
            let (l, r) = step_operands(fs[st[k].0 as int])->Some_0;
            &&& l < st[k].0 && r < st[k].0
            &&& (ids[l as int] is Some || exists|j: int| k < j < st.len() && st[j].0 == l)
            &&& (ids[r as int] is Some || exists|j: int| k < j < st.len() && st[j].0 == r)
        }
    &&& ids[root as int] is Some || exists|j: int| 0 <= j < st.len() && st[j].0 == root
}

proof fn lemma_weight_pop(st: Seq<(usize, bool)>)
    requires
        st.len() > 0,
    ensures
        stack_weight(st) == stack_weight(st.drop_last()) + entry_weight(st.last()),
        entry_weight(st.last()) >= 1,
{
    lemma_pow3_mono(0, st.last().0 as nat);
}

/// Popping an entry whose var is already emitted keeps the stack invariant.
proof fn lemma_pop_emitted(fs: Seq<PolyExtStep>, ids: Seq<Option<usize>>, st: Seq<(usize, bool)>, root: usize)
    requires
        st.len() > 0,
        ids.len() == fs.len(),
        stack_ok(fs, ids, st, root),
        ids[st.last().0 as int] is Some,
    ensures
        stack_ok(fs, ids, st.drop_last(), root),
{
    let rest = st.drop_last();
    let top = st.len() - 1;
    assert forall|k: int| 0 <= k < rest.len() implies #[trigger] rest[k] == st[k] by {}
    assert forall|k: int|
        #![trigger rest[k]]
        0 <= k < rest.len() && rest[k].1 && step_operands(fs[rest[k].0 as int]) is Some implies {
            let (l, r) = step_operands(fs[rest[k].0 as int])->Some_0;
            &&& l < rest[k].0 && r < rest[k].0
            &&& (ids[l as int] is Some || exists|j: int| k < j < rest.len() && rest[j].0 == l)
            &&& (ids[r as int] is Some || exists|j: int| k < j < rest.len() && rest[j].0 == r)
        } by {
        assert(st[k] == rest[k]);
        let (l, r) = step_operands(fs[rest[k].0 as int])->Some_0;
        if ids[l as int] is None {
            let j = choose|j: int| k < j < st.len() && st[j].0 == l;
            assert(j != top);
            assert(rest[j] == st[j]);
        }
        if ids[r as int] is None {
            let j = choose|j: int| k < j < st.len() && st[j].0 == r;
            assert(j != top);
            assert(rest[j] == st[j]);
        }
    }
    if ids[root as int] is None {
        let j = choose|j: int| 0 <= j < st.len() && st[j].0 == root;
        assert(j != top);
        assert(rest[j] == st[j]);
    }
}

/// Emitting the expanded top entry `(var, true)` keeps the stack invariant
/// for the rest of the stack, and its operands were already emitted.
proof fn lemma_pop_emit(fs: Seq<PolyExtStep>, ids: Seq<Option<usize>>, st: Seq<(usize, bool)>, root: usize, x: usize)
    requires
        root < fs.len(),
        st.len() > 0,
        ids.len() == fs.len(),
        stack_ok(fs, ids, st, root),
        st.last().1,
        ids[st.last().0 as int] is None,
    ensures
        step_operands(fs[st.last().0 as int]) is Some ==> {
            let (l, r) = step_operands(fs[st.last().0 as int])->Some_0;
            l < st.last().0 && r < st.last().0 && ids[l as int] is Some && ids[r as int] is Some
        },
        stack_ok(fs, ids.update(st.last().0 as int, Some(x)), st.drop_last(), root),
{
    let var = st.last().0;
    let top = st.len() - 1;
    assert(st[top] == st.last());
    let ids2 = ids.update(var as int, Some(x));
    let rest = st.drop_last();
    assert forall|k: int| 0 <= k < rest.len() implies #[trigger] rest[k] == st[k] by {}
    assert forall|k: int|
        #![trigger rest[k]]
        0 <= k < rest.len() && rest[k].1 && step_operands(fs[rest[k].0 as int]) is Some implies {
            let (l, r) = step_operands(fs[rest[k].0 as int])->Some_0;
            &&& l < rest[k].0 && r < rest[k].0
            &&& (ids2[l as int] is Some || exists|j: int| k < j < rest.len() && rest[j].0 == l)
            &&& (ids2[r as int] is Some || exists|j: int| k < j < rest.len() && rest[j].0 == r)
        } by {
        assert(st[k] == rest[k]);
        let (l, r) = step_operands(fs[rest[k].0 as int])->Some_0;
        if ids2[l as int] is None {
            let j = choose|j: int| k < j < st.len() && st[j].0 == l;
            assert(j != top);
            assert(rest[j] == st[j]);
        }
        if ids2[r as int] is None {
            let j = choose|j: int| k < j < st.len() && st[j].0 == r;
            assert(j != top);
            assert(rest[j] == st[j]);
        }
    }
    if ids2[root as int] is None {
        assert(root != var);
        assert(ids[root as int] is None);
        let j = choose|j: int| 0 <= j < st.len() && st[j].0 == root;
        assert(st[top].0 == var);
        assert(j != top);
        assert(rest[j] == st[j]);
    }
}

/// Expanding the unexpanded top entry `(var, false)` into `(var, true)`
/// followed by its not-yet-emitted operands (right, then left) keeps the
/// stack invariant and lowers the stack weight.
proof fn lemma_pop_expand(
    fs: Seq<PolyExtStep>,
    ids: Seq<Option<usize>>,
    st: Seq<(usize, bool)>,
    root: usize,
    new_st: Seq<(usize, bool)>,
)
    requires
        st.len() > 0,
        ids.len() == fs.len(),
        stack_ok(fs, ids, st, root),
        !st.last().1,
        ids[st.last().0 as int] is None,
        step_operands(fs[st.last().0 as int]) is Some ==> {
            let (l, r) = step_operands(fs[st.last().0 as int])->Some_0;
            l < st.last().0 && r < st.last().0
        },
        new_st == if step_operands(fs[st.last().0 as int]) is Some {
            let (l, r) = step_operands(fs[st.last().0 as int])->Some_0;
            let s1 = st.drop_last().push((st.last().0, true));
            let s2 = if ids[r as int] is None { s1.push((r, false)) } else { s1 };
            if ids[l as int] is None { s2.push((l, false)) } else { s2 }
        } else {
            st.drop_last().push((st.last().0, true))
        },
        is_fp_step(fs[st.last().0 as int]),
    ensures
        stack_ok(fs, ids, new_st, root),
        stack_weight(new_st) < stack_weight(st),
{
    let var = st.last().0;
    let top = st.len() - 1;
    assert(st[top] == st.last());
    let base = st.drop_last();
    let k0 = base.len() as int;
    let s1 = base.push((var, true));
    assert(s1.drop_last() == base);
    assert(stack_weight(s1) == stack_weight(base) + 1);
    assert(stack_weight(st) == stack_weight(base) + 2 * pow3(var as nat));
    lemma_pow3_mono(0, var as nat);
    assert(new_st[k0] == (var, true));
    assert forall|k: int| 0 <= k < k0 implies #[trigger] new_st[k] == st[k] by {}
    if step_operands(fs[var as int]) is Some {
        let (l, r) = step_operands(fs[var as int])->Some_0;
        lemma_pow3_mono(l as nat, (var - 1) as nat);
        lemma_pow3_mono(r as nat, (var - 1) as nat);
        assert(pow3(var as nat) == 3 * pow3((var - 1) as nat));
        let s2 = if ids[r as int] is None { s1.push((r, false)) } else { s1 };
        if ids[r as int] is None {
            assert(s2.drop_last() == s1);
            assert(stack_weight(s2) == stack_weight(s1) + 2 * pow3(r as nat));
        }
        assert(stack_weight(s2) <= stack_weight(s1) + 2 * pow3((var - 1) as nat));
        if ids[l as int] is None {
            assert(new_st.drop_last() == s2);
            assert(stack_weight(new_st) == stack_weight(s2) + 2 * pow3(l as nat));
        }
        assert(stack_weight(new_st) <= stack_weight(s2) + 2 * pow3((var - 1) as nat));
        assert(expr_ok(fp_expr(fs, var as int)) ==> expr_ok(fp_expr(fs, l as int)) && expr_ok(fp_expr(
            fs,
            r as int,
        )));
    } else {
        assert(new_st == s1);
    }
    assert forall|k: int| 0 <= k < new_st.len() implies (#[trigger] new_st[k]).0 < fs.len() by {}
    assert forall|k: int|
        0 <= k < new_st.len() && expr_ok(fp_expr(fs, root as int)) implies expr_ok(fp_expr(
            fs,
            (#[trigger] new_st[k]).0 as int,
        )) by {
        assert(expr_ok(fp_expr(fs, var as int)));
    }
    assert forall|k: int|
        #![trigger new_st[k]]
        0 <= k < new_st.len() && new_st[k].1 && step_operands(fs[new_st[k].0 as int]) is Some implies {
            let (l, r) = step_operands(fs[new_st[k].0 as int])->Some_0;
            &&& l < new_st[k].0 && r < new_st[k].0
            &&& (ids[l as int] is Some || exists|j: int| k < j < new_st.len() && new_st[j].0 == l)
            &&& (ids[r as int] is Some || exists|j: int| k < j < new_st.len() && new_st[j].0 == r)
        } by {
        let (l, r) = step_operands(fs[new_st[k].0 as int])->Some_0;
        if k < k0 {
            assert(st[k] == new_st[k]);
            if ids[l as int] is None {
                let j = choose|j: int| k < j < st.len() && st[j].0 == l;
                if j < k0 {
                    assert(new_st[j] == st[j]);
                } else {
                    assert(new_st[k0].0 == l);
                }
            }
            if ids[r as int] is None {
                let j = choose|j: int| k < j < st.len() && st[j].0 == r;
                if j < k0 {
                    assert(new_st[j] == st[j]);
                } else {
                    assert(new_st[k0].0 == r);
                }
            }
        } else {
            assert(k == k0);
            if ids[r as int] is None {
                assert(new_st[k0 + 1].0 == r);
            }
            if ids[l as int] is None {
                if ids[r as int] is None {
                    assert(new_st[k0 + 2].0 == l);
                } else {
                    assert(new_st[k0 + 1].0 == l);
                }
            }
        }
    }
    if ids[root as int] is None {
        let j = choose|j: int| 0 <= j < st.len() && st[j].0 == root;
        if j < k0 {
            assert(new_st[j] == st[j]);
        } else {
            assert(new_st[k0].0 == root);
        }
    }
}

/// The step emitted for old fp var `var`: the same step with operands
/// renumbered through `ids`.
pub open spec fn remap_step(op: PolyExtStep, ids: Seq<Option<usize>>) -> PolyExtStep {
    match op {
        PolyExtStep::Add(l, r) => PolyExtStep::Add(ids[l as int]->Some_0, ids[r as int]->Some_0),
        PolyExtStep::Sub(l, r) => PolyExtStep::Sub(ids[l as int]->Some_0, ids[r as int]->Some_0),
        PolyExtStep::Mul(l, r) => PolyExtStep::Mul(ids[l as int]->Some_0, ids[r as int]->Some_0),
        other => other,
    }
}

/// The emission state: the new number of each old fp var emitted so far,
/// and the tape emitted so far.
pub type EmitState = (Seq<Option<usize>>, Seq<PolyExtStep>);

/// Emits old fp var `v` of the fp steps `fs`: it gets the next new number,
/// and its step is appended with operands renumbered.
pub open spec fn emit_one(fs: Seq<PolyExtStep>, s: EmitState, v: int) -> EmitState {
    (s.0.update(v, Some(fp_count(s.1) as usize)), s.1.push(remap_step(fs[v], s.0)))
}

/// Emits old fp var `v` on demand: nothing when it is emitted already;
/// otherwise first its left operand, then its right one (each on demand),
/// then `v` itself. A var that does not exist, or reads a later var, emits
/// nothing.
pub open spec fn emit_spec(fs: Seq<PolyExtStep>, s: EmitState, v: int) -> EmitState
    decreases v,
{
    if !(0 <= v < fs.len()) || s.0[v] is Some {
        s
    } else {
        match step_operands(fs[v]) {
            Some(lr) => if lr.0 < v && lr.1 < v {
                emit_one(fs, emit_spec(fs, emit_spec(fs, s, lr.0 as int), lr.1 as int), v)
            } else {
                s
            },
            None => emit_one(fs, s, v),
        }
    }
}

/// The lazy walk over the first `i` steps of `block`: fp steps are skipped;
/// a mix step first emits the fp var it reads on demand, then is appended
/// reading that var's new number.
pub open spec fn lazy_walk(block: Seq<PolyExtStep>, i: int) -> EmitState
    decreases i,
{
    if i <= 0 {
        (Seq::new(fp_steps(block).len(), |v: int| None::<usize>), Seq::empty())
    } else {
        let s = lazy_walk(block, i - 1);
        let fs = fp_steps(block);
        match block[i - 1] {
            PolyExtStep::True => (s.0, s.1.push(PolyExtStep::True)),
            PolyExtStep::AndEqz(chain, inner) => {
                let s1 = emit_spec(fs, s, inner as int);
                (s1.0, s1.1.push(PolyExtStep::AndEqz(chain, s1.0[inner as int]->Some_0)))
            },
            PolyExtStep::AndCond(chain, cond, inner) => {
                let s1 = emit_spec(fs, s, cond as int);
                (s1.0, s1.1.push(PolyExtStep::AndCond(chain, s1.0[cond as int]->Some_0, inner)))
            },
            _ => s,
        }
    }
}

/// The lazy order of `block`: each fp value a mix step reads is emitted just
/// before its first reader, in post-order (left operand first), fp vars
/// renumbered in emission order, fp values no mix step reaches dropped.
pub open spec fn lazy_order(block: Seq<PolyExtStep>) -> Seq<PolyExtStep> {
    lazy_walk(block, block.len() as int).1
}

/// Emitting on demand changes no var after `v`, and no var emitted before.
proof fn lemma_emit_spec_frame(fs: Seq<PolyExtStep>, s: EmitState, v: int)
    requires
        s.0.len() == fs.len(),
    ensures
        emit_spec(fs, s, v).0.len() == s.0.len(),
        forall|x: int|
            0 <= x < s.0.len() && (x > v || s.0[x] is Some) ==> #[trigger] emit_spec(fs, s, v).0[x] == s.0[x],
    decreases v,
{
    if !(!(0 <= v < fs.len()) || s.0[v] is Some) {
        match step_operands(fs[v]) {
            Some(lr) => if lr.0 < v && lr.1 < v {
                lemma_emit_spec_frame(fs, s, lr.0 as int);
                let s1 = emit_spec(fs, s, lr.0 as int);
                lemma_emit_spec_frame(fs, s1, lr.1 as int);
            },
            None => {},
        }
    }
}

/// Step `y` is step `x` of the input, with arithmetic operands renumbered.
pub open spec fn step_from(y: PolyExtStep, x: PolyExtStep) -> bool {
    match x {
        PolyExtStep::Add(_, _) => y is Add,
        PolyExtStep::Sub(_, _) => y is Sub,
        PolyExtStep::Mul(_, _) => y is Mul,
        _ => y == x,
    }
}

/// Step `y` comes from one of the fp steps `fs`.
pub open spec fn from_fp_steps(y: PolyExtStep, fs: Seq<PolyExtStep>) -> bool {
    exists|v: int| 0 <= v < fs.len() && step_from(y, #[trigger] fs[v])
}

/// Every fp step of `out` comes from one of the fp steps `fs`.
pub open spec fn all_from(out: Seq<PolyExtStep>, fs: Seq<PolyExtStep>) -> bool {
    forall|k: int| 0 <= k < out.len() && is_fp_step(out[k]) ==> #[trigger] from_fp_steps(out[k], fs)
}

proof fn lemma_emit_spec_from(fs: Seq<PolyExtStep>, s: EmitState, v: int)
    requires
        all_from(s.1, fs),
    ensures
        all_from(emit_spec(fs, s, v).1, fs),
    decreases v,
{
    if !(!(0 <= v < fs.len()) || s.0[v] is Some) {
        assert forall|t: EmitState| all_from(t.1, fs) implies all_from(emit_one(fs, t, v).1, fs) by {
            let o = emit_one(fs, t, v).1;
            assert(step_from(remap_step(fs[v], t.0), fs[v]));
            assert forall|k: int| 0 <= k < o.len() && is_fp_step(o[k]) implies #[trigger] from_fp_steps(o[k], fs) by {
                if k < t.1.len() {
                    assert(o[k] == t.1[k]);
                } else {
                    assert(o[k] == remap_step(fs[v], t.0));
                }
            }
        }
        match step_operands(fs[v]) {
            Some(lr) => if lr.0 < v && lr.1 < v {
                lemma_emit_spec_from(fs, s, lr.0 as int);
                lemma_emit_spec_from(fs, emit_spec(fs, s, lr.0 as int), lr.1 as int);
            },
            None => {},
        }
    }
}

/// Every fp step of the lazy walk comes from an fp step of the tape.
pub(crate) proof fn lemma_lazy_walk_from(block: Seq<PolyExtStep>, i: int)
    requires
        0 <= i <= block.len(),
    ensures
        all_from(lazy_walk(block, i).1, fp_steps(block)),
    decreases i,
{
    let fs = fp_steps(block);
    if i > 0 {
        lemma_lazy_walk_from(block, i - 1);
        let s = lazy_walk(block, i - 1);
        match block[i - 1] {
            PolyExtStep::AndEqz(_, inner) => {
                lemma_emit_spec_from(fs, s, inner as int);
            },
            PolyExtStep::AndCond(_, cond, _) => {
                lemma_emit_spec_from(fs, s, cond as int);
            },
            _ => {},
        }
        let o = lazy_walk(block, i).1;
        let pre = match block[i - 1] {
            PolyExtStep::AndEqz(_, inner) => emit_spec(fs, s, inner as int).1,
            PolyExtStep::AndCond(_, cond, _) => emit_spec(fs, s, cond as int).1,
            _ => s.1,
        };
        assert forall|k: int| 0 <= k < o.len() && is_fp_step(o[k]) implies #[trigger] from_fp_steps(o[k], fs) by {
            if k < pre.len() {
                assert(o[k] == pre[k]);
            }
        }
    }
}

proof fn lemma_emit_spec_len(fs: Seq<PolyExtStep>, s: EmitState, v: int)
    requires
        s.0.len() == fs.len(),
    ensures
        emit_spec(fs, s, v).1.len() + count_some(s.0) == s.1.len() + count_some(emit_spec(fs, s, v).0),
    decreases v,
{
    if !(!(0 <= v < fs.len()) || s.0[v] is Some) {
        match step_operands(fs[v]) {
            Some(lr) => if lr.0 < v && lr.1 < v {
                lemma_emit_spec_len(fs, s, lr.0 as int);
                lemma_emit_spec_frame(fs, s, lr.0 as int);
                let a = emit_spec(fs, s, lr.0 as int);
                lemma_emit_spec_len(fs, a, lr.1 as int);
                lemma_emit_spec_frame(fs, a, lr.1 as int);
                let b = emit_spec(fs, a, lr.1 as int);
                lemma_count_some_update(b.0, v, fp_count(b.1) as usize);
            },
            None => {
                lemma_count_some_update(s.0, v, fp_count(s.1) as usize);
            },
        }
    }
}

/// The lazy walk emits each fp var at most once: its tape has one step per
/// mix step read so far plus one per fp var emitted.
pub(crate) proof fn lemma_lazy_walk_len(block: Seq<PolyExtStep>, i: int)
    requires
        0 <= i <= block.len(),
    ensures
        lazy_walk(block, i).0.len() == fp_steps(block).len(),
        lazy_walk(block, i).1.len() == mix_count(block.take(i)) + count_some(lazy_walk(block, i).0),
        lazy_walk(block, i).1.len() <= block.len(),
    decreases i,
{
    let fs = fp_steps(block);
    if i == 0 {
        lemma_count_some_none(lazy_walk(block, 0).0);
        assert(block.take(0) =~= Seq::<PolyExtStep>::empty());
    } else {
        lemma_lazy_walk_len(block, i - 1);
        let s = lazy_walk(block, i - 1);
        assert(block.take(i).drop_last() =~= block.take(i - 1));
        assert(block.take(i).last() == block[i - 1]);
        match block[i - 1] {
            PolyExtStep::AndEqz(_, inner) => {
                lemma_emit_spec_len(fs, s, inner as int);
                lemma_emit_spec_frame(fs, s, inner as int);
            },
            PolyExtStep::AndCond(_, cond, _) => {
                lemma_emit_spec_len(fs, s, cond as int);
                lemma_emit_spec_frame(fs, s, cond as int);
            },
            _ => {},
        }
    }
    lemma_count_some_le(lazy_walk(block, i).0);
    lemma_fp_steps_len(block.take(i));
    lemma_fp_steps_len(block);
    lemma_steps_prefix(block, i);
}

/// One stack entry of the traversal, as the emission it stands for: an
/// unexpanded entry emits its var on demand, an expanded one emits just
/// its var (its operands being done).
pub open spec fn emit_entry(fs: Seq<PolyExtStep>, s: EmitState, e: (usize, bool)) -> EmitState {
    if e.1 {
        if s.0[e.0 as int] is Some {
            s
        } else {
            emit_one(fs, s, e.0 as int)
        }
    } else {
        emit_spec(fs, s, e.0 as int)
    }
}

/// What the traversal stack still has to emit, top entry first.
pub open spec fn emit_stack(fs: Seq<PolyExtStep>, s: EmitState, st: Seq<(usize, bool)>) -> EmitState
    decreases st.len(),
{
    if st.len() == 0 {
        s
    } else {
        emit_stack(fs, emit_entry(fs, s, st.last()), st.drop_last())
    }
}

/// Emitting old fp var `var` (whose operands are emitted earlier vars)
/// keeps the emission invariant.
proof fn lemma_emit_step(
    fs: Seq<PolyExtStep>,
    ids: Seq<Option<usize>>,
    out: Seq<PolyExtStep>,
    next_fp: usize,
    var: usize,
)
    requires
        emit_inv(fs, ids, out, next_fp),
        ids.len() <= usize::MAX,
        var < fs.len(),
        ids[var as int] is None,
        is_fp_step(fs[var as int]),
        step_operands(fs[var as int]) is Some ==> {
            let (l, r) = step_operands(fs[var as int])->Some_0;
            l < var && r < var && ids[l as int] is Some && ids[r as int] is Some
        },
    ensures
        next_fp < usize::MAX,
        emit_inv(
            fs,
            ids.update(var as int, Some(next_fp)),
            out.push(remap_step(fs[var as int], ids)),
            (next_fp + 1) as usize,
        ),
        mix_steps(out.push(remap_step(fs[var as int], ids))) == mix_steps(out),
{
    let y = remap_step(fs[var as int], ids);
    let ids2 = ids.update(var as int, Some(next_fp));
    let out2 = out.push(y);
    lemma_count_some_update(ids, var as int, next_fp);
    lemma_count_some_le(ids2);
    lemma_push_fp_keeps(out, y);
    lemma_fp_steps_len(out);
    let n = next_fp as int;
    let fo = fp_steps(out2);
    assert(fo[n] == y);
    if step_operands(fs[var as int]) is Some {
        let (l, r) = step_operands(fs[var as int])->Some_0;
        let lo = ids[l as int]->Some_0;
        let ro = ids[r as int]->Some_0;
        assert(fp_expr(fo, lo as int) == fp_expr(fp_steps(out), lo as int));
        assert(fp_expr(fo, ro as int) == fp_expr(fp_steps(out), ro as int));
    }
    assert(fp_expr(fo, n) == fp_expr(fs, var as int));
    assert forall|v: int|
        0 <= v < ids2.len() && (#[trigger] ids2[v]) is Some implies ids2[v]->Some_0 < fp_count(out2)
            && fp_expr(fp_steps(out2), ids2[v]->Some_0 as int) == fp_expr(fs, v) && expr_ok(fp_expr(fs, v)) by {
        if v != var as int {
            assert(ids2[v] == ids[v]);
        }
    }
    assert forall|m: int| 0 <= m < fp_count(out2) implies #[trigger] fp_valid(out2, m) by {
        if m < n {
            assert(fp_valid(out, m));
        }
    }
    assert forall|m: int| 0 <= m < fp_count(out2) implies computed_by(fs, #[trigger] fp_expr(fp_steps(out2), m)) by {
        if m < n {
            assert(computed_by(fs, fp_expr(fp_steps(out), m)));
        } else {
            assert(0 <= var < fs.len() && fp_expr(fs, var as int) == fp_expr(fo, n));
        }
    }
}

/// Expanding the unexpanded top entry leaves what the stack still has to
/// emit unchanged.
proof fn lemma_expand_emits(fs: Seq<PolyExtStep>, s: EmitState, st: Seq<(usize, bool)>, new_st: Seq<(usize, bool)>)
    requires
        st.len() > 0,
        s.0.len() == fs.len(),
        st.last().0 < fs.len(),
        !st.last().1,
        s.0[st.last().0 as int] is None,
        step_operands(fs[st.last().0 as int]) is Some ==> {
            let (l, r) = step_operands(fs[st.last().0 as int])->Some_0;
            l < st.last().0 && r < st.last().0
        },
        new_st == if step_operands(fs[st.last().0 as int]) is Some {
            let (l, r) = step_operands(fs[st.last().0 as int])->Some_0;
            let s1 = st.drop_last().push((st.last().0, true));
            let s2 = if s.0[r as int] is None { s1.push((r, false)) } else { s1 };
            if s.0[l as int] is None { s2.push((l, false)) } else { s2 }
        } else {
            st.drop_last().push((st.last().0, true))
        },
    ensures
        emit_stack(fs, s, new_st) == emit_stack(fs, s, st),
{
    let v = st.last().0;
    let rest = st.drop_last();
    let s1 = rest.push((v, true));
    assert(s1.drop_last() == rest);
    assert(emit_stack(fs, s, st) == emit_stack(fs, emit_spec(fs, s, v as int), rest));
    if step_operands(fs[v as int]) is Some {
        let (l, r) = step_operands(fs[v as int])->Some_0;
        lemma_emit_spec_frame(fs, s, l as int);
        let a = emit_spec(fs, s, l as int);
        lemma_emit_spec_frame(fs, a, r as int);
        let b = emit_spec(fs, a, r as int);
        assert(emit_spec(fs, s, v as int) == emit_one(fs, b, v as int));
        assert(b.0[v as int] is None);
        assert(emit_stack(fs, b, s1) == emit_stack(fs, emit_one(fs, b, v as int), rest));
        let s2 = if s.0[r as int] is None { s1.push((r, false)) } else { s1 };
        // After the left operand, the right one is emitted on demand.
        if s.0[r as int] is None {
            assert(s2.drop_last() == s1);
            assert(emit_stack(fs, a, s2) == emit_stack(fs, b, s1));
        } else {
            assert(a.0[r as int] == s.0[r as int]);
            assert(b == a);
            assert(emit_stack(fs, a, s2) == emit_stack(fs, b, s1));
        }
        if s.0[l as int] is None {
            assert(new_st.drop_last() == s2);
            assert(emit_stack(fs, s, new_st) == emit_stack(fs, a, s2));
        } else {
            assert(a == s);
            assert(new_st == s2);
        }
    } else {
        assert(new_st == s1);
        assert(emit_spec(fs, s, v as int) == emit_one(fs, s, v as int));
    }
}

/// Emit fp var `root` (and, first, every operand it needs that has not been
/// emitted yet) into `out`, returning its new number.
fn emit_fp(
    block: &[PolyExtStep],
    fp_producer: &Vec<usize>,
    root: usize,
    new_fp_id: &mut Vec<Option<usize>>,
    out: &mut Vec<PolyExtStep>,
    next_fp: &mut usize,
    stack: &mut Vec<(usize, bool)>,
) -> (res: Result<usize, EvalCheckError>)
    requires
        fp_producer@.len() == fp_steps(block@).len(),
        forall|v: int|
            0 <= v < fp_producer@.len() ==> (#[trigger] fp_producer@[v]) < block@.len() && block@[fp_producer@[v] as int]
                == fp_steps(block@)[v],
        emit_inv(fp_steps(block@), old(new_fp_id)@, old(out)@, *old(next_fp)),
    ensures
        emit_inv(fp_steps(block@), final(new_fp_id)@, final(out)@, *final(next_fp)),
        mix_steps(final(out)@) == mix_steps(old(out)@),
        final(out)@.len() >= old(out)@.len(),
        final(out)@.take(old(out)@.len() as int) == old(out)@,
        *final(next_fp) >= *old(next_fp),
        res is Ok ==> (final(new_fp_id)@, final(out)@) == emit_spec(
            fp_steps(block@),
            (old(new_fp_id)@, old(out)@),
            root as int,
        ),
        match res {
            Ok(id) => root < fp_steps(block@).len() && final(new_fp_id)@[root as int] == Some(id),
            Err(e) => !expr_ok(fp_expr(fp_steps(block@), root as int)) && (e is FpOperandOutOfRange
                || e is FpOperandForwardReference),
        },
{
    let ghost fs = fp_steps(block@);
    if root >= fp_producer.len() {
        return Err(EvalCheckError::FpOperandOutOfRange(root));
    }
    if let Some(id) = new_fp_id[root] {
        assert(out@.take(out@.len() as int) =~= out@);
        return Ok(id);
    }
    let ghost out0 = out@;
    let ghost ids0 = new_fp_id@;
    stack.clear();
    stack.push((root, false));
    proof {
        assert(stack@[0] == (root, false));
        assert(out@.take(out0.len() as int) =~= out0);
        assert(stack@.drop_last() =~= Seq::<(usize, bool)>::empty());
        assert(stack@.last() == (root, false));
        let e = emit_entry(fs, (new_fp_id@, out@), (root, false));
        assert(emit_stack(fs, e, stack@.drop_last()) == e);
    }
    while stack.len() > 0
        invariant
            fs == fp_steps(block@),
            fp_producer@.len() == fs.len(),
            forall|v: int|
                0 <= v < fp_producer@.len() ==> (#[trigger] fp_producer@[v]) < block@.len() && block@[fp_producer@[v] as int]
                    == fs[v],
            root < fs.len(),
            out0 == old(out)@,
            emit_inv(fs, new_fp_id@, out@, *next_fp),
            mix_steps(out@) == mix_steps(out0),
            out@.len() >= out0.len(),
            out@.take(out0.len() as int) == out0,
            *next_fp >= *old(next_fp),
            stack_ok(fs, new_fp_id@, stack@, root),
            ids0 == old(new_fp_id)@,
            emit_stack(fs, (new_fp_id@, out@), stack@) == emit_spec(fs, (ids0, out0), root as int),
        decreases stack_weight(stack@),
    {
        let ghost st = stack@;
        let (var, expanded) = stack.pop().unwrap();
        proof {
            assert(st.drop_last() == stack@);
            assert(st.last() == (var, expanded));
            assert(st[st.len() - 1] == (var, expanded));
            lemma_weight_pop(st);
        }
        if new_fp_id[var].is_some() {
            proof {
                lemma_pop_emitted(fs, new_fp_id@, st, root);
            }
            continue;
        }
        let ghost s0: EmitState = (new_fp_id@, out@);
        let op = block[fp_producer[var]];
        proof {
            assert(op == fs[var as int]);
            lemma_fp_steps_are_fp(block@, var as int);
        }
        if expanded {
            // Every operand is emitted: emit this var with renumbered operands.
            proof {
                lemma_pop_emit(fs, new_fp_id@, st, root, *next_fp);
            }
            let remapped = match op {
                PolyExtStep::Add(lhs, rhs) => PolyExtStep::Add(
                    new_fp_id[lhs].unwrap(),
                    new_fp_id[rhs].unwrap(),
                ),
                PolyExtStep::Sub(lhs, rhs) => PolyExtStep::Sub(
                    new_fp_id[lhs].unwrap(),
                    new_fp_id[rhs].unwrap(),
                ),
                PolyExtStep::Mul(lhs, rhs) => PolyExtStep::Mul(
                    new_fp_id[lhs].unwrap(),
                    new_fp_id[rhs].unwrap(),
                ),
                other => other,
            };
            let ghost old_out = out@;
            proof {
                assert(remapped == remap_step(fs[var as int], new_fp_id@));
                assert(new_fp_id@.len() == new_fp_id.len());
                lemma_emit_step(fs, new_fp_id@, out@, *next_fp, var);
            }
            out.push(remapped);
            new_fp_id.set(var, Some(*next_fp));
            *next_fp = *next_fp + 1;
            proof {
                assert(out@.take(out0.len() as int) =~= old_out.take(out0.len() as int));
                assert((new_fp_id@, out@) == emit_one(fs, s0, var as int));
            }
        } else {
            let ghost base = stack@;
            stack.push((var, true));
            match op {
                PolyExtStep::Add(lhs, rhs) | PolyExtStep::Sub(lhs, rhs) | PolyExtStep::Mul(lhs, rhs) => {
                    if !(lhs < var && rhs < var) {
                        proof {
                            assert(!expr_ok(fp_expr(fs, var as int)));
                            assert(st[st.len() - 1].0 == var);
                        }
                        return Err(EvalCheckError::FpOperandForwardReference);
                    }
                    if new_fp_id[rhs].is_none() {
                        stack.push((rhs, false));
                    }
                    if new_fp_id[lhs].is_none() {
                        stack.push((lhs, false));
                    }
                },
                _ => {},
            }
            proof {
                lemma_pop_expand(fs, new_fp_id@, st, root, stack@);
                lemma_expand_emits(fs, s0, st, stack@);
            }
        }
    }
    match new_fp_id[root] {
        Some(id) => Ok(id),
        None => {
            proof {
                assert(false);
            }
            Err(EvalCheckError::FpOperandOutOfRange(root))
        },
    }
}

pub(crate) proof fn lemma_steps_prefix(s: Seq<PolyExtStep>, j: int)
    requires
        0 <= j <= s.len(),
    ensures
        fp_steps(s.take(j)) == fp_steps(s).take(fp_count(s.take(j)) as int),
        mix_steps(s.take(j)) == mix_steps(s).take(mix_count(s.take(j)) as int),
        fp_count(s.take(j)) <= fp_count(s),
        mix_count(s.take(j)) <= mix_count(s),
    decreases s.len(),
{
    lemma_fp_steps_len(s);
    lemma_fp_steps_len(s.take(j));
    if j == s.len() {
        assert(s.take(j) =~= s);
        assert(fp_steps(s).take(fp_count(s) as int) =~= fp_steps(s));
        assert(mix_steps(s).take(mix_count(s) as int) =~= mix_steps(s));
    } else {
        let d = s.drop_last();
        assert(s.take(j) =~= d.take(j));
        lemma_steps_prefix(d, j);
        lemma_fp_steps_len(d);
        assert(s =~= d.push(s.last()));
        lemma_fp_steps_push(d, s.last());
        assert(fp_steps(s).take(fp_count(s.take(j)) as int) =~= fp_steps(d).take(
            fp_count(s.take(j)) as int,
        ));
        assert(mix_steps(s).take(mix_count(s.take(j)) as int) =~= mix_steps(d).take(
            mix_count(s.take(j)) as int,
        ));
    }
}

proof fn lemma_fp_expr_extend(o1: Seq<PolyExtStep>, o2: Seq<PolyExtStep>, n: int)
    requires
        o1.len() <= o2.len(),
        o2.take(o1.len() as int) == o1,
        0 <= n < fp_count(o1),
    ensures
        fp_expr(fp_steps(o2), n) == fp_expr(fp_steps(o1), n),
    decreases o2.len(),
{
    if o2.len() == o1.len() {
        assert(o2 =~= o1);
    } else {
        let d = o2.drop_last();
        assert(d.take(o1.len() as int) =~= o1);
        lemma_fp_expr_extend(o1, d, n);
        assert(o2 =~= d.push(o2.last()));
        lemma_fp_steps_push(d, o2.last());
        lemma_steps_prefix(d, o1.len() as int);
        lemma_fp_steps_len(d);
        lemma_fp_steps_len(o1);
        if is_fp_step(o2.last()) {
            lemma_fp_expr_push(fp_steps(d), o2.last(), n);
        }
    }
}

proof fn lemma_count_some_none(ids: Seq<Option<usize>>)
    requires
        forall|k: int| 0 <= k < ids.len() ==> ids[k] is None,
    ensures
        count_some(ids) == 0,
    decreases ids.len(),
{
    if ids.len() > 0 {
        lemma_count_some_none(ids.drop_last());
    }
}

/// The fp operand of every mix step of `o` is one of its fp vars.
pub open spec fn mix_refs_bounded(o: Seq<PolyExtStep>) -> bool {
    forall|q: int|
        0 <= q < mix_steps(o).len() && (#[trigger] mix_fp_ref(mix_steps(o)[q])) is Some ==> mix_fp_ref(
            mix_steps(o)[q],
        )->Some_0 < fp_count(o)
}

/// The first `n` mix steps of `out` match those of `block`.
pub open spec fn mix_prefix_matches(out: Seq<PolyExtStep>, block: Seq<PolyExtStep>, n: int) -> bool {
    forall|k: int|
        0 <= k < n ==> mix_step_matches(out, #[trigger] mix_steps(out)[k], block, mix_steps(block)[k])
}

proof fn lemma_match_extend(
    block: Seq<PolyExtStep>,
    o1: Seq<PolyExtStep>,
    o2: Seq<PolyExtStep>,
    mo: PolyExtStep,
    mi: PolyExtStep,
)
    requires
        o1.len() <= o2.len(),
        o2.take(o1.len() as int) == o1,
        mix_fp_ref(mo) is Some ==> mix_fp_ref(mo)->Some_0 < fp_count(o1),
    ensures
        mix_step_matches(o2, mo, block, mi) == mix_step_matches(o1, mo, block, mi),
{
    if mix_fp_ref(mo) is Some {
        lemma_fp_expr_extend(o1, o2, mix_fp_ref(mo)->Some_0 as int);
    }
}

/// Appending fp steps to `o1` keeps its matched mix prefix.
proof fn lemma_prefix_matches_extend(block: Seq<PolyExtStep>, o1: Seq<PolyExtStep>, o2: Seq<PolyExtStep>, n: int)
    requires
        o1.len() <= o2.len(),
        o2.take(o1.len() as int) == o1,
        0 <= n <= mix_steps(o1).len(),
        n <= mix_steps(o2).len(),
        forall|q: int| 0 <= q < n ==> mix_steps(o2)[q] == mix_steps(o1)[q],
        mix_refs_bounded(o1),
        mix_prefix_matches(o1, block, n),
    ensures
        mix_prefix_matches(o2, block, n),
{
    assert forall|q: int| 0 <= q < n implies mix_step_matches(
        o2,
        #[trigger] mix_steps(o2)[q],
        block,
        mix_steps(block)[q],
    ) by {
        assert(mix_steps(o2)[q] == mix_steps(o1)[q]);
        assert(mix_step_matches(o1, mix_steps(o1)[q], block, mix_steps(block)[q]));
        if mix_fp_ref(mix_steps(o1)[q]) is Some {
            assert(mix_fp_ref(mix_steps(o1)[q])->Some_0 < fp_count(o1));
        }
        lemma_match_extend(block, o1, o2, mix_steps(o1)[q], mix_steps(block)[q]);
    }
}

/// Appending a matching mix step `m` to `o` extends the matched prefix by
/// one and keeps the emission invariant.
proof fn lemma_mix_push(
    fs: Seq<PolyExtStep>,
    ids: Seq<Option<usize>>,
    nf: usize,
    block: Seq<PolyExtStep>,
    o: Seq<PolyExtStep>,
    m: PolyExtStep,
    op: PolyExtStep,
)
    requires
        emit_inv(fs, ids, o, nf),
        mix_refs_bounded(o),
        mix_prefix_matches(o, block, mix_steps(o).len() as int),
        !is_fp_step(m),
        mix_fp_ref(m) is Some ==> mix_fp_ref(m)->Some_0 < fp_count(o),
        mix_steps(o).len() < mix_steps(block).len(),
        mix_steps(block)[mix_steps(o).len() as int] == op,
        mix_step_matches(o, m, block, op),
    ensures
        emit_inv(fs, ids, o.push(m), nf),
        mix_refs_bounded(o.push(m)),
        mix_steps(o.push(m)).len() == mix_steps(o).len() + 1,
        mix_prefix_matches(o.push(m), block, mix_steps(o.push(m)).len() as int),
{
    let o2 = o.push(m);
    let k = mix_steps(o).len() as int;
    lemma_fp_steps_push(o, m);
    assert(o2.take(o.len() as int) =~= o);
    assert forall|p: int|
        0 <= p < o2.len() && (#[trigger] mix_fp_ref(o2[p])) is Some implies mix_fp_ref(o2[p])->Some_0
            < fp_count(o2.take(p)) by {
        if p < o.len() {
            assert(o2[p] == o[p]);
            assert(o2.take(p) =~= o.take(p));
        } else {
            assert(o2.take(p) =~= o);
        }
    }
    assert forall|n: int| 0 <= n < fp_count(o2) implies #[trigger] fp_valid(o2, n) by {
        assert(fp_valid(o, n));
    }
    assert forall|n: int| 0 <= n < fp_count(o2) implies computed_by(fs, #[trigger] fp_expr(fp_steps(o2), n)) by {
        assert(computed_by(fs, fp_expr(fp_steps(o), n)));
    }
    assert forall|q: int|
        0 <= q < mix_steps(o2).len() && (#[trigger] mix_fp_ref(mix_steps(o2)[q])) is Some implies mix_fp_ref(
        mix_steps(o2)[q],
    )->Some_0 < fp_count(o2) by {
        if q < k {
            assert(mix_steps(o2)[q] == mix_steps(o)[q]);
        }
    }
    assert forall|q: int| 0 <= q < k + 1 implies mix_step_matches(
        o2,
        #[trigger] mix_steps(o2)[q],
        block,
        mix_steps(block)[q],
    ) by {
        if q < k {
            assert(mix_steps(o2)[q] == mix_steps(o)[q]);
            assert(mix_step_matches(o, mix_steps(o)[q], block, mix_steps(block)[q]));
        } else {
            assert(mix_steps(o2)[q] == m);
        }
    }
}

/// Where tape step `i` sits among the mix steps of `s`.
proof fn lemma_step_index(s: Seq<PolyExtStep>, i: int)
    requires
        0 <= i < s.len(),
    ensures
        s.take(i + 1) == s.take(i).push(s[i]),
        mix_count(s.take(i + 1)) == mix_count(s.take(i)) + if is_fp_step(s[i]) { 0nat } else { 1nat },
        !is_fp_step(s[i]) ==> mix_count(s.take(i)) < mix_steps(s).len() && mix_steps(s)[mix_count(
            s.take(i),
        ) as int] == s[i],
{
    assert(s.take(i + 1) =~= s.take(i).push(s[i]));
    lemma_fp_steps_push(s.take(i), s[i]);
    lemma_steps_prefix(s, i + 1);
    lemma_fp_steps_len(s.take(i));
    lemma_fp_steps_len(s.take(i + 1));
    if !is_fp_step(s[i]) {
        let k = mix_count(s.take(i)) as int;
        lemma_fp_steps_len(s);
        assert(mix_steps(s.take(i + 1))[k] == s[i]);
        assert(mix_steps(s).take(mix_count(s.take(i + 1)) as int)[k] == mix_steps(s)[k]);
    }
}

/// Lazy (on-demand) reordering of a tape. Mix steps keep their relative
/// order and mix operands; each fp step is emitted just before its first
/// consumer through a post-order walk of its operands (left first), and fp
/// vars are renumbered in emission order. Every emitted step computes the
/// same value from the same operands, so only how many fp values are live at
/// once changes.
#[verifier::rlimit(40)]
pub fn eval_check_reorder_lazy(block: &[PolyExtStep]) -> (res: Result<Vec<PolyExtStep>, EvalCheckError>)
    ensures
        res is Ok <==> reorder_valid(block@),
        res is Ok ==> res->Ok_0@ == lazy_order(block@),
        res is Ok ==> reordered(block@, res->Ok_0@),
        res is Err ==> res->Err_0 is FpOperandOutOfRange || res->Err_0 is FpOperandForwardReference,
{
    let ghost fs = fp_steps(block@);
    // Producing step index for each fp var, in tape order.
    let mut fp_producer: Vec<usize> = Vec::new();
    let mut i: usize = 0;
    assert(block@.take(0) =~= Seq::<PolyExtStep>::empty());
    while i < block.len()
        invariant
            0 <= i <= block@.len(),
            fp_producer@.len() == fp_steps(block@.take(i as int)).len(),
            forall|v: int|
                0 <= v < fp_producer@.len() ==> (#[trigger] fp_producer@[v]) < i && block@[fp_producer@[v] as int]
                    == fp_steps(block@.take(i as int))[v],
        decreases block@.len() - i,
    {
        let op = block[i];
        proof {
            assert(block@.take(i + 1) =~= block@.take(i as int).push(op));
            lemma_fp_steps_push(block@.take(i as int), op);
        }
        match op {
            PolyExtStep::True | PolyExtStep::AndEqz(_, _) | PolyExtStep::AndCond(_, _, _) => {},
            _ => {
                fp_producer.push(i);
            },
        }
        i = i + 1;
    }
    assert(block@.take(block@.len() as int) =~= block@);
    let f = fp_producer.len();
    let mut new_fp_id: Vec<Option<usize>> = Vec::new();
    while new_fp_id.len() < f
        invariant
            new_fp_id@.len() <= f,
            forall|k: int| 0 <= k < new_fp_id@.len() ==> new_fp_id@[k] is None,
        decreases f - new_fp_id@.len(),
    {
        new_fp_id.push(None);
    }
    let mut out: Vec<PolyExtStep> = Vec::new();
    let mut next_fp: usize = 0;
    let mut stack: Vec<(usize, bool)> = Vec::new();
    proof {
        lemma_count_some_none(new_fp_id@);
        assert(fp_count(out@) == 0);
        assert((new_fp_id@, out@) == lazy_walk(block@, 0));
        assert(mix_steps(out@) =~= Seq::<PolyExtStep>::empty());
    }
    let mut i: usize = 0;
    while i < block.len()
        invariant
            0 <= i <= block@.len(),
            fs == fp_steps(block@),
            fp_producer@.len() == fs.len(),
            forall|v: int|
                0 <= v < fp_producer@.len() ==> (#[trigger] fp_producer@[v]) < block@.len() && block@[fp_producer@[v] as int]
                    == fs[v],
            emit_inv(fs, new_fp_id@, out@, next_fp),
            mix_refs_bounded(out@),
            mix_steps(out@).len() == mix_count(block@.take(i as int)),
            mix_prefix_matches(out@, block@, mix_steps(out@).len() as int),
            (new_fp_id@, out@) == lazy_walk(block@, i as int),
        decreases block@.len() - i,
    {
        let op = block[i];
        let ghost s_before: EmitState = (new_fp_id@, out@);
        proof {
            lemma_step_index(block@, i as int);
        }
        let ghost k = mix_steps(out@).len() as int;
        let ghost out_before = out@;
        let ghost nf_before = next_fp;
        // The fp operand of this mix step, renumbered; `None` for fp steps
        // and `True`.
        let mut new_ref: Option<usize> = None;
        match op {
            PolyExtStep::AndEqz(_, inner) | PolyExtStep::AndCond(_, inner, _) => {
                let root = match op {
                    PolyExtStep::AndCond(_, cond, _) => cond,
                    _ => inner,
                };
                let r = emit_fp(block, &fp_producer, root, &mut new_fp_id, &mut out, &mut next_fp, &mut stack);
                match r {
                    Ok(id) => {
                        new_ref = Some(id);
                        proof {
                            assert(new_fp_id@[root as int] is Some);
                        }
                    },
                    Err(e) => {
                        proof {
                            assert(mix_fp_ref(mix_steps(block@)[k]) == Some(root));
                        }
                        return Err(e);
                    },
                }
                proof {
                    lemma_prefix_matches_extend(block@, out_before, out@, k);
                }
            },
            _ => {},
        }
        match op {
            PolyExtStep::True => {
                proof {
                    lemma_mix_push(fs, new_fp_id@, next_fp, block@, out@, PolyExtStep::True, op);
                }
                out.push(PolyExtStep::True);
            },
            PolyExtStep::AndEqz(chain, _) => {
                let m = PolyExtStep::AndEqz(chain, new_ref.unwrap());
                proof {
                    lemma_mix_push(fs, new_fp_id@, next_fp, block@, out@, m, op);
                }
                out.push(m);
            },
            PolyExtStep::AndCond(chain, _, inner) => {
                let m = PolyExtStep::AndCond(chain, new_ref.unwrap(), inner);
                proof {
                    lemma_mix_push(fs, new_fp_id@, next_fp, block@, out@, m, op);
                }
                out.push(m);
            },
            _ => {},
        }
        proof {
            assert(block@[i as int] == op);
        }
        i = i + 1;
    }
    proof {
        lemma_count_some_le(new_fp_id@);
        lemma_fp_steps_len(block@);
        assert forall|q: int|
            0 <= q < mix_steps(block@).len() && (#[trigger] mix_fp_ref(mix_steps(block@)[q])) is Some implies fp_valid(
            block@,
            mix_fp_ref(mix_steps(block@)[q])->Some_0 as int,
        ) by {
            assert(mix_step_matches(out@, mix_steps(out@)[q], block@, mix_steps(block@)[q]));
        }
    }
    Ok(out)
}

/// The identity renumbering of the first `n` of `len` fp vars.
pub open spec fn id_upto(len: nat, n: nat) -> Seq<Option<usize>> {
    Seq::new(len, |x: int| if x < n { Some(x as usize) } else { None::<usize> })
}

/// The state of a second lazy walk over the tape `out` once it has emitted
/// `out`: each of its fp vars is numbered as itself.
pub open spec fn mirror(len: nat, out: Seq<PolyExtStep>) -> EmitState {
    (id_upto(len, fp_count(out)), out)
}

/// Every fp var emitted so far has a number below the count of fp steps
/// emitted.
pub open spec fn ids_below(s: EmitState) -> bool {
    forall|x: int| 0 <= x < s.0.len() && (#[trigger] s.0[x]) is Some ==> s.0[x]->Some_0 < fp_count(s.1)
}

/// All of `fs` are fp steps.
pub open spec fn all_fp(fs: Seq<PolyExtStep>) -> bool {
    forall|k: int| 0 <= k < fs.len() ==> is_fp_step(#[trigger] fs[k])
}

/// Emitting on demand appends only fp steps, keeps the numbering below
/// the count, and numbers every var with a well-defined value.
proof fn lemma_emit_spec_grows(fs: Seq<PolyExtStep>, s: EmitState, v: int)
    requires
        s.0.len() == fs.len(),
        all_fp(fs),
        ids_below(s),
    ensures
        ({
            let t = emit_spec(fs, s, v);
            &&& t.0.len() == s.0.len()
            &&& t.1.len() >= s.1.len()
            &&& t.1.take(s.1.len() as int) == s.1
            &&& forall|k: int| s.1.len() <= k < t.1.len() ==> is_fp_step(#[trigger] t.1[k])
            &&& ids_below(t)
            &&& fp_count(t.1) >= fp_count(s.1)
            &&& expr_ok(fp_expr(fs, v)) ==> t.0[v] is Some
        }),
    decreases v,
{
    lemma_emit_spec_frame(fs, s, v);
    let t = emit_spec(fs, s, v);
    if !(0 <= v < fs.len()) || s.0[v] is Some {
        assert(s.1.take(s.1.len() as int) =~= s.1);
    } else {
        match step_operands(fs[v]) {
            Some(lr) => {
                if lr.0 < v && lr.1 < v {
                    lemma_emit_spec_grows(fs, s, lr.0 as int);
                    let a = emit_spec(fs, s, lr.0 as int);
                    lemma_emit_spec_grows(fs, a, lr.1 as int);
                    lemma_emit_spec_frame(fs, s, lr.0 as int);
                    lemma_emit_spec_frame(fs, a, lr.1 as int);
                    let b = emit_spec(fs, a, lr.1 as int);
                    lemma_emit_one_grows(fs, b, v);
                    assert(t == emit_one(fs, b, v));
                    assert(b.1.take(a.1.len() as int) == a.1);
                    assert(t.1.take(s.1.len() as int) =~= s.1) by {
                        assert(t.1.take(b.1.len() as int) == b.1);
                        assert forall|k: int| 0 <= k < s.1.len() implies t.1[k] == s.1[k] by {
                            assert(t.1[k] == b.1[k]);
                            assert(b.1[k] == a.1[k]);
                            assert(a.1[k] == s.1[k]);
                        }
                    }
                    assert forall|k: int| s.1.len() <= k < t.1.len() implies is_fp_step(#[trigger] t.1[k]) by {
                        if k < a.1.len() {
                            assert(t.1[k] == a.1[k]);
                        } else if k < b.1.len() {
                            assert(t.1[k] == b.1[k]);
                        }
                    }
                } else {
                    assert(s.1.take(s.1.len() as int) =~= s.1);
                }
            },
            None => {
                lemma_emit_one_grows(fs, s, v);
            },
        }
    }
}

proof fn lemma_emit_one_grows(fs: Seq<PolyExtStep>, s: EmitState, v: int)
    requires
        s.0.len() == fs.len(),
        all_fp(fs),
        ids_below(s),
        0 <= v < fs.len(),
        s.0[v] is None,
    ensures
        ({
            let t = emit_one(fs, s, v);
            &&& t.0.len() == s.0.len()
            &&& t.1 == s.1.push(remap_step(fs[v], s.0))
            &&& is_fp_step(remap_step(fs[v], s.0))
            &&& t.1.take(s.1.len() as int) == s.1
            &&& ids_below(t)
            &&& fp_count(t.1) == fp_count(s.1) + 1
            &&& t.0[v] == Some(fp_count(s.1) as usize)
        }),
{
    let y = remap_step(fs[v], s.0);
    assert(is_fp_step(fs[v]));
    assert(is_fp_step(y));
    lemma_fp_steps_push(s.1, y);
    let t = emit_one(fs, s, v);
    assert(t.1.take(s.1.len() as int) =~= s.1);
    assert forall|x: int| 0 <= x < t.0.len() && (#[trigger] t.0[x]) is Some implies t.0[x]->Some_0 < fp_count(t.1) by {
        if x != v {
            assert(t.0[x] == s.0[x]);
        }
    }
}

/// The fp step at fp position `n` of a tape is the fp step at that
/// position of any prefix that has it.
proof fn lemma_fp_prefix_at(o: Seq<PolyExtStep>, p: Seq<PolyExtStep>, y: PolyExtStep)
    requires
        o.take(p.len() as int + 1) == p.push(y),
        p.len() < o.len(),
        is_fp_step(y),
    ensures
        fp_count(p) < fp_steps(o).len(),
        fp_steps(o)[fp_count(p) as int] == y,
{
    let q = p.push(y);
    lemma_fp_steps_push(p, y);
    lemma_fp_steps_len(p);
    lemma_steps_prefix(o, q.len() as int);
    lemma_fp_steps_len(o);
    assert(fp_steps(q)[fp_count(p) as int] == y);
}

/// Renumbering through the identity keeps a step whose operands are
/// numbered.
proof fn lemma_remap_identity(y: PolyExtStep, len: nat, n: nat)
    requires
        step_operands(y) matches Some(lr) ==> lr.0 < n && lr.1 < n && n <= len,
    ensures
        remap_step(y, id_upto(len, n)) == y,
{
}

/// A second lazy walk mirrors the first: from the state that numbers the
/// fp vars of the emitted tape as themselves, emitting the new number of
/// `v` on demand emits exactly what the first walk emitted for `v`.
proof fn lemma_mirror_emit(fs: Seq<PolyExtStep>, o: Seq<PolyExtStep>, s: EmitState, v: int)
    requires
        s.0.len() == fs.len(),
        all_fp(fs),
        ids_below(s),
        expr_ok(fp_expr(fs, v)),
        emit_spec(fs, s, v).1.len() <= o.len(),
        o.len() <= usize::MAX,
        o.take(emit_spec(fs, s, v).1.len() as int) == emit_spec(fs, s, v).1,
    ensures
        emit_spec(fp_steps(o), mirror(fp_steps(o).len(), s.1), emit_spec(fs, s, v).0[v]->Some_0 as int) == mirror(
            fp_steps(o).len(),
            emit_spec(fs, s, v).1,
        ),
    decreases v,
{
    let fo = fp_steps(o);
    let n = fo.len();
    lemma_emit_spec_grows(fs, s, v);
    let t = emit_spec(fs, s, v);
    let ms = mirror(n, s.1);
    lemma_fp_steps_len(o);
    lemma_steps_prefix(o, t.1.len() as int);
    assert(o.take(t.1.len() as int) == t.1);
    lemma_fp_steps_len(t.1);
    assert(fp_count(t.1) <= t.1.len());
    if s.0[v] is Some {
        let r = s.0[v]->Some_0 as int;
        lemma_steps_prefix(o, s.1.len() as int);
        assert(t.1.take(s.1.len() as int) == s.1);
        assert(o.take(s.1.len() as int) =~= s.1);
        assert(ms.0[r] is Some);
    } else {
        let i2 = fp_count(t.1) - 1;
        match step_operands(fs[v]) {
            Some(lr) => {
                let (l, r) = lr;
                assert(expr_ok(fp_expr(fs, l as int)) && expr_ok(fp_expr(fs, r as int)));
                lemma_emit_spec_grows(fs, s, l as int);
                lemma_emit_spec_frame(fs, s, l as int);
                let a = emit_spec(fs, s, l as int);
                lemma_emit_spec_grows(fs, a, r as int);
                lemma_emit_spec_frame(fs, a, r as int);
                let b = emit_spec(fs, a, r as int);
                lemma_emit_one_grows(fs, b, v);
                assert(t == emit_one(fs, b, v));
                let y = remap_step(fs[v], b.0);
                // The first walk's tapes are prefixes of `o`.
                assert(t.1.take(b.1.len() as int) == b.1);
                assert(o.take(b.1.len() as int) =~= b.1);
                assert(o.take(a.1.len() as int) =~= a.1) by {
                    assert(b.1.take(a.1.len() as int) == a.1);
                    assert forall|k: int| 0 <= k < a.1.len() implies o[k] == a.1[k] by {
                        assert(o[k] == b.1[k]);
                        assert(b.1[k] == a.1[k]);
                    }
                }
                lemma_mirror_emit(fs, o, s, l as int);
                lemma_mirror_emit(fs, o, a, r as int);
                let aa = a.0[l as int]->Some_0;
                let cc = b.0[r as int]->Some_0;
                assert(b.0[l as int] == a.0[l as int]);
                assert(o.take(b.1.len() as int + 1) =~= b.1.push(y));
                lemma_fp_prefix_at(o, b.1, y);
                assert(fo[fp_count(b.1) as int] == y);
                assert(step_operands(y) == Some((aa, cc)));
                assert(aa < fp_count(a.1));
                assert(fp_count(a.1) <= fp_count(b.1));
                lemma_steps_prefix(o, s.1.len() as int);
                let p1 = emit_spec(fo, ms, aa as int);
                assert(p1 == mirror(n, a.1));
                let p2 = emit_spec(fo, p1, cc as int);
                assert(p2 == mirror(n, b.1));
                lemma_remap_identity(y, n, fp_count(b.1));
                let q = emit_spec(fo, ms, fp_count(b.1) as int);
                assert(ms.0[fp_count(b.1) as int] is None);
                assert(q == emit_one(fo, p2, fp_count(b.1) as int));
                assert(q.0 =~= id_upto(n, fp_count(t.1)));
                assert(q.1 == t.1);
                assert(q == mirror(n, t.1));
                assert(t.0[v]->Some_0 as int == fp_count(b.1));
            },
            None => {
                lemma_emit_one_grows(fs, s, v);
                assert(t == emit_one(fs, s, v));
                let y = remap_step(fs[v], s.0);
                assert(o.take(s.1.len() as int + 1) =~= s.1.push(y));
                lemma_fp_prefix_at(o, s.1, y);
                lemma_remap_identity(y, n, fp_count(s.1));
                let q = emit_spec(fo, ms, fp_count(s.1) as int);
                assert(ms.0[fp_count(s.1) as int] is None);
                assert(q == emit_one(fo, ms, fp_count(s.1) as int));
                assert(q.0 =~= id_upto(n, fp_count(t.1)));
                assert(q == mirror(n, t.1));
                assert(t.0[v]->Some_0 as int == fp_count(s.1));
            },
        }
    }
}

proof fn lemma_walk_grows(block: Seq<PolyExtStep>, i: int)
    requires
        0 <= i <= block.len(),
    ensures
        lazy_walk(block, i).0.len() == fp_steps(block).len(),
        ids_below(lazy_walk(block, i)),
        i > 0 ==> lazy_walk(block, i).1.len() >= lazy_walk(block, i - 1).1.len(),
        i > 0 ==> lazy_walk(block, i).1.take(lazy_walk(block, i - 1).1.len() as int) == lazy_walk(block, i - 1).1,
    decreases i,
{
    let fs = fp_steps(block);
    assert forall|k: int| 0 <= k < fs.len() implies is_fp_step(#[trigger] fs[k]) by {
        lemma_fp_steps_are_fp(block, k);
    }
    if i == 0 {
        assert(lazy_walk(block, 0).1.len() == 0);
    } else {
        lemma_walk_grows(block, i - 1);
        let s = lazy_walk(block, i - 1);
        let w = lazy_walk(block, i);
        match block[i - 1] {
            PolyExtStep::True => {
                lemma_fp_steps_push(s.1, PolyExtStep::True);
                assert(w.1.take(s.1.len() as int) =~= s.1);
            },
            PolyExtStep::AndEqz(_, root) | PolyExtStep::AndCond(_, root, _) => {
                lemma_emit_spec_grows(fs, s, root as int);
                let s1 = emit_spec(fs, s, root as int);
                let m = w.1.last();
                assert(w.1 == s1.1.push(m));
                lemma_fp_steps_push(s1.1, m);
                assert(w.1.take(s.1.len() as int) =~= s.1) by {
                    assert forall|k: int| 0 <= k < s.1.len() implies w.1[k] == s.1[k] by {
                        assert(w.1[k] == s1.1[k]);
                        assert(s1.1.take(s.1.len() as int)[k] == s1.1[k]);
                    }
                }
            },
            _ => {
                assert(w.1.take(s.1.len() as int) =~= s.1);
            },
        }
    }
}

proof fn lemma_walk_prefix(block: Seq<PolyExtStep>, i: int, j: int)
    requires
        0 <= i <= j <= block.len(),
    ensures
        lazy_walk(block, j).1.len() >= lazy_walk(block, i).1.len(),
        lazy_walk(block, j).1.take(lazy_walk(block, i).1.len() as int) == lazy_walk(block, i).1,
    decreases j,
{
    if j == i {
        assert(lazy_walk(block, j).1.take(lazy_walk(block, i).1.len() as int) =~= lazy_walk(block, i).1);
    } else {
        lemma_walk_prefix(block, i, j - 1);
        lemma_walk_grows(block, j);
        let a = lazy_walk(block, i).1;
        let b = lazy_walk(block, j - 1).1;
        let c = lazy_walk(block, j).1;
        assert(c.take(a.len() as int) =~= a) by {
            assert forall|k: int| 0 <= k < a.len() implies c[k] == a[k] by {
                assert(c.take(b.len() as int)[k] == c[k]);
                assert(b.take(a.len() as int)[k] == b[k]);
            }
        }
    }
}

/// A lazy walk passes over fp steps without changing its state.
proof fn lemma_walk_skips_fp(o: Seq<PolyExtStep>, lo: int, hi: int)
    requires
        0 <= lo <= hi <= o.len(),
        forall|k: int| lo <= k < hi ==> is_fp_step(#[trigger] o[k]),
    ensures
        lazy_walk(o, hi) == lazy_walk(o, lo),
    decreases hi,
{
    if hi > lo {
        lemma_walk_skips_fp(o, lo, hi - 1);
        assert(is_fp_step(o[hi - 1]));
    }
}

/// Walking the lazy order of `block` again retraces the first walk: after
/// each prefix the first walk emitted, the second holds that prefix with
/// every fp var numbered as itself.
proof fn lemma_mirror_walk(block: Seq<PolyExtStep>, i: int)
    requires
        reorder_valid(block),
        block.len() <= usize::MAX,
        0 <= i <= block.len(),
    ensures
        lazy_walk(lazy_order(block), lazy_walk(block, i).1.len() as int) == mirror(
            fp_steps(lazy_order(block)).len(),
            lazy_walk(block, i).1,
        ),
    decreases i,
{
    let o = lazy_order(block);
    let fo = fp_steps(o);
    let n = fo.len();
    let fs = fp_steps(block);
    lemma_lazy_walk_len(block, block.len() as int);
    assert forall|k: int| 0 <= k < fs.len() implies is_fp_step(#[trigger] fs[k]) by {
        lemma_fp_steps_are_fp(block, k);
    }
    if i == 0 {
        assert(lazy_walk(o, 0).0 =~= id_upto(n, 0));
        assert(lazy_walk(block, 0).1 =~= Seq::<PolyExtStep>::empty());
        assert(lazy_walk(o, 0).1 =~= Seq::<PolyExtStep>::empty());
        assert(fp_count(Seq::<PolyExtStep>::empty()) == 0);
        assert(lazy_walk(o, 0) == mirror(n, lazy_walk(block, 0).1));
    } else {
        lemma_mirror_walk(block, i - 1);
        lemma_walk_grows(block, i - 1);
        lemma_walk_grows(block, i);
        lemma_walk_prefix(block, i, block.len() as int);
        let s = lazy_walk(block, i - 1);
        let w = lazy_walk(block, i);
        assert(o.take(w.1.len() as int) == w.1);
        match block[i - 1] {
            PolyExtStep::True => {
                assert(w.1 == s.1.push(PolyExtStep::True));
                assert(o[s.1.len() as int] == w.1[s.1.len() as int]);
                lemma_fp_steps_push(s.1, PolyExtStep::True);
                let x = lazy_walk(o, s.1.len() as int);
                assert(lazy_walk(o, w.1.len() as int) == (x.0, x.1.push(PolyExtStep::True)));
                assert(lazy_walk(o, w.1.len() as int).0 =~= id_upto(n, fp_count(w.1)));
                assert(lazy_walk(o, w.1.len() as int) == mirror(n, w.1));
            },
            PolyExtStep::AndEqz(_, root) | PolyExtStep::AndCond(_, root, _) => {
                lemma_step_index(block, i - 1);
                let k = mix_count(block.take(i - 1)) as int;
                assert(mix_fp_ref(mix_steps(block)[k]) == Some(root));
                assert(expr_ok(fp_expr(fs, root as int)));
                lemma_emit_spec_grows(fs, s, root as int);
                let s1 = emit_spec(fs, s, root as int);
                let m = w.1.last();
                assert(w.1 == s1.1.push(m));
                assert(o.take(s1.1.len() as int) =~= s1.1) by {
                    assert forall|q: int| 0 <= q < s1.1.len() implies o[q] == s1.1[q] by {
                        assert(o[q] == w.1[q]);
                    }
                }
                lemma_mirror_emit(fs, o, s, root as int);
                assert forall|q: int| s.1.len() <= q < s1.1.len() implies is_fp_step(#[trigger] o[q]) by {
                    assert(o[q] == s1.1[q]);
                }
                lemma_walk_skips_fp(o, s.1.len() as int, s1.1.len() as int);
                assert(o[s1.1.len() as int] == m);
                lemma_fp_steps_push(s1.1, m);
                let r = s1.0[root as int]->Some_0;
                assert(r < fp_count(s1.1));
                let x1 = emit_spec(fo, lazy_walk(o, s1.1.len() as int), r as int);
                assert(x1 == mirror(n, s1.1));
                lemma_steps_prefix(o, s1.1.len() as int);
                lemma_fp_steps_len(o);
                assert(fp_count(s1.1) <= n);
                assert(x1.0[r as int] == Some(r));
                assert(lazy_walk(o, w.1.len() as int).0 =~= id_upto(n, fp_count(w.1)));
                assert(lazy_walk(o, w.1.len() as int) == mirror(n, w.1));
            },
            _ => {
                assert(w == s);
            },
        }
    }
}

/// Reordering lazily is idempotent: the lazy order of a lazy order is
/// itself.
pub proof fn lemma_lazy_order_idempotent(block: Seq<PolyExtStep>)
    requires
        reorder_valid(block),
        block.len() <= usize::MAX,
    ensures
        lazy_order(lazy_order(block)) == lazy_order(block),
{
    lemma_mirror_walk(block, block.len() as int);
}

} // verus!
