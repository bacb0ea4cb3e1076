//! The shader of one chunk of a split check polynomial: the fp values its
//! terms need, each in a reused scratch slot, then the chunk's terms summed
//! into the check buffer.

use vstd::prelude::*;
use super::tape::{EvalCheckError, EvalCheckFpOp, EvalCheckTap};
use super::program::{EvalCheckProgram, EvalCheckTerm, TermSpec, terms_spec, eval_check_needed_fp_vars, fp_deps, fp_reachable, term_roots, term_seeds, term_seed, needed_vars_spec, dep_closed};
use super::slotted::{EVAL_CHECK_WGSL_PREFIX, fp_set, fp_decls, push_num, push_fp_decls};
use super::interpreter::WEBGPU_EVAL_CHECK_MAX_FP_SLOTS;
use super::unrolled::{tap_row_line, tap_read_text, global_read_text, bin_text};
use super::powers::{INV_RATE, ext_const_text};
use crate::field::mont_encode;
use crate::text::decimal;
use super::slots::{
    SlotBank, ascending, bank_define, bank_skip, bank_release_all, bank_inv, bank_ok, empty_bank, live_after,
    lemma_define, lemma_skip, lemma_release_all, EvalCheckSlotAllocator, eval_check_fp_slot, pool_take,
    eval_check_note_last,
};

verus! {

/// `a` (ascending, no repeats) with `x` added in order, unless present.
pub open spec fn asc_insert(a: Seq<usize>, x: usize) -> Seq<usize>
    decreases a.len(),
{
    if a.len() == 0 {
        seq![x]
    } else if x == a[0] {
        a
    } else if x < a[0] {
        seq![x] + a
    } else {
        seq![a[0]] + asc_insert(a.skip(1), x)
    }
}

/// The values of `xs` in ascending order, each once.
pub open spec fn asc_set(xs: Seq<usize>) -> Seq<usize>
    decreases xs.len(),
{
    if xs.len() == 0 {
        Seq::empty()
    } else {
        asc_insert(asc_set(xs.drop_last()), xs.last())
    }
}

/// Strictly ascending.
pub open spec fn strictly_ascending(a: Seq<usize>) -> bool {
    forall|i: int, j: int| 0 <= i < j < a.len() ==> a[i] < a[j]
}

proof fn lemma_asc_insert(a: Seq<usize>, x: usize)
    requires
        strictly_ascending(a),
    ensures
        strictly_ascending(asc_insert(a, x)),
        forall|y: usize| #[trigger] asc_insert(a, x).contains(y) <==> (a.contains(y) || y == x),
    decreases a.len(),
{
    let r = asc_insert(a, x);
    if a.len() == 0 {
        assert(r[0] == x);
    } else if x == a[0] {
        assert(a[0] == x);
    } else if x < a[0] {
        assert forall|y: usize| r.contains(y) <==> (a.contains(y) || y == x) by {
            if r.contains(y) {
                let i = choose|i: int| 0 <= i < r.len() && r[i] == y;
                if i > 0 {
                    assert(a[i - 1] == y);
                }
            }
            if a.contains(y) {
                let i = choose|i: int| 0 <= i < a.len() && a[i] == y;
                assert(r[i + 1] == y);
            }
            if y == x {
                assert(r[0] == y);
            }
        }
    } else {
        let t = a.skip(1);
        assert(strictly_ascending(t)) by {
            assert forall|i: int, j: int| 0 <= i < j < t.len() implies t[i] < t[j] by {
                assert(t[i] == a[i + 1] && t[j] == a[j + 1]);
            }
        }
        lemma_asc_insert(t, x);
        let ti = asc_insert(t, x);
        assert(r == seq![a[0]] + ti);
        assert forall|y: usize| ti.contains(y) implies y > a[0] by {
            let i = choose|i: int| 0 <= i < ti.len() && ti[i] == y;
            if y != x {
                assert(t.contains(y));
                let k = choose|k: int| 0 <= k < t.len() && t[k] == y;
                assert(a[k + 1] == y);
            }
        }
        assert forall|i: int, j: int| 0 <= i < j < r.len() implies r[i] < r[j] by {
            if i == 0 {
                assert(r[j] == ti[j - 1]);
                assert(ti.contains(ti[j - 1]));
            } else {
                assert(r[i] == ti[i - 1] && r[j] == ti[j - 1]);
            }
        }
        assert forall|y: usize| r.contains(y) <==> (a.contains(y) || y == x) by {
            let in_ti = ti.contains(y);
            assert(in_ti <==> (t.contains(y) || y == x));
            if r.contains(y) {
                let i = choose|i: int| 0 <= i < r.len() && r[i] == y;
                if i > 0 {
                    assert(ti[i - 1] == y);
                    assert(in_ti);
                    if y != x {
                        assert(t.contains(y));
                        let k = choose|k: int| 0 <= k < t.len() && t[k] == y;
                        assert(a[k + 1] == y);
                    }
                } else {
                    assert(a[0] == y);
                }
            }
            if a.contains(y) {
                let i = choose|i: int| 0 <= i < a.len() && a[i] == y;
                if i == 0 {
                    assert(r[0] == y);
                } else {
                    assert(t[i - 1] == y);
                    assert(t.contains(y));
                    assert(in_ti);
                    let k = choose|k: int| 0 <= k < ti.len() && ti[k] == y;
                    assert(r[k + 1] == y);
                }
            }
            if y == x {
                assert(in_ti);
                let k = choose|k: int| 0 <= k < ti.len() && ti[k] == y;
                assert(r[k + 1] == y);
            }
        }
    }
}

pub(crate) proof fn lemma_asc_set(xs: Seq<usize>)
    ensures
        strictly_ascending(asc_set(xs)),
        forall|y: usize| #[trigger] asc_set(xs).contains(y) <==> xs.contains(y),
    decreases xs.len(),
{
    if xs.len() > 0 {
        let d = xs.drop_last();
        lemma_asc_set(d);
        lemma_asc_insert(asc_set(d), xs.last());
        assert forall|y: usize| asc_set(xs).contains(y) <==> xs.contains(y) by {
            if d.contains(y) {
                let i = choose|i: int| 0 <= i < d.len() && d[i] == y;
                assert(xs[i] == y);
            }
            if y == xs.last() {
                assert(xs[xs.len() - 1] == y);
            }
            if xs.contains(y) {
                let i = choose|i: int| 0 <= i < xs.len() && xs[i] == y;
                if i < xs.len() - 1 {
                    assert(d[i] == y);
                }
            }
        }
    }
}

/// Adds `x` to the ascending list `a` in order, unless present.
fn asc_insert_exec(a: &mut Vec<usize>, x: usize)
    requires
        strictly_ascending(old(a)@),
    ensures
        final(a)@ == asc_insert(old(a)@, x),
{
    let ghost a0 = a@;
    let mut i: usize = 0;
    assert(a0.skip(0) =~= a0);
    assert(a0.take(0) + asc_insert(a0, x) =~= asc_insert(a0, x));
    while i < a.len() && a[i] < x
        invariant
            a@ == a0,
            i <= a@.len(),
            strictly_ascending(a0),
            asc_insert(a0, x) == a0.take(i as int) + asc_insert(a0.skip(i as int), x),
        decreases a@.len() - i,
    {
        proof {
            let t = a0.skip(i as int);
            assert(t[0] == a0[i as int]);
            assert(t.skip(1) =~= a0.skip(i + 1));
            assert(a0.take(i + 1) =~= a0.take(i as int) + seq![a0[i as int]]);
        }
        i = i + 1;
    }
    proof {
        assert(a0.skip(i as int).len() == 0 ==> a0.skip(i as int) =~= Seq::<usize>::empty());
    }
    if i < a.len() && a[i] == x {
        assert(a0.take(i as int) + a0.skip(i as int) =~= a0);
        return;
    }
    a.insert(i, x);
    assert(a@ =~= a0.take(i as int) + asc_insert(a0.skip(i as int), x));
}

/// The values of `xs` in ascending order, each once.
pub(crate) fn asc_set_exec(xs: &Vec<usize>) -> (r: Vec<usize>)
    ensures
        r@ == asc_set(xs@),
{
    let mut r: Vec<usize> = Vec::new();
    let mut i: usize = 0;
    assert(xs@.take(0) =~= Seq::<usize>::empty());
    while i < xs.len()
        invariant
            i <= xs@.len(),
            r@ == asc_set(xs@.take(i as int)),
        decreases xs@.len() - i,
    {
        proof {
            lemma_asc_set(xs@.take(i as int));
            assert(xs@.take(i + 1).drop_last() =~= xs@.take(i as int));
        }
        asc_insert_exec(&mut r, xs[i]);
        i = i + 1;
    }
    assert(xs@.take(xs@.len() as int) =~= xs@);
    r
}

/// The fp vars fp op `op` reads, ascending and each once.
pub open spec fn op_reads(op: EvalCheckFpOp) -> Seq<usize> {
    match op {
        EvalCheckFpOp::Add(l, r) | EvalCheckFpOp::Sub(l, r) | EvalCheckFpOp::Mul(l, r) => ascending(l, r),
        _ => Seq::empty(),
    }
}

/// The fp vars term `t` reads (its inner value and conditions), ascending
/// and each once.
pub open spec fn term_reads(t: TermSpec) -> Seq<usize> {
    asc_set(seq![t.2] + t.1)
}

/// The fp vars position `q` of a chunk reads: position `q < v.len()`
/// computes fp var `v[q]`; the positions after them evaluate the terms.
pub open spec fn pos_reads(fp: Seq<EvalCheckFpOp>, ts: Seq<TermSpec>, v: Seq<usize>, q: int) -> Seq<usize> {
    if q < v.len() {
        op_reads(fp[v[q] as int])
    } else {
        term_reads(ts[q - v.len()])
    }
}

/// The last position before `q` that reads fp var `x`.
pub open spec fn last_pos_read(fp: Seq<EvalCheckFpOp>, ts: Seq<TermSpec>, v: Seq<usize>, x: usize, q: int) -> Option<
    usize,
>
    decreases q,
{
    if q <= 0 {
        None
    } else if pos_reads(fp, ts, v, q - 1).contains(x) {
        Some((q - 1) as usize)
    } else {
        last_pos_read(fp, ts, v, x, q - 1)
    }
}

/// For each fp var of the program, the last position of the chunk that
/// reads it.
pub open spec fn split_last(fp: Seq<EvalCheckFpOp>, ts: Seq<TermSpec>, v: Seq<usize>) -> Seq<Option<usize>> {
    Seq::new(fp.len(), |x: int| last_pos_read(fp, ts, v, x as usize, (v.len() + ts.len()) as int))
}

/// `b` with vars that take no slot here appended until it has `n` vars.
pub open spec fn skip_to(b: SlotBank, n: nat, k: usize) -> SlotBank
    decreases n,
{
    if b.live.len() >= n || n == 0 {
        b
    } else {
        bank_skip(skip_to(b, (n - 1) as nat, k), k)
    }
}

/// Position `q` on the slot bank: a computing position skips the fp vars
/// the chunk does not need up to its own, defines it, and gives back the
/// slots it read for the last time; a term position only gives back.
pub open spec fn split_step(
    b: SlotBank,
    fp: Seq<EvalCheckFpOp>,
    ts: Seq<TermSpec>,
    v: Seq<usize>,
    last: Seq<Option<usize>>,
    q: int,
) -> SlotBank {
    if q < v.len() {
        let x = v[q];
        let b1 = bank_define(skip_to(b, x as nat, q as usize), q as usize, last[x as int] is Some);
        bank_release_all(b1, op_reads(fp[x as int]), last, q as usize)
    } else {
        bank_release_all(b, term_reads(ts[q - v.len()]), last, q as usize)
    }
}

/// The slot bank after the first `q` positions.
pub open spec fn split_run(
    fp: Seq<EvalCheckFpOp>,
    ts: Seq<TermSpec>,
    v: Seq<usize>,
    last: Seq<Option<usize>>,
    q: int,
) -> SlotBank
    decreases q,
{
    if q <= 0 {
        empty_bank()
    } else {
        split_step(split_run(fp, ts, v, last, q - 1), fp, ts, v, last, q - 1)
    }
}

/// Why computing fp var `x` with op `op` cannot be compiled: a tap or
/// global read the shader cannot do, or an operand not computed before it.
pub open spec fn split_op_error(op: EvalCheckFpOp, x: usize, taps: Seq<EvalCheckTap>) -> Option<EvalCheckError> {
    match op {
        EvalCheckFpOp::Get(t) => if t >= taps.len() {
            Some(EvalCheckError::TapOutOfRange(t))
        } else if taps[t as int].group >= 3 {
            Some(EvalCheckError::TapGroupUnsupported(taps[t as int].group))
        } else {
            None
        },
        EvalCheckFpOp::GetGlobal(arg, _) => if arg >= 2 {
            Some(EvalCheckError::GlobalArgUnsupported(arg))
        } else {
            None
        },
        EvalCheckFpOp::Add(l, r) | EvalCheckFpOp::Sub(l, r) | EvalCheckFpOp::Mul(l, r) => if l >= x {
            Some(EvalCheckError::FpValueReleased(l))
        } else if r >= x {
            Some(EvalCheckError::FpValueReleased(r))
        } else {
            None
        },
        _ => None,
    }
}

/// The first of the first `q` computing positions that cannot be compiled.
pub open spec fn split_ops_error(fp: Seq<EvalCheckFpOp>, v: Seq<usize>, taps: Seq<EvalCheckTap>, q: int) -> Option<
    EvalCheckError,
>
    decreases q,
{
    if q <= 0 {
        None
    } else {
        match split_ops_error(fp, v, taps, q - 1) {
            Some(e) => Some(e),
            None => split_op_error(fp[v[q - 1] as int], v[q - 1], taps),
        }
    }
}

proof fn lemma_last_pos_read(fp: Seq<EvalCheckFpOp>, ts: Seq<TermSpec>, v: Seq<usize>, x: usize, q: int)
    requires
        0 <= q <= usize::MAX,
    ensures
        last_pos_read(fp, ts, v, x, q) matches Some(l) ==> l < q && pos_reads(fp, ts, v, l as int).contains(x),
        forall|p: int|
            0 <= p < q && #[trigger] pos_reads(fp, ts, v, p).contains(x) ==> live_after(last_pos_read(fp, ts, v, x, q), p),
    decreases q,
{
    if q > 0 {
        lemma_last_pos_read(fp, ts, v, x, q - 1);
    }
}

/// The chunk's needed fp vars `v` are fit to compile: ascending, in range,
/// and closed under the reads of their ops and of the terms.
pub open spec fn split_wf(fp: Seq<EvalCheckFpOp>, ts: Seq<TermSpec>, v: Seq<usize>) -> bool {
    &&& strictly_ascending(v)
    &&& forall|p: int| 0 <= p < v.len() ==> #[trigger] v[p] < fp.len()
    &&& forall|p: int, y: usize| 0 <= p < v.len() && #[trigger] op_reads(fp[v[p] as int]).contains(y) ==> v.contains(y)
    &&& forall|t: int, y: usize| 0 <= t < ts.len() && #[trigger] term_reads(ts[t]).contains(y) ==> v.contains(y)
}

/// The ops of the first `q` computing positions read only fp vars computed
/// before them.
pub open spec fn operands_before(fp: Seq<EvalCheckFpOp>, v: Seq<usize>, q: int) -> bool {
    forall|p: int, y: usize| 0 <= p < q && p < v.len() && #[trigger] op_reads(fp[v[p] as int]).contains(y) ==> y < v[p]
}

/// How many fp vars the bank covers after `q` positions.
pub open spec fn covered(v: Seq<usize>, q: int) -> nat {
    let m = if q < v.len() { q } else { v.len() as int };
    if m <= 0 {
        0
    } else {
        (v[m - 1] + 1) as nat
    }
}

/// The bank after `q` positions: its invariant holds, it covers the fp vars
/// up to the last one computed, and exactly the needed ones hold a slot.
pub open spec fn split_inv(fp: Seq<EvalCheckFpOp>, ts: Seq<TermSpec>, v: Seq<usize>, q: int, b: SlotBank) -> bool {
    &&& bank_inv(b, split_last(fp, ts, v), q)
    &&& b.live.len() == covered(v, q)
    &&& forall|x: int| 0 <= x < b.live.len() ==> #[trigger] b.held[x] == v.contains(x as usize)
}

proof fn lemma_skip_to(b: SlotBank, n: nat, k: usize, last: Seq<Option<usize>>)
    requires
        bank_inv(b, last, k as int),
        n <= last.len(),
    ensures
        bank_inv(skip_to(b, n, k), last, k as int),
        skip_to(b, n, k).live.len() == if b.live.len() >= n { b.live.len() } else { n },
        skip_to(b, n, k).pool == b.pool,
        forall|x: int| 0 <= x < b.live.len() ==> #[trigger] skip_to(b, n, k).held[x] == b.held[x],
        forall|x: int| 0 <= x < b.live.len() ==> #[trigger] skip_to(b, n, k).live[x] == b.live[x],
        forall|x: int| 0 <= x < b.live.len() ==> #[trigger] skip_to(b, n, k).at[x] == b.at[x],
        forall|x: int| b.live.len() <= x < skip_to(b, n, k).live.len() ==> !(#[trigger] skip_to(b, n, k).held[x]),
    decreases n,
{
    if !(b.live.len() >= n || n == 0) {
        let m = (n - 1) as nat;
        lemma_skip_to(b, m, k, last);
        let b1 = skip_to(b, m, k);
        lemma_skip(b1, last, k);
        let b2 = bank_skip(b1, k);
        assert forall|x: int| 0 <= x < b.live.len() implies #[trigger] b2.held[x] == b.held[x] && b2.live[x]
            == b.live[x] && b2.at[x] == b.at[x] by {
            assert(b2.held[x] == b1.held[x]);
            assert(b2.live[x] == b1.live[x]);
            assert(b2.at[x] == b1.at[x]);
        }
        assert forall|x: int| b.live.len() <= x < b2.live.len() implies !(#[trigger] b2.held[x]) by {
            if x < b1.live.len() {
                assert(b2.held[x] == b1.held[x]);
            }
        }
    }
}

proof fn lemma_in_ascending(v: Seq<usize>, y: usize, q: int)
    requires
        strictly_ascending(v),
        v.contains(y),
        0 <= q <= v.len(),
        q < v.len() ==> y < v[q],
    ensures
        q > 0 && y <= v[q - 1],
{
    let p = choose|p: int| 0 <= p < v.len() && v[p] == y;
    if q < v.len() {
        if p >= q {
            if p > q {
                assert(v[q] < v[p]);
            }
        }
    }
    if p < q - 1 {
        assert(v[p] < v[q - 1]);
    }
}

#[verifier::rlimit(60)]
proof fn lemma_split_inv(fp: Seq<EvalCheckFpOp>, ts: Seq<TermSpec>, v: Seq<usize>, q: int)
    requires
        split_wf(fp, ts, v),
        operands_before(fp, v, q),
        0 <= q <= v.len() + ts.len(),
        fp.len() + ts.len() + v.len() < usize::MAX,
    ensures
        split_inv(fp, ts, v, q, split_run(fp, ts, v, split_last(fp, ts, v), q)),
    decreases q,
{
    let last = split_last(fp, ts, v);
    let n = v.len() as int;
    if q == 0 {
        assert(split_run(fp, ts, v, last, 0) == empty_bank());
    } else {
        let j = q - 1;
        lemma_split_inv(fp, ts, v, j);
        let r0 = split_run(fp, ts, v, last, j);
        assert(split_run(fp, ts, v, last, q) == split_step(r0, fp, ts, v, last, j));
        if j < n {
            let x = v[j];
            assert(x < fp.len());
            if j > 0 {
                assert(v[j - 1] < v[j]);
            }
            lemma_skip_to(r0, x as nat, j as usize, last);
            let b1 = skip_to(r0, x as nat, j as usize);
            assert forall|y: int| 0 <= y < b1.live.len() implies #[trigger] b1.held[y] == v.contains(y as usize) by {
                if y >= r0.live.len() {
                    if v.contains(y as usize) {
                        lemma_in_ascending(v, y as usize, j);
                    }
                }
            }
            if let Some(l) = last[x as int] {
                lemma_last_pos_read(fp, ts, v, x, n + ts.len());
                if l <= j {
                    assert(op_reads(fp[v[l as int] as int]).contains(x));
                    if l < j {
                        assert(v[l as int] < v[j]);
                    }
                }
            }
            lemma_define(b1, last, j as usize);
            let b2 = bank_define(b1, j as usize, last[x as int] is Some);
            let xs = op_reads(fp[x as int]);
            assert forall|i: int| 0 <= i < xs.len() implies #[trigger] xs[i] < b2.live.len() by {
                assert(xs.contains(xs[i]));
            }
            lemma_release_all(b2, xs, last, j as usize);
            let r1 = split_run(fp, ts, v, last, q);
            assert forall|y: int| 0 <= y < r1.live.len() implies #[trigger] r1.held[y] == v.contains(y as usize) by {
                assert(r1.held[y] == b2.held[y]);
                if y < x {
                    assert(b2.held[y] == b2.held.take(x as int)[y]);
                } else {
                    assert(v[j] == x);
                }
            }
            assert forall|y: int| 0 <= y < r1.live.len() && r1.held[y] && live_after(#[trigger] last[y], q) implies r1.live[y] is Some by {
                assert(live_after(last[y], j));
                assert(r1.held[y] == b2.held[y]);
            }
            assert forall|y: int| 0 <= y < r1.live.len() implies #[trigger] r1.born[y] <= q by {
                assert(r1.born[y] == b2.born[y]);
            }
        } else {
            let xs = term_reads(ts[j - n]);
            lemma_asc_set(seq![ts[j - n].2] + ts[j - n].1);
            assert forall|i: int| 0 <= i < xs.len() implies #[trigger] xs[i] < r0.live.len() by {
                assert(xs.contains(xs[i]));
                lemma_in_ascending(v, xs[i], n);
            }
            lemma_release_all(r0, xs, last, j as usize);
            let r1 = split_run(fp, ts, v, last, q);
            assert forall|y: int| 0 <= y < r1.live.len() implies #[trigger] r1.held[y] == v.contains(y as usize) by {
                assert(r1.held[y] == r0.held[y]);
            }
            assert forall|y: int| 0 <= y < r1.live.len() && r1.held[y] && live_after(#[trigger] last[y], q) implies r1.live[y] is Some by {
                assert(live_after(last[y], j));
                assert(r1.held[y] == r0.held[y]);
            }
            assert forall|y: int| 0 <= y < r1.live.len() implies #[trigger] r1.born[y] <= q by {
                assert(r1.born[y] == r0.born[y]);
            }
        }
    }
}

/// Most fp ops one chunk may compute.
pub const WEBGPU_EVAL_CHECK_MAX_POLY_EXT_STEPS: usize = 4096;

/// The declarations of the running total and the current term.
pub const SPLIT_TOTAL_DECLS: &'static str = "    var total = vec4<u32>(0u, 0u, 0u, 0u);\n    var term: vec4<u32>;\n";

/// The previous check value of the first chunk: zero.
pub const SPLIT_PREV_ZERO: &'static str = "    let prev = vec4<u32>(0u, 0u, 0u, 0u);\n";

/// The previous check value of a later chunk: what the check buffer holds.
pub const SPLIT_PREV_LOAD: &'static str = r#"
    let prev = vec4<u32>(
        check.data[params.check_base + 0u * params.domain + cycle],
        check.data[params.check_base + 1u * params.domain + cycle],
        check.data[params.check_base + 2u * params.domain + cycle],
        check.data[params.check_base + 3u * params.domain + cycle],
    );
"#;

/// Adding the chunk's total, scaled by the zerofier inverse, to the
/// previous check value, and storing the result.
pub const SPLIT_TAIL: &'static str = r#"
    let contribution = ext_mul(total, vec4<u32>(zerofier_inv(cycle), 0u, 0u, 0u));
    let result = ext_add(prev, contribution);
    check.data[params.check_base + 0u * params.domain + cycle] = result.x;
    check.data[params.check_base + 1u * params.domain + cycle] = result.y;
    check.data[params.check_base + 2u * params.domain + cycle] = result.z;
    check.data[params.check_base + 3u * params.domain + cycle] = result.w;
}
"#;

/// The shader lines computing fp var `x` with op `op`, fp vars in slots
/// `at`.
pub open spec fn split_op_text(op: EvalCheckFpOp, x: usize, at: Seq<usize>, taps: Seq<EvalCheckTap>) -> Seq<char> {
    let o = at[x as int] as nat;
    match op {
        EvalCheckFpOp::Const(c) => fp_set(o, "vec4<u32>("@ + decimal(mont_encode(c as int) as nat) + "u, 0u, 0u, 0u)"@),
        EvalCheckFpOp::ConstExt(a, b, c, d) => fp_set(
            o,
            ext_const_text(
                mont_encode(a as int) as nat,
                mont_encode(b as int) as nat,
                mont_encode(c as int) as nat,
                mont_encode(d as int) as nat,
            ),
        ),
        EvalCheckFpOp::Get(t) => tap_row_line(x as nat, (taps[t as int].back * INV_RATE) as nat) + fp_set(
            o,
            tap_read_text(x as nat, taps[t as int].group as nat, taps[t as int].offset as nat),
        ),
        EvalCheckFpOp::GetGlobal(arg, off) => fp_set(o, global_read_text(arg as nat, off as nat)),
        EvalCheckFpOp::Add(l, r) => fp_set(o, bin_text("ext_add"@, at[l as int] as nat, at[r as int] as nat)),
        EvalCheckFpOp::Sub(l, r) => fp_set(o, bin_text("ext_sub"@, at[l as int] as nat, at[r as int] as nat)),
        EvalCheckFpOp::Mul(l, r) => fp_set(o, bin_text("ext_mul"@, at[l as int] as nat, at[r as int] as nat)),
    }
}

/// The lines of the first `q` computing positions.
pub open spec fn split_ops_text(
    fp: Seq<EvalCheckFpOp>,
    v: Seq<usize>,
    at: Seq<usize>,
    taps: Seq<EvalCheckTap>,
    q: int,
) -> Seq<char>
    decreases q,
{
    if q <= 0 {
        Seq::empty()
    } else {
        split_ops_text(fp, v, at, taps, q - 1) + split_op_text(fp[v[q - 1] as int], v[q - 1], at, taps)
    }
}

/// The lines multiplying the current term by each condition in `cs`.
pub open spec fn conds_text(cs: Seq<usize>, at: Seq<usize>) -> Seq<char>
    decreases cs.len(),
{
    if cs.len() == 0 {
        Seq::empty()
    } else {
        conds_text(cs.drop_last(), at) + "    term = ext_mul(term, f"@ + decimal(at[cs.last() as int] as nat) + ");\n"@
    }
}

/// The lines adding term `t` to the total.
pub open spec fn term_text(t: TermSpec, at: Seq<usize>) -> Seq<char> {
    "    term = f"@ + decimal(at[t.2 as int] as nat) + ";\n"@ + conds_text(t.1, at)
        + "    total = ext_add(total, ext_mul(load_mix_pow("@ + decimal(t.0 as nat) + "u), term));\n"@
}

/// The lines of the terms `ts`, in order.
pub open spec fn terms_text(ts: Seq<TermSpec>, at: Seq<usize>) -> Seq<char>
    decreases ts.len(),
{
    if ts.len() == 0 {
        Seq::empty()
    } else {
        terms_text(ts.drop_last(), at) + term_text(ts.last(), at)
    }
}

/// The shader of a chunk computing the needed fp vars `v` of program `fp`
/// and summing terms `ts`, starting from zero (`reset`) or from the check
/// buffer; or why it cannot be built.
pub open spec fn split_shader(
    fp: Seq<EvalCheckFpOp>,
    ts: Seq<TermSpec>,
    v: Seq<usize>,
    taps: Seq<EvalCheckTap>,
    reset: bool,
) -> Result<Seq<char>, EvalCheckError> {
    if v.len() > WEBGPU_EVAL_CHECK_MAX_POLY_EXT_STEPS {
        Err(EvalCheckError::SplitChunkTooLarge { needed: v.len() as usize, max: WEBGPU_EVAL_CHECK_MAX_POLY_EXT_STEPS })
    } else {
        match split_ops_error(fp, v, taps, v.len() as int) {
            Some(e) => Err(e),
            None => {
                let b = split_run(fp, ts, v, split_last(fp, ts, v), (v.len() + ts.len()) as int);
                if b.pool.max > super::interpreter::WEBGPU_EVAL_CHECK_MAX_FP_SLOTS {
                    Err(
                        EvalCheckError::FpSlotsExceeded {
                            needed: b.pool.max,
                            max: super::interpreter::WEBGPU_EVAL_CHECK_MAX_FP_SLOTS,
                        },
                    )
                } else {
                    Ok(
                        EVAL_CHECK_WGSL_PREFIX@ + fp_decls(if b.pool.max > 1 { b.pool.max as nat } else { 1 })
                            + split_ops_text(fp, v, b.at, taps, v.len() as int) + SPLIT_TOTAL_DECLS@ + terms_text(
                            ts,
                            b.at,
                        ) + if reset {
                            SPLIT_PREV_ZERO@
                        } else {
                            SPLIT_PREV_LOAD@
                        } + SPLIT_TAIL@,
                    )
                }
            },
        }
    }
}

proof fn lemma_ascending_unique(a: Seq<usize>, b: Seq<usize>)
    requires
        strictly_ascending(a),
        strictly_ascending(b),
        forall|x: usize| a.contains(x) <==> b.contains(x),
    ensures
        a == b,
    decreases a.len() + b.len(),
{
    if a.len() == 0 || b.len() == 0 {
        if a.len() > 0 {
            assert(a.contains(a[0]));
        }
        if b.len() > 0 {
            assert(b.contains(b[0]));
        }
        assert(a =~= b);
    } else {
        assert(a.contains(a[0]) && b.contains(b[0]));
        let i = choose|i: int| 0 <= i < b.len() && b[i] == a[0];
        let j = choose|j: int| 0 <= j < a.len() && a[j] == b[0];
        if i > 0 {
            assert(b[0] < b[i]);
        }
        if j > 0 {
            assert(a[0] < a[j]);
        }
        assert(a[0] == b[0]);
        let a1 = a.skip(1);
        let b1 = b.skip(1);
        assert(strictly_ascending(a1)) by {
            assert forall|p: int, q: int| 0 <= p < q < a1.len() implies a1[p] < a1[q] by {
                assert(a1[p] == a[p + 1] && a1[q] == a[q + 1]);
            }
        }
        assert(strictly_ascending(b1)) by {
            assert forall|p: int, q: int| 0 <= p < q < b1.len() implies b1[p] < b1[q] by {
                assert(b1[p] == b[p + 1] && b1[q] == b[q + 1]);
            }
        }
        assert forall|x: usize| a1.contains(x) <==> b1.contains(x) by {
            if a1.contains(x) {
                let p = choose|p: int| 0 <= p < a1.len() && a1[p] == x;
                assert(a[p + 1] == x && a.contains(x));
                let q = choose|q: int| 0 <= q < b.len() && b[q] == x;
                assert(a[0] < a[p + 1]);
                if q == 0 {
                    assert(false);
                }
                assert(b1[q - 1] == x);
            }
            if b1.contains(x) {
                let p = choose|p: int| 0 <= p < b1.len() && b1[p] == x;
                assert(b[p + 1] == x && b.contains(x));
                let q = choose|q: int| 0 <= q < a.len() && a[q] == x;
                assert(b[0] < b[p + 1]);
                if q == 0 {
                    assert(false);
                }
                assert(a1[q - 1] == x);
            }
        }
        lemma_ascending_unique(a1, b1);
        assert(a =~= seq![a[0]] + a1);
        assert(b =~= seq![b[0]] + b1);
    }
}

/// The fp vars a chunk of program `fp` with terms `ts` needs, ascending.
pub open spec fn needed_of(fp: Seq<EvalCheckFpOp>, ts: Seq<TermSpec>) -> Seq<usize> {
    choose|v: Seq<usize>| needed_vars_spec(fp, ts, v)
}

/// Every fp var the terms reach exists.
pub open spec fn reach_in_range(fp: Seq<EvalCheckFpOp>, ts: Seq<TermSpec>) -> bool {
    forall|x: int| #[trigger] fp_reachable(fp, term_roots(ts), x) ==> 0 <= x < fp.len()
}

proof fn lemma_seed_in_seeds(ts: Seq<TermSpec>, t: int, y: usize)
    requires
        0 <= t < ts.len(),
        term_seed(ts[t]).contains(y),
    ensures
        term_seeds(ts).contains(y),
    decreases ts.len(),
{
    let d = ts.drop_last();
    let k = choose|k: int| 0 <= k < term_seed(ts[t]).len() && term_seed(ts[t])[k] == y;
    if t == ts.len() - 1 {
        assert(term_seeds(ts)[term_seeds(d).len() + k] == y);
    } else {
        assert(d[t] == ts[t]);
        lemma_seed_in_seeds(d, t, y);
        let m = choose|m: int| 0 <= m < term_seeds(d).len() && term_seeds(d)[m] == y;
        assert(term_seeds(ts)[m] == y);
    }
}

/// The needed vars of a chunk whose reached vars all exist are fit to
/// compile, and are the only ascending list of them.
proof fn lemma_needed_wf(fp: Seq<EvalCheckFpOp>, ts: Seq<TermSpec>, v: Seq<usize>)
    requires
        needed_vars_spec(fp, ts, v),
        reach_in_range(fp, ts),
    ensures
        split_wf(fp, ts, v),
        v == needed_of(fp, ts),
        v.len() <= fp.len(),
{
    let roots = term_roots(ts);
    assert forall|x: usize| #[trigger] v.contains(x) <==> fp_reachable(fp, roots, x as int) by {
        if v.contains(x) {
            let k = choose|k: int| 0 <= k < v.len() && v[k] == x;
            assert(exists|k: int| 0 <= k < v.len() && v[k] == x as int);
        }
        if fp_reachable(fp, roots, x as int) {
            let k = choose|k: int| 0 <= k < v.len() && v[k] == x as int;
            assert(v[k] == x);
        }
    }
    assert forall|p: int| 0 <= p < v.len() implies #[trigger] v[p] < fp.len() by {
        assert(v.contains(v[p]));
    }
    assert forall|p: int, y: usize| 0 <= p < v.len() && #[trigger] op_reads(fp[v[p] as int]).contains(y) implies v.contains(
        y,
    ) by {
        let x = v[p];
        assert(v.contains(x));
        let deps = fp_deps(fp[x as int]);
        let j = if deps.len() > 0 && deps[0] == y { 0int } else { 1int };
        assert(deps[j] == y);
        assert forall|t: Set<int>| #[trigger] dep_closed(fp, t) && roots.subset_of(t) implies t.contains(y as int) by {
            assert(t.contains(x as int));
        }
    }
    assert forall|t: int, y: usize| 0 <= t < ts.len() && #[trigger] term_reads(ts[t]).contains(y) implies v.contains(y) by {
        lemma_asc_set(seq![ts[t].2] + ts[t].1);
        assert(term_seed(ts[t]) == seq![ts[t].2] + ts[t].1);
        lemma_seed_in_seeds(ts, t, y);
        let m = choose|m: int| 0 <= m < term_seeds(ts).len() && term_seeds(ts)[m] == y;
        assert(roots.contains(y as int));
    }
    let w = needed_of(fp, ts);
    assert(needed_vars_spec(fp, ts, w));
    assert forall|x: usize| v.contains(x) <==> w.contains(x) by {
        if w.contains(x) {
            let k = choose|k: int| 0 <= k < w.len() && w[k] == x;
            assert(exists|k: int| 0 <= k < w.len() && w[k] == x as int);
        }
        if fp_reachable(fp, roots, x as int) {
            let k = choose|k: int| 0 <= k < w.len() && w[k] == x as int;
            assert(w[k] == x);
        }
    }
    lemma_ascending_unique(v, w);
    // Distinct values below `fp.len()` number at most `fp.len()`.
    assert(v.len() <= fp.len()) by {
        lemma_ascending_len(v, fp.len() as int);
    }
}

proof fn lemma_ascending_len(v: Seq<usize>, n: int)
    requires
        0 <= n,
        strictly_ascending(v),
        forall|p: int| 0 <= p < v.len() ==> #[trigger] v[p] < n,
    ensures
        v.len() <= n,
    decreases v.len(),
{
    if v.len() > 0 {
        let d = v.drop_last();
        assert(strictly_ascending(d)) by {
            assert forall|p: int, q: int| 0 <= p < q < d.len() implies d[p] < d[q] by {
                assert(d[p] == v[p] && d[q] == v[q]);
            }
        }
        assert forall|p: int| 0 <= p < d.len() implies #[trigger] d[p] < v[v.len() - 1] by {
            assert(d[p] == v[p]);
        }
        lemma_ascending_len(d, v[v.len() - 1] as int);
        assert(v[v.len() - 1] < n);
    }
}

proof fn lemma_skip_to_keeps_at(b: SlotBank, n: nat, k: usize)
    ensures
        skip_to(b, n, k).at.len() >= b.at.len(),
        forall|x: int| 0 <= x < b.at.len() ==> #[trigger] skip_to(b, n, k).at[x] == b.at[x],
    decreases n,
{
    if !(b.live.len() >= n || n == 0) {
        lemma_skip_to_keeps_at(b, (n - 1) as nat, k);
        let b1 = skip_to(b, (n - 1) as nat, k);
        assert forall|x: int| 0 <= x < b.at.len() implies #[trigger] bank_skip(b1, k).at[x] == b.at[x] by {
            assert(bank_skip(b1, k).at[x] == b1.at[x]);
        }
    }
}

proof fn lemma_release_keeps_at(b: SlotBank, xs: Seq<usize>, last: Seq<Option<usize>>, k: usize)
    ensures
        bank_release_all(b, xs, last, k).at == b.at,
    decreases xs.len(),
{
    if xs.len() > 0 {
        lemma_release_keeps_at(b, xs.drop_last(), last, k);
    }
}

proof fn lemma_split_step_keeps_at(
    b: SlotBank,
    fp: Seq<EvalCheckFpOp>,
    ts: Seq<TermSpec>,
    v: Seq<usize>,
    last: Seq<Option<usize>>,
    j: int,
)
    ensures
        split_step(b, fp, ts, v, last, j).at.len() >= b.at.len(),
        forall|x: int| 0 <= x < b.at.len() ==> #[trigger] split_step(b, fp, ts, v, last, j).at[x] == b.at[x],
{
    if j < v.len() {
        let x = v[j];
        lemma_skip_to_keeps_at(b, x as nat, j as usize);
        let b1 = skip_to(b, x as nat, j as usize);
        let b2 = bank_define(b1, j as usize, last[x as int] is Some);
        lemma_release_keeps_at(b2, op_reads(fp[x as int]), last, j as usize);
        assert forall|y: int| 0 <= y < b.at.len() implies #[trigger] b2.at[y] == b.at[y] by {
            assert(b2.at[y] == b1.at[y]);
        }
    } else {
        lemma_release_keeps_at(b, term_reads(ts[j - v.len()]), last, j as usize);
    }
}

/// Slots once given are kept: after more positions every var given a slot
/// before still has the same one.
proof fn lemma_split_at_stable(
    fp: Seq<EvalCheckFpOp>,
    ts: Seq<TermSpec>,
    v: Seq<usize>,
    last: Seq<Option<usize>>,
    q1: int,
    q2: int,
)
    requires
        0 <= q1 <= q2,
    ensures
        split_run(fp, ts, v, last, q2).at.len() >= split_run(fp, ts, v, last, q1).at.len(),
        forall|x: int|
            0 <= x < split_run(fp, ts, v, last, q1).at.len() ==> #[trigger] split_run(fp, ts, v, last, q2).at[x]
                == split_run(fp, ts, v, last, q1).at[x],
    decreases q2,
{
    if q2 > q1 {
        lemma_split_at_stable(fp, ts, v, last, q1, q2 - 1);
        lemma_split_step_keeps_at(split_run(fp, ts, v, last, q2 - 1), fp, ts, v, last, q2 - 1);
    }
}

/// The fp slots of a bank covering `b.live.len()` of `n` fp vars: the
/// uncovered ones hold nothing.
pub open spec fn padded(b: SlotBank, n: nat) -> Seq<Option<usize>> {
    Seq::new(n, |x: int| if x < b.live.len() { b.live[x] } else { None })
}

/// Gives back the slot of each of `xs` whose last use is position `k`.
fn release_padded(
    pool: &mut EvalCheckSlotAllocator,
    slots: &mut Vec<Option<usize>>,
    xs: &Vec<usize>,
    last: &Vec<Option<usize>>,
    k: usize,
    Ghost(b): Ghost<SlotBank>,
)
    requires
        old(pool)@ == b.pool,
        old(slots)@ == padded(b, old(slots)@.len()),
        b.live.len() <= old(slots)@.len(),
        bank_ok(b, last@),
        last@.len() <= usize::MAX,
        forall|i: int, j: int| 0 <= i < j < xs@.len() ==> xs@[i] != xs@[j],
        forall|i: int| 0 <= i < xs@.len() ==> #[trigger] xs@[i] < b.live.len(),
    ensures
        final(pool)@ == bank_release_all(b, xs@, last@, k).pool,
        final(slots)@ == padded(bank_release_all(b, xs@, last@, k), old(slots)@.len()),
{
    let ghost n = slots@.len();
    let mut j: usize = 0;
    assert(xs@.take(0) =~= Seq::<usize>::empty());
    while j < xs.len()
        invariant
            j <= xs@.len(),
            n == slots@.len(),
            b.live.len() <= n,
            bank_ok(b, last@),
            last@.len() <= usize::MAX,
            forall|i: int, m: int| 0 <= i < m < xs@.len() ==> xs@[i] != xs@[m],
            forall|i: int| 0 <= i < xs@.len() ==> #[trigger] xs@[i] < b.live.len(),
            pool@ == bank_release_all(b, xs@.take(j as int), last@, k).pool,
            slots@ == padded(bank_release_all(b, xs@.take(j as int), last@, k), n),
        decreases xs@.len() - j,
    {
        let x = xs[j];
        let ghost pre = xs@.take(j as int);
        proof {
            assert(xs@.take(j + 1).drop_last() =~= pre);
            assert(xs@.take(j + 1).last() == x);
            assert forall|i: int| 0 <= i < pre.len() implies #[trigger] pre[i] < b.live.len() by {
                assert(pre[i] == xs@[i]);
            }
            assert forall|i: int, m: int| 0 <= i < m < pre.len() implies pre[i] != pre[m] by {
                assert(pre[i] == xs@[i] && pre[m] == xs@[m]);
            }
            lemma_release_all(b, pre, last@, k);
        }
        let is_last = match last[x] {
            Some(l) => l == k,
            None => false,
        };
        if is_last {
            match eval_check_fp_slot(slots, x) {
                Ok(slot) => {
                    slots.set(x, None);
                    pool.free(slot);
                },
                Err(_) => {},
            }
        }
        proof {
            assert(slots@ =~= padded(bank_release_all(b, xs@.take(j + 1), last@, k), n));
        }
        j = j + 1;
    }
    assert(xs@.take(xs@.len() as int) =~= xs@);
}

/// Every tap the program's ops read has a back offset whose evaluation-row
/// count fits in `usize`.
pub open spec fn split_taps_fit(fp: Seq<EvalCheckFpOp>, taps: Seq<EvalCheckTap>) -> bool {
    forall|x: int|
        0 <= x < fp.len() ==> match #[trigger] fp[x] {
            EvalCheckFpOp::Get(t) => t < taps.len() ==> taps[t as int].back * INV_RATE <= usize::MAX,
            _ => true,
        }
}

/// Before computing position `q`, an operand of its op below its own var
/// holds its slot, and one at or above it holds nothing yet.
proof fn lemma_split_pos(fp: Seq<EvalCheckFpOp>, ts: Seq<TermSpec>, v: Seq<usize>, q: int)
    requires
        split_wf(fp, ts, v),
        operands_before(fp, v, q),
        0 <= q < v.len(),
        fp.len() + ts.len() + v.len() < usize::MAX,
    ensures
        ({
            let r = split_run(fp, ts, v, split_last(fp, ts, v), q);
            let x = v[q];
            &&& split_inv(fp, ts, v, q, r)
            &&& r.live.len() <= x
            &&& forall|y: usize|
                #[trigger] op_reads(fp[x as int]).contains(y) ==> y < fp.len() && (y >= x ==> padded(r, fp.len())[y as int]
                    is None) && (y < x ==> y < r.live.len() && padded(r, fp.len())[y as int] == Some(r.at[y as int]))
        }),
{
    let last = split_last(fp, ts, v);
    lemma_split_inv(fp, ts, v, q);
    let r = split_run(fp, ts, v, last, q);
    let x = v[q];
    if q > 0 {
        assert(v[q - 1] < v[q]);
    }
    assert forall|y: usize| #[trigger] op_reads(fp[x as int]).contains(y) implies y < fp.len() && (y >= x ==> padded(
        r,
        fp.len(),
    )[y as int] is None) && (y < x ==> y < r.live.len() && padded(r, fp.len())[y as int] == Some(r.at[y as int])) by {
        assert(v.contains(y));
        let p = choose|p: int| 0 <= p < v.len() && v[p] == y;
        assert(v[p] < fp.len());
        if y < x {
            lemma_in_ascending(v, y, q);
            assert(r.held[y as int] == v.contains(y));
            lemma_last_pos_read(fp, ts, v, y, (v.len() + ts.len()) as int);
            assert(pos_reads(fp, ts, v, q).contains(y));
            assert(last[y as int] == last_pos_read(fp, ts, v, y, (v.len() + ts.len()) as int));
            assert(live_after(last[y as int], q));
        }
    }
}

/// The fp vars fp op `op` reads, ascending and each once.
fn op_reads_of(op: EvalCheckFpOp) -> (xs: Vec<usize>)
    ensures
        xs@ == op_reads(op),
{
    let mut xs: Vec<usize> = Vec::new();
    match op {
        EvalCheckFpOp::Add(l, r) | EvalCheckFpOp::Sub(l, r) | EvalCheckFpOp::Mul(l, r) => {
            if l == r {
                xs.push(l);
            } else if l < r {
                xs.push(l);
                xs.push(r);
            } else {
                xs.push(r);
                xs.push(l);
            }
        },
        _ => {},
    }
    assert(xs@ =~= op_reads(op));
    xs
}

/// Computing position `q`, fp var `x` with op `op`: checks its tap or
/// global read and that its operands were computed before it, takes its
/// slot, appends its lines, and gives back the slots it read for the last
/// time.
#[verifier::rlimit(60)]
fn split_op_step(
    op: EvalCheckFpOp,
    x: usize,
    q: usize,
    taps: &[EvalCheckTap],
    last: &Vec<Option<usize>>,
    pool: &mut EvalCheckSlotAllocator,
    fp_slots: &mut Vec<Option<usize>>,
    body: &mut String,
    Ghost(fp): Ghost<Seq<EvalCheckFpOp>>,
    Ghost(ts): Ghost<Seq<TermSpec>>,
    Ghost(v): Ghost<Seq<usize>>,
) -> (res: Result<(), EvalCheckError>)
    requires
        split_wf(fp, ts, v),
        operands_before(fp, v, q as int),
        q < v.len(),
        v[q as int] == x,
        fp[x as int] == op,
        fp.len() + ts.len() + v.len() < usize::MAX,
        split_taps_fit(fp, taps@),
        last@ == split_last(fp, ts, v),
        old(pool)@ == split_run(fp, ts, v, last@, q as int).pool,
        old(fp_slots)@ == padded(split_run(fp, ts, v, last@, q as int), fp.len()),
    ensures
        match split_op_error(op, x, taps@) {
            Some(e) => res is Err && res->Err_0 == e,
            None => {
                let r1 = split_run(fp, ts, v, last@, q + 1);
                &&& res is Ok
                &&& operands_before(fp, v, q + 1)
                &&& final(pool)@ == r1.pool
                &&& final(fp_slots)@ == padded(r1, fp.len())
                &&& final(body)@ == old(body)@ + split_op_text(op, x, r1.at, taps@)
            },
        },
{
    let ghost n = fp.len();
    let ghost r0 = split_run(fp, ts, v, last@, q as int);
    proof {
        lemma_split_pos(fp, ts, v, q as int);
        assert(v[q as int] < fp.len());
        assert(match fp[x as int] {
            EvalCheckFpOp::Get(t) => t < taps@.len() ==> taps@[t as int].back * INV_RATE <= usize::MAX,
            _ => true,
        });
    }
    match op {
        EvalCheckFpOp::Get(t) => {
            if t >= taps.len() {
                return Err(EvalCheckError::TapOutOfRange(t));
            }
            if taps[t].group >= 3 {
                return Err(EvalCheckError::TapGroupUnsupported(taps[t].group));
            }
        },
        EvalCheckFpOp::GetGlobal(arg, _) => {
            if arg >= 2 {
                return Err(EvalCheckError::GlobalArgUnsupported(arg));
            }
        },
        _ => {},
    }
    let (a, b): (usize, usize) = match op {
        EvalCheckFpOp::Add(l, r) | EvalCheckFpOp::Sub(l, r) | EvalCheckFpOp::Mul(l, r) => {
            proof {
                assert(op_reads(op).contains(l) && op_reads(op).contains(r)) by {
                    if l == r {
                        assert(op_reads(op)[0] == l);
                    } else if l < r {
                        assert(op_reads(op)[0] == l && op_reads(op)[1] == r);
                    } else {
                        assert(op_reads(op)[1] == l && op_reads(op)[0] == r);
                    }
                }
            }
            let a = match eval_check_fp_slot(fp_slots, l) {
                Ok(slot) => slot,
                Err(e) => return Err(e),
            };
            let b = match eval_check_fp_slot(fp_slots, r) {
                Ok(slot) => slot,
                Err(e) => return Err(e),
            };
            (a, b)
        },
        _ => (0, 0),
    };
    proof {
        assert forall|p: int, y: usize| 0 <= p < q + 1 && p < v.len() && #[trigger] op_reads(fp[v[p] as int]).contains(
            y,
        ) implies y < v[p] by {
            if p == q {
                if y >= x {
                    assert(padded(r0, n)[y as int] is None);
                }
            }
        }
    }
    let ghost b1 = skip_to(r0, x as nat, q);
    let ghost b2 = bank_define(b1, q, last@[x as int] is Some);
    proof {
        lemma_skip_to(r0, x as nat, q, last@);
        if let Some(l) = last@[x as int] {
            lemma_last_pos_read(fp, ts, v, x, (v.len() + ts.len()) as int);
            if l <= q {
                assert(op_reads(fp[v[l as int] as int]).contains(x));
                if l < q {
                    assert(v[l as int] < v[q as int]);
                }
            }
        }
        lemma_define(b1, last@, q);
    }
    let slot = pool.allocate();
    fp_slots.set(x, Some(slot));
    let keep = match last[x] {
        Some(_) => true,
        None => false,
    };
    if !keep {
        fp_slots.set(x, None);
        pool.free(slot);
    }
    proof {
        assert(fp_slots@ =~= padded(b2, n));
    }
    match op {
        EvalCheckFpOp::Const(c) => super::slotted::push_const_set(body, slot, c),
        EvalCheckFpOp::ConstExt(c0, c1, c2, c3) => super::slotted::push_const_ext_set(body, slot, c0, c1, c2, c3),
        EvalCheckFpOp::Get(t) => super::slotted::push_tap_set(body, slot, x, taps[t]),
        EvalCheckFpOp::GetGlobal(arg, off) => super::slotted::push_global_set(body, slot, arg, off),
        EvalCheckFpOp::Add(_, _) => super::slotted::push_bin_set(body, slot, "ext_add", a, b),
        EvalCheckFpOp::Sub(_, _) => super::slotted::push_bin_set(body, slot, "ext_sub", a, b),
        EvalCheckFpOp::Mul(_, _) => super::slotted::push_bin_set(body, slot, "ext_mul", a, b),
    }
    let xs = op_reads_of(op);
    proof {
        assert forall|i: int| 0 <= i < xs@.len() implies #[trigger] xs@[i] < b2.live.len() by {
            assert(op_reads(op).contains(xs@[i]));
        }
    }
    release_padded(pool, fp_slots, &xs, last, q, Ghost(b2));
    proof {
        lemma_release_keeps_at(b2, xs@, last@, q);
        let r1 = split_run(fp, ts, v, last@, q + 1);
        assert(r1 == split_step(r0, fp, ts, v, last@, q as int));
        assert(r1.at == b2.at);
        assert(b2.at[x as int] == slot);
        assert forall|y: int| 0 <= y < r0.live.len() implies b2.at[y] == r0.at[y] by {
            assert(b1.at[y] == r0.at[y]);
            assert(b2.at[y] == b2.at.take(x as int)[y]);
        }
    }
    Ok(())
}

/// Before evaluating term position `q`, every fp var the term reads holds
/// its slot.
proof fn lemma_split_term_pos(fp: Seq<EvalCheckFpOp>, ts: Seq<TermSpec>, v: Seq<usize>, q: int)
    requires
        split_wf(fp, ts, v),
        operands_before(fp, v, v.len() as int),
        v.len() <= q < v.len() + ts.len(),
        fp.len() + ts.len() + v.len() < usize::MAX,
    ensures
        ({
            let r = split_run(fp, ts, v, split_last(fp, ts, v), q);
            &&& split_inv(fp, ts, v, q, r)
            &&& r.live.len() <= fp.len()
            &&& forall|y: usize|
                #[trigger] term_reads(ts[q - v.len()]).contains(y) ==> y < r.live.len() && padded(r, fp.len())[y as int]
                    == Some(r.at[y as int])
        }),
{
    let last = split_last(fp, ts, v);
    let n = v.len() as int;
    lemma_split_inv(fp, ts, v, q);
    let r = split_run(fp, ts, v, last, q);
    if n > 0 {
        assert(v[n - 1] < fp.len());
    }
    assert forall|y: usize| #[trigger] term_reads(ts[q - v.len()]).contains(y) implies y < r.live.len() && padded(
        r,
        fp.len(),
    )[y as int] == Some(r.at[y as int]) by {
        assert(v.contains(y));
        lemma_in_ascending(v, y, n);
        assert(r.held[y as int] == v.contains(y));
        lemma_last_pos_read(fp, ts, v, y, (v.len() + ts.len()) as int);
        assert(pos_reads(fp, ts, v, q).contains(y));
        assert(live_after(last[y as int], q));
    }
}

/// Appends the lines multiplying the current term by each condition in
/// `cs`, their slots taken from `slots`.
fn push_conds(
    body: &mut String,
    cs: &Vec<usize>,
    slots: &Vec<Option<usize>>,
    Ghost(at): Ghost<Seq<usize>>,
) -> (res: Result<(), EvalCheckError>)
    requires
        forall|i: int| 0 <= i < cs@.len() ==> #[trigger] cs@[i] < slots@.len() && slots@[cs@[i] as int] == Some(
            at[cs@[i] as int],
        ),
    ensures
        res is Ok,
        final(body)@ == old(body)@ + conds_text(cs@, at),
{
    let mut i: usize = 0;
    assert(cs@.take(0) =~= Seq::<usize>::empty());
    while i < cs.len()
        invariant
            i <= cs@.len(),
            forall|k: int| 0 <= k < cs@.len() ==> #[trigger] cs@[k] < slots@.len() && slots@[cs@[k] as int] == Some(
                at[cs@[k] as int],
            ),
            body@ == old(body)@ + conds_text(cs@.take(i as int), at),
        decreases cs@.len() - i,
    {
        let slot = eval_check_fp_slot(slots, cs[i])?;
        body.append("    term = ext_mul(term, f");
        push_num(body, slot);
        body.append(");\n");
        proof {
            reveal_strlit("    term = ext_mul(term, f");
            reveal_strlit(");\n");
            let c = cs@.take(i + 1);
            assert(c.drop_last() =~= cs@.take(i as int));
            assert(c.last() == cs@[i as int]);
        }
        i = i + 1;
    }
    assert(cs@.take(cs@.len() as int) =~= cs@);
    Ok(())
}

/// Evaluating term position `q`, term `term`: appends its lines and gives
/// back the slots it read for the last time.
#[verifier::rlimit(60)]
fn split_term_step(
    term: &EvalCheckTerm,
    q: usize,
    last: &Vec<Option<usize>>,
    pool: &mut EvalCheckSlotAllocator,
    fp_slots: &mut Vec<Option<usize>>,
    body: &mut String,
    Ghost(fp): Ghost<Seq<EvalCheckFpOp>>,
    Ghost(ts): Ghost<Seq<TermSpec>>,
    Ghost(v): Ghost<Seq<usize>>,
) -> (res: Result<(), EvalCheckError>)
    requires
        split_wf(fp, ts, v),
        operands_before(fp, v, v.len() as int),
        v.len() <= q < v.len() + ts.len(),
        ts[q - v.len()] == term.spec(),
        fp.len() + ts.len() + v.len() < usize::MAX,
        last@ == split_last(fp, ts, v),
        old(pool)@ == split_run(fp, ts, v, last@, q as int).pool,
        old(fp_slots)@ == padded(split_run(fp, ts, v, last@, q as int), fp.len()),
    ensures
        ({
            let r1 = split_run(fp, ts, v, last@, q + 1);
            &&& res is Ok
            &&& final(pool)@ == r1.pool
            &&& final(fp_slots)@ == padded(r1, fp.len())
            &&& final(body)@ == old(body)@ + term_text(term.spec(), r1.at)
        }),
{
    let ghost n = fp.len();
    let ghost r0 = split_run(fp, ts, v, last@, q as int);
    let ghost t = term.spec();
    proof {
        lemma_split_term_pos(fp, ts, v, q as int);
        lemma_asc_set(seq![t.2] + t.1);
        assert((seq![t.2] + t.1).contains(t.2)) by {
            assert((seq![t.2] + t.1)[0] == t.2);
        }
        assert forall|i: int| 0 <= i < term.conds@.len() implies #[trigger] term.conds@[i] < fp_slots@.len()
            && fp_slots@[term.conds@[i] as int] == Some(r0.at[term.conds@[i] as int]) by {
            assert((seq![t.2] + t.1)[i + 1] == term.conds@[i]);
            assert((seq![t.2] + t.1).contains(term.conds@[i]));
            assert(term_reads(ts[q - v.len()]).contains(term.conds@[i]));
        }
        assert(term_reads(ts[q - v.len()]).contains(term.inner));
    }
    let ghost body0 = body@;
    let inner_slot = eval_check_fp_slot(fp_slots, term.inner)?;
    body.append("    term = f");
    push_num(body, inner_slot);
    body.append(";\n");
    push_conds(body, &term.conds, fp_slots, Ghost(r0.at))?;
    body.append("    total = ext_add(total, ext_mul(load_mix_pow(");
    push_num(body, term.mix_exp);
    body.append("u), term));\n");
    let mut used: Vec<usize> = Vec::new();
    used.push(term.inner);
    let mut i: usize = 0;
    while i < term.conds.len()
        invariant
            i <= term.conds@.len(),
            used@ == seq![term.inner] + term.conds@.take(i as int),
        decreases term.conds@.len() - i,
    {
        used.push(term.conds[i]);
        proof {
            assert(term.conds@.take(i + 1) =~= term.conds@.take(i as int).push(term.conds@[i as int]));
        }
        i = i + 1;
    }
    assert(term.conds@.take(term.conds@.len() as int) =~= term.conds@);
    let xs = asc_set_exec(&used);
    proof {
        assert(xs@ == term_reads(ts[q - v.len()]));
        assert forall|i: int, j: int| 0 <= i < j < xs@.len() implies xs@[i] != xs@[j] by {
            assert(xs@[i] < xs@[j]);
        }
        assert forall|i: int| 0 <= i < xs@.len() implies #[trigger] xs@[i] < r0.live.len() by {
            assert(xs@.contains(xs@[i]));
        }
    }
    release_padded(pool, fp_slots, &xs, last, q, Ghost(r0));
    proof {
        reveal_strlit("    term = f");
        reveal_strlit(";\n");
        reveal_strlit("    total = ext_add(total, ext_mul(load_mix_pow(");
        reveal_strlit("u), term));\n");
        lemma_release_keeps_at(r0, xs@, last@, q);
        let r1 = split_run(fp, ts, v, last@, q + 1);
        assert(r1 == split_step(r0, fp, ts, v, last@, q as int));
        assert(r1.at == r0.at);
        assert(body@ =~= body0 + term_text(t, r1.at));
    }
    Ok(())
}

/// Records position `q` as the last read of each of `xs`.
fn note_all(last: &mut Vec<Option<usize>>, xs: &Vec<usize>, q: usize)
    ensures
        final(last)@ == Seq::new(
            old(last)@.len(),
            |x: int| if xs@.contains(x as usize) { Some(q) } else { old(last)@[x] },
        ),
{
    let ghost l0 = last@;
    let n0: usize = last.len();
    let mut i: usize = 0;
    assert(last@ =~= Seq::new(
        l0.len(),
        |x: int| if xs@.take(0).contains(x as usize) { Some(q) } else { l0[x] },
    ));
    while i < xs.len()
        invariant
            i <= xs@.len(),
            l0.len() == n0,
            last@ == Seq::new(l0.len(), |x: int| if xs@.take(i as int).contains(x as usize) { Some(q) } else { l0[x] }),
        decreases xs@.len() - i,
    {
        let ghost prev = last@;
        eval_check_note_last(last, xs[i], q);
        proof {
            let t = xs@.take(i + 1);
            assert forall|y: usize| t.contains(y) <==> (xs@.take(i as int).contains(y) || y == xs@[i as int]) by {
                if t.contains(y) {
                    let k = choose|k: int| 0 <= k < t.len() && t[k] == y;
                    if k < i {
                        assert(xs@.take(i as int)[k] == y);
                    }
                }
                if xs@.take(i as int).contains(y) {
                    let k = choose|k: int| 0 <= k < i && xs@.take(i as int)[k] == y;
                    assert(t[k] == y);
                }
                if y == xs@[i as int] {
                    assert(t[i as int] == y);
                }
            }
            assert forall|x: int| 0 <= x < l0.len() implies #[trigger] last@[x] == (if t.contains(x as usize) {
                Some(q)
            } else {
                l0[x]
            }) by {
                assert(prev[x] == (if xs@.take(i as int).contains(x as usize) { Some(q) } else { l0[x] }));
                if x == xs@[i as int] as int {
                    assert(t.contains(x as usize));
                } else {
                    assert(last@[x] == prev[x]);
                }
            }
            assert(last@ =~= Seq::new(l0.len(), |x: int| if t.contains(x as usize) { Some(q) } else { l0[x] }));
        }
        i = i + 1;
    }
    assert(xs@.take(xs@.len() as int) =~= xs@);
}

/// The fp vars term `term` names: its inner value, then its conditions.
fn term_seed_of(term: &EvalCheckTerm) -> (xs: Vec<usize>)
    ensures
        xs@ == seq![term.inner] + term.conds@,
{
    let mut xs: Vec<usize> = Vec::new();
    xs.push(term.inner);
    let mut i: usize = 0;
    while i < term.conds.len()
        invariant
            i <= term.conds@.len(),
            xs@ == seq![term.inner] + term.conds@.take(i as int),
        decreases term.conds@.len() - i,
    {
        xs.push(term.conds[i]);
        proof {
            assert(term.conds@.take(i + 1) =~= term.conds@.take(i as int).push(term.conds@[i as int]));
        }
        i = i + 1;
    }
    assert(term.conds@.take(term.conds@.len() as int) =~= term.conds@);
    xs
}

/// For each fp var of the program, the last position of the chunk that
/// reads it.
fn split_last_uses(
    fp_ops: &Vec<EvalCheckFpOp>,
    terms: &[EvalCheckTerm],
    needed: &Vec<usize>,
) -> (last: Vec<Option<usize>>)
    requires
        split_wf(fp_ops@, terms_spec(terms@), needed@),
        fp_ops@.len() + terms@.len() + needed@.len() < usize::MAX,
    ensures
        last@ == split_last(fp_ops@, terms_spec(terms@), needed@),
{
    let ghost fp = fp_ops@;
    let ghost ts = terms_spec(terms@);
    let ghost v = needed@;
    let mut last: Vec<Option<usize>> = Vec::new();
    while last.len() < fp_ops.len()
        invariant
            last@.len() <= fp.len(),
            fp == fp_ops@,
            forall|x: int| 0 <= x < last@.len() ==> last@[x] is None,
        decreases fp.len() - last@.len(),
    {
        last.push(None);
    }
    assert(last@ =~= Seq::new(fp.len(), |x: int| last_pos_read(fp, ts, v, x as usize, 0)));
    let mut q: usize = 0;
    while q < needed.len()
        invariant
            q <= v.len(),
            fp == fp_ops@,
            ts == terms_spec(terms@),
            v == needed@,
            split_wf(fp, ts, v),
            last@ == Seq::new(fp.len(), |x: int| last_pos_read(fp, ts, v, x as usize, q as int)),
        decreases v.len() - q,
    {
        let xs = op_reads_of(fp_ops[needed[q]]);
        note_all(&mut last, &xs, q);
        proof {
            assert(v[q as int] < fp.len());
            assert(last@ =~= Seq::new(fp.len(), |x: int| last_pos_read(fp, ts, v, x as usize, q + 1)));
        }
        q = q + 1;
    }
    let mut t: usize = 0;
    while t < terms.len()
        invariant
            t <= ts.len(),
            q == v.len(),
            fp == fp_ops@,
            ts == terms_spec(terms@),
            v == needed@,
            fp.len() + ts.len() + v.len() < usize::MAX,
            last@ == Seq::new(fp.len(), |x: int| last_pos_read(fp, ts, v, x as usize, q + t)),
        decreases ts.len() - t,
    {
        let seed = term_seed_of(&terms[t]);
        note_all(&mut last, &seed, q + t);
        proof {
            let tt = ts[t as int];
            assert(tt == terms@[t as int].spec());
            lemma_asc_set(seq![tt.2] + tt.1);
            assert forall|x: int| 0 <= x < fp.len() implies #[trigger] last@[x] == last_pos_read(
                fp,
                ts,
                v,
                x as usize,
                q + t + 1,
            ) by {
                assert(pos_reads(fp, ts, v, q + t) == term_reads(tt));
            }
            assert(last@ =~= Seq::new(fp.len(), |x: int| last_pos_read(fp, ts, v, x as usize, q + t + 1)));
        }
        t = t + 1;
    }
    last
}

/// The lines of the first `q` computing positions depend only on the slots
/// of the fp vars computed there.
proof fn lemma_ops_text_stable(
    fp: Seq<EvalCheckFpOp>,
    v: Seq<usize>,
    a0: Seq<usize>,
    a1: Seq<usize>,
    taps: Seq<EvalCheckTap>,
    q: int,
)
    requires
        0 <= q <= v.len(),
        operands_before(fp, v, q),
        a0.len() <= a1.len(),
        forall|i: int| 0 <= i < a0.len() ==> #[trigger] a1[i] == a0[i],
        forall|p: int| 0 <= p < q ==> #[trigger] v[p] < a0.len(),
    ensures
        split_ops_text(fp, v, a0, taps, q) == split_ops_text(fp, v, a1, taps, q),
    decreases q,
{
    if q > 0 {
        lemma_ops_text_stable(fp, v, a0, a1, taps, q - 1);
        let x = v[q - 1];
        match fp[x as int] {
            EvalCheckFpOp::Add(l, r) | EvalCheckFpOp::Sub(l, r) | EvalCheckFpOp::Mul(l, r) => {
                let rd = op_reads(fp[x as int]);
                if l == r {
                    assert(rd[0] == l);
                } else if l < r {
                    assert(rd[0] == l && rd[1] == r);
                } else {
                    assert(rd[1] == l && rd[0] == r);
                }
                assert(rd.contains(l) && rd.contains(r));
            },
            _ => {},
        }
    }
}

/// Once a computing position fails, the first failure stays the same.
proof fn lemma_ops_error_sticks(fp: Seq<EvalCheckFpOp>, v: Seq<usize>, taps: Seq<EvalCheckTap>, q: int, m: int)
    requires
        0 <= q <= m,
        split_ops_error(fp, v, taps, q) is Some,
    ensures
        split_ops_error(fp, v, taps, m) == split_ops_error(fp, v, taps, q),
    decreases m,
{
    if m > q {
        lemma_ops_error_sticks(fp, v, taps, q, m - 1);
    }
}

/// Computing position `q` keeps the lines of the positions before it.
proof fn lemma_ops_text_step(
    fp: Seq<EvalCheckFpOp>,
    ts: Seq<TermSpec>,
    v: Seq<usize>,
    taps: Seq<EvalCheckTap>,
    q: int,
)
    requires
        split_wf(fp, ts, v),
        operands_before(fp, v, q),
        0 <= q < v.len(),
        fp.len() + ts.len() + v.len() < usize::MAX,
    ensures
        ({
            let last = split_last(fp, ts, v);
            split_ops_text(fp, v, split_run(fp, ts, v, last, q).at, taps, q) == split_ops_text(
                fp,
                v,
                split_run(fp, ts, v, last, q + 1).at,
                taps,
                q,
            )
        }),
{
    let last = split_last(fp, ts, v);
    lemma_split_inv(fp, ts, v, q);
    let r0 = split_run(fp, ts, v, last, q);
    let r1 = split_run(fp, ts, v, last, q + 1);
    lemma_split_at_stable(fp, ts, v, last, q, q + 1);
    assert forall|p: int| 0 <= p < q implies #[trigger] v[p] < r0.at.len() by {
        if p < q - 1 {
            assert(v[p] < v[q - 1]);
        }
    }
    lemma_ops_text_stable(fp, v, r0.at, r1.at, taps, q);
}

/// The shader of one chunk of a split check polynomial: the fp values the
/// chunk's terms need, computed in ascending order into reused scratch
/// slots, then each term (inner value times its conditions, scaled by its
/// mix power) added to a running total, which is scaled by the zerofier
/// inverse and added to the previous check value (zero for the first chunk,
/// `reset_check`). Fails when the terms reach an fp var that does not exist,
/// when the chunk needs too many fp ops, when an op cannot be compiled, or
/// when it needs too many fp slots.
#[verifier::rlimit(80)]
pub fn build_eval_check_split_wgsl(
    taps: &[EvalCheckTap],
    program: &EvalCheckProgram,
    terms: &[EvalCheckTerm],
    reset_check: bool,
) -> (res: Result<String, EvalCheckError>)
    requires
        split_taps_fit(program.fp_ops@, taps@),
        2 * program.fp_ops@.len() + terms@.len() < usize::MAX,
    ensures
        !reach_in_range(program.fp_ops@, terms_spec(terms@)) ==> res is Err && res->Err_0 is FpVarOutOfRange
            && res->Err_0->FpVarOutOfRange_0 >= program.fp_ops@.len() && fp_reachable(
            program.fp_ops@,
            term_roots(terms_spec(terms@)),
            res->Err_0->FpVarOutOfRange_0 as int,
        ),
        reach_in_range(program.fp_ops@, terms_spec(terms@)) ==> match split_shader(
            program.fp_ops@,
            terms_spec(terms@),
            needed_of(program.fp_ops@, terms_spec(terms@)),
            taps@,
            reset_check,
        ) {
            Ok(text) => res is Ok && res->Ok_0@ == text,
            Err(e) => res == Err::<String, EvalCheckError>(e),
        },
{
    let ghost fp = program.fp_ops@;
    let ghost ts = terms_spec(terms@);
    let needed = match eval_check_needed_fp_vars(program, terms) {
        Ok(v) => v,
        Err(e) => return Err(e),
    };
    let ghost v = needed@;
    proof {
        lemma_needed_wf(fp, ts, v);
    }
    if needed.len() > WEBGPU_EVAL_CHECK_MAX_POLY_EXT_STEPS {
        return Err(
            EvalCheckError::SplitChunkTooLarge { needed: needed.len(), max: WEBGPU_EVAL_CHECK_MAX_POLY_EXT_STEPS },
        );
    }
    let last = split_last_uses(&program.fp_ops, terms, &needed);
    let mut pool = EvalCheckSlotAllocator::default();
    let mut fp_slots: Vec<Option<usize>> = Vec::new();
    while fp_slots.len() < program.fp_ops.len()
        invariant
            fp == program.fp_ops@,
            fp_slots@.len() <= fp.len(),
            forall|x: int| 0 <= x < fp_slots@.len() ==> fp_slots@[x] is None,
        decreases fp.len() - fp_slots@.len(),
    {
        fp_slots.push(None);
    }
    proof {
        assert(split_run(fp, ts, v, last@, 0) == empty_bank());
        assert(fp_slots@ =~= padded(empty_bank(), fp.len()));
    }
    let mut body = String::new();
    let mut q: usize = 0;
    while q < needed.len()
        invariant
            q <= v.len(),
            fp == program.fp_ops@,
            ts == terms_spec(terms@),
            v == needed@,
            split_wf(fp, ts, v),
            reach_in_range(fp, ts),
            v == needed_of(fp, ts),
            v.len() <= fp.len(),
            v.len() <= WEBGPU_EVAL_CHECK_MAX_POLY_EXT_STEPS,
            fp.len() + ts.len() + v.len() < usize::MAX,
            split_taps_fit(fp, taps@),
            last@ == split_last(fp, ts, v),
            operands_before(fp, v, q as int),
            split_ops_error(fp, v, taps@, q as int) is None,
            pool@ == split_run(fp, ts, v, last@, q as int).pool,
            fp_slots@ == padded(split_run(fp, ts, v, last@, q as int), fp.len()),
            body@ == split_ops_text(fp, v, split_run(fp, ts, v, last@, q as int).at, taps@, q as int),
        decreases v.len() - q,
    {
        let x = needed[q];
        proof {
            assert(v[q as int] < fp.len());
        }
        match split_op_step(
            program.fp_ops[x],
            x,
            q,
            taps,
            &last,
            &mut pool,
            &mut fp_slots,
            &mut body,
            Ghost(fp),
            Ghost(ts),
            Ghost(v),
        ) {
            Ok(()) => {},
            Err(e) => {
                proof {
                    lemma_ops_error_sticks(fp, v, taps@, q + 1, v.len() as int);
                }
                return Err(e);
            },
        }
        proof {
            lemma_ops_text_step(fp, ts, v, taps@, q as int);
        }
        q = q + 1;
    }
    let n = needed.len();
    let ghost rn = split_run(fp, ts, v, last@, n as int);
    let ghost ops_text = body@;
    body.append(SPLIT_TOTAL_DECLS);
    let mut t: usize = 0;
    assert(ts.take(0) =~= Seq::<TermSpec>::empty());
    while t < terms.len()
        invariant
            t <= ts.len(),
            n == v.len(),
            fp == program.fp_ops@,
            ts == terms_spec(terms@),
            v == needed@,
            split_wf(fp, ts, v),
            reach_in_range(fp, ts),
            v == needed_of(fp, ts),
            fp.len() + ts.len() + v.len() < usize::MAX,
            last@ == split_last(fp, ts, v),
            operands_before(fp, v, v.len() as int),
            rn == split_run(fp, ts, v, last@, n as int),
            split_run(fp, ts, v, last@, n + t).at == rn.at,
            pool@ == split_run(fp, ts, v, last@, n + t).pool,
            fp_slots@ == padded(split_run(fp, ts, v, last@, n + t), fp.len()),
            body@ == ops_text + SPLIT_TOTAL_DECLS@ + terms_text(ts.take(t as int), rn.at),
        decreases ts.len() - t,
    {
        let ghost r0 = split_run(fp, ts, v, last@, n + t);
        proof {
            assert(ts[t as int] == terms@[t as int].spec());
        }
        split_term_step(
            &terms[t],
            n + t,
            &last,
            &mut pool,
            &mut fp_slots,
            &mut body,
            Ghost(fp),
            Ghost(ts),
            Ghost(v),
        )?;
        proof {
            let r1 = split_run(fp, ts, v, last@, n + t + 1);
            assert(r1 == split_step(r0, fp, ts, v, last@, n + t));
            lemma_release_keeps_at(r0, term_reads(ts[t as int]), last@, (n + t) as usize);
            assert(ts.take(t + 1).drop_last() =~= ts.take(t as int));
            assert(ts.take(t + 1).last() == ts[t as int]);
        }
        t = t + 1;
    }
    proof {
        assert(ts.take(ts.len() as int) =~= ts);
    }
    let fp_used = pool.max_used();
    if fp_used > WEBGPU_EVAL_CHECK_MAX_FP_SLOTS {
        return Err(EvalCheckError::FpSlotsExceeded { needed: fp_used, max: WEBGPU_EVAL_CHECK_MAX_FP_SLOTS });
    }
    let mut wgsl = String::from_str(EVAL_CHECK_WGSL_PREFIX);
    let fp_decl_count = if fp_used > 1 { fp_used } else { 1 };
    push_fp_decls(&mut wgsl, fp_decl_count);
    wgsl.append(body.as_str());
    if reset_check {
        wgsl.append(SPLIT_PREV_ZERO);
    } else {
        wgsl.append(SPLIT_PREV_LOAD);
    }
    wgsl.append(SPLIT_TAIL);
    Ok(wgsl)
}

proof fn lemma_skip_to_keeps_born(b: SlotBank, n: nat, k: usize)
    ensures
        skip_to(b, n, k).born.len() >= b.born.len(),
        forall|x: int| 0 <= x < b.born.len() ==> #[trigger] skip_to(b, n, k).born[x] == b.born[x],
    decreases n,
{
    if !(b.live.len() >= n || n == 0) {
        lemma_skip_to_keeps_born(b, (n - 1) as nat, k);
        let b1 = skip_to(b, (n - 1) as nat, k);
        assert forall|x: int| 0 <= x < b.born.len() implies #[trigger] bank_skip(b1, k).born[x] == b.born[x] by {
            assert(bank_skip(b1, k).born[x] == b1.born[x]);
        }
    }
}

proof fn lemma_release_keeps_born(b: SlotBank, xs: Seq<usize>, last: Seq<Option<usize>>, k: usize)
    ensures
        bank_release_all(b, xs, last, k).born == b.born,
    decreases xs.len(),
{
    if xs.len() > 0 {
        lemma_release_keeps_born(b, xs.drop_last(), last, k);
    }
}

/// The fp var computed at position `p` was defined there.
proof fn lemma_split_born(fp: Seq<EvalCheckFpOp>, ts: Seq<TermSpec>, v: Seq<usize>, q: int)
    requires
        split_wf(fp, ts, v),
        operands_before(fp, v, q),
        0 <= q <= v.len() + ts.len(),
        fp.len() + ts.len() + v.len() < usize::MAX,
    ensures
        forall|p: int|
            0 <= p < q && p < v.len() ==> #[trigger] split_run(fp, ts, v, split_last(fp, ts, v), q).born[v[p] as int]
                == p,
    decreases q,
{
    if q > 0 {
        let last = split_last(fp, ts, v);
        let j = q - 1;
        lemma_split_born(fp, ts, v, j);
        lemma_split_inv(fp, ts, v, j);
        let r0 = split_run(fp, ts, v, last, j);
        let r1 = split_run(fp, ts, v, last, q);
        assert(r1 == split_step(r0, fp, ts, v, last, j));
        let mj = if j < v.len() { j } else { v.len() as int };
        assert forall|p: int| 0 <= p < j && p < v.len() implies v[p] < r0.live.len() by {
            if p < mj - 1 {
                assert(v[p] < v[mj - 1]);
            }
        }
        if j < v.len() {
            let x = v[j];
            assert(x < fp.len());
            if j > 0 {
                assert(v[j - 1] < v[j]);
            }
            lemma_skip_to(r0, x as nat, j as usize, last);
            lemma_skip_to_keeps_born(r0, x as nat, j as usize);
            let b1 = skip_to(r0, x as nat, j as usize);
            let b2 = bank_define(b1, j as usize, last[x as int] is Some);
            lemma_release_keeps_born(b2, op_reads(fp[x as int]), last, j as usize);
            assert forall|p: int| 0 <= p < q && p < v.len() implies #[trigger] r1.born[v[p] as int] == p by {
                if p < j {
                    assert(b2.born[v[p] as int] == b1.born[v[p] as int]);
                } else {
                    assert(b2.born[x as int] == j);
                }
            }
        } else {
            lemma_release_keeps_born(r0, term_reads(ts[j - v.len()]), last, j as usize);
        }
    }
}

/// When a position of a chunk reads fp var `y`, the fp var computed at any
/// position `p` up to that one, after `y`, was given another slot: the read
/// finds the value `y` wrote.
pub proof fn lemma_split_read_finds_its_value(
    fp: Seq<EvalCheckFpOp>,
    ts: Seq<TermSpec>,
    v: Seq<usize>,
    q: int,
    y: usize,
    p: int,
)
    requires
        split_wf(fp, ts, v),
        operands_before(fp, v, v.len() as int),
        fp.len() + ts.len() + v.len() < usize::MAX,
        0 <= p < v.len(),
        p <= q < v.len() + ts.len(),
        pos_reads(fp, ts, v, q).contains(y),
        y < v[p],
    ensures
        ({
            let b = split_run(fp, ts, v, split_last(fp, ts, v), (v.len() + ts.len()) as int);
            b.at[y as int] != b.at[v[p] as int]
        }),
{
    let last = split_last(fp, ts, v);
    let m = (v.len() + ts.len()) as int;
    lemma_split_inv(fp, ts, v, m);
    lemma_split_born(fp, ts, v, m);
    let b = split_run(fp, ts, v, last, m);
    let n = v.len() as int;
    assert(v.contains(y));
    assert(v.contains(v[p]));
    lemma_in_ascending(v, y, n);
    lemma_in_ascending(v, v[p], n);
    assert(b.held[y as int] && b.held[v[p] as int]);
    lemma_last_pos_read(fp, ts, v, y, m);
    assert(last[y as int] == last_pos_read(fp, ts, v, y, m));
    assert(live_after(last[y as int], b.born[v[p] as int] as int));
}

proof fn lemma_split_ops_text_prefix(
    fp: Seq<EvalCheckFpOp>,
    v: Seq<usize>,
    at: Seq<usize>,
    taps: Seq<EvalCheckTap>,
    q: int,
    m: int,
)
    requires
        0 <= q <= m,
    ensures
        split_ops_text(fp, v, at, taps, q).is_prefix_of(split_ops_text(fp, v, at, taps, m)),
    decreases m - q,
{
    if q < m {
        lemma_split_ops_text_prefix(fp, v, at, taps, q, m - 1);
        let a = split_ops_text(fp, v, at, taps, q);
        let b = split_ops_text(fp, v, at, taps, m - 1);
        let c = split_ops_text(fp, v, at, taps, m);
        assert(c.subrange(0, b.len() as int) =~= b);
        assert(c.subrange(0, a.len() as int) =~= c.subrange(0, b.len() as int).subrange(0, a.len() as int));
    }
}

/// Law of the split shader: the line of computing position `p`, which
/// computes fp var `v[p]`, follows the lines of the positions before it.
/// An `Add`, `Sub` or `Mul` op stores into the slot of `v[p]` its operation
/// applied to the slot of its left operand and the slot of its right
/// operand, in that order, and each operand still holds its slot there: no
/// fp var computed after it, up to `v[p]` itself, was given that slot.
pub proof fn lemma_split_op_line(
    fp: Seq<EvalCheckFpOp>,
    ts: Seq<TermSpec>,
    v: Seq<usize>,
    taps: Seq<EvalCheckTap>,
    p: int,
)
    requires
        split_wf(fp, ts, v),
        operands_before(fp, v, v.len() as int),
        fp.len() + ts.len() + v.len() < usize::MAX,
        0 <= p < v.len(),
    ensures
        ({
            let at = split_run(fp, ts, v, split_last(fp, ts, v), (v.len() + ts.len()) as int).at;
            let line = split_op_text(fp[v[p] as int], v[p], at, taps);
            &&& (split_ops_text(fp, v, at, taps, p) + line).is_prefix_of(
                split_ops_text(fp, v, at, taps, v.len() as int),
            )
            &&& forall|y: usize, j: int|
                0 <= j <= p && #[trigger] op_reads(fp[v[p] as int]).contains(y) && y < #[trigger] v[j] ==> at[y as int]
                    != at[v[j] as int]
            &&& match fp[v[p] as int] {
                EvalCheckFpOp::Add(l, r) => line == fp_set(
                    at[v[p] as int] as nat,
                    bin_text("ext_add"@, at[l as int] as nat, at[r as int] as nat),
                ),
                EvalCheckFpOp::Sub(l, r) => line == fp_set(
                    at[v[p] as int] as nat,
                    bin_text("ext_sub"@, at[l as int] as nat, at[r as int] as nat),
                ),
                EvalCheckFpOp::Mul(l, r) => line == fp_set(
                    at[v[p] as int] as nat,
                    bin_text("ext_mul"@, at[l as int] as nat, at[r as int] as nat),
                ),
                _ => true,
            }
        }),
{
    let at = split_run(fp, ts, v, split_last(fp, ts, v), (v.len() + ts.len()) as int).at;
    lemma_split_ops_text_prefix(fp, v, at, taps, p + 1, v.len() as int);
    assert forall|y: usize, j: int|
        0 <= j <= p && #[trigger] op_reads(fp[v[p] as int]).contains(y) && y < #[trigger] v[j] implies at[y as int]
            != at[v[j] as int] by {
        assert(pos_reads(fp, ts, v, p) == op_reads(fp[v[p] as int]));
        lemma_split_read_finds_its_value(fp, ts, v, p, y, j);
    }
    reveal_strlit("ext_add");
    reveal_strlit("ext_sub");
    reveal_strlit("ext_mul");
}

} // verus!
