//! Compilation of a tape into a program of fp and mix operations, mix
//! exponents, and flattening of the returned mix value into terms.

use vstd::prelude::*;
use super::tape::{PolyExtStep, PolyExtStepDef, EvalCheckError, EvalCheckFpOp, EvalCheckMixOp, mix_steps};

verus! {

// ---------------------------------------------------------------------------
// Mix exponents
// ---------------------------------------------------------------------------

/// Exponents of the mix power for each mix var of `s`, walking the tape in
/// order: `True` is `0`, `AndEqz(chain, _)` is `chain + 1`, `AndCond(chain,
/// _, inner)` is `chain + inner`. The first out-of-range reference is the
/// error.
pub open spec fn mix_exps_of(s: Seq<PolyExtStep>) -> Result<Seq<int>, EvalCheckError>
    decreases s.len(),
{
    if s.len() == 0 {
        Ok(Seq::empty())
    } else {
        match mix_exps_of(s.drop_last()) {
            Err(e) => Err(e),
            Ok(e) => match s.last() {
                PolyExtStep::True => Ok(e.push(0)),
                PolyExtStep::AndEqz(chain, _) => if chain < e.len() {
                    Ok(e.push(e[chain as int] + 1))
                } else {
                    Err(EvalCheckError::AndEqzChainOutOfRange(chain))
                },
                PolyExtStep::AndCond(chain, _, inner) => if chain >= e.len() {
                    Err(EvalCheckError::AndCondChainOutOfRange(chain))
                } else if inner >= e.len() {
                    Err(EvalCheckError::AndCondInnerOutOfRange(inner))
                } else {
                    Ok(e.push(e[chain as int] + e[inner as int]))
                },
                _ => Ok(e),
            },
        }
    }
}

proof fn lemma_mix_exps_err_sticks(s: Seq<PolyExtStep>, i: int)
    requires
        0 <= i <= s.len(),
        mix_exps_of(s.take(i)) is Err,
    ensures
        mix_exps_of(s) == mix_exps_of(s.take(i)),
    decreases s.len() - i,
{
    if i < s.len() {
        assert(s.take(i + 1).drop_last() =~= s.take(i));
        lemma_mix_exps_err_sticks(s, i + 1);
    } else {
        assert(s.take(i) =~= s);
    }
}

/// The result of `eval_check_mix_exponents`.
pub open spec fn mix_exponents_result(s: Seq<PolyExtStep>, ret: usize) -> Result<
    Seq<int>,
    EvalCheckError,
> {
    match mix_exps_of(s) {
        Err(e) => Err(e),
        Ok(e) => if ret < e.len() {
            Ok(e)
        } else {
            Err(EvalCheckError::ReturnOutOfRange { ret, mix_count: e.len() as usize })
        },
    }
}

/// Every exponent computed along the way fits in `usize`.
pub open spec fn mix_exps_fit(s: Seq<PolyExtStep>) -> bool {
    forall|i: int, k: int|
        0 <= i <= s.len() && mix_exps_of(s.take(i)) is Ok && 0 <= k < mix_exps_of(
            s.take(i),
        )->Ok_0.len() ==> #[trigger] mix_exps_of(s.take(i))->Ok_0[k] <= usize::MAX
}

pub open spec fn seq_usize_as_int(v: Seq<usize>) -> Seq<int> {
    v.map_values(|x: usize| x as int)
}

/// Exponent of `poly_mix` multiplying each mix var of the tape.
pub fn eval_check_mix_exponents(def: &PolyExtStepDef) -> (res: Result<Vec<usize>, EvalCheckError>)
    requires
        mix_exps_fit(def.block@),
    ensures
        match res {
            Ok(v) => mix_exponents_result(def.block@, def.ret) == Ok::<Seq<int>, EvalCheckError>(
                seq_usize_as_int(v@),
            ),
            Err(e) => mix_exponents_result(def.block@, def.ret) == Err::<Seq<int>, EvalCheckError>(
                e,
            ),
        },
{
    let block = def.block;
    assert(block@ == def.block@);
    let mut exponents: Vec<usize> = Vec::new();
    let mut i: usize = 0;
    assert(block@.take(0) =~= Seq::<PolyExtStep>::empty());
    assert(seq_usize_as_int(exponents@) =~= Seq::<int>::empty());
    while i < block.len()
        invariant
            0 <= i <= block@.len(),
            block@ == def.block@,
            mix_exps_fit(block@),
            mix_exps_of(block@.take(i as int)) == Ok::<Seq<int>, EvalCheckError>(
                seq_usize_as_int(exponents@),
            ),
        decreases block@.len() - i,
    {
        let op = block[i];
        let ghost prev = block@.take(i as int);
        assert(block@.take(i + 1).drop_last() =~= prev);
        assert(block@.take(i + 1).last() == op);
        match op {
            PolyExtStep::True => {
                exponents.push(0);
            },
            PolyExtStep::AndEqz(chain, _) => {
                if chain >= exponents.len() {
                    proof {
                        assert(seq_usize_as_int(exponents@).len() == exponents@.len());
                        assert(mix_exps_of(block@.take(i + 1)) == Err::<Seq<int>, EvalCheckError>(
                            EvalCheckError::AndEqzChainOutOfRange(chain)));
                        lemma_mix_exps_err_sticks(block@, i + 1);
                    }
                    return Err(EvalCheckError::AndEqzChainOutOfRange(chain));
                }
                proof {
                    assert(mix_exps_of(block@.take(i + 1)) is Ok);
                    let e = mix_exps_of(block@.take(i + 1))->Ok_0;
                    assert(e.len() == exponents@.len() + 1);
                    assert(e[exponents@.len() as int] <= usize::MAX);
                }
                let exponent = exponents[chain] + 1;
                exponents.push(exponent);
            },
            PolyExtStep::AndCond(chain, _, inner) => {
                if chain >= exponents.len() {
                    proof {
                        assert(seq_usize_as_int(exponents@).len() == exponents@.len());
                        assert(mix_exps_of(block@.take(i + 1)) == Err::<Seq<int>, EvalCheckError>(
                            EvalCheckError::AndCondChainOutOfRange(chain)));
                        lemma_mix_exps_err_sticks(block@, i + 1);
                    }
                    return Err(EvalCheckError::AndCondChainOutOfRange(chain));
                }
                if inner >= exponents.len() {
                    proof {
                        lemma_mix_exps_err_sticks(block@, i + 1);
                    }
                    return Err(EvalCheckError::AndCondInnerOutOfRange(inner));
                }
                proof {
                    assert(mix_exps_of(block@.take(i + 1)) is Ok);
                    let e = mix_exps_of(block@.take(i + 1))->Ok_0;
                    assert(e.len() == exponents@.len() + 1);
                    assert(e[exponents@.len() as int] <= usize::MAX);
                }
                let exponent = exponents[chain] + exponents[inner];
                exponents.push(exponent);
            },
            _ => {},
        }
        assert(seq_usize_as_int(exponents@) =~= mix_exps_of(block@.take(i + 1))->Ok_0);
        i = i + 1;
    }
    assert(block@.take(block@.len() as int) =~= block@);
    if def.ret >= exponents.len() {
        return Err(EvalCheckError::ReturnOutOfRange { ret: def.ret, mix_count: exponents.len() });
    }
    Ok(exponents)
}

/// Law of the mix exponents: there is one exponent per mix step of the tape,
/// and the exponent of mix var `k` is `0` for `True`, one more than that of
/// its chain for `AndEqz`, and the sum of the exponents of its chain and of
/// its inner var for `AndCond`, both of which are earlier mix vars.
pub proof fn lemma_mix_exponents_follow_mix_steps(s: Seq<PolyExtStep>, ret: usize)
    requires
        mix_exponents_result(s, ret) is Ok,
    ensures
        ({
            let e = mix_exponents_result(s, ret)->Ok_0;
            &&& e.len() == mix_steps(s).len()
            &&& ret < e.len()
            &&& forall|k: int|
                0 <= k < e.len() ==> match #[trigger] mix_steps(s)[k] {
                    PolyExtStep::True => e[k] == 0,
                    PolyExtStep::AndEqz(chain, _) => chain < k && e[k] == e[chain as int] + 1,
                    PolyExtStep::AndCond(chain, _, inner) => chain < k && inner < k && e[k] == e[chain as int]
                        + e[inner as int],
                    _ => false,
                }
        }),
{
    lemma_mix_exps_steps(s);
}

proof fn lemma_mix_exps_steps(s: Seq<PolyExtStep>)
    requires
        mix_exps_of(s) is Ok,
    ensures
        ({
            let e = mix_exps_of(s)->Ok_0;
            &&& e.len() == mix_steps(s).len()
            &&& forall|k: int|
                0 <= k < e.len() ==> match #[trigger] mix_steps(s)[k] {
                    PolyExtStep::True => e[k] == 0,
                    PolyExtStep::AndEqz(chain, _) => chain < k && e[k] == e[chain as int] + 1,
                    PolyExtStep::AndCond(chain, _, inner) => chain < k && inner < k && e[k] == e[chain as int]
                        + e[inner as int],
                    _ => false,
                }
        }),
    decreases s.len(),
{
    if s.len() > 0 {
        let d = s.drop_last();
        lemma_mix_exps_steps(d);
        let e0 = mix_exps_of(d)->Ok_0;
        let e = mix_exps_of(s)->Ok_0;
        let m0 = mix_steps(d);
        let m = mix_steps(s);
        assert forall|k: int| 0 <= k < e.len() implies match #[trigger] m[k] {
            PolyExtStep::True => e[k] == 0,
            PolyExtStep::AndEqz(chain, _) => chain < k && e[k] == e[chain as int] + 1,
            PolyExtStep::AndCond(chain, _, inner) => chain < k && inner < k && e[k] == e[chain as int]
                + e[inner as int],
            _ => false,
        } by {
            if k < e0.len() {
                assert(m[k] == m0[k]);
                assert(e[k] == e0[k]);
                match m0[k] {
                    PolyExtStep::AndEqz(chain, _) => {
                        assert(e[chain as int] == e0[chain as int]);
                    },
                    PolyExtStep::AndCond(chain, _, inner) => {
                        assert(e[chain as int] == e0[chain as int]);
                        assert(e[inner as int] == e0[inner as int]);
                    },
                    _ => {},
                }
            }
        }
    }
}

/// Law tying the two compilers of a tape together: wherever the whole
/// program compiles, the mix exponents come out as the program's own.
pub proof fn lemma_mix_exponents_match_program(s: Seq<PolyExtStep>, ret: usize)
    requires
        program_result(s, ret) is Ok,
    ensures
        mix_exponents_result(s, ret) == Ok::<Seq<int>, EvalCheckError>(program_result(s, ret)->Ok_0.2),
{
    lemma_mix_exps_of_program(s);
}

proof fn lemma_mix_exps_of_program(s: Seq<PolyExtStep>)
    requires
        program_of(s) is Ok,
    ensures
        mix_exps_of(s) == Ok::<Seq<int>, EvalCheckError>(program_of(s)->Ok_0.2),
        program_of(s)->Ok_0.1.len() == program_of(s)->Ok_0.2.len(),
    decreases s.len(),
{
    if s.len() > 0 {
        lemma_mix_exps_of_program(s.drop_last());
    }
}

// ---------------------------------------------------------------------------
// Program compilation
// ---------------------------------------------------------------------------

/// Mathematical form of a compiled program: fp ops, mix ops, and the mix
/// exponent of each mix op.
pub type ProgramSpec = (Seq<EvalCheckFpOp>, Seq<EvalCheckMixOp>, Seq<int>);

/// The program compiled from the tape `s`, walking it in order; the first
/// invalid reference is the error. Fp operands of arithmetic ops are not
/// checked here.
pub open spec fn program_of(s: Seq<PolyExtStep>) -> Result<ProgramSpec, EvalCheckError>
    decreases s.len(),
{
    if s.len() == 0 {
        Ok((Seq::empty(), Seq::empty(), Seq::empty()))
    } else {
        match program_of(s.drop_last()) {
            Err(e) => Err(e),
            Ok(p) => program_step(p, s.last()),
        }
    }
}

/// One step of `program_of`.
pub open spec fn program_step(p: ProgramSpec, op: PolyExtStep) -> Result<ProgramSpec, EvalCheckError> {
    let (fp, mix, exps) = p;
    match op {
        PolyExtStep::Const(v) => Ok((fp.push(EvalCheckFpOp::Const(v)), mix, exps)),
        PolyExtStep::ConstExt(a, b, c, d) => Ok((fp.push(EvalCheckFpOp::ConstExt(a, b, c, d)), mix, exps)),
        PolyExtStep::Get(t) => Ok((fp.push(EvalCheckFpOp::Get(t)), mix, exps)),
        PolyExtStep::GetGlobal(a, o) => Ok((fp.push(EvalCheckFpOp::GetGlobal(a, o)), mix, exps)),
        PolyExtStep::Add(l, r) => Ok((fp.push(EvalCheckFpOp::Add(l, r)), mix, exps)),
        PolyExtStep::Sub(l, r) => Ok((fp.push(EvalCheckFpOp::Sub(l, r)), mix, exps)),
        PolyExtStep::Mul(l, r) => Ok((fp.push(EvalCheckFpOp::Mul(l, r)), mix, exps)),
        PolyExtStep::True => Ok((fp, mix.push(EvalCheckMixOp::True), exps.push(0))),
        PolyExtStep::AndEqz(chain, inner) => if chain >= exps.len() {
            Err(EvalCheckError::AndEqzChainOutOfRange(chain))
        } else if inner >= fp.len() {
            Err(EvalCheckError::AndEqzInnerOutOfRange(inner))
        } else {
            Ok((fp, mix.push(EvalCheckMixOp::AndEqz { chain, inner }), exps.push(exps[chain as int] + 1)))
        },
        PolyExtStep::AndCond(chain, cond, inner) => if chain >= exps.len() {
            Err(EvalCheckError::AndCondChainOutOfRange(chain))
        } else if inner >= exps.len() {
            Err(EvalCheckError::AndCondInnerOutOfRange(inner))
        } else if cond >= fp.len() {
            Err(EvalCheckError::AndCondCondOutOfRange(cond))
        } else {
            Ok((
                fp,
                mix.push(EvalCheckMixOp::AndCond { chain, cond, inner }),
                exps.push(exps[chain as int] + exps[inner as int]),
            ))
        },
    }
}

/// The result of `eval_check_program`.
pub open spec fn program_result(s: Seq<PolyExtStep>, ret: usize) -> Result<ProgramSpec, EvalCheckError> {
    match program_of(s) {
        Err(e) => Err(e),
        Ok(p) => if ret < p.1.len() {
            Ok(p)
        } else {
            Err(EvalCheckError::ReturnOutOfRange { ret, mix_count: p.1.len() as usize })
        },
    }
}

/// Every mix exponent computed along the way fits in `usize`.
pub open spec fn program_exps_fit(s: Seq<PolyExtStep>) -> bool {
    forall|i: int, k: int|
        0 <= i <= s.len() && program_of(s.take(i)) is Ok && 0 <= k < program_of(s.take(i))->Ok_0.2.len()
            ==> #[trigger] program_of(s.take(i))->Ok_0.2[k] <= usize::MAX
}

/// Well-formedness of a compiled program: mix ops refer only to earlier mix
/// ops and to existing fp ops, and the exponents follow the mix structure.
pub open spec fn program_wf(p: ProgramSpec) -> bool {
    let (fp, mix, exps) = p;
    &&& mix.len() == exps.len()
    &&& forall|k: int|
        0 <= k < mix.len() ==> match #[trigger] mix[k] {
            EvalCheckMixOp::True => exps[k] == 0,
            EvalCheckMixOp::AndEqz { chain, inner } => chain < k && inner < fp.len() && exps[k]
                == exps[chain as int] + 1,
            EvalCheckMixOp::AndCond { chain, cond, inner } => chain < k && inner < k && cond
                < fp.len() && exps[k] == exps[chain as int] + exps[inner as int],
        }
}

/// A compiled tape.
pub struct EvalCheckProgram {
    pub fp_ops: Vec<EvalCheckFpOp>,
    pub mix_ops: Vec<EvalCheckMixOp>,
    pub mix_exps: Vec<usize>,
}

impl EvalCheckProgram {
    pub open spec fn spec(&self) -> ProgramSpec {
        (self.fp_ops@, self.mix_ops@, seq_usize_as_int(self.mix_exps@))
    }

    pub open spec fn wf(&self) -> bool {
        program_wf(self.spec())
    }
}

proof fn lemma_program_err_sticks(s: Seq<PolyExtStep>, i: int)
    requires
        0 <= i <= s.len(),
        program_of(s.take(i)) is Err,
    ensures
        program_of(s) == program_of(s.take(i)),
    decreases s.len() - i,
{
    if i < s.len() {
        assert(s.take(i + 1).drop_last() =~= s.take(i));
        lemma_program_err_sticks(s, i + 1);
    } else {
        assert(s.take(i) =~= s);
    }
}

/// Compile a tape into fp ops, mix ops and mix exponents, checking every
/// mix reference.
pub fn eval_check_program(def: &PolyExtStepDef) -> (res: Result<EvalCheckProgram, EvalCheckError>)
    requires
        program_exps_fit(def.block@),
    ensures
        match res {
            Ok(p) => program_result(def.block@, def.ret) == Ok::<ProgramSpec, EvalCheckError>(p.spec())
                && p.wf(),
            Err(e) => program_result(def.block@, def.ret) == Err::<ProgramSpec, EvalCheckError>(e),
        },
{
    let block = def.block;
    let mut fp_ops: Vec<EvalCheckFpOp> = Vec::new();
    let mut mix_ops: Vec<EvalCheckMixOp> = Vec::new();
    let mut mix_exps: Vec<usize> = Vec::new();
    let mut i: usize = 0;
    assert(block@.take(0) =~= Seq::<PolyExtStep>::empty());
    assert(seq_usize_as_int(mix_exps@) =~= Seq::<int>::empty());
    while i < block.len()
        invariant
            0 <= i <= block@.len(),
            block@ == def.block@,
            program_exps_fit(block@),
            program_of(block@.take(i as int)) == Ok::<ProgramSpec, EvalCheckError>(
                (fp_ops@, mix_ops@, seq_usize_as_int(mix_exps@)),
            ),
            program_wf((fp_ops@, mix_ops@, seq_usize_as_int(mix_exps@))),
        decreases block@.len() - i,
    {
        let op = block[i];
        let ghost prev = block@.take(i as int);
        let ghost p = (fp_ops@, mix_ops@, seq_usize_as_int(mix_exps@));
        assert(block@.take(i + 1).drop_last() =~= prev);
        assert(block@.take(i + 1).last() == op);
        assert(seq_usize_as_int(mix_exps@).len() == mix_exps@.len());
        match op {
            PolyExtStep::Const(v) => fp_ops.push(EvalCheckFpOp::Const(v)),
            PolyExtStep::ConstExt(a, b, c, d) => fp_ops.push(EvalCheckFpOp::ConstExt(a, b, c, d)),
            PolyExtStep::Get(t) => fp_ops.push(EvalCheckFpOp::Get(t)),
            PolyExtStep::GetGlobal(a, o) => fp_ops.push(EvalCheckFpOp::GetGlobal(a, o)),
            PolyExtStep::Add(l, r) => fp_ops.push(EvalCheckFpOp::Add(l, r)),
            PolyExtStep::Sub(l, r) => fp_ops.push(EvalCheckFpOp::Sub(l, r)),
            PolyExtStep::Mul(l, r) => fp_ops.push(EvalCheckFpOp::Mul(l, r)),
            PolyExtStep::True => {
                mix_ops.push(EvalCheckMixOp::True);
                mix_exps.push(0);
            },
            PolyExtStep::AndEqz(chain, inner) => {
                if chain >= mix_exps.len() {
                    proof {
                        lemma_program_err_sticks(block@, i + 1);
                    }
                    return Err(EvalCheckError::AndEqzChainOutOfRange(chain));
                }
                if inner >= fp_ops.len() {
                    proof {
                        lemma_program_err_sticks(block@, i + 1);
                    }
                    return Err(EvalCheckError::AndEqzInnerOutOfRange(inner));
                }
                proof {
                    let q = program_of(block@.take(i + 1))->Ok_0;
                    assert(q.2.len() == mix_exps@.len() + 1);
                    assert(q.2[mix_exps@.len() as int] <= usize::MAX);
                }
                let exp = mix_exps[chain] + 1;
                mix_ops.push(EvalCheckMixOp::AndEqz { chain, inner });
                mix_exps.push(exp);
            },
            PolyExtStep::AndCond(chain, cond, inner) => {
                if chain >= mix_exps.len() {
                    proof {
                        lemma_program_err_sticks(block@, i + 1);
                    }
                    return Err(EvalCheckError::AndCondChainOutOfRange(chain));
                }
                if inner >= mix_exps.len() {
                    proof {
                        lemma_program_err_sticks(block@, i + 1);
                    }
                    return Err(EvalCheckError::AndCondInnerOutOfRange(inner));
                }
                if cond >= fp_ops.len() {
                    proof {
                        lemma_program_err_sticks(block@, i + 1);
                    }
                    return Err(EvalCheckError::AndCondCondOutOfRange(cond));
                }
                proof {
                    let q = program_of(block@.take(i + 1))->Ok_0;
                    assert(q.2.len() == mix_exps@.len() + 1);
                    assert(q.2[mix_exps@.len() as int] <= usize::MAX);
                }
                let exp = mix_exps[chain] + mix_exps[inner];
                mix_ops.push(EvalCheckMixOp::AndCond { chain, cond, inner });
                mix_exps.push(exp);
            },
        }
        assert(seq_usize_as_int(mix_exps@) =~= program_of(block@.take(i + 1))->Ok_0.2);
        assert(program_of(block@.take(i + 1))->Ok_0.0 =~= fp_ops@);
        assert(program_of(block@.take(i + 1))->Ok_0.1 =~= mix_ops@);
        proof {
            let np = (fp_ops@, mix_ops@, seq_usize_as_int(mix_exps@));
            assert forall|k: int| 0 <= k < np.1.len() implies match #[trigger] np.1[k] {
                EvalCheckMixOp::True => np.2[k] == 0,
                EvalCheckMixOp::AndEqz { chain, inner } => chain < k && inner < np.0.len() && np.2[k]
                    == np.2[chain as int] + 1,
                EvalCheckMixOp::AndCond { chain, cond, inner } => chain < k && inner < k && cond
                    < np.0.len() && np.2[k] == np.2[chain as int] + np.2[inner as int],
            } by {
                if k < p.1.len() {
                    assert(np.1[k] == p.1[k]);
                    assert(np.2[k] == p.2[k]);
                }
            }
        }
        i = i + 1;
    }
    assert(block@.take(block@.len() as int) =~= block@);
    if def.ret >= mix_ops.len() {
        return Err(EvalCheckError::ReturnOutOfRange { ret: def.ret, mix_count: mix_ops.len() });
    }
    Ok(EvalCheckProgram { fp_ops, mix_ops, mix_exps })
}

// ---------------------------------------------------------------------------
// Flattening into terms
// ---------------------------------------------------------------------------

/// One summand of the check polynomial: `mix^mix_exp * prod(conds) * inner`.
pub struct EvalCheckTerm {
    pub mix_exp: usize,
    pub conds: Vec<usize>,
    pub inner: usize,
}

/// Mathematical form of a term: mix exponent, conditions, inner fp var.
pub type TermSpec = (int, Seq<usize>, usize);

impl EvalCheckTerm {
    pub open spec fn spec(&self) -> TermSpec {
        (self.mix_exp as int, self.conds@, self.inner)
    }
}

pub open spec fn terms_spec(v: Seq<EvalCheckTerm>) -> Seq<TermSpec> {
    v.map_values(|t: EvalCheckTerm| t.spec())
}

/// The terms of mix var `i` when it is reached with extra exponent `e` under
/// the conditions `c`. An `AndEqz` contributes its own term followed by the
/// terms of its chain; an `AndCond` contributes the terms of its inner mix
/// var (under one more condition, shifted by the chain's exponent) followed
/// by the terms of its chain.
pub open spec fn flat_terms(p: ProgramSpec, i: int, e: int, c: Seq<usize>) -> Seq<TermSpec>
    decreases i,
{
    if !(0 <= i < p.1.len()) {
        Seq::empty()
    } else {
        match p.1[i] {
            EvalCheckMixOp::True => Seq::empty(),
            EvalCheckMixOp::AndEqz { chain, inner } => if chain < i {
                seq![(e + p.2[chain as int], c, inner)] + flat_terms(p, chain as int, e, c)
            } else {
                Seq::empty()
            },
            EvalCheckMixOp::AndCond { chain, cond, inner } => if chain < i && inner < i {
                flat_terms(p, inner as int, e + p.2[chain as int], c.push(cond)) + flat_terms(
                    p,
                    chain as int,
                    e,
                    c,
                )
            } else {
                Seq::empty()
            },
        }
    }
}

/// Every exponent summed while flattening mix var `i` from extra exponent
/// `e` fits in `usize`.
pub open spec fn flat_fits(p: ProgramSpec, i: int, e: int) -> bool
    decreases i,
{
    if !(0 <= i < p.1.len()) {
        true
    } else {
        match p.1[i] {
            EvalCheckMixOp::True => true,
            EvalCheckMixOp::AndEqz { chain, inner } => chain < i ==> (e + p.2[chain as int]
                <= usize::MAX && flat_fits(p, chain as int, e)),
            EvalCheckMixOp::AndCond { chain, cond, inner } => (chain < i && inner < i) ==> (e
                + p.2[chain as int] <= usize::MAX && flat_fits(p, inner as int, e + p.2[chain as int])
                && flat_fits(p, chain as int, e)),
        }
    }
}

/// Law of flattening: in a well-formed program, mix var `i` reached with
/// extra exponent `e` under conditions `c` flattens into exactly as many
/// terms as its own mix exponent, one per power of the challenge that it
/// spans: term `j` has exponent `e + exps[i] - 1 - j`, so the exponents run
/// down from `e + exps[i] - 1` to `e`, each once. Every term is under the
/// conditions `c` and possibly more.
pub proof fn lemma_flat_terms_exponents(p: ProgramSpec, i: int, e: int, c: Seq<usize>)
    requires
        program_wf(p),
        0 <= i < p.1.len(),
    ensures
        flat_terms(p, i, e, c).len() == p.2[i],
        forall|j: int|
            0 <= j < flat_terms(p, i, e, c).len() ==> (#[trigger] flat_terms(p, i, e, c)[j]).0 == e + p.2[i] - 1 - j
                && c.is_prefix_of(flat_terms(p, i, e, c)[j].1),
    decreases i,
{
    let t = flat_terms(p, i, e, c);
    match p.1[i] {
        EvalCheckMixOp::True => {},
        EvalCheckMixOp::AndEqz { chain, inner } => {
            lemma_flat_terms_exponents(p, chain as int, e, c);
            let rest = flat_terms(p, chain as int, e, c);
            assert forall|j: int| 0 <= j < t.len() implies (#[trigger] t[j]).0 == e + p.2[i] - 1 - j
                && c.is_prefix_of(t[j].1) by {
                if j == 0 {
                    assert(c.subrange(0, c.len() as int) =~= c);
                } else {
                    assert(t[j] == rest[j - 1]);
                }
            }
        },
        EvalCheckMixOp::AndCond { chain, cond, inner } => {
            lemma_flat_terms_exponents(p, inner as int, e + p.2[chain as int], c.push(cond));
            lemma_flat_terms_exponents(p, chain as int, e, c);
            let a = flat_terms(p, inner as int, e + p.2[chain as int], c.push(cond));
            let b = flat_terms(p, chain as int, e, c);
            assert forall|j: int| 0 <= j < t.len() implies (#[trigger] t[j]).0 == e + p.2[i] - 1 - j
                && c.is_prefix_of(t[j].1) by {
                if j < a.len() {
                    assert(t[j] == a[j]);
                    assert(c.push(cond).is_prefix_of(a[j].1));
                    assert(c =~= c.push(cond).subrange(0, c.len() as int));
                    assert(a[j].1.subrange(0, c.len() as int) =~= a[j].1.subrange(0, c.len() + 1int).subrange(
                        0,
                        c.len() as int,
                    ));
                } else {
                    assert(t[j] == b[j - a.len()]);
                }
            }
        },
    }
}

/// Number of mix nodes visited when flattening mix var `i`.
pub open spec fn flat_size(p: ProgramSpec, i: int) -> nat
    decreases i,
{
    if !(0 <= i < p.1.len()) {
        1
    } else {
        match p.1[i] {
            EvalCheckMixOp::True => 1,
            EvalCheckMixOp::AndEqz { chain, inner } => if chain < i {
                1 + flat_size(p, chain as int)
            } else {
                1
            },
            EvalCheckMixOp::AndCond { chain, cond, inner } => if chain < i && inner < i {
                1 + flat_size(p, chain as int) + flat_size(p, inner as int)
            } else {
                1
            },
        }
    }
}

pub type FlatEntry = (usize, usize, Vec<usize>);

pub open spec fn stack_terms(p: ProgramSpec, st: Seq<FlatEntry>) -> Seq<TermSpec>
    decreases st.len(),
{
    if st.len() == 0 {
        Seq::empty()
    } else {
        flat_terms(p, st.last().0 as int, st.last().1 as int, st.last().2@) + stack_terms(
            p,
            st.drop_last(),
        )
    }
}

pub open spec fn stack_size(p: ProgramSpec, st: Seq<FlatEntry>) -> nat
    decreases st.len(),
{
    if st.len() == 0 {
        0
    } else {
        flat_size(p, st.last().0 as int) + stack_size(p, st.drop_last())
    }
}

pub open spec fn stack_fits(p: ProgramSpec, st: Seq<FlatEntry>) -> bool {
    forall|k: int|
        0 <= k < st.len() ==> (#[trigger] st[k]).0 < p.1.len() && flat_fits(
            p,
            st[k].0 as int,
            st[k].1 as int,
        )
}

/// A copy of a list of indices.
pub fn copy_indices(v: &Vec<usize>) -> (r: Vec<usize>)
    ensures
        r@ == v@,
{
    let mut r: Vec<usize> = Vec::new();
    let mut i: usize = 0;
    while i < v.len()
        invariant
            0 <= i <= v@.len(),
            r@ == v@.take(i as int),
        decreases v@.len() - i,
    {
        r.push(v[i]);
        i = i + 1;
        assert(r@ =~= v@.take(i as int));
    }
    assert(v@.take(v@.len() as int) =~= v@);
    r
}

/// Flatten the returned mix value into its list of terms.
pub fn eval_check_flatten_terms(program: &EvalCheckProgram, ret: usize) -> (res: Result<
    Vec<EvalCheckTerm>,
    EvalCheckError,
>)
    requires
        program.wf(),
        ret < program.mix_ops@.len() ==> flat_fits(program.spec(), ret as int, 0),
    ensures
        ret >= program.mix_ops@.len() ==> res == Err::<Vec<EvalCheckTerm>, EvalCheckError>(
            EvalCheckError::ReturnOutOfRange { ret, mix_count: program.mix_ops@.len() as usize },
        ),
        ret < program.mix_ops@.len() ==> res is Ok && terms_spec(res->Ok_0@) == flat_terms(
            program.spec(),
            ret as int,
            0,
            Seq::empty(),
        ),
{
    if ret >= program.mix_ops.len() {
        return Err(
            EvalCheckError::ReturnOutOfRange { ret, mix_count: program.mix_ops.len() },
        );
    }
    let ghost p = program.spec();
    let mut terms: Vec<EvalCheckTerm> = Vec::new();
    let mut stack: Vec<FlatEntry> = Vec::new();
    stack.push((ret, 0, Vec::new()));
    proof {
        assert(stack@.drop_last() =~= Seq::<FlatEntry>::empty());
        assert(terms_spec(terms@) =~= Seq::<TermSpec>::empty());
        assert(stack@.last().2@ =~= Seq::<usize>::empty());
        assert(stack_terms(p, stack@.drop_last()) == Seq::<TermSpec>::empty());
        assert(stack_terms(p, stack@) =~= flat_terms(p, ret as int, 0, Seq::empty()));
    }
    while stack.len() > 0
        invariant
            p == program.spec(),
            program.wf(),
            program.mix_exps@.len() == program.mix_ops@.len(),
            stack_fits(p, stack@),
            terms_spec(terms@) + stack_terms(p, stack@) == flat_terms(p, ret as int, 0, Seq::empty()),
        decreases stack_size(p, stack@),
    {
        let ghost old_stack = stack@;
        let ghost old_terms = terms_spec(terms@);
        let entry = stack.pop().unwrap();
        let (mix_idx, extra_exp, conds) = entry;
        proof {
            assert(old_stack.drop_last() == stack@);
            assert(old_stack.last() == entry);
            assert(stack_fits(p, stack@));
            assert(old_stack[old_stack.len() - 1] == entry);
        }
        let ghost rest = stack_terms(p, stack@);
        let ghost rest_size = stack_size(p, stack@);
        assert(stack_size(p, old_stack) == flat_size(p, mix_idx as int) + rest_size);
        assert(program.mix_ops@[mix_idx as int] == p.1[mix_idx as int]);
        match program.mix_ops[mix_idx] {
            EvalCheckMixOp::True => {
                proof {
                    assert(terms_spec(terms@) + stack_terms(p, stack@) =~= old_terms + rest);
                }
            },
            EvalCheckMixOp::AndEqz { chain, inner } => {
                proof {
                    assert(p.2[chain as int] == program.mix_exps@[chain as int]);
                }
                let mix_exp = extra_exp + program.mix_exps[chain];
                let chain_conds = copy_indices(&conds);
                stack.push((chain, extra_exp, chain_conds));
                let ghost term = (mix_exp as int, conds@, inner);
                terms.push(EvalCheckTerm { mix_exp, conds, inner });
                proof {
                    assert(stack@.drop_last() == old_stack.drop_last());
                    assert(stack_size(p, stack@) == flat_size(p, chain as int) + rest_size);
                    assert(terms_spec(terms@) =~= old_terms.push(term));
                    assert(flat_terms(p, mix_idx as int, extra_exp as int, conds@) == seq![term]
                        + flat_terms(p, chain as int, extra_exp as int, conds@));
                    assert(terms_spec(terms@) + stack_terms(p, stack@) =~= old_terms + (seq![term]
                        + flat_terms(p, chain as int, extra_exp as int, conds@)) + rest);
                    assert(stack_fits(p, stack@));
                }
            },
            EvalCheckMixOp::AndCond { chain, cond, inner } => {
                proof {
                    assert(p.2[chain as int] == program.mix_exps@[chain as int]);
                }
                let chain_conds = copy_indices(&conds);
                stack.push((chain, extra_exp, chain_conds));
                let mut inner_conds = conds;
                inner_conds.push(cond);
                let inner_exp = extra_exp + program.mix_exps[chain];
                stack.push((inner, inner_exp, inner_conds));
                proof {
                    let a = flat_terms(p, inner as int, inner_exp as int, inner_conds@);
                    let b = flat_terms(p, chain as int, extra_exp as int, entry.2@);
                    let mid = stack@.drop_last();
                    assert(mid.drop_last() == old_stack.drop_last());
                    assert(mid.last().2@ == entry.2@);
                    assert(stack_terms(p, mid) == b + rest);
                    assert(stack_size(p, mid) == flat_size(p, chain as int) + rest_size);
                    assert(stack_size(p, stack@) == flat_size(p, inner as int) + flat_size(
                        p,
                        chain as int,
                    ) + rest_size);
                    assert(stack_terms(p, stack@) == a + (b + rest));
                    assert(flat_terms(p, mix_idx as int, extra_exp as int, entry.2@) == a + b);
                    assert(terms_spec(terms@) + stack_terms(p, stack@) =~= old_terms + (a + b) + rest);
                    assert forall|k: int| 0 <= k < stack@.len() implies (#[trigger] stack@[k]).0
                        < p.1.len() && flat_fits(p, stack@[k].0 as int, stack@[k].1 as int) by {
                        if k < old_stack.len() - 1 {
                            assert(stack@[k] == old_stack[k]);
                        }
                    }
                }
            },
        }
    }
    Ok(terms)
}

// ---------------------------------------------------------------------------
// Fp dependencies and the fp vars a set of terms needs
// ---------------------------------------------------------------------------

/// The fp vars an fp op reads.
pub open spec fn fp_deps(op: EvalCheckFpOp) -> Seq<usize> {
    match op {
        EvalCheckFpOp::Add(l, r) | EvalCheckFpOp::Sub(l, r) | EvalCheckFpOp::Mul(l, r) => seq![l, r],
        _ => Seq::empty(),
    }
}

/// Static dependency list of an fp op; arithmetic operands are reported by
/// `eval_check_note_fp_dependencies` instead, so this list is always empty.
pub fn eval_check_fp_dependencies(op: EvalCheckFpOp) -> (r: &'static [usize])
    ensures
        r@.len() == 0,
{
    match op {
        EvalCheckFpOp::Add(_, _) | EvalCheckFpOp::Sub(_, _) | EvalCheckFpOp::Mul(_, _) => &[],
        _ => &[],
    }
}

/// Push the operands of an arithmetic fp op onto `stack` (left first).
pub fn eval_check_note_fp_dependencies(op: EvalCheckFpOp, stack: &mut Vec<usize>)
    ensures
        final(stack)@ == old(stack)@ + fp_deps(op),
{
    match op {
        EvalCheckFpOp::Add(lhs, rhs) | EvalCheckFpOp::Sub(lhs, rhs) | EvalCheckFpOp::Mul(lhs, rhs) => {
            stack.push(lhs);
            stack.push(rhs);
            assert(stack@ =~= old(stack)@ + fp_deps(op));
        },
        _ => {
            assert(stack@ =~= old(stack)@ + fp_deps(op));
        },
    }
}

/// The fp vars named directly by one term: its inner value, then its
/// conditions.
pub open spec fn term_seed(t: TermSpec) -> Seq<usize> {
    seq![t.2] + t.1
}

/// The fp vars named directly by a list of terms, term by term.
pub open spec fn term_seeds(terms: Seq<TermSpec>) -> Seq<usize>
    decreases terms.len(),
{
    if terms.len() == 0 {
        Seq::empty()
    } else {
        term_seeds(terms.drop_last()) + term_seed(terms.last())
    }
}

pub open spec fn seq_as_int_set(s: Seq<usize>) -> Set<int> {
    Set::new(|x: int| exists|k: int| 0 <= k < s.len() && s[k] as int == x)
}

/// The fp vars named directly by a list of terms (inner values and
/// conditions).
pub open spec fn term_roots(terms: Seq<TermSpec>) -> Set<int> {
    seq_as_int_set(term_seeds(terms))
}

/// `s` contains the operands of every in-range fp var it contains.
pub open spec fn dep_closed(fp: Seq<EvalCheckFpOp>, s: Set<int>) -> bool {
    forall|v: int, j: int|
        #![trigger s.contains(v), fp_deps(fp[v])[j]]
        s.contains(v) && 0 <= v < fp.len() && 0 <= j < fp_deps(fp[v]).len() ==> s.contains(
            fp_deps(fp[v])[j] as int,
        )
}

/// `x` is reachable from `roots` through fp operands: it belongs to every
/// operand-closed set that contains the roots.
pub open spec fn fp_reachable(fp: Seq<EvalCheckFpOp>, roots: Set<int>, x: int) -> bool {
    forall|t: Set<int>| #[trigger] dep_closed(fp, t) && roots.subset_of(t) ==> t.contains(x)
}

/// The fp vars needed by `terms` are in strictly increasing order and are
/// exactly the fp vars reachable from the terms.
pub open spec fn needed_vars_spec(fp: Seq<EvalCheckFpOp>, terms: Seq<TermSpec>, v: Seq<usize>) -> bool {
    &&& forall|a: int, b: int| 0 <= a < b < v.len() ==> v[a] < v[b]
    &&& forall|x: int| #![trigger fp_reachable(fp, term_roots(terms), x)]
        fp_reachable(fp, term_roots(terms), x) <==> exists|k: int| 0 <= k < v.len() && v[k] == x
}

/// The fp vars, in increasing order, that computing `terms` needs.
pub fn eval_check_needed_fp_vars(program: &EvalCheckProgram, terms: &[EvalCheckTerm]) -> (res: Result<
    Vec<usize>,
    EvalCheckError,
>)
    ensures
        match res {
            Ok(v) => needed_vars_spec(program.fp_ops@, terms_spec(terms@), v@),
            Err(e) => e is FpVarOutOfRange && e->FpVarOutOfRange_0 >= program.fp_ops@.len()
                && fp_reachable(program.fp_ops@, term_roots(terms_spec(terms@)), e->FpVarOutOfRange_0 as int),
        },
        res is Ok <==> forall|x: int|
            #[trigger] fp_reachable(program.fp_ops@, term_roots(terms_spec(terms@)), x) ==> 0 <= x
                < program.fp_ops@.len(),
{
    let ghost fp = program.fp_ops@;
    let ghost ts = terms_spec(terms@);
    let ghost roots = term_roots(ts);
    let n = program.fp_ops.len();
    let mut visited: Vec<bool> = Vec::new();
    while visited.len() < n
        invariant
            visited@.len() <= n,
            forall|k: int| 0 <= k < visited@.len() ==> !visited@[k],
        decreases n - visited@.len(),
    {
        visited.push(false);
    }
    // Seed the stack with every term's inner value and conditions.
    let mut stack: Vec<usize> = Vec::new();
    let mut ti: usize = 0;
    assert(ts.take(0) =~= Seq::<TermSpec>::empty());
    assert(stack@ =~= term_seeds(ts.take(0)));
    while ti < terms.len()
        invariant
            0 <= ti <= terms@.len(),
            ts == terms_spec(terms@),
            stack@ == term_seeds(ts.take(ti as int)),
        decreases terms@.len() - ti,
    {
        let term = &terms[ti];
        assert(ts[ti as int] == term.spec());
        let ghost base = stack@;
        stack.push(term.inner);
        let mut ci: usize = 0;
        while ci < term.conds.len()
            invariant
                0 <= ci <= term.conds@.len(),
                stack@ == base + seq![term.inner] + term.conds@.take(ci as int),
            decreases term.conds@.len() - ci,
        {
            let c = term.conds[ci];
            stack.push(c);
            ci = ci + 1;
            assert(stack@ =~= base + seq![term.inner] + term.conds@.take(ci as int));
        }
        assert(term.conds@.take(term.conds@.len() as int) =~= term.conds@);
        assert(ts.take(ti + 1).drop_last() =~= ts.take(ti as int));
        assert(stack@ =~= term_seeds(ts.take(ti + 1)));
        ti = ti + 1;
    }
    assert(ts.take(ts.len() as int) =~= ts);
    proof {
        assert forall|x: int| roots.contains(x) implies stack@.contains(x as usize) by {
            let k = choose|k: int| 0 <= k < stack@.len() && stack@[k] as int == x;
            assert(stack@[k] == x as usize);
        }
        assert forall|k: int| 0 <= k < stack@.len() implies roots.contains(#[trigger] stack@[k] as int) by {
        }
    }
    let ghost mut vset: Set<int> = Set::empty();
    while stack.len() > 0
        invariant
            fp == program.fp_ops@,
            n == fp.len(),
            roots == term_roots(terms_spec(terms@)),
            visited@.len() == n,
            vset.finite(),
            forall|x: int| vset.contains(x) <==> 0 <= x < n && visited@[x],
            forall|x: int| roots.contains(x) ==> vset.contains(x) || stack@.contains(x as usize),
            forall|x: int, j: int|
                #![trigger vset.contains(x), fp_deps(fp[x])[j]]
                vset.contains(x) && 0 <= j < fp_deps(fp[x]).len() ==> vset.contains(
                    fp_deps(fp[x])[j] as int,
                ) || stack@.contains(fp_deps(fp[x])[j]),
            forall|t: Set<int>|
                #[trigger] dep_closed(fp, t) && roots.subset_of(t) ==> vset.subset_of(t) && forall|
                    k: int,
                | 0 <= k < stack@.len() ==> t.contains(stack@[k] as int),
        decreases n - vset.len(), stack@.len(),
    {
        let ghost old_stack = stack@;
        let var = stack.pop().unwrap();
        assert(old_stack == stack@.push(var));
        if var >= n {
            proof {
                assert forall|t: Set<int>| #[trigger] dep_closed(fp, t) && roots.subset_of(t) implies t.contains(
                    var as int,
                ) by {
                    assert(old_stack[old_stack.len() - 1] == var);
                }
                assert(fp_reachable(fp, roots, var as int));
                assert(!(var < n));
            }
            return Err(EvalCheckError::FpVarOutOfRange(var));
        }
        if visited[var] {
            proof {
                assert forall|x: int| roots.contains(x) implies vset.contains(x) || stack@.contains(
                    x as usize,
                ) by {
                    if old_stack.contains(x as usize) && !stack@.contains(x as usize) {
                        let k = choose|k: int| 0 <= k < old_stack.len() && old_stack[k] == x as usize;
                        if k < stack@.len() {
                            assert(stack@[k] == x as usize);
                        }
                    }
                }
                assert forall|x: int, j: int|
                    vset.contains(x) && 0 <= j < fp_deps(fp[x]).len() implies vset.contains(
                    fp_deps(fp[x])[j] as int,
                ) || stack@.contains(fp_deps(fp[x])[j]) by {
                    let d = fp_deps(fp[x])[j];
                    if old_stack.contains(d) && !stack@.contains(d) {
                        let k = choose|k: int| 0 <= k < old_stack.len() && old_stack[k] == d;
                        if k < stack@.len() {
                            assert(stack@[k] == d);
                        }
                    }
                }
                assert forall|t: Set<int>| #[trigger] dep_closed(fp, t) && roots.subset_of(t) implies vset.subset_of(
                    t,
                ) && forall|k: int| 0 <= k < stack@.len() ==> t.contains(stack@[k] as int) by {
                    assert forall|k: int| 0 <= k < stack@.len() implies t.contains(stack@[k] as int) by {
                        assert(stack@[k] == old_stack[k]);
                    }
                }
            }
            continue;
        }
        visited.set(var, true);
        let ghost old_vset = vset;
        proof {
            vset = vset.insert(var as int);
            assert(vset.len() == old_vset.len() + 1);
            vstd::set_lib::lemma_int_range(0, n as int);
            assert(vset.subset_of(vstd::set_lib::set_int_range(0, n as int)));
            vstd::set_lib::lemma_len_subset(vset, vstd::set_lib::set_int_range(0, n as int));
        }
        let op = program.fp_ops[var];
        let ghost before_deps = stack@;
        eval_check_note_fp_dependencies(op, &mut stack);
        proof {
            assert(stack@ == before_deps + fp_deps(fp[var as int]));
            assert forall|x: int| roots.contains(x) implies vset.contains(x) || stack@.contains(
                x as usize,
            ) by {
                if old_stack.contains(x as usize) && x != var as int {
                    let k = choose|k: int| 0 <= k < old_stack.len() && old_stack[k] == x as usize;
                    assert(k < before_deps.len());
                    assert(stack@[k] == x as usize);
                }
            }
            assert forall|x: int, j: int|
                vset.contains(x) && 0 <= j < fp_deps(fp[x]).len() implies vset.contains(
                fp_deps(fp[x])[j] as int,
            ) || stack@.contains(fp_deps(fp[x])[j]) by {
                let d = fp_deps(fp[x])[j];
                if x == var as int {
                    assert(stack@[before_deps.len() + j] == d);
                } else if !vset.contains(d as int) {
                    assert(old_vset.contains(x));
                    assert(old_stack.contains(d));
                    let k = choose|k: int| 0 <= k < old_stack.len() && old_stack[k] == d;
                    assert(k < before_deps.len());
                    assert(stack@[k] == d);
                }
            }
            assert forall|t: Set<int>| #[trigger] dep_closed(fp, t) && roots.subset_of(t) implies vset.subset_of(
                t,
            ) && forall|k: int| 0 <= k < stack@.len() ==> t.contains(stack@[k] as int) by {
                assert(t.contains(var as int)) by {
                    assert(old_stack[old_stack.len() - 1] == var);
                }
                assert forall|k: int| 0 <= k < stack@.len() implies t.contains(stack@[k] as int) by {
                    if k < before_deps.len() {
                        assert(stack@[k] == old_stack[k]);
                    } else {
                        let j = k - before_deps.len();
                        assert(stack@[k] == fp_deps(fp[var as int])[j]);
                    }
                }
            }
        }
    }
    // Collect the visited vars in increasing order.
    let mut needed: Vec<usize> = Vec::new();
    let mut i: usize = 0;
    while i < n
        invariant
            0 <= i <= n,
            visited@.len() == n,
            forall|a: int, b: int| 0 <= a < b < needed@.len() ==> needed@[a] < needed@[b],
            forall|k: int| 0 <= k < needed@.len() ==> needed@[k] < i,
            forall|x: int|
                0 <= x < i ==> (visited@[x] <==> exists|k: int| 0 <= k < needed@.len() && needed@[k]
                    == x),
            forall|k: int| 0 <= k < needed@.len() ==> visited@[needed@[k] as int],
        decreases n - i,
    {
        let ghost old_needed = needed@;
        if visited[i] {
            needed.push(i);
            assert(needed@[needed@.len() - 1] == i);
        }
        assert forall|x: int|
            0 <= x < i + 1 implies (visited@[x] <==> exists|k: int| 0 <= k < needed@.len() && needed@[k]
                == x) by {
            if x < i {
                if exists|k: int| 0 <= k < old_needed.len() && old_needed[k] == x {
                    let k = choose|k: int| 0 <= k < old_needed.len() && old_needed[k] == x;
                    assert(needed@[k] == x);
                }
                if exists|k: int| 0 <= k < needed@.len() && needed@[k] == x {
                    let k = choose|k: int| 0 <= k < needed@.len() && needed@[k] == x;
                    assert(k < old_needed.len());
                    assert(old_needed[k] == x);
                }
            } else {
                if visited@[x] {
                    assert(needed@[needed@.len() - 1] == x);
                }
            }
        }
        i = i + 1;
    }
    proof {
        assert(dep_closed(fp, vset)) by {
            assert forall|v: int, j: int|
                vset.contains(v) && 0 <= v < fp.len() && 0 <= j < fp_deps(fp[v]).len() implies vset.contains(
                fp_deps(fp[v])[j] as int,
            ) by {
                assert(!stack@.contains(fp_deps(fp[v])[j]));
            }
        }
        assert(roots.subset_of(vset)) by {
            assert forall|x: int| roots.contains(x) implies vset.contains(x) by {
                assert(!stack@.contains(x as usize));
            }
        }
        assert forall|x: int| #![trigger fp_reachable(fp, roots, x)]
            fp_reachable(fp, roots, x) <==> exists|k: int| 0 <= k < needed@.len() && needed@[k] == x by {
            if fp_reachable(fp, roots, x) {
                assert(vset.contains(x));
            }
            if exists|k: int| 0 <= k < needed@.len() && needed@[k] == x {
                let k = choose|k: int| 0 <= k < needed@.len() && needed@[k] == x;
                assert(visited@[x]);
                assert(vset.contains(x));
            }
        }
    }
    Ok(needed)
}

// ---------------------------------------------------------------------------
// Splitting terms into shader-sized chunks
// ---------------------------------------------------------------------------

/// Most terms one split shader evaluates.
pub const WEBGPU_EVAL_CHECK_SPLIT_TERMS_PER_SHADER: usize = 64;
/// Most fp ops one split shader evaluates.
pub const WEBGPU_EVAL_CHECK_SPLIT_FP_OPS_PER_SHADER: usize = 2048;

/// The fp vars one term needs.
pub open spec fn term_need(fp: Seq<EvalCheckFpOp>, t: TermSpec) -> Set<int> {
    Set::new(|x: int| fp_reachable(fp, term_roots(seq![t]), x))
}

/// Every fp var one term needs exists.
pub open spec fn term_in_range(fp: Seq<EvalCheckFpOp>, t: TermSpec) -> bool {
    forall|x: int| #[trigger] fp_reachable(fp, term_roots(seq![t]), x) ==> 0 <= x < fp.len()
}

pub type SplitState = (Seq<Seq<TermSpec>>, Seq<TermSpec>, Set<int>);

/// Greedy chunking of the terms `ts`, in order: closed chunks, the open
/// chunk, and the fp vars the open chunk needs. A term whose fp vars do not
/// all exist, or that alone needs more fp ops than one shader holds, stops
/// the walk with its index. A new chunk is started when the open chunk
/// already holds the most terms, or when adding the term would exceed the
/// fp-op budget.
pub open spec fn split_state(fp: Seq<EvalCheckFpOp>, ts: Seq<TermSpec>) -> Result<SplitState, int>
    decreases ts.len(),
{
    if ts.len() == 0 {
        Ok((Seq::empty(), Seq::empty(), Set::empty()))
    } else {
        match split_state(fp, ts.drop_last()) {
            Err(k) => Err(k),
            Ok(st) => {
                let (chunks, cur, cn) = st;
                let t = ts.last();
                let need = term_need(fp, t);
                if !term_in_range(fp, t) || need.len() > WEBGPU_EVAL_CHECK_SPLIT_FP_OPS_PER_SHADER {
                    Err(ts.len() - 1)
                } else if cur.len() > 0 && (cur.len() >= WEBGPU_EVAL_CHECK_SPLIT_TERMS_PER_SHADER
                    || cn.union(need).len() > WEBGPU_EVAL_CHECK_SPLIT_FP_OPS_PER_SHADER) {
                    Ok((chunks.push(cur), seq![t], need))
                } else {
                    Ok((chunks, cur.push(t), cn.union(need)))
                }
            },
        }
    }
}

/// The chunks produced for `ts`, or the index of the term that stopped it.
pub open spec fn split_result(fp: Seq<EvalCheckFpOp>, ts: Seq<TermSpec>) -> Result<
    Seq<Seq<TermSpec>>,
    int,
> {
    match split_state(fp, ts) {
        Err(k) => Err(k),
        Ok(st) => Ok(if st.1.len() > 0 { st.0.push(st.1) } else { st.0 }),
    }
}

pub open spec fn chunks_spec(v: Seq<Vec<EvalCheckTerm>>) -> Seq<Seq<TermSpec>> {
    v.map_values(|c: Vec<EvalCheckTerm>| terms_spec(c@))
}

/// A copy of a term.
pub fn clone_term(t: &EvalCheckTerm) -> (r: EvalCheckTerm)
    ensures
        r.spec() == t.spec(),
{
    EvalCheckTerm { mix_exp: t.mix_exp, conds: copy_indices(&t.conds), inner: t.inner }
}

proof fn lemma_split_err_sticks(fp: Seq<EvalCheckFpOp>, ts: Seq<TermSpec>, i: int)
    requires
        0 <= i <= ts.len(),
        split_state(fp, ts.take(i)) is Err,
    ensures
        split_state(fp, ts) == split_state(fp, ts.take(i)),
    decreases ts.len() - i,
{
    if i < ts.len() {
        assert(ts.take(i + 1).drop_last() =~= ts.take(i));
        lemma_split_err_sticks(fp, ts, i + 1);
    } else {
        assert(ts.take(i) =~= ts);
    }
}

proof fn lemma_need_is_vec(fp: Seq<EvalCheckFpOp>, t: TermSpec, v: Seq<usize>)
    requires
        needed_vars_spec(fp, seq![t], v),
    ensures
        term_in_range(fp, t) ==> term_need(fp, t).finite(),
        term_need(fp, t) == seq_as_int_set(v),
        term_need(fp, t).len() == v.len(),
{
    assert(term_need(fp, t) =~= seq_as_int_set(v)) by {
        assert forall|x: int| term_need(fp, t).contains(x) <==> seq_as_int_set(v).contains(x) by {
            if seq_as_int_set(v).contains(x) {
                let k = choose|k: int| 0 <= k < v.len() && v[k] as int == x;
                assert(fp_reachable(fp, term_roots(seq![t]), x));
            }
        }
    }
    lemma_distinct_seq_set_len(v);
}

proof fn lemma_subset_range_len(s: Set<int>, n: int)
    requires
        n >= 0,
        forall|x: int| s.contains(x) ==> 0 <= x < n,
    ensures
        s.finite(),
        s.len() <= n,
{
    vstd::set_lib::lemma_int_range(0, n);
    assert(s.subset_of(vstd::set_lib::set_int_range(0, n)));
    vstd::set_lib::lemma_len_subset(s, vstd::set_lib::set_int_range(0, n));
}

proof fn lemma_seq_set_take_push(v: Seq<usize>, j: int)
    requires
        0 <= j < v.len(),
        forall|a: int, b: int| 0 <= a < b < v.len() ==> v[a] < v[b],
    ensures
        seq_as_int_set(v.take(j + 1)) == seq_as_int_set(v.take(j)).insert(v[j] as int),
        !seq_as_int_set(v.take(j)).contains(v[j] as int),
{
    let a = v.take(j + 1);
    let b = v.take(j);
    assert(seq_as_int_set(a) =~= seq_as_int_set(b).insert(v[j] as int)) by {
        assert forall|x: int| seq_as_int_set(a).contains(x) implies seq_as_int_set(b).insert(
            v[j] as int,
        ).contains(x) by {
            let k = choose|k: int| 0 <= k < a.len() && a[k] as int == x;
            if k < j {
                assert(b[k] as int == x);
            }
        }
        assert forall|x: int| seq_as_int_set(b).insert(v[j] as int).contains(x) implies seq_as_int_set(
            a,
        ).contains(x) by {
            if x == v[j] as int {
                assert(a[j] as int == x);
            } else {
                let k = choose|k: int| 0 <= k < b.len() && b[k] as int == x;
                assert(a[k] as int == x);
            }
        }
    }
    if seq_as_int_set(b).contains(v[j] as int) {
        let k = choose|k: int| 0 <= k < b.len() && b[k] as int == v[j] as int;
        assert(v[k] < v[j]);
    }
}

proof fn lemma_distinct_seq_set_len(v: Seq<usize>)
    requires
        forall|a: int, b: int| 0 <= a < b < v.len() ==> v[a] < v[b],
    ensures
        seq_as_int_set(v).finite(),
        seq_as_int_set(v).len() == v.len(),
    decreases v.len(),
{
    if v.len() == 0 {
        assert(seq_as_int_set(v) =~= Set::<int>::empty());
    } else {
        let w = v.drop_last();
        lemma_distinct_seq_set_len(w);
        assert(seq_as_int_set(v) =~= seq_as_int_set(w).insert(v.last() as int)) by {
            assert forall|x: int| seq_as_int_set(v).contains(x) implies seq_as_int_set(w).insert(
                v.last() as int,
            ).contains(x) by {
                let k = choose|k: int| 0 <= k < v.len() && v[k] as int == x;
                if k < w.len() {
                    assert(w[k] == v[k]);
                }
            }
            assert forall|x: int| seq_as_int_set(w).insert(v.last() as int).contains(x) implies seq_as_int_set(
                v,
            ).contains(x) by {
                if x != v.last() as int {
                    let k = choose|k: int| 0 <= k < w.len() && w[k] as int == x;
                    assert(v[k] == w[k]);
                } else {
                    assert(v[v.len() - 1] as int == x);
                }
            }
        }
        assert(!seq_as_int_set(w).contains(v.last() as int)) by {
            if seq_as_int_set(w).contains(v.last() as int) {
                let k = choose|k: int| 0 <= k < w.len() && w[k] as int == v.last() as int;
                assert(v[k] < v[v.len() - 1]);
            }
        }
    }
}

/// Split the terms into chunks that each fit one shader: at most
/// `WEBGPU_EVAL_CHECK_SPLIT_TERMS_PER_SHADER` terms and at most
/// `WEBGPU_EVAL_CHECK_SPLIT_FP_OPS_PER_SHADER` distinct fp ops, filled
/// greedily in term order.
pub fn eval_check_split_term_chunks(program: &EvalCheckProgram, terms: &[EvalCheckTerm]) -> (res: Result<
    Vec<Vec<EvalCheckTerm>>,
    EvalCheckError,
>)
    ensures
        match res {
            Ok(chunks) => split_result(program.fp_ops@, terms_spec(terms@)) == Ok::<
                Seq<Seq<TermSpec>>,
                int,
            >(chunks_spec(chunks@)),
            Err(e) => split_result(program.fp_ops@, terms_spec(terms@)) is Err && ({
                let k = split_result(program.fp_ops@, terms_spec(terms@))->Err_0;
                let t = terms_spec(terms@)[k];
                &&& 0 <= k < terms@.len()
                &&& if term_in_range(program.fp_ops@, t) {
                    e == EvalCheckError::SplitTermTooLarge {
                        needed: term_need(program.fp_ops@, t).len() as usize,
                        max: WEBGPU_EVAL_CHECK_SPLIT_FP_OPS_PER_SHADER,
                    }
                } else {
                    e is FpVarOutOfRange && e->FpVarOutOfRange_0 >= program.fp_ops@.len() && fp_reachable(
                        program.fp_ops@,
                        term_roots(seq![t]),
                        e->FpVarOutOfRange_0 as int,
                    )
                }
            }),
        },
{
    let ghost fp = program.fp_ops@;
    let ghost ts = terms_spec(terms@);
    let n = program.fp_ops.len();
    let mut chunks: Vec<Vec<EvalCheckTerm>> = Vec::new();
    let mut cur_terms: Vec<EvalCheckTerm> = Vec::new();
    // Membership marks, their count, and the marked vars, for the open
    // chunk's needed fp vars.
    let mut marks: Vec<bool> = Vec::new();
    while marks.len() < n
        invariant
            marks@.len() <= n,
            forall|k: int| 0 <= k < marks@.len() ==> !marks@[k],
        decreases n - marks@.len(),
    {
        marks.push(false);
    }
    let mut marked: Vec<usize> = Vec::new();
    let mut cur_count: usize = 0;
    let ghost mut cur_set: Set<int> = Set::empty();
    let mut i: usize = 0;
    assert(ts.take(0) =~= Seq::<TermSpec>::empty());
    assert(chunks_spec(chunks@) =~= Seq::<Seq<TermSpec>>::empty());
    assert(terms_spec(cur_terms@) =~= Seq::<TermSpec>::empty());
    while i < terms.len()
        invariant
            0 <= i <= terms@.len(),
            fp == program.fp_ops@,
            n == fp.len(),
            ts == terms_spec(terms@),
            split_state(fp, ts.take(i as int)) == Ok::<SplitState, int>(
                (chunks_spec(chunks@), terms_spec(cur_terms@), cur_set),
            ),
            marks@.len() == n,
            cur_set.finite(),
            cur_count == cur_set.len(),
            forall|x: int| #[trigger] cur_set.contains(x) <==> 0 <= x < n && marks@[x],
            forall|k: int| 0 <= k < marked@.len() ==> cur_set.contains(#[trigger] marked@[k] as int),
            forall|x: int| #[trigger] cur_set.contains(x) ==> exists|k: int| 0 <= k < marked@.len() && marked@[k] == x,
        decreases terms@.len() - i,
    {
        let term = &terms[i];
        assert(ts[i as int] == term.spec());
        let ghost prefix = ts.take(i as int);
        assert(ts.take(i + 1).drop_last() =~= prefix);
        assert(ts.take(i + 1).last() == term.spec());
        let mut single: Vec<EvalCheckTerm> = Vec::new();
        single.push(clone_term(term));
        assert(terms_spec(single@) =~= seq![term.spec()]);
        let term_needed = match eval_check_needed_fp_vars(program, single.as_slice()) {
            Ok(v) => v,
            Err(e) => {
                proof {
                    assert(!term_in_range(fp, term.spec()));
                    assert(split_state(fp, ts.take(i + 1)) == Err::<SplitState, int>(i as int));
                    lemma_split_err_sticks(fp, ts, i + 1);
                }
                return Err(e);
            },
        };
        proof {
            lemma_need_is_vec(fp, term.spec(), term_needed@);
            assert(term_in_range(fp, term.spec()));
        }
        let ghost need = term_need(fp, term.spec());
        proof {
            assert forall|k: int| 0 <= k < term_needed@.len() implies (#[trigger] term_needed@[k]) < n by {
                assert(fp_reachable(fp, term_roots(seq![term.spec()]), term_needed@[k] as int));
            }
            assert(seq_as_int_set(term_needed@.take(0)) =~= Set::<int>::empty());
            assert(cur_set.union(Set::<int>::empty()) =~= cur_set);
            lemma_subset_range_len(cur_set, n as int);
        }
        if term_needed.len() > WEBGPU_EVAL_CHECK_SPLIT_FP_OPS_PER_SHADER {
            proof {
                assert(split_state(fp, ts.take(i + 1)) == Err::<SplitState, int>(i as int));
                lemma_split_err_sticks(fp, ts, i + 1);
            }
            return Err(
                EvalCheckError::SplitTermTooLarge {
                    needed: term_needed.len(),
                    max: WEBGPU_EVAL_CHECK_SPLIT_FP_OPS_PER_SHADER,
                },
            );
        }
        // Size of the union of the open chunk's vars with this term's.
        let mut next_needed_len: usize = cur_count;
        let mut j: usize = 0;
        let ghost mut acc: Set<int> = cur_set;
        while j < term_needed.len()
            invariant
                0 <= j <= term_needed@.len(),
                marks@.len() == n,
                n == fp.len(),
                cur_set.finite(),
                forall|x: int| #[trigger] cur_set.contains(x) <==> 0 <= x < n && marks@[x],
                forall|a: int, b: int|
                    0 <= a < b < term_needed@.len() ==> term_needed@[a] < term_needed@[b],
                forall|k: int| 0 <= k < term_needed@.len() ==> (#[trigger] term_needed@[k]) < n,
                acc == cur_set.union(seq_as_int_set(term_needed@.take(j as int))),
                acc.finite(),
                next_needed_len == acc.len(),
                acc.len() <= n,
            decreases term_needed@.len() - j,
        {
            let v = term_needed[j];
            proof {
                lemma_seq_set_take_push(term_needed@, j as int);
            }
            let ghost old_acc = acc;
            proof {
                acc = acc.insert(v as int);
                assert(acc =~= cur_set.union(seq_as_int_set(term_needed@.take(j + 1))));
                assert forall|x: int| acc.contains(x) implies 0 <= x < n by {
                    if x != v as int && !cur_set.contains(x) {
                        assert(seq_as_int_set(term_needed@.take(j as int)).contains(x));
                        let k = choose|k: int| 0 <= k < j && term_needed@.take(j as int)[k] as int == x;
                        assert(term_needed@[k] < n);
                    }
                }
                lemma_subset_range_len(acc, n as int);
                assert(old_acc.contains(v as int) <==> marks@[v as int]);
            }
            if !marks[v] {
                next_needed_len = next_needed_len + 1;
            }
            j = j + 1;
        }
        proof {
            assert(term_needed@.take(term_needed@.len() as int) =~= term_needed@);
            assert(acc =~= cur_set.union(need));
        }
        let ghost old_chunks = chunks_spec(chunks@);
        let ghost old_cur = terms_spec(cur_terms@);
        if cur_terms.len() > 0 && (cur_terms.len() >= WEBGPU_EVAL_CHECK_SPLIT_TERMS_PER_SHADER
            || next_needed_len > WEBGPU_EVAL_CHECK_SPLIT_FP_OPS_PER_SHADER) {
            let done = cur_terms;
            cur_terms = Vec::new();
            chunks.push(done);
            // Clear the marks of the open chunk.
            let mut k: usize = 0;
            while k < marked.len()
                invariant
                    0 <= k <= marked@.len(),
                    marks@.len() == n,
                    forall|x: int| 0 <= x < n && #[trigger] marks@[x] ==> cur_set.contains(x) && forall|
                        q: int,
                    | 0 <= q < k ==> marked@[q] != x,
                    forall|q: int| 0 <= q < marked@.len() ==> cur_set.contains(#[trigger] marked@[q] as int),
                    forall|x: int| #[trigger] cur_set.contains(x) ==> 0 <= x < n,
                decreases marked@.len() - k,
            {
                let v = marked[k];
                marks.set(v, false);
                k = k + 1;
            }
            marked = Vec::new();
            cur_count = 0;
            proof {
                cur_set = Set::empty();
                assert(chunks_spec(chunks@) =~= old_chunks.push(old_cur));
                assert forall|x: int| 0 <= x < n implies !marks@[x] by {
                    if marks@[x] {
                        let q = choose|q: int| 0 <= q < marked@.len() && marked@[q] == x;
                    }
                }
            }
        }
        // Add this term's vars to the open chunk.
        let ghost base_set = cur_set;
        let mut j: usize = 0;
        while j < term_needed.len()
            invariant
                0 <= j <= term_needed@.len(),
                marks@.len() == n,
                n == fp.len(),
                cur_set.finite(),
                cur_count == cur_set.len(),
                cur_set == base_set.union(seq_as_int_set(term_needed@.take(j as int))),
                forall|x: int| #[trigger] cur_set.contains(x) <==> 0 <= x < n && marks@[x],
                forall|k: int| 0 <= k < marked@.len() ==> cur_set.contains(#[trigger] marked@[k] as int),
                forall|x: int| #[trigger] cur_set.contains(x) ==> exists|k: int| 0 <= k < marked@.len() && marked@[k] == x,
                forall|k: int| 0 <= k < term_needed@.len() ==> (#[trigger] term_needed@[k]) < n,
                forall|a: int, b: int|
                    0 <= a < b < term_needed@.len() ==> term_needed@[a] < term_needed@[b],
            decreases term_needed@.len() - j,
        {
            let v = term_needed[j];
            proof {
                lemma_seq_set_take_push(term_needed@, j as int);
            }
            let ghost old_set = cur_set;
            let ghost old_marked = marked@;
            if !marks[v] {
                proof {
                    let ns = cur_set.insert(v as int);
                    assert forall|x: int| ns.contains(x) implies 0 <= x < n by {}
                    lemma_subset_range_len(ns, n as int);
                }
                marks.set(v, true);
                marked.push(v);
                cur_count = cur_count + 1;
            }
            proof {
                cur_set = cur_set.insert(v as int);
                assert forall|k: int| 0 <= k < marked@.len() implies cur_set.contains(#[trigger] marked@[k] as int) by {
                    if k < old_marked.len() {
                        assert(marked@[k] == old_marked[k]);
                    }
                }
                assert forall|x: int| #[trigger] cur_set.contains(x) implies exists|k: int|
                    0 <= k < marked@.len() && marked@[k] == x by {
                    if old_set.contains(x) {
                        let k = choose|k: int| 0 <= k < old_marked.len() && old_marked[k] == x;
                        assert(marked@[k] == x);
                    } else {
                        assert(marked@[marked@.len() - 1] == x);
                    }
                }
                assert(cur_set =~= base_set.union(seq_as_int_set(term_needed@.take(j + 1))));
            }
            j = j + 1;
        }
        proof {
            assert(term_needed@.take(term_needed@.len() as int) =~= term_needed@);
            assert(cur_set =~= base_set.union(need));
        }
        cur_terms.push(clone_term(term));
        proof {
            if old_cur.len() > 0 && (old_cur.len() >= WEBGPU_EVAL_CHECK_SPLIT_TERMS_PER_SHADER
                || next_needed_len > WEBGPU_EVAL_CHECK_SPLIT_FP_OPS_PER_SHADER) {
                assert(base_set =~= Set::<int>::empty());
                assert(cur_set =~= need);
                assert(terms_spec(cur_terms@) =~= seq![term.spec()]);
            } else {
                assert(terms_spec(cur_terms@) =~= old_cur.push(term.spec()));
            }
        }
        i = i + 1;
    }
    assert(ts.take(ts.len() as int) =~= ts);
    if cur_terms.len() > 0 {
        let ghost before = chunks_spec(chunks@);
        let ghost last = terms_spec(cur_terms@);
        chunks.push(cur_terms);
        assert(chunks_spec(chunks@) =~= before.push(last));
    }
    Ok(chunks)
}

/// The fp vars a chunk of terms needs.
pub open spec fn chunk_need(fp: Seq<EvalCheckFpOp>, c: Seq<TermSpec>) -> Set<int>
    decreases c.len(),
{
    if c.len() == 0 {
        Set::empty()
    } else {
        chunk_need(fp, c.drop_last()).union(term_need(fp, c.last()))
    }
}

pub open spec fn chunk_ok(fp: Seq<EvalCheckFpOp>, c: Seq<TermSpec>) -> bool {
    &&& 0 < c.len() <= WEBGPU_EVAL_CHECK_SPLIT_TERMS_PER_SHADER
    &&& chunk_need(fp, c).finite()
    &&& chunk_need(fp, c).len() <= WEBGPU_EVAL_CHECK_SPLIT_FP_OPS_PER_SHADER
}

proof fn lemma_term_need_finite(fp: Seq<EvalCheckFpOp>, t: TermSpec)
    requires
        term_in_range(fp, t),
    ensures
        term_need(fp, t).finite(),
{
    lemma_subset_range_len(term_need(fp, t), fp.len() as int);
}

proof fn lemma_split_state_invariant(fp: Seq<EvalCheckFpOp>, ts: Seq<TermSpec>)
    requires
        split_state(fp, ts) is Ok,
    ensures
        ({
            let (chunks, cur, cn) = split_state(fp, ts)->Ok_0;
            &&& chunks.flatten() + cur == ts
            &&& forall|k: int| 0 <= k < chunks.len() ==> chunk_ok(fp, #[trigger] chunks[k])
            &&& cur.len() <= WEBGPU_EVAL_CHECK_SPLIT_TERMS_PER_SHADER
            &&& cn == chunk_need(fp, cur)
            &&& cn.finite()
            &&& cn.len() <= WEBGPU_EVAL_CHECK_SPLIT_FP_OPS_PER_SHADER
            &&& cur.len() == 0 ==> cn.len() == 0
        }),
    decreases ts.len(),
{
    if ts.len() == 0 {
        assert(Seq::<Seq<TermSpec>>::empty().flatten() =~= Seq::<TermSpec>::empty());
        assert(Seq::<TermSpec>::empty() + Seq::<TermSpec>::empty() =~= ts);
    } else {
        let prev = ts.drop_last();
        lemma_split_state_invariant(fp, prev);
        let (chunks, cur, cn) = split_state(fp, prev)->Ok_0;
        let t = ts.last();
        let need = term_need(fp, t);
        lemma_term_need_finite(fp, t);
        if cur.len() > 0 && (cur.len() >= WEBGPU_EVAL_CHECK_SPLIT_TERMS_PER_SHADER
            || cn.union(need).len() > WEBGPU_EVAL_CHECK_SPLIT_FP_OPS_PER_SHADER) {
            chunks.lemma_flatten_push(cur);
            assert(seq![t].drop_last() =~= Seq::<TermSpec>::empty());
            assert(seq![t].last() == t);
            assert(chunk_need(fp, Seq::<TermSpec>::empty()) == Set::<int>::empty());
            assert(chunk_need(fp, seq![t]) =~= Set::<int>::empty().union(need));
            assert(chunks.push(cur).flatten() + seq![t] =~= ts);
            assert forall|k: int| 0 <= k < chunks.push(cur).len() implies chunk_ok(
                fp,
                #[trigger] chunks.push(cur)[k],
            ) by {
                if k < chunks.len() {
                    assert(chunks.push(cur)[k] == chunks[k]);
                }
            }
        } else {
            assert(cur.push(t).drop_last() =~= cur);
            assert(cur.push(t).last() == t);
            assert(ts =~= prev.push(t));
            assert(chunks.flatten() + cur.push(t) =~= (chunks.flatten() + cur).push(t));
            if cur.len() == 0 {
                assert(cn =~= Set::<int>::empty());
                assert(cn.union(need) =~= need);
            }
        }
    }
}

/// Law: when splitting succeeds, the chunks are the terms in their original
/// order, every chunk is non-empty, holds at most
/// `WEBGPU_EVAL_CHECK_SPLIT_TERMS_PER_SHADER` terms, and needs at most
/// `WEBGPU_EVAL_CHECK_SPLIT_FP_OPS_PER_SHADER` distinct fp vars.
pub proof fn lemma_split_chunks_partition_terms(fp: Seq<EvalCheckFpOp>, ts: Seq<TermSpec>)
    requires
        split_result(fp, ts) is Ok,
    ensures
        split_result(fp, ts)->Ok_0.flatten() == ts,
        forall|k: int|
            0 <= k < split_result(fp, ts)->Ok_0.len() ==> chunk_ok(
                fp,
                #[trigger] split_result(fp, ts)->Ok_0[k],
            ),
{
    lemma_split_state_invariant(fp, ts);
    let (chunks, cur, cn) = split_state(fp, ts)->Ok_0;
    if cur.len() > 0 {
        chunks.lemma_flatten_push(cur);
        assert forall|k: int| 0 <= k < chunks.push(cur).len() implies chunk_ok(
            fp,
            #[trigger] chunks.push(cur)[k],
        ) by {
            if k < chunks.len() {
                assert(chunks.push(cur)[k] == chunks[k]);
            }
        }
    } else {
        assert(chunks.flatten() + cur =~= chunks.flatten());
    }
}

} // verus!
