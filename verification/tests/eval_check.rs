use webgpu_hal::eval_check::program::{
    eval_check_flatten_terms, eval_check_fp_dependencies, eval_check_mix_exponents,
    eval_check_needed_fp_vars, eval_check_note_fp_dependencies, eval_check_program,
    eval_check_split_term_chunks, EvalCheckTerm, WEBGPU_EVAL_CHECK_SPLIT_TERMS_PER_SHADER,
};
use webgpu_hal::eval_check::powers::{
    eval_check_all_mix_pows, eval_check_ext_const, eval_check_mix_pows, eval_check_zerofier_inv_words,
};
use webgpu_hal::eval_check::reorder::eval_check_reorder_lazy;
use webgpu_hal::eval_check::tape::{EvalCheckError, EvalCheckFpOp, EvalCheckMixOp, PolyExtStep, PolyExtStepDef};
use webgpu_hal::field::ExtWords;


fn sample_block() -> Vec<PolyExtStep> {
    vec![
        PolyExtStep::Const(3),
        PolyExtStep::Get(0),
        PolyExtStep::Mul(0, 1),
        PolyExtStep::True,
        PolyExtStep::AndEqz(0, 2),
        PolyExtStep::Const(5),
        PolyExtStep::Sub(3, 1),
        PolyExtStep::AndCond(1, 4, 0),
        PolyExtStep::AndEqz(2, 3),
    ]
}

fn terms_as_tuples(terms: &[EvalCheckTerm]) -> Vec<(usize, Vec<usize>, usize)> {
    terms.iter().map(|t| (t.mix_exp, t.conds.clone(), t.inner)).collect()
}

#[test]
fn mix_exponents_follow_chain_and_inner() {
    let block = sample_block();
    let def = PolyExtStepDef { block: &block, ret: 3 };
    assert_eq!(eval_check_mix_exponents(&def), Ok(vec![0, 1, 1, 2]));
}

#[test]
fn mix_exponents_report_bad_references() {
    let block = vec![PolyExtStep::AndEqz(0, 0)];
    let def = PolyExtStepDef { block: &block, ret: 0 };
    assert_eq!(eval_check_mix_exponents(&def), Err(EvalCheckError::AndEqzChainOutOfRange(0)));
    let block = vec![PolyExtStep::True, PolyExtStep::AndCond(0, 0, 1)];
    let def = PolyExtStepDef { block: &block, ret: 0 };
    assert_eq!(eval_check_mix_exponents(&def), Err(EvalCheckError::AndCondInnerOutOfRange(1)));
    let block = vec![PolyExtStep::True, PolyExtStep::AndCond(4, 0, 0)];
    let def = PolyExtStepDef { block: &block, ret: 0 };
    assert_eq!(eval_check_mix_exponents(&def), Err(EvalCheckError::AndCondChainOutOfRange(4)));
    let block = vec![PolyExtStep::True];
    let def = PolyExtStepDef { block: &block, ret: 1 };
    assert_eq!(
        eval_check_mix_exponents(&def),
        Err(EvalCheckError::ReturnOutOfRange { ret: 1, mix_count: 1 })
    );
}

#[test]
fn program_splits_fp_and_mix_ops() {
    let block = sample_block();
    let def = PolyExtStepDef { block: &block, ret: 3 };
    let p = eval_check_program(&def).unwrap();
    assert_eq!(
        p.fp_ops,
        vec![
            EvalCheckFpOp::Const(3),
            EvalCheckFpOp::Get(0),
            EvalCheckFpOp::Mul(0, 1),
            EvalCheckFpOp::Const(5),
            EvalCheckFpOp::Sub(3, 1),
        ]
    );
    assert_eq!(
        p.mix_ops,
        vec![
            EvalCheckMixOp::True,
            EvalCheckMixOp::AndEqz { chain: 0, inner: 2 },
            EvalCheckMixOp::AndCond { chain: 1, cond: 4, inner: 0 },
            EvalCheckMixOp::AndEqz { chain: 2, inner: 3 },
        ]
    );
    assert_eq!(p.mix_exps, vec![0, 1, 1, 2]);
}

#[test]
fn program_rejects_each_bad_reference() {
    let block = vec![PolyExtStep::True, PolyExtStep::AndEqz(0, 0)];
    let def = PolyExtStepDef { block: &block, ret: 1 };
    assert_eq!(eval_check_program(&def).err(), Some(EvalCheckError::AndEqzInnerOutOfRange(0)));
    let block = vec![PolyExtStep::True, PolyExtStep::AndCond(0, 2, 0)];
    let def = PolyExtStepDef { block: &block, ret: 1 };
    assert_eq!(eval_check_program(&def).err(), Some(EvalCheckError::AndCondCondOutOfRange(2)));
    let block = vec![PolyExtStep::Const(1), PolyExtStep::True];
    let def = PolyExtStepDef { block: &block, ret: 5 };
    assert_eq!(
        eval_check_program(&def).err(),
        Some(EvalCheckError::ReturnOutOfRange { ret: 5, mix_count: 1 })
    );
}

#[test]
fn flatten_terms_walks_from_the_returned_mix() {
    let block = sample_block();
    let def = PolyExtStepDef { block: &block, ret: 3 };
    let p = eval_check_program(&def).unwrap();
    let terms = eval_check_flatten_terms(&p, 3).unwrap();
    assert_eq!(terms_as_tuples(&terms), vec![(1, vec![], 3), (0, vec![], 2)]);
    let terms = eval_check_flatten_terms(&p, 2).unwrap();
    assert_eq!(terms_as_tuples(&terms), vec![(0, vec![], 2)]);
    assert_eq!(
        eval_check_flatten_terms(&p, 9).err(),
        Some(EvalCheckError::ReturnOutOfRange { ret: 9, mix_count: 4 })
    );
}

#[test]
fn flatten_terms_carries_conditions_into_inner_mix() {
    let block = vec![PolyExtStep::Const(1), PolyExtStep::Const(2), PolyExtStep::True, PolyExtStep::AndEqz(0, 1), PolyExtStep::AndCond(0, 0, 1)];
    let def = PolyExtStepDef { block: &block, ret: 2 };
    let p = eval_check_program(&def).unwrap();
    let terms = eval_check_flatten_terms(&p, 2).unwrap();
    // The inner mix 1 is reached with condition fp 0 and the exponent of chain 0.
    assert_eq!(terms_as_tuples(&terms), vec![(0, vec![0], 1)]);
}

#[test]
fn needed_fp_vars_are_sorted_dependency_closure() {
    let block = sample_block();
    let def = PolyExtStepDef { block: &block, ret: 3 };
    let p = eval_check_program(&def).unwrap();
    let terms = eval_check_flatten_terms(&p, 3).unwrap();
    assert_eq!(eval_check_needed_fp_vars(&p, &terms), Ok(vec![0, 1, 2, 3]));
    assert_eq!(eval_check_needed_fp_vars(&p, &terms[0..1]), Ok(vec![3]));
    let bad = vec![EvalCheckTerm { mix_exp: 0, conds: vec![], inner: 7 }];
    assert_eq!(eval_check_needed_fp_vars(&p, &bad), Err(EvalCheckError::FpVarOutOfRange(7)));
}

#[test]
fn fp_dependencies_are_the_operands() {
    assert!(eval_check_fp_dependencies(EvalCheckFpOp::Add(1, 2)).is_empty());
    let mut stack = vec![9];
    eval_check_note_fp_dependencies(EvalCheckFpOp::Mul(4, 5), &mut stack);
    assert_eq!(stack, vec![9, 4, 5]);
    eval_check_note_fp_dependencies(EvalCheckFpOp::Const(1), &mut stack);
    assert_eq!(stack, vec![9, 4, 5]);
}

#[test]
fn split_chunks_respect_the_term_limit() {
    let block = vec![PolyExtStep::Const(1), PolyExtStep::True];
    let def = PolyExtStepDef { block: &block, ret: 0 };
    let p = eval_check_program(&def).unwrap();
    let n = WEBGPU_EVAL_CHECK_SPLIT_TERMS_PER_SHADER + 1;
    let terms: Vec<EvalCheckTerm> =
        (0..n).map(|i| EvalCheckTerm { mix_exp: i, conds: vec![], inner: 0 }).collect();
    let chunks = eval_check_split_term_chunks(&p, &terms).unwrap();
    assert_eq!(chunks.len(), 2);
    assert_eq!(chunks[0].len(), WEBGPU_EVAL_CHECK_SPLIT_TERMS_PER_SHADER);
    assert_eq!(chunks[1].len(), 1);
    assert_eq!(chunks[1][0].mix_exp, n - 1);
    let empty: Vec<EvalCheckTerm> = vec![];
    assert_eq!(eval_check_split_term_chunks(&p, &empty).unwrap().len(), 0);
}

#[test]
fn split_chunks_of_sample_fit_one_shader() {
    let block = sample_block();
    let def = PolyExtStepDef { block: &block, ret: 3 };
    let p = eval_check_program(&def).unwrap();
    let terms = eval_check_flatten_terms(&p, 3).unwrap();
    let chunks = eval_check_split_term_chunks(&p, &terms).unwrap();
    assert_eq!(chunks.len(), 1);
    assert_eq!(terms_as_tuples(&chunks[0]), vec![(1, vec![], 3), (0, vec![], 2)]);
}

#[test]
fn reorder_emits_fp_ops_before_their_first_use() {
    let out = eval_check_reorder_lazy(&sample_block()).unwrap();
    assert_eq!(
        out,
        vec![
            PolyExtStep::True,
            PolyExtStep::Const(3),
            PolyExtStep::Get(0),
            PolyExtStep::Mul(0, 1),
            PolyExtStep::AndEqz(0, 2),
            PolyExtStep::Const(5),
            PolyExtStep::Sub(3, 1),
            PolyExtStep::AndCond(1, 4, 0),
            PolyExtStep::AndEqz(2, 3),
        ]
    );
}

#[test]
fn reorder_drops_unused_fp_ops_and_renumbers() {
    let out = eval_check_reorder_lazy(&[PolyExtStep::Const(1), PolyExtStep::Const(2), PolyExtStep::True, PolyExtStep::AndEqz(0, 1)]).unwrap();
    assert_eq!(out, vec![PolyExtStep::True, PolyExtStep::Const(2), PolyExtStep::AndEqz(0, 0)]);
}

#[test]
fn reorder_rejects_bad_operands() {
    assert_eq!(
        eval_check_reorder_lazy(&[PolyExtStep::True, PolyExtStep::AndEqz(0, 5)]),
        Err(EvalCheckError::FpOperandOutOfRange(5))
    );
    assert_eq!(
        eval_check_reorder_lazy(&[PolyExtStep::Add(0, 0), PolyExtStep::True, PolyExtStep::AndEqz(0, 0)]),
        Err(EvalCheckError::FpOperandForwardReference)
    );
}

fn mix() -> ExtWords {
    // Montgomery words of 2 + 3x + 5x^3.
    ExtWords { w0: 536870908, w1: 805306362, w2: 0, w3: 1342177270 }
}

fn pow(k: usize) -> ExtWords {
    let table = [
        [268435454, 0, 0, 0],
        [536870908, 805306362, 0, 1342177270],
        [1073742520, 1207959527, 1073742392, 1342177238],
    ];
    let w = table[k];
    ExtWords { w0: w[0], w1: w[1], w2: w[2], w3: w[3] }
}

#[test]
fn mix_pows_are_powers_of_the_challenge() {
    let block = sample_block();
    let def = PolyExtStepDef { block: &block, ret: 3 };
    assert_eq!(eval_check_mix_pows(&def, mix()), Ok(vec![pow(0), pow(1), pow(1), pow(2)]));
    assert_eq!(eval_check_all_mix_pows(&def, mix()), Ok(vec![pow(0), pow(1), pow(2)]));
}

#[test]
fn mix_pows_pass_on_tape_errors() {
    let block = vec![PolyExtStep::True];
    let def = PolyExtStepDef { block: &block, ret: 2 };
    assert_eq!(
        eval_check_mix_pows(&def, mix()),
        Err(EvalCheckError::ReturnOutOfRange { ret: 2, mix_count: 1 })
    );
    assert_eq!(
        eval_check_all_mix_pows(&def, mix()),
        Err(EvalCheckError::ReturnOutOfRange { ret: 2, mix_count: 1 })
    );
}

#[test]
fn ext_const_is_wgsl_vec4() {
    assert_eq!(eval_check_ext_const([1, 2, 3, 4]), "vec4<u32>(1u, 2u, 3u, 4u)");
    assert_eq!(
        eval_check_ext_const([0, 4294967295, 10, 2013265920]),
        "vec4<u32>(0u, 4294967295u, 10u, 2013265920u)"
    );
}

#[test]
fn zerofier_inverses_per_coset() {
    assert_eq!(eval_check_zerofier_inv_words(3, 8), [1149689417, 1232233611, 956582552, 1838548922]);
    assert_eq!(eval_check_zerofier_inv_words(0, 1), [134217727, 1524488582, 939524097, 32437064]);
}
