use webgpu_hal::eval_check::program::{EvalCheckProgram, EvalCheckTerm};
use webgpu_hal::eval_check::slotted::EVAL_CHECK_WGSL_PREFIX;
use webgpu_hal::eval_check::split::{
    build_eval_check_split_wgsl, SPLIT_PREV_LOAD, SPLIT_PREV_ZERO, SPLIT_TAIL, SPLIT_TOTAL_DECLS,
};
use webgpu_hal::eval_check::tape::{EvalCheckError, EvalCheckFpOp, EvalCheckTap};

fn taps() -> Vec<EvalCheckTap> {
    vec![EvalCheckTap { group: 0, offset: 5, back: 1 }, EvalCheckTap { group: 3, offset: 0, back: 0 }]
}

fn program(fp_ops: Vec<EvalCheckFpOp>) -> EvalCheckProgram {
    EvalCheckProgram { fp_ops, mix_ops: Vec::new(), mix_exps: Vec::new() }
}

fn term(mix_exp: usize, conds: Vec<usize>, inner: usize) -> EvalCheckTerm {
    EvalCheckTerm { mix_exp, conds, inner }
}

fn shader(fp: usize, ops: &str, terms: &str, reset: bool) -> String {
    let mut s = String::from(EVAL_CHECK_WGSL_PREFIX);
    for i in 0..fp {
        s.push_str(&format!("    var f{i}: vec4<u32>;\n"));
    }
    s.push_str(ops);
    s.push_str(SPLIT_TOTAL_DECLS);
    s.push_str(terms);
    s.push_str(if reset { SPLIT_PREV_ZERO } else { SPLIT_PREV_LOAD });
    s.push_str(SPLIT_TAIL);
    s
}

#[test]
fn split_shader_computes_only_needed_values() {
    let p = program(vec![
        EvalCheckFpOp::Const(1),
        EvalCheckFpOp::Get(0),
        EvalCheckFpOp::Mul(0, 1),
        EvalCheckFpOp::Const(5),
    ]);
    let terms = [term(2, vec![], 2)];
    let ops = "    f0 = vec4<u32>(268435454u, 0u, 0u, 0u);\n\
               \x20   let f1_row = (cycle + params.domain - (4u % params.domain)) % params.domain;\n\
               \x20   f1 = vec4<u32>(group0.data[params.group0_base + 5u * params.domain + f1_row], 0u, 0u, 0u);\n\
               \x20   f2 = ext_mul(f0, f1);\n";
    let body = "    term = f2;\n\
                \x20   total = ext_add(total, ext_mul(load_mix_pow(2u), term));\n";
    assert_eq!(build_eval_check_split_wgsl(&taps(), &p, &terms, true).unwrap(), shader(3, ops, body, true));
}

#[test]
fn split_shader_reuses_slots_and_multiplies_conditions() {
    let p = program(vec![
        EvalCheckFpOp::Const(1),
        EvalCheckFpOp::Const(2),
        EvalCheckFpOp::Add(0, 1),
        EvalCheckFpOp::Get(0),
        EvalCheckFpOp::Const(3),
    ]);
    let terms = [term(0, vec![], 2), term(1, vec![4, 2], 3)];
    let ops = "    f0 = vec4<u32>(268435454u, 0u, 0u, 0u);\n\
               \x20   f1 = vec4<u32>(536870908u, 0u, 0u, 0u);\n\
               \x20   f2 = ext_add(f0, f1);\n\
               \x20   let f3_row = (cycle + params.domain - (4u % params.domain)) % params.domain;\n\
               \x20   f1 = vec4<u32>(group0.data[params.group0_base + 5u * params.domain + f3_row], 0u, 0u, 0u);\n\
               \x20   f0 = vec4<u32>(805306362u, 0u, 0u, 0u);\n";
    let body = "    term = f2;\n\
                \x20   total = ext_add(total, ext_mul(load_mix_pow(0u), term));\n\
                \x20   term = f1;\n\
                \x20   term = ext_mul(term, f0);\n\
                \x20   term = ext_mul(term, f2);\n\
                \x20   total = ext_add(total, ext_mul(load_mix_pow(1u), term));\n";
    assert_eq!(build_eval_check_split_wgsl(&taps(), &p, &terms, false).unwrap(), shader(3, ops, body, false));
}

#[test]
fn split_shader_with_no_terms_declares_one_slot() {
    let p = program(vec![EvalCheckFpOp::Const(1)]);
    assert_eq!(build_eval_check_split_wgsl(&taps(), &p, &[], true).unwrap(), shader(1, "", "", true));
    assert_eq!(build_eval_check_split_wgsl(&taps(), &p, &[], false).unwrap(), shader(1, "", "", false));
}

#[test]
fn split_shader_errors() {
    let t = taps();
    let p = program(vec![EvalCheckFpOp::Const(1), EvalCheckFpOp::Const(2)]);
    assert_eq!(
        build_eval_check_split_wgsl(&t, &p, &[term(0, vec![], 9)], true),
        Err(EvalCheckError::FpVarOutOfRange(9))
    );
    let p = program(vec![EvalCheckFpOp::Add(1, 1), EvalCheckFpOp::Const(1)]);
    assert_eq!(
        build_eval_check_split_wgsl(&t, &p, &[term(0, vec![], 0)], true),
        Err(EvalCheckError::FpValueReleased(1))
    );
    let p = program(vec![EvalCheckFpOp::Get(4)]);
    assert_eq!(
        build_eval_check_split_wgsl(&t, &p, &[term(0, vec![], 0)], true),
        Err(EvalCheckError::TapOutOfRange(4))
    );
    let p = program(vec![EvalCheckFpOp::Get(1)]);
    assert_eq!(
        build_eval_check_split_wgsl(&t, &p, &[term(0, vec![], 0)], true),
        Err(EvalCheckError::TapGroupUnsupported(3))
    );
    let p = program(vec![EvalCheckFpOp::GetGlobal(2, 0)]);
    assert_eq!(
        build_eval_check_split_wgsl(&t, &p, &[term(0, vec![], 0)], true),
        Err(EvalCheckError::GlobalArgUnsupported(2))
    );
}

#[test]
fn split_shader_limits() {
    let t = taps();
    let p = program(vec![EvalCheckFpOp::Const(1); 4097]);
    let all: Vec<usize> = (1..4097).collect();
    assert_eq!(
        build_eval_check_split_wgsl(&t, &p, &[term(0, all, 0)], true),
        Err(EvalCheckError::SplitChunkTooLarge { needed: 4097, max: 4096 })
    );
    let p = program(vec![EvalCheckFpOp::Const(1); 1537]);
    let all: Vec<usize> = (1..1537).collect();
    assert_eq!(
        build_eval_check_split_wgsl(&t, &p, &[term(0, all, 0)], true),
        Err(EvalCheckError::FpSlotsExceeded { needed: 1537, max: 1536 })
    );
    let p = program(vec![EvalCheckFpOp::Const(1); 1536]);
    let all: Vec<usize> = (1..1536).collect();
    assert!(build_eval_check_split_wgsl(&t, &p, &[term(0, all, 0)], true).is_ok());
}
