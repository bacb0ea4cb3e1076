use webgpu_hal::eval_check::tape::{EvalCheckError, EvalCheckTap, PolyExtStep, PolyExtStepDef};
use webgpu_hal::eval_check::unrolled::{
    build_eval_check_wgsl_unrolled, EVAL_CHECK_UNROLLED_EPILOGUE, EVAL_CHECK_UNROLLED_PRELUDE,
};

fn taps() -> Vec<EvalCheckTap> {
    vec![EvalCheckTap { group: 1, offset: 2, back: 3 }]
}

#[test]
fn unrolled_shader_has_one_let_per_step() {
    let block = vec![
        PolyExtStep::Const(7),
        PolyExtStep::Get(0),
        PolyExtStep::GetGlobal(1, 5),
        PolyExtStep::Add(0, 1),
        PolyExtStep::Mul(3, 2),
        PolyExtStep::ConstExt(1, 2, 3, 4),
        PolyExtStep::Sub(4, 5),
        PolyExtStep::True,
        PolyExtStep::AndEqz(0, 6),
        PolyExtStep::AndCond(1, 0, 0),
    ];
    let def = PolyExtStepDef { block: &block, ret: 2 };
    let text = build_eval_check_wgsl_unrolled(&taps(), &def).unwrap();
    let body = [
        "    let f0 = vec4<u32>(1879048178u, 0u, 0u, 0u);\n",
        "    let f1_row = (cycle + params.domain - (12u % params.domain)) % params.domain;\n",
        "    let f1 = vec4<u32>(group1.data[params.group1_base + 2u * params.domain + f1_row], 0u, 0u, 0u);\n",
        "    let f2 = vec4<u32>(global1.data[params.global1_base + 5u], 0u, 0u, 0u);\n",
        "    let f3 = ext_add(f0, f1);\n",
        "    let f4 = ext_mul(f3, f2);\n",
        "    let f5 = vec4<u32>(268435454u, 536870908u, 805306362u, 1073741816u);\n",
        "    let f6 = ext_sub(f4, f5);\n",
        "    let m0_tot = vec4<u32>(0u, 0u, 0u, 0u);\n",
        "    let m0_mul = load_mix_pow(0u);\n",
        "    let m1_tot = ext_add(m0_tot, ext_mul(m0_mul, f6));\n",
        "    let m1_mul = load_mix_pow(1u);\n",
        "    let m2_tot = ext_add(m1_tot, ext_mul(ext_mul(f0, m0_tot), m1_mul));\n",
        "    let m2_mul = load_mix_pow(2u);\n",
        "    let result = ext_mul(m2_tot, vec4<u32>(zerofier_inv(cycle), 0u, 0u, 0u));\n",
    ]
    .join("");
    let expected = format!("{}{}{}", EVAL_CHECK_UNROLLED_PRELUDE, body, EVAL_CHECK_UNROLLED_EPILOGUE);
    assert_eq!(text, expected);
}

#[test]
fn unrolled_shader_frame() {
    assert!(EVAL_CHECK_UNROLLED_PRELUDE.starts_with("\nconst P: u32 = 2013265921u;\n"));
    assert!(EVAL_CHECK_UNROLLED_PRELUDE.contains("const NBETA: u32 = 1073741848u;"));
    assert!(EVAL_CHECK_UNROLLED_PRELUDE.ends_with("    if (cycle >= params.domain) {\n        return;\n    }\n"));
    assert!(EVAL_CHECK_UNROLLED_EPILOGUE.ends_with("= result.w;\n}\n"));
}

#[test]
fn unrolled_shader_rejects_what_it_cannot_read() {
    let one = vec![PolyExtStep::Get(1), PolyExtStep::True];
    let def = PolyExtStepDef { block: &one, ret: 0 };
    assert_eq!(build_eval_check_wgsl_unrolled(&taps(), &def), Err(EvalCheckError::TapOutOfRange(1)));
    let far = vec![EvalCheckTap { group: 3, offset: 0, back: 0 }];
    let block = vec![PolyExtStep::Get(0), PolyExtStep::True];
    let def = PolyExtStepDef { block: &block, ret: 0 };
    assert_eq!(build_eval_check_wgsl_unrolled(&far, &def), Err(EvalCheckError::TapGroupUnsupported(3)));
    let block = vec![PolyExtStep::GetGlobal(2, 0), PolyExtStep::True];
    let def = PolyExtStepDef { block: &block, ret: 0 };
    assert_eq!(build_eval_check_wgsl_unrolled(&taps(), &def), Err(EvalCheckError::GlobalArgUnsupported(2)));
    let block = vec![PolyExtStep::True];
    let def = PolyExtStepDef { block: &block, ret: 1 };
    assert_eq!(
        build_eval_check_wgsl_unrolled(&taps(), &def),
        Err(EvalCheckError::ReturnOutOfRange { ret: 1, mix_count: 1 })
    );
}
