use webgpu_hal::eval_check::slotted::{build_eval_check_wgsl, EVAL_CHECK_WGSL_PREFIX};
use webgpu_hal::eval_check::tape::{EvalCheckError, EvalCheckTap, PolyExtStep, PolyExtStepDef};
use webgpu_hal::eval_check::unrolled::EVAL_CHECK_UNROLLED_EPILOGUE;

fn taps() -> Vec<EvalCheckTap> {
    vec![
        EvalCheckTap { group: 0, offset: 5, back: 1 },
        EvalCheckTap { group: 1, offset: 2, back: 0 },
        EvalCheckTap { group: 3, offset: 0, back: 0 },
    ]
}

fn shader(fp: usize, mix: usize, body: &str, ret_slot: usize) -> String {
    let mut s = String::from(EVAL_CHECK_WGSL_PREFIX);
    for i in 0..fp {
        s.push_str(&format!("    var f{i}: vec4<u32>;\n"));
    }
    for i in 0..mix {
        s.push_str(&format!("    var m{i}_tot: vec4<u32>;\n    var m{i}_mul: vec4<u32>;\n"));
    }
    s.push_str(body);
    s.push_str(&format!(
        "    let result = ext_mul(m{ret_slot}_tot, vec4<u32>(zerofier_inv(cycle), 0u, 0u, 0u));\n"
    ));
    s.push_str(EVAL_CHECK_UNROLLED_EPILOGUE);
    s
}

#[test]
fn slotted_shader_for_small_tape() {
    let block = [
        PolyExtStep::Get(0),
        PolyExtStep::Const(3),
        PolyExtStep::Add(0, 1),
        PolyExtStep::True,
        PolyExtStep::AndEqz(0, 2),
    ];
    let def = PolyExtStepDef { block: &block, ret: 1 };
    let body = "    let f0_row = (cycle + params.domain - (4u % params.domain)) % params.domain;\n\
                \x20   f0 = vec4<u32>(group0.data[params.group0_base + 5u * params.domain + f0_row], 0u, 0u, 0u);\n\
                \x20   f1 = vec4<u32>(805306362u, 0u, 0u, 0u);\n\
                \x20   f2 = ext_add(f0, f1);\n\
                \x20   m0_tot = vec4<u32>(0u, 0u, 0u, 0u);\n\
                \x20   m0_mul = load_mix_pow(0u);\n\
                \x20   m1_tot = ext_add(m0_tot, ext_mul(m0_mul, f2));\n\
                \x20   m1_mul = load_mix_pow(1u);\n";
    assert_eq!(build_eval_check_wgsl(&taps(), &def).unwrap(), shader(3, 2, body, 1));
}

#[test]
fn slotted_shader_reuses_slots() {
    let block = [
        PolyExtStep::Const(1),
        PolyExtStep::Const(2),
        PolyExtStep::Add(0, 1),
        PolyExtStep::Get(1),
        PolyExtStep::Mul(2, 3),
        PolyExtStep::True,
        PolyExtStep::AndCond(0, 4, 0),
    ];
    let def = PolyExtStepDef { block: &block, ret: 1 };
    let body = "    f0 = vec4<u32>(268435454u, 0u, 0u, 0u);\n\
                \x20   f1 = vec4<u32>(536870908u, 0u, 0u, 0u);\n\
                \x20   f2 = ext_add(f0, f1);\n\
                \x20   let f3_row = (cycle + params.domain - (0u % params.domain)) % params.domain;\n\
                \x20   f1 = vec4<u32>(group1.data[params.group1_base + 2u * params.domain + f3_row], 0u, 0u, 0u);\n\
                \x20   f0 = ext_mul(f2, f1);\n\
                \x20   m0_tot = vec4<u32>(0u, 0u, 0u, 0u);\n\
                \x20   m0_mul = load_mix_pow(0u);\n\
                \x20   m1_tot = ext_add(m0_tot, ext_mul(ext_mul(f0, m0_tot), m0_mul));\n\
                \x20   m1_mul = load_mix_pow(1u);\n";
    assert_eq!(build_eval_check_wgsl(&taps(), &def).unwrap(), shader(3, 2, body, 1));
}

#[test]
fn slotted_shader_declares_at_least_one_slot() {
    let block = [PolyExtStep::ConstExt(1, 2, 3, 4), PolyExtStep::True, PolyExtStep::GetGlobal(1, 9)];
    let def = PolyExtStepDef { block: &block, ret: 0 };
    let body = "    f0 = vec4<u32>(268435454u, 536870908u, 805306362u, 1073741816u);\n\
                \x20   m0_tot = vec4<u32>(0u, 0u, 0u, 0u);\n\
                \x20   m0_mul = load_mix_pow(0u);\n\
                \x20   f0 = vec4<u32>(global1.data[params.global1_base + 9u], 0u, 0u, 0u);\n";
    assert_eq!(build_eval_check_wgsl(&taps(), &def).unwrap(), shader(1, 1, body, 0));
}

#[test]
fn slotted_shader_errors() {
    let t = taps();
    let block = [PolyExtStep::Get(7), PolyExtStep::True];
    let def = PolyExtStepDef { block: &block, ret: 0 };
    assert_eq!(build_eval_check_wgsl(&t, &def), Err(EvalCheckError::TapOutOfRange(7)));
    let block = [PolyExtStep::Get(2), PolyExtStep::True];
    let def = PolyExtStepDef { block: &block, ret: 0 };
    assert_eq!(build_eval_check_wgsl(&t, &def), Err(EvalCheckError::TapGroupUnsupported(3)));
    let block = [PolyExtStep::GetGlobal(3, 0), PolyExtStep::True];
    let def = PolyExtStepDef { block: &block, ret: 0 };
    assert_eq!(build_eval_check_wgsl(&t, &def), Err(EvalCheckError::GlobalArgUnsupported(3)));
    let block = [PolyExtStep::True];
    let def = PolyExtStepDef { block: &block, ret: 2 };
    assert_eq!(
        build_eval_check_wgsl(&t, &def),
        Err(EvalCheckError::ReturnOutOfRange { ret: 2, mix_count: 1 })
    );
    let block = [PolyExtStep::True, PolyExtStep::AndEqz(0, 0)];
    let def = PolyExtStepDef { block: &block, ret: 1 };
    assert_eq!(build_eval_check_wgsl(&t, &def), Err(EvalCheckError::AndEqzInnerOutOfRange(0)));
}
