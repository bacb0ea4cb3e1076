use webgpu_hal::eval_check::interpreter_wgsl::{
    build_eval_check_base_interpreter_wgsl, build_eval_check_interpreter_wgsl,
    EVAL_CHECK_BASE_INTERPRETER_WGSL, EVAL_CHECK_INTERPRETER_WGSL,
};

const PLACEHOLDERS: [&str; 9] = [
    "{FP_SLOTS}",
    "{MIX_SLOTS}",
    "{BASE_SCRATCH_DECLS}",
    "{BASE_LOCAL_DECLS}",
    "{EXT_BANK_DECLS}",
    "{MIX_BANK_DECLS}",
    "{LANE_INDEX}",
    "{WORKGROUP_SIZE}",
    "{LINEAR_DISPATCH_STRIDE}",
];

#[test]
fn interpreter_wgsl_fills_slot_counts() {
    let wgsl = build_eval_check_interpreter_wgsl(12, 29);
    assert!(wgsl.contains("    var fp: array<vec4<u32>, 12>;"));
    assert!(wgsl.contains("    var mix_tot: array<vec4<u32>, 29>;"));
    assert!(wgsl.contains("    var mix_mul: array<vec4<u32>, 29>;"));
    for p in PLACEHOLDERS {
        assert!(!wgsl.contains(p), "{p} left in the shader");
    }
    let expected = EVAL_CHECK_INTERPRETER_WGSL
        .replace("{FP_SLOTS}", "12")
        .replace("{MIX_SLOTS}", "29");
    assert_eq!(wgsl, expected);
}

#[test]
fn interpreter_wgsl_uses_at_least_one_slot() {
    let wgsl = build_eval_check_interpreter_wgsl(0, 0);
    assert!(wgsl.contains("    var fp: array<vec4<u32>, 1>;"));
    assert!(wgsl.contains("    var mix_tot: array<vec4<u32>, 1>;"));
    assert_eq!(wgsl, build_eval_check_interpreter_wgsl(1, 1));
    assert_ne!(wgsl, EVAL_CHECK_INTERPRETER_WGSL);
}

#[test]
fn base_interpreter_private_scratch() {
    let wgsl = build_eval_check_base_interpreter_wgsl(3, 2, 5, true, 64);
    assert!(wgsl.contains("    var fp: array<u32, 3>;"));
    assert!(!wgsl.contains("var<workgroup> fp:"));
    assert!(wgsl.contains("var<private> fpe: array<u32, 8>;\nfn ext_load(lane: u32, idx: u32) -> vec4<u32> {"));
    assert!(wgsl.contains("return vec4<u32>(fpe[base], fpe[base + 1u], fpe[base + 2u], fpe[base + 3u]);"));
    assert!(wgsl.contains("var<private> mixw_tot: array<u32, 20>;\nvar<private> mixw_mul: array<u32, 20>;\n"));
    assert!(wgsl.contains("    let lane = 0u;"));
    assert!(wgsl.contains("@compute @workgroup_size(64)"));
    assert!(wgsl.contains("const LINEAR_DISPATCH_STRIDE: u32 = 4194240u;"));
    assert!(!wgsl.contains("fp[lane]"));
    assert!(wgsl.contains("fp[instr_word(op_idx, 1u)] = instr_word(op_idx, 2u);"));
    for p in PLACEHOLDERS {
        assert!(!wgsl.contains(p), "{p} left in the shader");
    }
}

#[test]
fn base_interpreter_workgroup_scratch() {
    let wgsl = build_eval_check_base_interpreter_wgsl(3, 2, 5, false, 64);
    assert!(wgsl.contains("var<workgroup> fp: array<array<u32, 3>, 64>;"));
    assert!(!wgsl.contains("    var fp: array<u32,"));
    assert!(wgsl.contains("var<workgroup> fpe: array<array<u32, 8>, 64>;\n"));
    assert!(wgsl.contains("var<workgroup> mixw_tot: array<array<u32, 20>, 64>;\nvar<workgroup> mixw_mul: array<array<u32, 20>, 64>;\n"));
    assert!(wgsl.contains("    let lane = lid.x;"));
    assert!(wgsl.contains("fp[lane][out] = value;"));
    assert!(wgsl.contains("const LINEAR_DISPATCH_STRIDE: u32 = 4194240u;"));
    for p in PLACEHOLDERS {
        assert!(!wgsl.contains(p), "{p} left in the shader");
    }
}

#[test]
fn base_interpreter_clamps_slot_counts() {
    let wgsl = build_eval_check_base_interpreter_wgsl(0, 0, 0, false, 32);
    assert!(wgsl.contains("var<workgroup> fp: array<array<u32, 1>, 32>;"));
    assert!(wgsl.contains("var<workgroup> fpe: array<array<u32, 4>, 32>;"));
    assert!(wgsl.contains("var<workgroup> mixw_tot: array<array<u32, 4>, 32>;"));
    assert!(wgsl.contains("const LINEAR_DISPATCH_STRIDE: u32 = 2097120u;"));
    assert_eq!(wgsl, build_eval_check_base_interpreter_wgsl(1, 1, 1, false, 32));
    assert_ne!(wgsl, EVAL_CHECK_BASE_INTERPRETER_WGSL);
}
