use webgpu_hal::eval_check::hybrid::{
    eval_check_base_interpreter_instructions, eval_check_base_interpreter_instructions_for_block,
};
use webgpu_hal::eval_check::interpreter::eval_check_interpreter_instructions_for_block;
use webgpu_hal::eval_check::tape::{EvalCheckError, EvalCheckTap, PolyExtStep, PolyExtStepDef};

fn taps() -> Vec<EvalCheckTap> {
    vec![
        EvalCheckTap { group: 0, offset: 5, back: 1 },
        EvalCheckTap { group: 1, offset: 2, back: 0 },
        EvalCheckTap { group: 3, offset: 0, back: 0 },
    ]
}

fn words(instrs: &[[u32; 8]]) -> Vec<u32> {
    instrs.iter().flatten().copied().collect()
}

#[test]
fn hybrid_splits_base_and_extension_values() {
    let block = [
        PolyExtStep::Get(0),
        PolyExtStep::ConstExt(1, 2, 3, 4),
        PolyExtStep::Const(3),
        PolyExtStep::Add(0, 2),
        PolyExtStep::Mul(0, 1),
        PolyExtStep::Sub(2, 1),
        PolyExtStep::Add(1, 0),
        PolyExtStep::True,
        PolyExtStep::AndEqz(0, 3),
        PolyExtStep::AndCond(1, 4, 0),
        PolyExtStep::AndEqz(2, 5),
        PolyExtStep::AndCond(3, 6, 2),
    ];
    let (instrs, base, ext, mix, ret_slot) =
        eval_check_base_interpreter_instructions_for_block(&taps(), &block, 4).unwrap();
    let expected = words(&[
        [2, 0, 0, 5, 4, 0, 0, 0],
        [1, 0, 268435454, 536870908, 805306362, 1073741816, 0, 0],
        [0, 1, 805306362, 0, 0, 0, 0, 0],
        [4, 2, 0, 1, 0, 0, 0, 0],
        [16, 1, 0, 0, 0, 0, 0, 0],
        [14, 2, 1, 0, 0, 0, 0, 0],
        [11, 3, 0, 0, 0, 0, 0, 0],
        [7, 0, 0, 0, 0, 0, 0, 0],
        [8, 1, 0, 2, 1, 0, 0, 0],
        [18, 2, 1, 1, 0, 2, 0, 0],
        [17, 1, 2, 2, 3, 0, 0, 0],
        [18, 0, 1, 3, 2, 4, 0, 0],
    ]);
    assert_eq!(instrs, expected);
    assert_eq!((base, ext, mix, ret_slot), (3, 4, 3, 0));
}

#[test]
fn hybrid_matches_plain_interpreter_on_base_tapes() {
    let block = [
        PolyExtStep::Const(1),
        PolyExtStep::Const(2),
        PolyExtStep::Add(0, 1),
        PolyExtStep::Const(5),
        PolyExtStep::Mul(2, 3),
        PolyExtStep::Const(9),
        PolyExtStep::True,
        PolyExtStep::AndEqz(0, 4),
    ];
    let (instrs, base, ext, mix, ret_slot) =
        eval_check_base_interpreter_instructions_for_block(&taps(), &block, 1).unwrap();
    let (plain, fp, plain_mix, plain_ret) =
        eval_check_interpreter_instructions_for_block(&taps(), &block, 1, 16).unwrap();
    assert_eq!(instrs, plain);
    assert_eq!((base, ext, mix, ret_slot), (fp, 0, plain_mix, plain_ret));
}

#[test]
fn hybrid_reorders_then_compiles() {
    let block = [
        PolyExtStep::ConstExt(0, 0, 0, 1),
        PolyExtStep::Get(1),
        PolyExtStep::True,
        PolyExtStep::Sub(1, 0),
        PolyExtStep::AndEqz(0, 2),
    ];
    let def = PolyExtStepDef { block: &block, ret: 1 };
    let (instrs, base, ext, mix, ret_slot) = eval_check_base_interpreter_instructions(&taps(), &def).unwrap();
    // Reordered: True, Get(1), ConstExt, Sub(0, 1) (base minus extension), AndEqz.
    let expected = words(&[
        [7, 0, 0, 0, 0, 0, 0, 0],
        [2, 0, 1, 2, 0, 0, 0, 0],
        [1, 0, 0, 0, 0, 268435454, 0, 0],
        [14, 1, 0, 0, 0, 0, 0, 0],
        [17, 1, 0, 1, 1, 0, 0, 0],
    ]);
    assert_eq!(instrs, expected);
    assert_eq!((base, ext, mix, ret_slot), (1, 2, 2, 1));
}

#[test]
fn hybrid_errors() {
    let t = taps();
    let block = [PolyExtStep::Get(9), PolyExtStep::True];
    assert_eq!(
        eval_check_base_interpreter_instructions_for_block(&t, &block, 0),
        Err(EvalCheckError::TapOutOfRange(9))
    );
    let block = [PolyExtStep::True, PolyExtStep::AndCond(0, 0, 0)];
    assert_eq!(
        eval_check_base_interpreter_instructions_for_block(&t, &block, 1),
        Err(EvalCheckError::AndCondCondOutOfRange(0))
    );
    let mut block = Vec::new();
    for _ in 0..257 {
        block.push(PolyExtStep::ConstExt(1, 0, 0, 0));
    }
    block.push(PolyExtStep::True);
    for i in 0..257 {
        block.push(PolyExtStep::AndEqz(i, i));
    }
    assert_eq!(
        eval_check_base_interpreter_instructions_for_block(&t, &block, 257),
        Err(EvalCheckError::ExtSlotsExceeded { needed: 257, max: 256 })
    );
}
