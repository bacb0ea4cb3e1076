use webgpu_hal::eval_check::interpreter::{
    eval_check_interpreter_instructions, eval_check_interpreter_instructions_for_block,
    eval_check_interpreter_instructions_with_limit, WEBGPU_EVAL_CHECK_MAX_FP_SLOTS,
};
use webgpu_hal::eval_check::slots::{
    eval_check_fp_slot, eval_check_last_uses, eval_check_last_uses_block, eval_check_mix_slot,
    eval_check_note_last, EvalCheckSlotAllocator,
};
use webgpu_hal::eval_check::tape::{EvalCheckError, EvalCheckTap, PolyExtStep, PolyExtStepDef};

fn taps() -> Vec<EvalCheckTap> {
    vec![
        EvalCheckTap { group: 0, offset: 5, back: 1 },
        EvalCheckTap { group: 1, offset: 2, back: 0 },
        EvalCheckTap { group: 3, offset: 0, back: 0 },
    ]
}

fn words(instrs: &[[u32; 8]]) -> Vec<u32> {
    instrs.iter().flatten().copied().collect()
}

#[test]
fn last_uses_of_a_small_tape() {
    let block = [
        PolyExtStep::Get(0),
        PolyExtStep::Const(3),
        PolyExtStep::Add(0, 1),
        PolyExtStep::Const(9),
        PolyExtStep::True,
        PolyExtStep::AndEqz(0, 2),
    ];
    let (last_fp, last_mix, fp_count, mix_count) = eval_check_last_uses_block(&block, 1).unwrap();
    assert_eq!(last_fp, vec![Some(2), Some(2), Some(5), None]);
    assert_eq!(last_mix, vec![Some(5), Some(6)]);
    assert_eq!((fp_count, mix_count), (4, 2));
    let def = PolyExtStepDef { block: &block, ret: 0 };
    let (_, last_mix, _, _) = eval_check_last_uses(&def).unwrap();
    assert_eq!(last_mix, vec![Some(6), None]);
}

#[test]
fn last_uses_rejects_undefined_reads() {
    let block = [PolyExtStep::Const(1), PolyExtStep::Add(0, 1)];
    assert_eq!(eval_check_last_uses_block(&block, 0), Err(EvalCheckError::FpOperandOutOfRange(1)));
    let block = [PolyExtStep::True, PolyExtStep::AndEqz(1, 0)];
    assert_eq!(eval_check_last_uses_block(&block, 0), Err(EvalCheckError::AndEqzChainOutOfRange(1)));
    let block = [PolyExtStep::True, PolyExtStep::AndEqz(0, 0)];
    assert_eq!(eval_check_last_uses_block(&block, 0), Err(EvalCheckError::AndEqzInnerOutOfRange(0)));
    let block = [PolyExtStep::Const(1), PolyExtStep::True, PolyExtStep::AndCond(0, 0, 1)];
    assert_eq!(eval_check_last_uses_block(&block, 0), Err(EvalCheckError::AndCondInnerOutOfRange(1)));
    let block = [PolyExtStep::True];
    assert_eq!(
        eval_check_last_uses_block(&block, 1),
        Err(EvalCheckError::ReturnOutOfRange { ret: 1, mix_count: 1 })
    );
}

#[test]
fn note_last_ignores_out_of_range_vars() {
    let mut last = vec![None, None];
    eval_check_note_last(&mut last, 1, 7);
    eval_check_note_last(&mut last, 5, 8);
    assert_eq!(last, vec![None, Some(7)]);
}

#[test]
fn allocator_reuses_the_most_recent_free_slot() {
    let mut pool = EvalCheckSlotAllocator::default();
    assert_eq!(pool.allocate(), 0);
    assert_eq!(pool.allocate(), 1);
    assert_eq!(pool.allocate(), 2);
    pool.free(0);
    pool.free(2);
    assert_eq!(pool.allocate(), 2);
    assert_eq!(pool.allocate(), 0);
    assert_eq!(pool.allocate(), 3);
    assert_eq!(pool.max_used(), 4);
}

#[test]
fn slot_lookup_reports_missing_values() {
    let slots = vec![Some(4), None];
    assert_eq!(eval_check_fp_slot(&slots, 0), Ok(4));
    assert_eq!(eval_check_fp_slot(&slots, 1), Err(EvalCheckError::FpValueReleased(1)));
    assert_eq!(eval_check_fp_slot(&slots, 2), Err(EvalCheckError::FpVarOutOfRange(2)));
    assert_eq!(eval_check_mix_slot(&slots, 1), Err(EvalCheckError::MixValueReleased(1)));
    assert_eq!(eval_check_mix_slot(&slots, 3), Err(EvalCheckError::MixVarOutOfRange(3)));
}

#[test]
fn interpreter_words_for_ordered_tape() {
    let block = [
        PolyExtStep::Get(0),
        PolyExtStep::Const(3),
        PolyExtStep::Add(0, 1),
        PolyExtStep::True,
        PolyExtStep::AndEqz(0, 2),
    ];
    let (instrs, fp_slots, mix_slots, ret_slot) =
        eval_check_interpreter_instructions_for_block(&taps(), &block, 1, 16).unwrap();
    let expected = words(&[
        [2, 0, 0, 5, 4, 0, 0, 0],
        [0, 1, 805306362, 0, 0, 0, 0, 0],
        [4, 2, 0, 1, 0, 0, 0, 0],
        [7, 0, 0, 0, 0, 0, 0, 0],
        [8, 1, 0, 2, 1, 0, 0, 0],
    ]);
    assert_eq!(instrs, expected);
    assert_eq!((fp_slots, mix_slots, ret_slot), (3, 2, 1));
}

#[test]
fn interpreter_reuses_released_slots() {
    let block = [
        PolyExtStep::Const(1),
        PolyExtStep::Const(2),
        PolyExtStep::Add(0, 1),
        PolyExtStep::Const(5),
        PolyExtStep::Mul(2, 3),
        PolyExtStep::Const(9),
        PolyExtStep::True,
        PolyExtStep::AndEqz(0, 4),
    ];
    let (instrs, fp_slots, mix_slots, ret_slot) =
        eval_check_interpreter_instructions_for_block(&taps(), &block, 1, 16).unwrap();
    let expected = words(&[
        [0, 0, 268435454, 0, 0, 0, 0, 0],
        [0, 1, 536870908, 0, 0, 0, 0, 0],
        [4, 2, 0, 1, 0, 0, 0, 0],
        [0, 1, 1342177270, 0, 0, 0, 0, 0],
        [6, 0, 2, 1, 0, 0, 0, 0],
        [0, 1, 402653165, 0, 0, 0, 0, 0],
        [7, 0, 0, 0, 0, 0, 0, 0],
        [8, 1, 0, 0, 1, 0, 0, 0],
    ]);
    assert_eq!(instrs, expected);
    assert_eq!((fp_slots, mix_slots, ret_slot), (3, 2, 1));
}

#[test]
fn interpreter_cond_and_globals() {
    let block = [
        PolyExtStep::True,
        PolyExtStep::GetGlobal(1, 7),
        PolyExtStep::True,
        PolyExtStep::Get(1),
        PolyExtStep::AndCond(0, 0, 1),
        PolyExtStep::AndEqz(2, 1),
    ];
    let (instrs, fp_slots, mix_slots, ret_slot) =
        eval_check_interpreter_instructions_for_block(&taps(), &block, 3, 16).unwrap();
    let expected = words(&[
        [7, 0, 0, 0, 0, 0, 0, 0],
        [3, 0, 1, 7, 0, 0, 0, 0],
        [7, 1, 1, 0, 0, 0, 0, 0],
        [2, 1, 1, 2, 0, 0, 0, 0],
        [9, 2, 0, 0, 1, 2, 0, 0],
        [8, 1, 2, 1, 3, 0, 0, 0],
    ]);
    assert_eq!(instrs, expected);
    assert_eq!((fp_slots, mix_slots, ret_slot), (2, 3, 1));
}

#[test]
fn interpreter_reorders_the_tape_first() {
    let block = [
        PolyExtStep::Get(0),
        PolyExtStep::Const(3),
        PolyExtStep::Add(0, 1),
        PolyExtStep::True,
        PolyExtStep::AndEqz(0, 2),
    ];
    let def = PolyExtStepDef { block: &block, ret: 1 };
    let (instrs, fp_slots, mix_slots, ret_slot) = eval_check_interpreter_instructions(&taps(), &def).unwrap();
    let expected = words(&[
        [7, 0, 0, 0, 0, 0, 0, 0],
        [2, 0, 0, 5, 4, 0, 0, 0],
        [0, 1, 805306362, 0, 0, 0, 0, 0],
        [4, 2, 0, 1, 0, 0, 0, 0],
        [8, 1, 0, 2, 1, 0, 0, 0],
    ]);
    assert_eq!(instrs, expected);
    assert_eq!((fp_slots, mix_slots, ret_slot), (3, 2, 1));
}

#[test]
fn interpreter_errors() {
    let t = taps();
    let block = [PolyExtStep::Get(5), PolyExtStep::True];
    assert_eq!(
        eval_check_interpreter_instructions_for_block(&t, &block, 0, 16),
        Err(EvalCheckError::TapOutOfRange(5))
    );
    let block = [PolyExtStep::Get(2), PolyExtStep::True];
    assert_eq!(
        eval_check_interpreter_instructions_for_block(&t, &block, 0, 16),
        Err(EvalCheckError::TapGroupUnsupported(3))
    );
    let block = [PolyExtStep::GetGlobal(2, 0), PolyExtStep::True];
    assert_eq!(
        eval_check_interpreter_instructions_for_block(&t, &block, 0, 16),
        Err(EvalCheckError::GlobalArgUnsupported(2))
    );
    let block = [PolyExtStep::Const(1), PolyExtStep::Add(0, 4), PolyExtStep::True];
    assert_eq!(
        eval_check_interpreter_instructions_for_block(&t, &block, 0, 16),
        Err(EvalCheckError::FpOperandOutOfRange(4))
    );
    let block = [
        PolyExtStep::Const(1),
        PolyExtStep::Const(2),
        PolyExtStep::Add(0, 1),
        PolyExtStep::True,
        PolyExtStep::AndEqz(0, 2),
    ];
    assert_eq!(
        eval_check_interpreter_instructions_for_block(&t, &block, 1, 2),
        Err(EvalCheckError::FpSlotsExceeded { needed: 3, max: 2 })
    );
    let def = PolyExtStepDef { block: &block, ret: 1 };
    assert!(eval_check_interpreter_instructions_with_limit(&t, &def, 3).is_ok());
    assert_eq!(
        eval_check_interpreter_instructions_with_limit(&t, &def, 2),
        Err(EvalCheckError::FpSlotsExceeded { needed: 3, max: 2 })
    );
    let bad = [PolyExtStep::Add(0, 0), PolyExtStep::True, PolyExtStep::AndEqz(0, 0)];
    let def = PolyExtStepDef { block: &bad, ret: 1 };
    assert!(matches!(
        eval_check_interpreter_instructions(&t, &def),
        Err(EvalCheckError::FpOperandOutOfRange(_)) | Err(EvalCheckError::FpOperandForwardReference)
    ));
}

#[test]
fn interpreter_mix_slot_limit() {
    let mut block = Vec::new();
    for _ in 0..65 {
        block.push(PolyExtStep::True);
    }
    block.push(PolyExtStep::Const(0));
    for i in 0..65 {
        block.push(PolyExtStep::AndEqz(i, 0));
    }
    let res = eval_check_interpreter_instructions_for_block(&taps(), &block, 129, WEBGPU_EVAL_CHECK_MAX_FP_SLOTS);
    assert_eq!(res, Err(EvalCheckError::MixSlotsExceeded { needed: 66, max: 64 }));
}
