use webgpu_hal::eval_check::hybrid::eval_check_base_interpreter_instructions;
use webgpu_hal::eval_check::interpreter::{
    eval_check_interpreter_instructions, eval_check_interpreter_instructions_with_limit,
};
use webgpu_hal::eval_check::reorder::eval_check_reorder_lazy;
use webgpu_hal::eval_check::tape::{EvalCheckTap, PolyExtStep, PolyExtStepDef};
use PolyExtStep::{Add, AndCond, AndEqz, Const, ConstExt, Mul, Sub, True};

fn taps() -> Vec<EvalCheckTap> {
    vec![EvalCheckTap { group: 0, offset: 1, back: 0 }]
}

#[test]
fn lazy_order_emits_post_order_before_first_reader() {
    let block = [Const(5), Const(6), Const(9), Add(1, 0), True, AndEqz(0, 3), AndEqz(1, 0)];
    assert_eq!(
        eval_check_reorder_lazy(&block).unwrap(),
        vec![True, Const(6), Const(5), Add(0, 1), AndEqz(0, 2), AndEqz(1, 1)]
    );
}

#[test]
fn lazy_order_moves_fp_steps_behind_earlier_mix_steps() {
    let block = [Const(3), True, AndEqz(0, 0)];
    assert_eq!(eval_check_reorder_lazy(&block).unwrap(), vec![True, Const(3), AndEqz(0, 0)]);
}

#[test]
fn lazy_order_is_a_fixed_point() {
    let blocks: Vec<Vec<PolyExtStep>> = vec![
        vec![Const(5), Const(6), Const(9), Add(1, 0), True, AndEqz(0, 3), AndEqz(1, 0)],
        vec![Const(1), Const(2), Mul(0, 1), Sub(2, 0), True, AndCond(0, 3, 0), AndEqz(1, 2), AndEqz(2, 1)],
    ];
    for block in blocks {
        let once = eval_check_reorder_lazy(&block).unwrap();
        assert_eq!(eval_check_reorder_lazy(&once).unwrap(), once);
    }
}

#[test]
fn interpreter_limit_only_gates_the_program() {
    let block = [True, Const(3), AndEqz(0, 0)];
    let def = PolyExtStepDef { block: &block, ret: 1 };
    assert!(eval_check_interpreter_instructions_with_limit(&taps(), &def, 0).is_err());
    let (w, f, m, r) = eval_check_interpreter_instructions_with_limit(&taps(), &def, 1).unwrap();
    assert_eq!(w.len(), 24);
    assert_eq!((w[0], w[2], w[8], w[10], w[16], w[20]), (7, 0, 0, 805306362, 8, 1));
    assert_eq!(w[18], w[1]);
    assert_eq!(w[19], w[9]);
    assert_eq!((f, m), (1, 2));
    assert_eq!(r as u32, w[17]);
    assert_eq!(eval_check_interpreter_instructions_with_limit(&taps(), &def, 7).unwrap(), (w, f, m, r));
}

#[test]
fn base_interpreter_words_for_a_mixed_tape() {
    let block = [True, Const(3), AndEqz(0, 0), Const(4), ConstExt(1, 2, 3, 4), Mul(1, 2), AndEqz(1, 3), AndEqz(2, 0)];
    let def = PolyExtStepDef { block: &block, ret: 3 };
    let (w, nb, ne, nm, r) = eval_check_base_interpreter_instructions(&taps(), &def).unwrap();
    assert_eq!(w.len(), 64);
    assert_eq!(&w[40..44], &[16, 1, 0, 1]);
    assert_eq!(w[42], w[33]);
    assert_eq!(w[43], w[25]);
    assert_ne!(w[25], w[9]);
    assert_eq!(w[48], 17);
    assert_eq!(w[51], w[41]);
    assert_eq!(w[56], 8);
    assert_eq!(w[59], w[9]);
    assert_eq!((nb, ne, nm), (2, 2, 2));
    assert_eq!(r as u32, w[57]);
}

#[test]
fn base_and_plain_streams_agree_without_extension_constants() {
    let block = [Const(5), Const(6), Add(1, 0), True, AndEqz(0, 2), AndEqz(1, 0)];
    let def = PolyExtStepDef { block: &block, ret: 2 };
    let (w1, f1, m1, r1) = eval_check_interpreter_instructions(&taps(), &def).unwrap();
    let (w2, b2, e2, m2, r2) = eval_check_base_interpreter_instructions(&taps(), &def).unwrap();
    assert_eq!((w2, b2, e2, m2, r2), (w1, f1, 0, m1, r1));
}
