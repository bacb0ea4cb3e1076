use webgpu_hal::eval_check::route::{eval_check_min_global_sizes, eval_check_route, EvalCheckPath};
use webgpu_hal::eval_check::tape::PolyExtStep;

#[test]
fn small_polynomials_use_the_unrolled_shader() {
    let r = eval_check_route(100, true, true, None, false);
    assert!(r.fallbacks.is_empty());
    assert_eq!(r.last, Some(EvalCheckPath::Unrolled));
    let r = eval_check_route(4096, false, true, Some(3), true);
    assert!(r.fallbacks.is_empty());
    assert_eq!(r.last, Some(EvalCheckPath::Unrolled));
}

#[test]
fn small_polynomials_need_every_group_bound() {
    let r = eval_check_route(100, false, false, None, true);
    assert!(r.fallbacks.is_empty());
    assert_eq!(r.last, None);
}

#[test]
fn large_polynomials_try_staged_then_base_interpreter() {
    let r = eval_check_route(9000, true, true, Some(10), true);
    assert_eq!(r.fallbacks, vec![EvalCheckPath::Staged]);
    assert_eq!(r.last, Some(EvalCheckPath::Interpreted { base: true }));
    let r = eval_check_route(9000, true, false, Some(2000), true);
    assert!(r.fallbacks.is_empty());
    assert_eq!(r.last, Some(EvalCheckPath::GroupChunks { base: true }));
    let r = eval_check_route(9000, false, true, Some(2000), false);
    assert!(r.fallbacks.is_empty());
    assert_eq!(r.last, Some(EvalCheckPath::Interpreted { base: true }));
}

#[test]
fn large_polynomials_fall_back_to_the_extension_interpreter() {
    let r = eval_check_route(5000, false, true, None, true);
    assert_eq!(r.last, Some(EvalCheckPath::Interpreted { base: false }));
    let r = eval_check_route(5000, false, false, None, true);
    assert_eq!(r.last, Some(EvalCheckPath::GroupChunks { base: false }));
    let r = eval_check_route(5000, false, true, None, false);
    assert!(r.fallbacks.is_empty());
    assert_eq!(r.last, None);
}

#[test]
fn global_sizes_cover_every_read_offset() {
    let block = [
        PolyExtStep::GetGlobal(0, 5),
        PolyExtStep::GetGlobal(1, 2),
        PolyExtStep::GetGlobal(0, 3),
        PolyExtStep::Const(1),
    ];
    assert_eq!(eval_check_min_global_sizes(&block), Some((6, 3)));
    assert_eq!(eval_check_min_global_sizes(&[]), Some((0, 0)));
    assert_eq!(eval_check_min_global_sizes(&[PolyExtStep::GetGlobal(0, 1), PolyExtStep::GetGlobal(2, 0)]), None);
}
