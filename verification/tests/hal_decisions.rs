use webgpu_hal::diagnostics::{HalOpOutcome, WebGpuDiagnosticsState};
use webgpu_hal::eval_check::route::{eval_check_guard, EvalCheckGuard, EvalCheckGuardError};
use webgpu_hal::eval_check::tape::PolyExtStep;
use webgpu_hal::runtime::{combos_divide_parallel_dispatches, record_combos_divide_parallel_dispatch, WebGpuRuntimeFlags};

const COLS: [usize; 3] = [2, 3, 1];

fn guard(steps: usize, check: usize, groups: &[usize], globals: (usize, usize), block: &[PolyExtStep]) -> Result<EvalCheckGuard, EvalCheckGuardError> {
    eval_check_guard(true, 3, 2, steps, check, groups, &COLS, globals, block)
}

#[test]
fn guard_proceeds_on_consistent_buffers() {
    let block = [PolyExtStep::GetGlobal(0, 4), PolyExtStep::GetGlobal(1, 1)];
    assert_eq!(guard(2, 32, &[16, 24, 8], (5, 2), &block), Ok(EvalCheckGuard::Proceed { domain: 8 }));
}

#[test]
fn guard_declines_what_the_gpu_path_does_not_take() {
    assert_eq!(eval_check_guard(false, 3, 2, 2, 32, &[16, 24, 8], &COLS, (0, 0), &[]), Ok(EvalCheckGuard::Declined));
    assert_eq!(eval_check_guard(true, 2, 2, 2, 32, &[16, 24, 8], &COLS, (0, 0), &[]), Ok(EvalCheckGuard::Declined));
    assert_eq!(eval_check_guard(true, 3, 1, 2, 32, &[16, 24, 8], &COLS, (0, 0), &[]), Ok(EvalCheckGuard::Declined));
    assert_eq!(guard(2, 32, &[16, 24, 8], (9, 9), &[PolyExtStep::GetGlobal(2, 0)]), Ok(EvalCheckGuard::Declined));
    assert_eq!(guard(0, 7, &[1, 2, 3], (0, 0), &[]), Ok(EvalCheckGuard::NothingToDo));
}

#[test]
fn guard_errors_on_inconsistent_buffers() {
    assert_eq!(guard(usize::MAX, 0, &[0, 0, 0], (0, 0), &[]), Err(EvalCheckGuardError::DomainOverflow));
    assert_eq!(guard(2, 31, &[16, 24, 8], (0, 0), &[]), Err(EvalCheckGuardError::CheckSizeMismatch { got: 31, expected: 32 }));
    assert_eq!(
        guard(2, 32, &[16, 25, 8], (0, 0), &[]),
        Err(EvalCheckGuardError::GroupSizeMismatch { group: 1, got: 25, expected: 24 })
    );
    assert_eq!(
        guard(2, 32, &[16, 24, 8], (4, 2), &[PolyExtStep::GetGlobal(0, 4)]),
        Err(EvalCheckGuardError::GlobalTooSmall { global: 0, got: 4, need: 5 })
    );
    assert_eq!(
        guard(2, 32, &[16, 24, 8], (9, 0), &[PolyExtStep::GetGlobal(1, 0)]),
        Err(EvalCheckGuardError::GlobalTooSmall { global: 1, got: 0, need: 1 })
    );
}

#[test]
fn finishing_an_operation_picks_the_result_that_stands() {
    let mut d = WebGpuDiagnosticsState::new();
    assert_eq!(d.finish_hal_op("fold", true, true), HalOpOutcome::GpuResult);
    assert_eq!(d.finish_hal_op("fold", true, false), HalOpOutcome::CpuResult { gpu_used: true });
    assert_eq!(d.finish_hal_op("fold", false, true), HalOpOutcome::CpuResult { gpu_used: false });
    let s = d.snapshot();
    assert_eq!((s.gpu_dispatches, s.cpu_mirrors, s.cpu_fallbacks), (2, 1, 1));
}

#[test]
fn upload_totals_are_the_sums_over_sources() {
    let mut d = WebGpuDiagnosticsState::new();
    d.record_upload("b", 10);
    d.record_upload("a", 5);
    d.record_upload("b", 7);
    let s = d.snapshot();
    let uploads: u64 = s.upload_sources.iter().map(|u| u.uploads).sum();
    let bytes: u64 = s.upload_sources.iter().map(|u| u.upload_bytes).sum();
    assert_eq!((s.host_to_gpu_uploads, s.host_to_gpu_bytes), (uploads, bytes));
    assert_eq!((uploads, bytes), (3, 22));
}

#[test]
fn dispatch_count_grows_by_one_per_record() {
    let mut f = WebGpuRuntimeFlags::new();
    for _ in 0..5 {
        record_combos_divide_parallel_dispatch(&mut f);
    }
    assert_eq!(combos_divide_parallel_dispatches(&f), 5);
}
