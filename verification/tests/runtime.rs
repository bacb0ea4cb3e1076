use webgpu_hal::runtime::{
    combos_divide_parallel_dispatches, combos_divide_parallel_enabled, ensure_wasm_thread_pool,
    finish_wasm_thread_pool, log_cpu_shadow_materialize, log_webgpu_metric,
    poly_group_drain_diagnostic_enabled, record_combos_divide_parallel_dispatch,
    set_combos_divide_parallel_enabled, set_poly_group_drain_diagnostic_enabled,
    set_wasm_thread_pool_workers, WasmThreadPoolState, WebGpuRuntimeFlags,
};
use webgpu_hal::text::push_decimal;

#[test]
fn switches_start_at_their_defaults_and_can_be_flipped() {
    let mut f = WebGpuRuntimeFlags::new();
    assert!(!poly_group_drain_diagnostic_enabled(&f));
    assert!(combos_divide_parallel_enabled(&f));
    set_poly_group_drain_diagnostic_enabled(&mut f, true);
    set_combos_divide_parallel_enabled(&mut f, false);
    assert!(poly_group_drain_diagnostic_enabled(&f));
    assert!(!combos_divide_parallel_enabled(&f));
}

#[test]
fn parallel_dispatches_are_counted() {
    let mut f = WebGpuRuntimeFlags::new();
    assert_eq!(combos_divide_parallel_dispatches(&f), 0);
    record_combos_divide_parallel_dispatch(&mut f);
    record_combos_divide_parallel_dispatch(&mut f);
    assert_eq!(combos_divide_parallel_dispatches(&f), 2);
}

#[test]
fn automatic_pool_size_is_hardware_concurrency_capped_at_eight() {
    let f = WebGpuRuntimeFlags::new();
    assert_eq!(ensure_wasm_thread_pool(&f, 0), Some(8));
    assert_eq!(ensure_wasm_thread_pool(&f, 4), Some(4));
    assert_eq!(ensure_wasm_thread_pool(&f, 32), Some(8));
}

#[test]
fn configured_pool_size_wins_and_pool_starts_once() {
    let mut f = WebGpuRuntimeFlags::new();
    set_wasm_thread_pool_workers(&mut f, 3);
    assert_eq!(ensure_wasm_thread_pool(&f, 16), Some(3));
    finish_wasm_thread_pool(&mut f, true);
    assert_eq!(f.wasm_thread_pool_state, WasmThreadPoolState::Ready);
    assert_eq!(ensure_wasm_thread_pool(&f, 16), None);
    let mut g = WebGpuRuntimeFlags::new();
    finish_wasm_thread_pool(&mut g, false);
    assert_eq!(g.wasm_thread_pool_state, WasmThreadPoolState::Failed);
    assert_eq!(ensure_wasm_thread_pool(&g, 16), None);
}

#[test]
fn metric_lines_carry_the_prefix() {
    assert_eq!(log_webgpu_metric("x=1"), "browser-prove:metric x=1");
    assert_eq!(log_webgpu_metric(""), "browser-prove:metric ");
}

#[test]
fn only_large_shadow_materializations_are_logged() {
    assert_eq!(log_cpu_shadow_materialize("data", (1 << 20) - 1), None);
    assert_eq!(
        log_cpu_shadow_materialize("data", 1 << 20),
        Some("browser-prove:metric cpu_shadow_materialize name=data bytes=1048576".to_string())
    );
}

#[test]
fn decimal_digits() {
    let mut s = String::from("n=");
    push_decimal(&mut s, 0);
    assert_eq!(s, "n=0");
    let mut s = String::new();
    push_decimal(&mut s, 1234567890123);
    assert_eq!(s, "1234567890123");
    let mut s = String::new();
    push_decimal(&mut s, u64::MAX);
    assert_eq!(s, u64::MAX.to_string());
}
