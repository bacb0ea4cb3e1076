use webgpu_hal::diagnostics::{
    compare_names, NameOrder, WebGpuDiagnosticsState, WebGpuOpCounter, WebGpuStageDiagnostics,
};

#[test]
fn names_compare_by_bytes() {
    assert_eq!(compare_names("a", "b"), NameOrder::Less);
    assert_eq!(compare_names("ab", "a"), NameOrder::Greater);
    assert_eq!(compare_names("", ""), NameOrder::Equal);
    assert_eq!(compare_names("data", "data"), NameOrder::Equal);
    assert_eq!(compare_names("Z", "a"), NameOrder::Less);
    assert_eq!(compare_names("", "x"), NameOrder::Less);
}

#[test]
fn uploads_are_counted_per_name_in_name_order() {
    let mut d = WebGpuDiagnosticsState::new();
    d.record_upload("b", 10);
    d.record_upload("a", 5);
    d.record_upload("b", 1);
    let s = d.snapshot();
    assert_eq!(s.host_to_gpu_uploads, 3);
    assert_eq!(s.host_to_gpu_bytes, 16);
    let rows: Vec<(&str, u64, u64)> =
        s.upload_sources.iter().map(|u| (u.name, u.uploads, u.upload_bytes)).collect();
    assert_eq!(rows, vec![("a", 1, 5), ("b", 2, 11)]);
}

#[test]
fn device_copies_and_readbacks_are_counted_per_name() {
    let mut d = WebGpuDiagnosticsState::new();
    d.record_device_copy("x", 7);
    d.record_device_copy("x", 3);
    d.record_readback("r2", 4);
    d.record_readback("r1", 8);
    let s = d.snapshot();
    assert_eq!((s.device_copies, s.device_copy_bytes), (2, 10));
    assert_eq!((s.readbacks, s.readback_bytes), (2, 12));
    assert_eq!(s.device_copy_sources.len(), 1);
    assert_eq!(
        (s.device_copy_sources[0].name, s.device_copy_sources[0].device_copies, s.device_copy_sources[0].device_copy_bytes),
        ("x", 2, 10)
    );
    let rows: Vec<(&str, u64, u64)> =
        s.readback_sources.iter().map(|r| (r.name, r.readbacks, r.readback_bytes)).collect();
    assert_eq!(rows, vec![("r1", 1, 8), ("r2", 1, 4)]);
}

#[test]
fn op_records_bump_one_counter_of_one_name() {
    let mut d = WebGpuDiagnosticsState::new();
    d.record_gpu_dispatch("ntt");
    d.record_cpu_fallback("ntt");
    d.record_cpu_mirror("hash");
    d.record_op("hash", WebGpuOpCounter::CpuOnly);
    let s = d.snapshot();
    assert_eq!((s.gpu_dispatches, s.cpu_fallbacks, s.cpu_mirrors, s.cpu_only_ops), (1, 1, 1, 0));
    let rows: Vec<(&str, u64, u64, u64, u64)> = s
        .ops
        .iter()
        .map(|o| (o.name, o.gpu_dispatches, o.cpu_mirrors, o.cpu_fallbacks, o.cpu_only_ops))
        .collect();
    assert_eq!(rows, vec![("hash", 0, 1, 0, 1), ("ntt", 1, 0, 1, 0)]);
}

#[test]
fn counters_saturate() {
    let mut d = WebGpuDiagnosticsState::new();
    d.record_buffer_allocated(u64::MAX);
    d.record_buffer_allocated(5);
    d.record_upload("a", u64::MAX);
    d.record_upload("a", u64::MAX);
    let s = d.snapshot();
    assert_eq!(s.buffers_allocated, 2);
    assert_eq!(s.bytes_allocated, u64::MAX);
    assert_eq!(s.upload_sources[0].upload_bytes, u64::MAX);
    let mut c = 5u64;
    WebGpuDiagnosticsState::add(&mut c, u64::MAX - 1);
    assert_eq!(c, u64::MAX);
}

#[test]
fn plain_counters_each_count_their_event() {
    let mut d = WebGpuDiagnosticsState::new();
    d.record_bind_group_layout_creation();
    d.record_bind_group_layout_cache_hit();
    d.record_bind_group_layout_cache_hit();
    d.record_bind_group_creation();
    d.record_compute_pipeline_creation();
    d.record_compute_pipeline_cache_hit();
    d.record_raw_compute_dispatch();
    d.record_queue_submit();
    d.record_queue_submit();
    let s = d.snapshot();
    assert_eq!(s.bind_group_layout_creations, 1);
    assert_eq!(s.bind_group_layout_cache_hits, 2);
    assert_eq!(s.bind_group_creations, 1);
    assert_eq!(s.compute_pipeline_creations, 1);
    assert_eq!(s.compute_pipeline_cache_hits, 1);
    assert_eq!(s.raw_compute_dispatches, 1);
    assert_eq!(s.queue_submits, 2);
    assert!(s.ops.is_empty());
}

#[test]
fn stages_are_logged_in_order_and_reset_clears_everything() {
    let mut d = WebGpuDiagnosticsState::new();
    d.record_stage(WebGpuStageDiagnostics { label: "a".to_string(), elapsed_us: 3, gpu_active: true });
    d.record_stage(WebGpuStageDiagnostics { label: "b".to_string(), elapsed_us: 4, gpu_active: false });
    d.record_upload("u", 1);
    d.record_gpu_dispatch("k");
    let s = d.snapshot();
    assert_eq!(s.stages.len(), 2);
    assert_eq!((s.stages[0].label.as_str(), s.stages[0].elapsed_us, s.stages[0].gpu_active), ("a", 3, true));
    assert_eq!((s.stages[1].label.as_str(), s.stages[1].elapsed_us, s.stages[1].gpu_active), ("b", 4, false));
    d.reset();
    let s = d.snapshot();
    assert_eq!(s.host_to_gpu_uploads, 0);
    assert_eq!(s.gpu_dispatches, 0);
    assert!(s.stages.is_empty() && s.ops.is_empty() && s.upload_sources.is_empty());
    assert!(s.device_copy_sources.is_empty() && s.readback_sources.is_empty());
}

#[test]
fn gpu_results_are_attributed() {
    let mut d = WebGpuDiagnosticsState::default();
    d.record_gpu_result_with_cpu_mirror("mix", true);
    d.record_gpu_result_with_cpu_mirror("mix", false);
    d.record_gpu_result_authoritative("eval_check", true);
    d.record_gpu_result_authoritative("eval_check", false);
    let s = d.snapshot();
    assert_eq!((s.gpu_dispatches, s.cpu_mirrors, s.cpu_fallbacks), (2, 1, 2));
    let rows: Vec<(&str, u64, u64, u64)> =
        s.ops.iter().map(|o| (o.name, o.gpu_dispatches, o.cpu_mirrors, o.cpu_fallbacks)).collect();
    assert_eq!(rows, vec![("eval_check", 1, 0, 1), ("mix", 1, 1, 1)]);
}
