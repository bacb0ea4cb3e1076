use webgpu_hal::limits::{
    eval_check_base_workgroup_lanes, max_storage_binding_bytes, webgpu_required_limits, WebGpuAdapterLimits,
    WebGpuRequiredLimits,
};
use webgpu_hal::ntt::{ntt_twiddles, NttTwiddleError};

#[test]
fn required_limits_are_capped() {
    let adapter = WebGpuAdapterLimits {
        max_buffer_size: 1 << 40,
        max_storage_buffer_binding_size: 1 << 40,
        max_compute_workgroup_storage_size: 1 << 20,
        max_storage_buffers_per_shader_stage: 64,
        max_uniform_buffer_binding_size: 1 << 20,
    };
    assert_eq!(
        webgpu_required_limits(adapter),
        WebGpuRequiredLimits {
            max_buffer_size: 4294967292,
            max_storage_buffer_binding_size: 4294967292,
            max_compute_workgroup_storage_size: 131072,
            max_storage_buffers_per_shader_stage: 16,
            max_uniform_buffer_binding_size: 262144,
        }
    );
}

#[test]
fn required_limits_never_exceed_the_adapter() {
    let adapter = WebGpuAdapterLimits {
        max_buffer_size: 256 << 20,
        max_storage_buffer_binding_size: 1 << 30,
        max_compute_workgroup_storage_size: 16384,
        max_storage_buffers_per_shader_stage: 8,
        max_uniform_buffer_binding_size: 65536,
    };
    assert_eq!(
        webgpu_required_limits(adapter),
        WebGpuRequiredLimits {
            max_buffer_size: 256 << 20,
            max_storage_buffer_binding_size: 256 << 20,
            max_compute_workgroup_storage_size: 16384,
            max_storage_buffers_per_shader_stage: 8,
            max_uniform_buffer_binding_size: 65536,
        }
    );
}

#[test]
fn storage_binding_is_capped_at_one_gib() {
    assert_eq!(max_storage_binding_bytes(4294967292), 1 << 30);
    assert_eq!(max_storage_binding_bytes(128 << 20), 128 << 20);
}

#[test]
fn workgroup_lanes_fit_the_scratch() {
    // 100 * 4 + 2 * 16 + 3 * 32 = 528 bytes per lane; 16384 / 528 = 31.
    assert_eq!(eval_check_base_workgroup_lanes(16384, 100, 2, 3), 31);
    // Plenty of storage: capped at the workgroup size.
    assert_eq!(eval_check_base_workgroup_lanes(131072, 1, 0, 0), 32);
    // Not even one lane fits: still one.
    assert_eq!(eval_check_base_workgroup_lanes(100, 1000, 0, 0), 1);
}

#[test]
fn twiddles_are_level_root_powers() {
    assert_eq!(
        ntt_twiddles(false, 3),
        Ok(vec![268435454, 268435454, 1539779312, 268435454, 49022963, 1539779312, 981128818])
    );
    assert_eq!(ntt_twiddles(true, 2), Ok(vec![268435454, 268435454, 473486609]));
    assert_eq!(ntt_twiddles(false, 0), Ok(vec![]));
    assert_eq!(ntt_twiddles(true, 27), Err(NttTwiddleError::Po2TooLarge(27)));
    assert_eq!(ntt_twiddles(false, 10).unwrap().len(), 1023);
}
