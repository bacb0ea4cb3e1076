//! Device limits: what the backend asks the adapter for, and the sizes it
//! derives from what the device granted.

use vstd::prelude::*;
use crate::dispatch::MAX_EXACT_JS_INTEGER;

verus! {

/// Largest buffer asked for: 4 GiB less alignment slack.
pub const WEBGPU_REQUESTED_MAX_BUFFER_BYTES: u64 = 4294967292;
/// Largest storage binding asked for.
pub const WEBGPU_REQUESTED_MAX_STORAGE_BINDING_BYTES: u64 = 4294967292;
/// Workgroup storage asked for: 128 KiB.
pub const WEBGPU_REQUESTED_MAX_WORKGROUP_STORAGE_BYTES: u32 = 131072;
/// Storage buffers per shader stage asked for.
pub const WEBGPU_REQUESTED_MAX_STORAGE_BUFFERS_PER_STAGE: u32 = 16;
/// Uniform binding asked for: 256 KiB.
pub const WEBGPU_REQUESTED_MAX_UNIFORM_BUFFER_BINDING_BYTES: u64 = 262144;
/// Largest storage binding the backend uses, whatever the device grants:
/// 1 GiB.
pub const WEBGPU_SAFE_STORAGE_BINDING_BYTES: u64 = 1073741824;
/// Threads per workgroup of the interpreter shaders.
pub const WEBGPU_EVAL_CHECK_INTERPRETER_WORKGROUP_SIZE: u32 = 32;

/// The adapter's limits that the backend reads.
#[derive(Clone, Copy, Debug, PartialEq, Eq, Structural)]
pub struct WebGpuAdapterLimits {
    pub max_buffer_size: u64,
    pub max_storage_buffer_binding_size: u64,
    pub max_compute_workgroup_storage_size: u32,
    pub max_storage_buffers_per_shader_stage: u32,
    pub max_uniform_buffer_binding_size: u64,
}

/// The limits the backend asks the device for.
#[derive(Clone, Copy, Debug, PartialEq, Eq, Structural)]
pub struct WebGpuRequiredLimits {
    pub max_buffer_size: u64,
    pub max_storage_buffer_binding_size: u64,
    pub max_compute_workgroup_storage_size: u32,
    pub max_storage_buffers_per_shader_stage: u32,
    pub max_uniform_buffer_binding_size: u64,
}

pub open spec fn min_int(a: int, b: int) -> int {
    if a < b {
        a
    } else {
        b
    }
}

fn min_u64(a: u64, b: u64) -> (r: u64)
    ensures
        r == min_int(a as int, b as int),
{
    if a < b {
        a
    } else {
        b
    }
}

fn min_u32(a: u32, b: u32) -> (r: u32)
    ensures
        r == min_int(a as int, b as int),
{
    if a < b {
        a
    } else {
        b
    }
}

/// The limits to ask for: the adapter's, capped at what the backend needs
/// and at exact JavaScript integers; a storage binding never exceeds a
/// buffer.
pub fn webgpu_required_limits(adapter: WebGpuAdapterLimits) -> (r: WebGpuRequiredLimits)
    ensures
        r.max_buffer_size == min_int(
            min_int(adapter.max_buffer_size as int, WEBGPU_REQUESTED_MAX_BUFFER_BYTES as int),
            MAX_EXACT_JS_INTEGER as int,
        ),
        r.max_storage_buffer_binding_size == min_int(
            min_int(
                min_int(
                    adapter.max_storage_buffer_binding_size as int,
                    WEBGPU_REQUESTED_MAX_STORAGE_BINDING_BYTES as int,
                ),
                r.max_buffer_size as int,
            ),
            MAX_EXACT_JS_INTEGER as int,
        ),
        r.max_compute_workgroup_storage_size == min_int(
            adapter.max_compute_workgroup_storage_size as int,
            WEBGPU_REQUESTED_MAX_WORKGROUP_STORAGE_BYTES as int,
        ),
        r.max_storage_buffers_per_shader_stage == min_int(
            adapter.max_storage_buffers_per_shader_stage as int,
            WEBGPU_REQUESTED_MAX_STORAGE_BUFFERS_PER_STAGE as int,
        ),
        r.max_uniform_buffer_binding_size == min_int(
            adapter.max_uniform_buffer_binding_size as int,
            WEBGPU_REQUESTED_MAX_UNIFORM_BUFFER_BINDING_BYTES as int,
        ),
        // Nothing is asked beyond what the adapter offers.
        r.max_buffer_size <= adapter.max_buffer_size,
        r.max_storage_buffer_binding_size <= adapter.max_storage_buffer_binding_size,
        r.max_compute_workgroup_storage_size <= adapter.max_compute_workgroup_storage_size,
        r.max_storage_buffers_per_shader_stage <= adapter.max_storage_buffers_per_shader_stage,
        r.max_uniform_buffer_binding_size <= adapter.max_uniform_buffer_binding_size,
        r.max_storage_buffer_binding_size <= r.max_buffer_size <= MAX_EXACT_JS_INTEGER,
{
    let max_buffer_size = min_u64(
        min_u64(adapter.max_buffer_size, WEBGPU_REQUESTED_MAX_BUFFER_BYTES),
        MAX_EXACT_JS_INTEGER,
    );
    let max_storage_buffer_binding_size = min_u64(
        min_u64(
            min_u64(adapter.max_storage_buffer_binding_size, WEBGPU_REQUESTED_MAX_STORAGE_BINDING_BYTES),
            max_buffer_size,
        ),
        MAX_EXACT_JS_INTEGER,
    );
    WebGpuRequiredLimits {
        max_buffer_size,
        max_storage_buffer_binding_size,
        max_compute_workgroup_storage_size: min_u32(
            adapter.max_compute_workgroup_storage_size,
            WEBGPU_REQUESTED_MAX_WORKGROUP_STORAGE_BYTES,
        ),
        max_storage_buffers_per_shader_stage: min_u32(
            adapter.max_storage_buffers_per_shader_stage,
            WEBGPU_REQUESTED_MAX_STORAGE_BUFFERS_PER_STAGE,
        ),
        max_uniform_buffer_binding_size: min_u64(
            adapter.max_uniform_buffer_binding_size,
            WEBGPU_REQUESTED_MAX_UNIFORM_BUFFER_BINDING_BYTES,
        ),
    }
}

/// Largest storage binding the backend uses on a device that grants
/// `max_storage_buffer_binding_size`.
pub fn max_storage_binding_bytes(max_storage_buffer_binding_size: u64) -> (r: u64)
    ensures
        r == min_int(max_storage_buffer_binding_size as int, WEBGPU_SAFE_STORAGE_BINDING_BYTES as int),
{
    min_u64(max_storage_buffer_binding_size, WEBGPU_SAFE_STORAGE_BINDING_BYTES)
}

/// Scratch bytes one interpreter lane needs: a word per base slot, four
/// per extension slot (at least one), and eight per mix slot (total and
/// multiplier).
pub open spec fn lane_scratch_bytes(fp_slots: int, ext_slots: int, mix_slots: int) -> int {
    fp_slots * 4 + (if ext_slots > 1 { ext_slots } else { 1 }) * 16 + mix_slots * 16 * 2
}

/// Lanes per workgroup of the base-field interpreter: as many as the
/// workgroup storage holds scratch for, at least one and at most the
/// interpreter's workgroup size.
pub fn eval_check_base_workgroup_lanes(
    max_compute_workgroup_storage_size: u32,
    fp_slots: usize,
    ext_slots: usize,
    mix_slots: usize,
) -> (lanes: u32)
    requires
        lane_scratch_bytes(fp_slots as int, ext_slots as int, mix_slots as int) <= usize::MAX,
    ensures
        ({
            let fit = max_compute_workgroup_storage_size as int / lane_scratch_bytes(
                fp_slots as int,
                ext_slots as int,
                mix_slots as int,
            );
            lanes == min_int(
                if fit > 1 { fit } else { 1 },
                WEBGPU_EVAL_CHECK_INTERPRETER_WORKGROUP_SIZE as int,
            )
        }),
        1 <= lanes <= WEBGPU_EVAL_CHECK_INTERPRETER_WORKGROUP_SIZE,
{
    let ext = if ext_slots > 1 { ext_slots } else { 1 };
    proof {
        assert(fp_slots * 4 + ext * 16 + mix_slots * 16 * 2 <= usize::MAX);
        assert(fp_slots * 4 >= 0 && ext * 16 >= 16 && mix_slots * 16 * 2 >= 0) by (nonlinear_arith)
            requires
                ext >= 1,
        ;
    }
    let bytes_per_lane = fp_slots * 4 + ext * 16 + mix_slots * 16 * 2;
    let fit = (max_compute_workgroup_storage_size as usize) / bytes_per_lane;
    let at_least_one = if fit > 1 { fit } else { 1 };
    if at_least_one < WEBGPU_EVAL_CHECK_INTERPRETER_WORKGROUP_SIZE as usize {
        at_least_one as u32
    } else {
        WEBGPU_EVAL_CHECK_INTERPRETER_WORKGROUP_SIZE
    }
}

} // verus!
