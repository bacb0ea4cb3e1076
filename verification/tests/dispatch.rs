use webgpu_hal::dispatch::{
    align_up, build_sparse_zero_upload_plan, byte_len_for, digest_word_offset, fits_js_exact_integer,
    gather_region_in_bounds, slice_region_in_bounds, workgroups_2d, SparseUploadError, SparseUploadPlan,
};

#[test]
fn align_up_rounds_to_multiples() {
    assert_eq!(align_up(10, 4), 12);
    assert_eq!(align_up(12, 4), 12);
    assert_eq!(align_up(0, 256), 0);
    assert_eq!(align_up(5, 0), 5);
    assert_eq!(align_up(1, 256), 256);
}

#[test]
fn byte_len_is_count_times_size() {
    assert_eq!(byte_len_for::<u32>(5), 20);
    assert_eq!(byte_len_for::<[u32; 4]>(3), 48);
    assert_eq!(byte_len_for::<u8>(0), 0);
}

#[test]
fn digest_offsets_fit_u32_or_fail() {
    assert_eq!(digest_word_offset(3), Some(24));
    assert_eq!(digest_word_offset(536870911), Some(4294967288));
    assert_eq!(digest_word_offset(536870912), None);
    assert_eq!(digest_word_offset(usize::MAX), None);
}

#[test]
fn js_exact_integer_limit() {
    assert!(fits_js_exact_integer(1 << 53));
    assert!(!fits_js_exact_integer((1 << 53) + 1));
}

#[test]
fn slice_regions_are_bounds_checked() {
    assert!(slice_region_in_bounds(100, 3, 4, 10, 20));
    assert!(slice_region_in_bounds(54, 3, 4, 10, 20));
    assert!(!slice_region_in_bounds(53, 3, 4, 10, 20));
    assert!(slice_region_in_bounds(0, 0, 4, 10, 20));
    assert!(slice_region_in_bounds(0, 4, 0, 10, 20));
    assert!(!slice_region_in_bounds(100, usize::MAX, 1, 0, 2));
    assert!(!slice_region_in_bounds(usize::MAX, 2, 2, usize::MAX, 0));
}

#[test]
fn gather_regions_are_bounds_checked() {
    assert!(gather_region_in_bounds(10, 1, 3, 4));
    assert!(!gather_region_in_bounds(9, 1, 3, 4));
    assert!(gather_region_in_bounds(0, 5, 0, 4));
    assert!(!gather_region_in_bounds(usize::MAX, 1, 3, usize::MAX));
}

#[test]
fn workgroups_spill_into_a_second_dimension() {
    assert_eq!(workgroups_2d(1000), (1000, 1));
    assert_eq!(workgroups_2d(65535), (65535, 1));
    assert_eq!(workgroups_2d(65536), (65535, 2));
    assert_eq!(workgroups_2d(65535 * 65535), (65535, 65535));
}

#[test]
fn sparse_plan_keeps_runs_and_isolated_zeros() {
    let max = u32::MAX;
    let cpu = [0, 5, 0, 7, 0, 0, 9, max, 3, 0];
    let plan = build_sparse_zero_upload_plan(&cpu).unwrap();
    assert_eq!(plan.values, vec![5, 0, 7, 9, 3]);
    assert_eq!(plan.ranges, vec![0, 1, 3, 6, 4, 8]);
}

#[test]
fn sparse_plan_of_dead_words_is_empty() {
    let plan = build_sparse_zero_upload_plan(&[0, 0, u32::MAX, 0]).unwrap();
    assert!(plan.values.is_empty() && plan.ranges.is_empty());
    let plan = build_sparse_zero_upload_plan(&[]).unwrap();
    assert!(plan.values.is_empty() && plan.ranges.is_empty());
}

#[test]
fn sparse_plan_of_dense_words_is_one_range() {
    let plan = build_sparse_zero_upload_plan(&[1, 2, 3]).unwrap();
    assert_eq!(plan.values, vec![1, 2, 3]);
    assert_eq!(plan.ranges, vec![0, 0]);
}

#[test]
fn push_range_appends_or_refuses() {
    let mut plan = SparseUploadPlan::new();
    assert_eq!(plan.push_range(4, &[]), Err(SparseUploadError::EmptyRange));
    assert_eq!(plan.push_range(4, &[1, 2]), Ok(()));
    assert_eq!(plan.push_range(9, &[3]), Ok(()));
    assert_eq!(plan.values, vec![1, 2, 3]);
    assert_eq!(plan.ranges, vec![0, 4, 2, 9]);
    if usize::MAX > u32::MAX as usize {
        let big = (u32::MAX as usize) + 1;
        assert_eq!(plan.push_range(big, &[1]), Err(SparseUploadError::DestinationOffsetTooLarge(big)));
        assert_eq!(plan.ranges, vec![0, 4, 2, 9, 3]);
    }
}
