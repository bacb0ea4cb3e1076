use webgpu_hal::batch_evaluate::{
    batch_evaluate_slices, plan_batch_evaluate_any, BatchEvaluateError, BatchEvaluatePlan,
};

const BIG: u64 = 1 << 30;

#[test]
fn plan_chunks_long_polynomials() {
    let p = plan_batch_evaluate_any(4096, 0, 2, BIG).unwrap();
    assert_eq!(p, BatchEvaluatePlan { deg: 2048, chunk_size: 1024, chunk_count: 2, coeff_slice_bytes: 8192 });
    let p = plan_batch_evaluate_any(2112 * 3, 256, 3, BIG).unwrap();
    assert_eq!(p, BatchEvaluatePlan { deg: 2112, chunk_size: 1024, chunk_count: 3, coeff_slice_bytes: 8448 });
}

#[test]
fn plan_uses_one_chunk_for_short_polynomials() {
    let p = plan_batch_evaluate_any(128, 0, 2, BIG).unwrap();
    assert_eq!(p, BatchEvaluatePlan { deg: 64, chunk_size: 64, chunk_count: 1, coeff_slice_bytes: 256 });
}

#[test]
fn plan_declines_what_cannot_be_bound() {
    assert_eq!(plan_batch_evaluate_any(100, 0, 3, BIG), None);
    assert_eq!(plan_batch_evaluate_any(100, 0, 0, BIG), None);
    assert_eq!(plan_batch_evaluate_any(20, 0, 2, BIG), None);
    assert_eq!(plan_batch_evaluate_any(128, 4, 2, BIG), None);
    assert_eq!(plan_batch_evaluate_any(128, 0, 2, 100), None);
    assert_eq!(plan_batch_evaluate_any(0, 0, 2, BIG), None);
}

#[test]
fn slices_locate_coefficients_and_partials() {
    let p = BatchEvaluatePlan { deg: 64, chunk_size: 64, chunk_count: 1, coeff_slice_bytes: 256 };
    assert_eq!(
        batch_evaluate_slices(&p, 512, 10, &[1, 0, 1], 2),
        Ok(vec![(768, 10), (512, 14), (768, 18)])
    );
    assert_eq!(batch_evaluate_slices(&p, 512, 10, &[], 2), Ok(vec![]));
}

#[test]
fn slices_errors() {
    let p = BatchEvaluatePlan { deg: 64, chunk_size: 64, chunk_count: 1, coeff_slice_bytes: 256 };
    assert_eq!(
        batch_evaluate_slices(&p, 0, 0, &[0, 5], 2),
        Err(BatchEvaluateError::PolyIdOutOfRange { poly_id: 5, poly_count: 2 })
    );
    assert_eq!(batch_evaluate_slices(&p, u64::MAX - 10, 0, &[1], 2), Err(BatchEvaluateError::CoeffOffsetOverflow));
    assert_eq!(batch_evaluate_slices(&p, 0, u32::MAX - 2, &[0, 0], 2), Err(BatchEvaluateError::PartialBaseOverflow));
    let wide = BatchEvaluatePlan { deg: 1, chunk_size: 1, chunk_count: 1, coeff_slice_bytes: 1 << 62 };
    assert_eq!(batch_evaluate_slices(&wide, 0, 0, &[5], 10), Err(BatchEvaluateError::CoeffSliceOverflow));
    let many = BatchEvaluatePlan { deg: 1, chunk_size: 1, chunk_count: 1 << 30, coeff_slice_bytes: 4 };
    assert_eq!(batch_evaluate_slices(&many, 0, 0, &[0, 0], 1), Err(BatchEvaluateError::PartialOffsetOverflow));
}
