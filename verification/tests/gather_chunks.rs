use webgpu_hal::gather_chunks::{plan_gather_sample_chunks, GatherChunk, GatherChunkError};

#[test]
fn gather_chunks_bind_aligned_ranges() {
    let chunks = plan_gather_sample_chunks(10, 2, 5, 100, 2).unwrap();
    assert_eq!(
        chunks,
        vec![
            GatherChunk { col_start: 0, cols: 2, binding_offset: 0, binding_base_elems: 10, binding_bytes: 452 },
            GatherChunk { col_start: 2, cols: 2, binding_offset: 768, binding_base_elems: 18, binding_bytes: 484 },
            GatherChunk { col_start: 4, cols: 1, binding_offset: 1536, binding_base_elems: 26, binding_bytes: 116 },
        ]
    );
}

#[test]
fn every_gathered_word_lies_in_its_binding() {
    let (offset, idx, size, stride) = (37usize, 5usize, 11usize, 70usize);
    let chunks = plan_gather_sample_chunks(offset, idx, size, stride, 3).unwrap();
    assert_eq!(chunks.len(), 4);
    for c in chunks {
        assert_eq!(c.binding_offset % 256, 0);
        for j in 0..c.cols {
            let g = (offset + (c.col_start + j) * stride + idx) as u64;
            let w = (c.binding_base_elems + j * stride + idx) as u64;
            assert_eq!(c.binding_offset + w * 4, g * 4);
            assert!((w + 1) * 4 <= c.binding_bytes);
        }
    }
}

#[test]
fn oversized_gather_chunk_is_refused() {
    assert_eq!(
        plan_gather_sample_chunks(0, 0, 2, 1 << 28, 2),
        Err(GatherChunkError::BindingTooLarge { col_start: 0, bytes: 1073741828 })
    );
    assert!(plan_gather_sample_chunks(0, 0, 2, 1 << 28, 1).is_ok());
}
