use webgpu_hal::tile_layout::{pool_upload_ranges, PoolUploadError, TileLayout, TileLayoutError};

const ELEM_SIZE: usize = 4; // BabyBearElem
const MAX_1G: u64 = 1024 * 1024 * 1024;
const MAX_128M: u64 = 128 * 1024 * 1024;

#[test]
fn single_tile_when_matrix_fits() {
    // 128 cols x 1M rows x 4 B = 512 MiB, fits in 1 GiB binding.
    let layout = TileLayout::new(1 << 20, 128, ELEM_SIZE, MAX_1G).unwrap();
    assert_eq!(layout.tile_cols, 128);
    assert_eq!(layout.num_tiles(), 1);
    assert_eq!(layout.cols_in_tile(0), 128);
    assert_eq!(layout.elems_in_tile(0), 128 << 20);
}

#[test]
fn splits_into_multiple_tiles_when_matrix_exceeds_binding() {
    // 128 MiB binding allows 128 MiB / 4 MiB-per-col = 32 cols per tile.
    let layout = TileLayout::new(1 << 20, 128, ELEM_SIZE, MAX_128M).unwrap();
    assert_eq!(layout.tile_cols, 32);
    assert_eq!(layout.num_tiles(), 4);
    for t in 0..4 {
        assert_eq!(layout.cols_in_tile(t), 32);
        assert_eq!(layout.elems_in_tile(t), 32 << 20);
    }
}

#[test]
fn last_tile_shorter_when_total_cols_doesnt_divide() {
    // 100 cols, 32 per tile: 3 full tiles and one of 4.
    let layout = TileLayout::new(1 << 20, 100, ELEM_SIZE, MAX_128M).unwrap();
    assert_eq!(layout.tile_cols, 32);
    assert_eq!(layout.num_tiles(), 4);
    assert_eq!(layout.cols_in_tile(0), 32);
    assert_eq!(layout.cols_in_tile(1), 32);
    assert_eq!(layout.cols_in_tile(2), 32);
    assert_eq!(layout.cols_in_tile(3), 4);
}

#[test]
fn col_to_tile_addressing_roundtrip() {
    let layout = TileLayout::new(1 << 20, 100, ELEM_SIZE, MAX_128M).unwrap();
    for col in 0..100 {
        let tile = layout.tile_for_col(col);
        let within = layout.col_within_tile(col);
        assert_eq!(tile * layout.tile_cols + within, col);
    }
}

#[test]
fn single_oversized_column_returns_err() {
    // 1 col x 1G rows x 4 B = 4 GiB > 1 GiB binding limit.
    let result = TileLayout::new(1 << 30, 1, ELEM_SIZE, MAX_1G);
    assert!(result.is_err(), "expected single-col-too-large to be rejected");
}

#[test]
fn zero_cols_produces_empty_layout() {
    let layout = TileLayout::new(1024, 0, ELEM_SIZE, MAX_1G).unwrap();
    assert_eq!(layout.num_tiles(), 0);
    assert_eq!(layout.cols_in_tile(0), 0);
    assert_eq!(layout.elems_in_tile(0), 0);
}

#[test]
fn zero_stride_clamps_tile_cols_to_at_least_one() {
    let layout = TileLayout::new(0, 5, ELEM_SIZE, MAX_1G).unwrap();
    assert_eq!(layout.tile_cols, 5);
    assert_eq!(layout.num_tiles(), 1);
}

#[test]
fn col_offset_within_tile_is_col_index_times_stride() {
    let layout = TileLayout::new(7, 100, ELEM_SIZE, MAX_1G).unwrap();
    assert_eq!(layout.col_offset_within_tile(0), 0);
    assert_eq!(layout.col_offset_within_tile(5), 35);
    assert_eq!(layout.col_offset_within_tile(99), 693);
}

#[test]
fn layout_errors_name_their_cause() {
    assert_eq!(TileLayout::new(4, 4, 0, MAX_1G), Err(TileLayoutError::ZeroElemSize));
    assert_eq!(TileLayout::new(4, 4, 4, 0), Err(TileLayoutError::ZeroMaxBinding));
    assert_eq!(
        TileLayout::new(1 << 30, 1, ELEM_SIZE, MAX_1G),
        Err(TileLayoutError::ColumnExceedsBinding { col_bytes: 1 << 32, stride: 1 << 30, max_binding_bytes: MAX_1G })
    );
    assert_eq!(
        TileLayout::new(usize::MAX, 2, 2, MAX_1G),
        Err(TileLayoutError::ColumnBytesOverflow)
    );
}

#[test]
fn tile_cols_is_the_most_columns_that_fit() {
    // 10 elements of 4 bytes per column, 100 bytes per binding: 2 columns fit, 3 do not.
    let layout = TileLayout::new(10, 7, 4, 100).unwrap();
    assert_eq!(layout.tile_cols, 2);
    assert_eq!(layout.num_tiles(), 4);
    assert_eq!(layout.cols_in_tile(3), 1);
    assert_eq!(layout.cols_in_tile(4), 0);
    let total: usize = (0..layout.num_tiles()).map(|t| layout.cols_in_tile(t)).sum();
    assert_eq!(total, 7);
}

#[test]
fn pool_upload_ranges_split_source_by_tile() {
    let layout = TileLayout::new(10, 7, 4, 100).unwrap();
    let ranges = pool_upload_ranges(&layout, 4, 7 * 10 * 4).unwrap();
    assert_eq!(ranges, vec![(0, 80), (80, 160), (160, 240), (240, 280)]);
}

#[test]
fn pool_upload_ranges_reject_wrong_source_length() {
    let layout = TileLayout::new(10, 7, 4, 100).unwrap();
    assert_eq!(
        pool_upload_ranges(&layout, 4, 279),
        Err(PoolUploadError::SizeMismatch { cpu: 279, expected: 280 })
    );
    let huge = TileLayout { stride: usize::MAX, tile_cols: 1, total_cols: 2 };
    assert_eq!(pool_upload_ranges(&huge, 4, 0), Err(PoolUploadError::TotalBytesOverflow));
}
