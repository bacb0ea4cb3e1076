use webgpu_hal::readback::{
    plan_read_buffer_index_groups, plan_read_buffer_indices, plan_read_buffer_ranges,
    plan_read_two_buffer_indices, IndexedReadbackGroup, ReadbackCopy, ReadbackError, ReadbackPlan,
};

fn copies(plan: &ReadbackPlan) -> Vec<(usize, u64, u64, u64)> {
    plan.copies.iter().map(|c: &ReadbackCopy| (c.source, c.src_offset, c.dst_offset, c.len)).collect()
}

const JS_MAX: u64 = 1 << 53;

#[test]
fn indexed_readback_copies_each_element_in_order() {
    let plan = plan_read_buffer_indices(100, 4, &[3, 0, 7]).unwrap();
    assert_eq!(plan.byte_len, 12);
    assert_eq!(copies(&plan), vec![(0, 112, 0, 4), (0, 100, 4, 4), (0, 128, 8, 4)]);
}

#[test]
fn indexed_readback_errors() {
    let empty = plan_read_buffer_indices(0, 0, &[]).unwrap();
    assert_eq!((empty.byte_len, empty.copies.len()), (0, 0));
    assert_eq!(plan_read_buffer_indices(0, 0, &[1]).err(), Some(ReadbackError::ZeroElementSize));
    assert_eq!(plan_read_buffer_indices(u64::MAX - 1, 4, &[1]).err(), Some(ReadbackError::OffsetOverflow));
    assert_eq!(plan_read_buffer_indices(JS_MAX, 4, &[1]).err(), Some(ReadbackError::NotExactInJs));
    assert_eq!(plan_read_buffer_indices(0, JS_MAX, &[0, 1]).err(), Some(ReadbackError::NotExactInJs));
}

#[test]
fn group_readback_keeps_group_then_index_order() {
    let groups = vec![
        IndexedReadbackGroup { base_byte_offset: 0, elem_size: 4, indices: vec![1, 2] },
        IndexedReadbackGroup { base_byte_offset: 64, elem_size: 8, indices: vec![0] },
    ];
    let plan = plan_read_buffer_index_groups(&groups).unwrap();
    assert_eq!(plan.byte_len, 16);
    assert_eq!(copies(&plan), vec![(0, 4, 0, 4), (0, 8, 4, 4), (1, 64, 8, 8)]);
}

#[test]
fn group_readback_errors_and_empty_cases() {
    let none: Vec<IndexedReadbackGroup> = vec![];
    assert_eq!(plan_read_buffer_index_groups(&none).unwrap().byte_len, 0);
    let empty = vec![IndexedReadbackGroup { base_byte_offset: 0, elem_size: 4, indices: vec![] }];
    let plan = plan_read_buffer_index_groups(&empty).unwrap();
    assert_eq!((plan.byte_len, plan.copies.len()), (0, 0));
    let zero = vec![
        IndexedReadbackGroup { base_byte_offset: 0, elem_size: 4, indices: vec![1] },
        IndexedReadbackGroup { base_byte_offset: 0, elem_size: 0, indices: vec![] },
    ];
    assert_eq!(plan_read_buffer_index_groups(&zero).err(), Some(ReadbackError::ZeroElementSize));
    let far = vec![IndexedReadbackGroup { base_byte_offset: u64::MAX, elem_size: 4, indices: vec![1] }];
    assert_eq!(plan_read_buffer_index_groups(&far).err(), Some(ReadbackError::OffsetOverflow));
}

#[test]
fn two_buffer_readback_places_second_after_first() {
    let plan = plan_read_two_buffer_indices(0, 4, &[1], 100, 8, &[2]).unwrap();
    assert_eq!(plan.byte_len, 12);
    assert_eq!(copies(&plan), vec![(0, 4, 0, 4), (1, 116, 4, 8)]);
    assert_eq!(plan_read_two_buffer_indices(0, 4, &[], 0, 0, &[]).err(), Some(ReadbackError::ZeroElementSize));
    let empty = plan_read_two_buffer_indices(0, 4, &[], 0, 4, &[]).unwrap();
    assert_eq!((empty.byte_len, empty.copies.len()), (0, 0));
    assert_eq!(
        plan_read_two_buffer_indices(0, 4, &[1], JS_MAX, 4, &[1]).err(),
        Some(ReadbackError::NotExactInJs)
    );
}

#[test]
fn range_readback_skips_empty_ranges() {
    let plan = plan_read_buffer_ranges(&[(10, 4), (0, 0), (20, 6)]).unwrap();
    assert_eq!(plan.byte_len, 10);
    assert_eq!(copies(&plan), vec![(0, 10, 0, 4), (2, 20, 4, 6)]);
    let plan = plan_read_buffer_ranges(&[(5, 0)]).unwrap();
    assert_eq!((plan.byte_len, plan.copies.len()), (0, 0));
    assert_eq!(plan_read_buffer_ranges(&[(0, u64::MAX), (0, 1)]).err(), Some(ReadbackError::LengthOverflow));
    assert_eq!(plan_read_buffer_ranges(&[(JS_MAX + 1, 1)]).err(), Some(ReadbackError::NotExactInJs));
}
