use physics_engine::mesh::{merge_primitive_indices, PrimitiveData};

#[test]
fn indices_are_shifted_by_earlier_vertices() {
    let prims = vec![
        PrimitiveData { vertex_count: 3, indices: Some(vec![0, 1, 2]) },
        PrimitiveData { vertex_count: 4, indices: Some(vec![0, 2, 3, 1]) },
        PrimitiveData { vertex_count: 2, indices: None },
        PrimitiveData { vertex_count: 3, indices: Some(vec![2, 1, 0]) },
    ];
    assert_eq!(
        merge_primitive_indices(&prims),
        vec![0, 1, 2, 3, 5, 6, 4, 11, 10, 9]
    );
}

#[test]
fn no_primitives_no_indices() {
    assert!(merge_primitive_indices(&Vec::new()).is_empty());
}

#[test]
fn primitive_without_indices_still_shifts_later_ones() {
    let prims = vec![
        PrimitiveData { vertex_count: 10, indices: None },
        PrimitiveData { vertex_count: 1, indices: Some(vec![0]) },
    ];
    assert_eq!(merge_primitive_indices(&prims), vec![10]);
}

#[test]
fn base_wraps_like_a_u32() {
    let prims = vec![
        PrimitiveData { vertex_count: (u32::MAX as usize) + 3, indices: None },
        PrimitiveData { vertex_count: 1, indices: Some(vec![5]) },
    ];
    assert_eq!(merge_primitive_indices(&prims), vec![7]);
}
