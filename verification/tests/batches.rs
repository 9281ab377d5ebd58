use molasses::batches::{bucket_by_atlas, DrawRange};

#[test]
fn quads_are_grouped_by_atlas_in_order() {
    let ids = vec![1u32, 0, 1, 3, 0];
    let (order, ranges) = bucket_by_atlas(&ids);
    assert_eq!(order, vec![1, 4, 0, 2, 3]);
    assert_eq!(
        ranges,
        vec![
            DrawRange { atlas: 0, start: 0, end: 2 },
            DrawRange { atlas: 1, start: 2, end: 4 },
            DrawRange { atlas: 3, start: 4, end: 5 },
        ]
    );
}

#[test]
fn no_quads_no_ranges() {
    let (order, ranges) = bucket_by_atlas(&Vec::new());
    assert!(order.is_empty());
    assert!(ranges.is_empty());
}

#[test]
fn one_atlas_one_range() {
    let ids = vec![2u32, 2, 2];
    let (order, ranges) = bucket_by_atlas(&ids);
    assert_eq!(order, vec![0, 1, 2]);
    assert_eq!(ranges, vec![DrawRange { atlas: 2, start: 0, end: 3 }]);
}
