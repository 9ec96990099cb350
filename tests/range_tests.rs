use zspace::point::ZPoint;
use zspace::range::ZRange;
use zspace::ZDim;

fn pt(v: &[i32]) -> ZPoint {
    ZPoint::from(v.to_vec())
}

fn zr(s: &[i32], e: &[i32]) -> ZRange {
    ZRange::between(&pt(s), &pt(e))
}

#[test]
fn zrange_test_display() {
    let range = zr(&[1, 2, 3], &[4, 5, 6]);
    assert_eq!(range.to_string(), "zr[1;4, 2;5, 3;6]");
    assert_eq!(ZRange::zeros(0).to_string(), "zr[]");
    assert_eq!(zr(&[-3], &[-1]).to_string(), "zr[-3;-1]");
}

#[test]
fn test_zrange_macro() {
    let range = zr(&[0, 2], &[2, 4]);
    assert_eq!(range, ZRange::between(&pt(&[0, 2]), &pt(&[2, 4])));
}

#[test]
fn test_inclusive_end() {
    let shape = pt(&[1, 2, 3]);
    let range = ZRange::from_shape(&shape);
    assert_eq!(range.inclusive_end(), pt(&[0, 1, 2]));
}

#[test]
fn test_from_zpoint_shape() {
    let shape = pt(&[1, 2, 3]);
    let range = ZRange::from_shape(&shape);
    assert_eq!(range.start, pt(&[0, 0, 0]));
    assert_eq!(range.end, shape);
    assert_eq!(ZRange::from_shape(&pt(&[1, 2, 3])), range);
}

#[test]
fn test_normalize() {
    let start = pt(&[1, 2, 3]);
    let end = pt(&[1, 20, 6]);
    let range = ZRange::between(&start, &end);
    assert_eq!(range.shape(), pt(&[0, 18, 3]));
    let normalized = range.normalize();
    assert_eq!(normalized.shape(), pt(&[0, 0, 0]));
    assert_eq!(normalized.start, start);
    assert_eq!(normalized.end, start);
}

#[test]
fn normalize_keeps_non_empty() {
    let range = zr(&[1, 2], &[3, 4]);
    assert_eq!(range.normalize(), range);
}

#[test]
fn test_between() {
    let start = pt(&[1, 2, 3]);
    let end = pt(&[4, 5, 6]);
    let range = ZRange::between(&start, &end);
    assert_eq!(range.start, start);
    assert_eq!(range.end, end);
}

#[test]
fn try_between_rejects_bad_bounds() {
    assert!(ZRange::try_between(&pt(&[0, 5]), &pt(&[1, 4])).is_none());
    assert!(ZRange::try_between(&ZPoint::zeros(2), &ZPoint::ones(3)).is_none());
    let r = ZRange::try_between(&pt(&[0, 4]), &pt(&[1, 4])).unwrap();
    assert_eq!(r.start, pt(&[0, 4]));
    assert_eq!(r.end, pt(&[1, 4]));
    assert!(ZRange::try_between(&ZPoint::scalar(), &ZPoint::scalar()).is_some());
}

#[test]
fn test_translate() {
    let start = pt(&[1, 2, 3]);
    let end = pt(&[4, 5, 6]);
    let range = ZRange::between(&start, &end);
    let offset = pt(&[1, 2, 3]);
    let translated = range.translate(&offset);
    assert_eq!(translated.start, start.add(&offset));
    assert_eq!(translated.end, end.add(&offset));
}

#[test]
fn mod_test_ndim() {
    let range = zr(&[1, 2, 3], &[4, 5, 6]);
    assert_eq!(range.ndim(), 3);
}

#[test]
fn test_shape_size() {
    let range = zr(&[1, 2, 3], &[4, 5, 6]);
    assert_eq!(range.shape(), pt(&[3, 3, 3]));
    assert_eq!(range.size(), 27);
}

#[test]
fn size_is_product_of_shape() {
    let range = zr(&[-1, 0, 2], &[3, 5, 3]);
    assert_eq!(range.shape(), pt(&[4, 5, 1]));
    assert_eq!(range.size(), 20);
    let flat = zr(&[-1, 0, 2], &[3, 0, 3]);
    assert_eq!(flat.size(), 0);
    assert!(flat.is_empty());
    assert!(!flat.is_not_empty());
}

#[test]
fn empty_range_contains_nothing() {
    let empty = ZRange::zeros(3);
    assert_eq!(empty.size(), 0);
    assert_eq!(empty.is_empty(), true);
    assert_eq!(empty.is_not_empty(), false);
    assert!(!empty.contains(&empty.start));
    assert!(!empty.contains_range(&empty));
}

#[test]
fn test_contains() {
    let range = zr(&[1, 2, 3], &[4, 5, 6]);
    assert!(range.contains(&pt(&[2, 3, 4])));
    assert!(!range.contains(&pt(&[0, 3, 4])));
    assert!(!range.contains(&pt(&[2, 6, 4])));
    assert!(!range.contains(&pt(&[2, 3, 7])));
}

#[test]
fn contains_includes_upper_bound() {
    let range = zr(&[1, 2], &[4, 5]);
    assert!(range.contains(&pt(&[4, 5])));
    assert!(range.contains(&pt(&[1, 2])));
}

#[test]
fn test_contains_range() {
    let range = zr(&[1, 2, 3], &[4, 5, 6]);
    assert!(range.contains_range(&zr(&[1, 3, 5], &[2, 4, 5])));
    assert!(!range.contains_range(&zr(&[0, 3, 5], &[2, 4, 5])));
}

#[test]
fn scalar_range_test_scalar() {
    let scalar_point = ZPoint::from(vec![]);
    let range = ZRange::from_shape(&scalar_point);
    assert_eq!(range.size(), 1);
    assert!(range.contains(&scalar_point));
}

#[test]
fn dim_iter_pairs() {
    let range = zr(&[1, 2], &[4, 5]);
    assert_eq!(range.dim_iter(), vec![(1, 4), (2, 5)]);
}

#[test]
fn test_super_range() {
    assert_eq!(
        ZRange::super_range(&vec![zr(&[0, 0], &[1, 1]), zr(&[3, 5], &[4, 6])]),
        zr(&[0, 0], &[4, 6]),
    );
}

#[test]
fn super_range_normalizes_empty() {
    assert_eq!(
        ZRange::super_range(&vec![zr(&[0, 0], &[1, 1]), zr(&[2, 2], &[9, 2])]),
        zr(&[0, 0], &[2, 2]),
    );
}

#[test]
fn test_intersection() {
    let base = zr(&[0, 0], &[4, 4]);
    let sub = zr(&[2, 3], &[3, 4]);
    let clip = zr(&[-1, 2], &[3, 7]);
    assert_eq!(base.intersection(&sub), Some(sub.clone()));
    assert_eq!(sub.intersection(&base), Some(sub.clone()));
    assert_eq!(base.intersection(&clip), Some(zr(&[0, 2], &[3, 4])));
    assert_eq!(clip.intersection(&base), Some(zr(&[0, 2], &[3, 4])));
    assert_eq!(zr(&[0], &[4]).intersection(&zr(&[4], &[7])), None);
}

#[test]
fn intersection_of_empty_is_none() {
    let base = zr(&[0, 0], &[4, 4]);
    assert_eq!(base.intersection(&zr(&[1, 1], &[1, 3])), None);
    assert_eq!(zr(&[5, 5], &[6, 6]).intersection(&base), None);
    let scalar = ZRange::from_shape(&ZPoint::scalar());
    assert_eq!(scalar.intersection(&scalar), Some(scalar.clone()));
}

#[test]
fn test_chunk_dim() {
    let range = ZRange::from_shape(&pt(&[5, 5]));
    assert_eq!(
        range.chunk_dim(0, 2),
        vec![zr(&[0, 0], &[2, 5]), zr(&[2, 0], &[4, 5]), zr(&[4, 0], &[5, 5])],
    );
}

#[test]
fn chunk_dim_exact_and_oversized() {
    let range = zr(&[1, 0], &[7, 3]);
    assert_eq!(
        range.chunk_dim(0, 3),
        vec![zr(&[1, 0], &[4, 3]), zr(&[4, 0], &[7, 3])],
    );
    assert_eq!(range.chunk_dim(1, 10), vec![zr(&[1, 0], &[7, 3])]);
    assert_eq!(
        range.chunk_dim(1, 2),
        vec![zr(&[1, 0], &[7, 2]), zr(&[1, 2], &[7, 3])],
    );
}

#[test]
fn test_join() {
    let range = zr(&[2, 3], &[4, 5]);
    let parts = range.split(&pt(&[2, 4]));
    assert_eq!(parts, vec![zr(&[2, 3], &[4, 4]), zr(&[2, 4], &[4, 5])]);
    assert_eq!(parts[0].join(&parts[1]), Some(range));
}

#[test]
fn join_refuses_non_adjacent() {
    assert_eq!(zr(&[0, 0], &[1, 1]).join(&zr(&[2, 0], &[3, 1])), None);
    assert_eq!(zr(&[0, 0], &[2, 2]).join(&zr(&[1, 1], &[3, 3])), None);
    assert_eq!(zr(&[0, 0], &[2, 1]).join(&zr(&[0, 1], &[2, 3])), Some(zr(&[0, 0], &[2, 3])));
}

#[test]
fn test_split_trivial() {
    let range = zr(&[1, 2, 3], &[4, 5, 6]);
    assert_eq!(
        range.split_trivial(&pt(&[2, 3, 4])),
        vec![
            zr(&[1, 2, 3], &[2, 3, 4]),
            zr(&[1, 2, 4], &[2, 3, 6]),
            zr(&[1, 3, 3], &[2, 5, 4]),
            zr(&[1, 3, 4], &[2, 5, 6]),
            zr(&[2, 2, 3], &[4, 3, 4]),
            zr(&[2, 2, 4], &[4, 3, 6]),
            zr(&[2, 3, 3], &[4, 5, 4]),
            zr(&[2, 3, 4], &[4, 5, 6]),
        ]
    );
    assert_eq!(&ZRange::super_range(&range.split_trivial(&pt(&[2, 3, 4]))), &range);
}

#[test]
fn test_split_trivial_empty() {
    let range = zr(&[1, 2], &[4, 5]);
    assert_eq!(
        range.split_trivial(&pt(&[2, 5])),
        vec![
            zr(&[1, 2], &[2, 5]),
            zr(&[1, 5], &[2, 5]),
            zr(&[2, 2], &[4, 5]),
            zr(&[2, 5], &[4, 5]),
        ]
    );
    assert_eq!(&ZRange::super_range(&range.split_trivial(&pt(&[2, 5]))), &range);
    assert_eq!(
        range.split(&pt(&[2, 5])),
        vec![zr(&[1, 2], &[2, 5]), zr(&[2, 2], &[4, 5])]
    );
}

#[test]
fn split_of_scalar_range() {
    let range = ZRange::from_shape(&ZPoint::scalar());
    let parts = range.split_trivial(&ZPoint::scalar());
    assert_eq!(parts, vec![range.clone()]);
    assert_eq!(ZRange::super_range(&parts), range);
}

#[test]
fn super_range_of_split_at_corner() {
    let range = zr(&[0, 0], &[3, 3]);
    for pivot in [[0, 0], [3, 3], [0, 3], [1, 2]] {
        let parts = range.split_trivial(&pt(&pivot));
        assert_eq!(parts.len(), 4);
        assert_eq!(ZRange::super_range(&parts), range);
    }
}
