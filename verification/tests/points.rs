use hnsw_index::error::Error;
use hnsw_index::level::{level_from_draw, LevelGen};
use hnsw_index::point::{Point, VecPoint};

fn p(coords: Vec<i64>) -> VecPoint {
    VecPoint::from_coords(coords).unwrap()
}

#[test]
fn vec_point_distance_exact() {
    let a = p(vec![0, 0]);
    let b = p(vec![3, 4]);
    assert_eq!(a.distance(&b), Ok(25));
    assert_eq!(a.distance(&a), Ok(0));
}

#[test]
fn vec_point_distance_symmetric() {
    let a = p(vec![1, -7, 100]);
    let b = p(vec![-4, 2, 35]);
    assert_eq!(a.distance(&b), b.distance(&a));
}

#[test]
fn vec_point_dimension_mismatch() {
    let a = p(vec![1, 2]);
    let b = p(vec![1, 2, 3]);
    assert_eq!(a.distance(&b), Err(Error::DimensionMismatch));
}

#[test]
fn vec_point_from_coords_rejects_out_of_bounds() {
    assert!(VecPoint::from_coords(vec![1_000_001]).is_err());
    assert!(VecPoint::from_coords(vec![-1_000_001]).is_err());
    assert!(VecPoint::from_coords(vec![1_000_000, -1_000_000]).is_ok());
}

#[test]
fn vec_point_duplicate_matches() {
    let a = p(vec![5, -6, 7]);
    let d = a.duplicate();
    assert_eq!(a.distance(&d), Ok(0));
    assert_eq!(d.dim(), 3);
}

#[test]
fn vec_point_new_is_empty() {
    let a = VecPoint::new();
    assert_eq!(a.dim(), 0);
}

#[test]
fn level_from_draw_exact_values() {
    // threshold starts at 2^64 and is halved once per level for ratio 1/2
    assert_eq!(level_from_draw(1u64 << 63, 1, 2), 0);
    assert_eq!(level_from_draw(u64::MAX, 1, 2), 0);
    assert_eq!(level_from_draw(1u64 << 62, 1, 2), 1);
    assert_eq!(level_from_draw(1u64 << 61, 1, 2), 2);
    // a draw of zero stays below every threshold and hits the cap
    assert_eq!(level_from_draw(0, 1, 2), 64);
}

#[test]
fn level_gen_rejects_bad_ratio() {
    assert!(LevelGen::new(0, 1, 2).is_ok());
    assert!(LevelGen::new(0, 0, 2).is_err());
    assert!(LevelGen::new(0, 2, 2).is_err());
    assert!(LevelGen::new(0, 3, 2).is_err());
    assert!(LevelGen::new(0, 1, 0x1_0000_0001).is_err());
}

#[test]
fn error_names() {
    assert_eq!(Error::DimensionMismatch.describe(), "dimension mismatch");
    assert_eq!(Error::EmptyIndex.describe(), "empty index");
    assert_eq!(Error::DuplicateKey.describe(), "duplicate key");
    assert_eq!(Error::InvalidParameter.describe(), "invalid parameter");
}
