use slabs::{ChunkCapacity, ChunkCapacityError};
use std::cmp::Ordering;

#[test]
fn test_fixed_capacity() {
    let cap = ChunkCapacity::new(100);
    assert_eq!(cap.fits(50), Ordering::Less);
    assert_eq!(cap.fits(100), Ordering::Equal);
    assert_eq!(cap.fits(150), Ordering::Greater);
}

#[test]
fn test_flexible_capacity() {
    let cap = ChunkCapacity::new(100).with_max(120).unwrap();
    assert_eq!(cap.fits(50), Ordering::Less);
    assert_eq!(cap.fits(100), Ordering::Equal);
    assert_eq!(cap.fits(110), Ordering::Equal);
    assert_eq!(cap.fits(120), Ordering::Equal);
    assert_eq!(cap.fits(121), Ordering::Greater);
}

#[test]
fn test_range_conversion() {
    let cap = ChunkCapacity::from(100..200);
    assert_eq!(cap.desired(), 100);
    assert_eq!(cap.max(), 199);
}

#[test]
fn test_range_inclusive_conversion() {
    let cap = ChunkCapacity::from(100..=200);
    assert_eq!(cap.desired(), 100);
    assert_eq!(cap.max(), 200);
}

#[test]
fn test_would_overflow() {
    let cap = ChunkCapacity::new(100);
    assert!(!cap.would_overflow(50, 49));
    assert!(!cap.would_overflow(50, 50));
    assert!(cap.would_overflow(50, 51));
}

#[test]
fn test_max_less_than_desired_error() {
    let result = ChunkCapacity::new(100).with_max(50);
    assert!(result.is_err());
}

#[test]
fn max_less_than_desired_reports_both_sizes() {
    let result = ChunkCapacity::new(100).with_max(50);
    assert_eq!(
        result.unwrap_err(),
        ChunkCapacityError::MaxLessThanDesired { desired: 100, max: 50 }
    );
}

#[test]
fn would_overflow_saturates_at_the_top() {
    let cap = ChunkCapacity::new(usize::MAX);
    assert!(!cap.would_overflow(usize::MAX, 0));
    assert!(cap.would_overflow(usize::MAX, 1) == false);
    let small = ChunkCapacity::new(10);
    assert!(small.would_overflow(usize::MAX, usize::MAX));
}

#[test]
fn capacity_conversions_keep_desired_at_most_max() {
    let empty = ChunkCapacity::from(5..5);
    assert_eq!(empty.desired(), 5);
    assert_eq!(empty.max(), 5);
    let inverted = ChunkCapacity::from(9..=3);
    assert_eq!(inverted.desired(), 9);
    assert_eq!(inverted.max(), 9);
    let plain = ChunkCapacity::from(64usize);
    assert_eq!((plain.desired(), plain.max()), (64, 64));
    let default = ChunkCapacity::default();
    assert_eq!((default.desired(), default.max()), (2048, 2048));
}
