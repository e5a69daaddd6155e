use oasysdb::distance::{DimensionMismatch, Distance};
use oasysdb::vector::Vector;

fn v(c: &[i32]) -> Vector {
    Vector::new(c.to_vec())
}

#[test]
fn euclidean_is_squared_component_difference_sum() {
    let r = Distance::Euclidean.calculate(&v(&[1, 2, 3]), &v(&[4, 6, 3]));
    assert_eq!(r, Ok(25));
}

#[test]
fn manhattan_is_absolute_component_difference_sum() {
    let r = Distance::Manhattan.calculate(&v(&[1, 2, 3]), &v(&[4, 6, -3]));
    assert_eq!(r, Ok(13));
}

#[test]
fn euclidean_is_symmetric_and_zero_on_itself() {
    let a = v(&[7, -3, 12, 0]);
    let b = v(&[-5, 9, 2, 1]);
    let ab = Distance::Euclidean.calculate(&a, &b).unwrap();
    let ba = Distance::Euclidean.calculate(&b, &a).unwrap();
    assert_eq!(ab, ba);
    assert_eq!(Distance::Euclidean.calculate(&a, &a), Ok(0));
    assert_eq!(Distance::Manhattan.calculate(&a, &b), Distance::Manhattan.calculate(&b, &a));
    assert_eq!(Distance::Manhattan.calculate(&b, &b), Ok(0));
}

#[test]
fn unequal_lengths_give_dimension_mismatch() {
    let r = Distance::Euclidean.calculate(&v(&[1, 2]), &v(&[1, 2, 3]));
    assert_eq!(r, Err(DimensionMismatch { expected: 2, found: 3 }));
    let r = Distance::Manhattan.calculate(&v(&[1, 2, 3]), &v(&[]));
    assert_eq!(r, Err(DimensionMismatch { expected: 3, found: 0 }));
}

#[test]
fn empty_vectors_are_at_distance_zero() {
    assert_eq!(Distance::Euclidean.calculate(&v(&[]), &v(&[])), Ok(0));
}

#[test]
fn extreme_components_do_not_overflow() {
    let a = v(&[i32::MIN, i32::MIN]);
    let b = v(&[i32::MAX, i32::MAX]);
    let d = (u32::MAX as u128) * (u32::MAX as u128);
    assert_eq!(Distance::Euclidean.calculate(&a, &b), Ok(2 * d));
    assert_eq!(Distance::Manhattan.calculate(&a, &b), Ok(2 * u32::MAX as u128));
}

#[test]
fn random_vectors_follow_the_seed() {
    let a = Vector::random(3, 42);
    assert_eq!(a.0, vec![-1854436627, 968358053, 1773127077]);
    assert_eq!(Vector::random(2, 0).0, vec![335903614, 436792849]);
    assert_eq!(Vector::random(100, 7).0, Vector::random(100, 7).0);
    assert_ne!(Vector::random(100, 7).0, Vector::random(100, 8).0);
    assert_eq!(Vector::random(0, 7).len(), 0);
    assert!(Vector::random(0, 7).is_empty());
}
