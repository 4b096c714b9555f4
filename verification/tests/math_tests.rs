use motion_space::math::{self, MathError, VecN};
use motion_space::SCALE;

#[test]
fn norm_of_unit_axis_vector() {
    let mut v = VecN::new(vec![SCALE, 0, 0]);
    assert_eq!(v.norm(), SCALE);
}

#[test]
fn norm_is_non_negative() {
    let mut v = VecN::new(vec![-SCALE, -SCALE, -SCALE]);
    assert!(v.norm() >= 0);
}

#[test]
fn norm_of_three_four_five() {
    // 3-4-5 triangle in fixed point: components 3.0 and 4.0, norm 5.0.
    let mut v = VecN::new(vec![3 * SCALE, 4 * SCALE]);
    assert_eq!(v.norm(), 5 * SCALE);
}

#[test]
fn norm_zero_iff_all_components_zero() {
    let mut z = VecN::new(vec![0, 0, 0]);
    assert_eq!(z.norm(), 0);
    assert!(matches!(z.normalize(), Err(MathError::ZeroNorm)));
    let mut nz = VecN::new(vec![0, 1, 0]);
    assert!(nz.norm() > 0);
    assert!(nz.normalize().is_ok());
}

#[test]
fn normalize_returns_unit_vector() {
    let mut v = VecN::new(vec![3 * SCALE, 4 * SCALE]);
    let n = v.normalize().unwrap();
    assert_eq!(n, vec![600_000, 800_000]);
    // the raw components stay untouched; only the caches fill in
    assert_eq!(v.data, vec![3 * SCALE, 4 * SCALE]);
    assert!(v.normalized.is_some());
}

#[test]
fn repeated_norm_and_normalize_are_identical() {
    let mut v = VecN::new(vec![7 * SCALE, -2 * SCALE, 500_000]);
    let n1 = v.norm();
    let n2 = v.norm();
    assert_eq!(n1, n2);
    let u1 = v.normalize().unwrap();
    let u2 = v.normalize().unwrap();
    assert_eq!(u1, u2);
}

#[test]
fn set_data_invalidates_caches() {
    let mut v = VecN::new(vec![SCALE, 0]);
    let _ = v.norm();
    let _ = v.normalize();
    assert!(v.norm.is_some());
    v.set_data(vec![0, 2 * SCALE]);
    assert!(v.norm.is_none());
    assert!(v.normalized.is_none());
    assert_eq!(v.norm(), 2 * SCALE);
}

#[test]
fn dim_reports_component_count() {
    let v = VecN::from_slice(&[1, 2, 3, 4]);
    assert_eq!(v.dim(), 4);
}

#[test]
fn add_and_sub_componentwise() {
    let a = [SCALE, 2 * SCALE];
    let b = [3 * SCALE, -SCALE];
    assert_eq!(math::add(&a, &b).unwrap(), vec![4 * SCALE, SCALE]);
    assert_eq!(math::sub(&a, &b).unwrap(), vec![-2 * SCALE, 3 * SCALE]);
}

#[test]
fn mismatched_lengths_report_true_lengths() {
    let a = [SCALE, SCALE, SCALE];
    let b = [SCALE];
    match math::add(&a, &b) {
        Err(MathError::DimensionMismatch { left, right }) => {
            assert_eq!(left, 3);
            assert_eq!(right, 1);
        }
        other => panic!("expected a dimension mismatch, got {:?}", other),
    }
    assert!(matches!(
        math::sub(&b, &a),
        Err(MathError::DimensionMismatch { left: 1, right: 3 })
    ));
    assert!(matches!(
        math::dot(&a, &b),
        Err(MathError::DimensionMismatch { left: 3, right: 1 })
    ));
}

#[test]
fn dot_of_orthogonal_vectors_is_zero() {
    let a = [SCALE, 0];
    let b = [0, SCALE];
    assert_eq!(math::dot(&a, &b).unwrap(), 0);
    let c = [SCALE, SCALE];
    assert_eq!(
        math::dot(&c, &c).unwrap(),
        2 * (SCALE as i128) * (SCALE as i128)
    );
}

#[test]
fn scale_multiplies_in_fixed_point() {
    let a = [2 * SCALE, -4 * SCALE];
    let half = SCALE / 2;
    assert_eq!(math::scale(&a, half), vec![SCALE, -2 * SCALE]);
}

#[test]
fn normalize_slice_validates_and_caches() {
    let v = math::normalize_slice(&[0, 5 * SCALE]).unwrap();
    assert_eq!(v.data, vec![0, 5 * SCALE]);
    assert_eq!(v.norm, Some(5 * SCALE));
    assert!(v.normalized.is_some());
    assert!(matches!(
        math::normalize_slice(&[0, 0]),
        Err(MathError::ZeroNorm)
    ));
}

#[test]
fn error_messages_are_not_empty() {
    assert!(!MathError::ZeroNorm.message().is_empty());
    assert!(!MathError::DimensionMismatch { left: 1, right: 2 }
        .message()
        .is_empty());
}
