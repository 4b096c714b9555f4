use motion_space::kernel::{self, Kernel};
use motion_space::math::MathError;
use motion_space::SCALE;

#[test]
fn identical_vectors_have_similarity_one() {
    let x = [SCALE, 0, 250_000];
    let s = kernel::rbf_kernel(&x, &x, 2 * SCALE).unwrap();
    assert_eq!(s, SCALE);
}

#[test]
fn similarity_lies_in_zero_one_for_positive_gamma() {
    let x = [SCALE, 0];
    let y = [0, SCALE];
    for g in [1i64, 500_000, SCALE, 2 * SCALE, 100 * SCALE] {
        let s = kernel::rbf_kernel(&x, &y, g).unwrap();
        assert!(0 < s && s <= SCALE, "gamma {} gave {}", g, s);
    }
}

#[test]
fn rbf_matches_the_real_exponential() {
    // unit axis vectors: squared distance 2.0, gamma 2.0, exp(-4)
    let x = [SCALE, 0];
    let y = [0, SCALE];
    let s = kernel::rbf_kernel(&x, &y, 2 * SCALE).unwrap();
    let expected = (-4.0f64).exp() * 1e6;
    assert!(
        (s as f64 - expected).abs() < 500.0,
        "got {} expected about {}",
        s,
        expected
    );
}

#[test]
fn closer_vectors_are_at_least_as_similar() {
    let x = [SCALE, 0];
    let near = [900_000, 100_000];
    let far = [0, SCALE];
    let s_near = kernel::rbf_kernel(&x, &near, 2 * SCALE).unwrap();
    let s_far = kernel::rbf_kernel(&x, &far, 2 * SCALE).unwrap();
    assert!(s_near >= s_far);
}

#[test]
fn kernel_apply_dispatches_to_rbf() {
    let k = Kernel::RBF { gamma: 2 * SCALE };
    let x = [SCALE, SCALE];
    assert_eq!(k.apply(&x, &x).unwrap(), SCALE);
}

#[test]
fn kernel_rejects_mismatched_lengths() {
    let k = Kernel::RBF { gamma: 2 * SCALE };
    let x = [SCALE, SCALE];
    let y = [SCALE];
    assert!(matches!(
        k.apply(&x, &y),
        Err(MathError::DimensionMismatch { left: 2, right: 1 })
    ));
    assert!(matches!(
        kernel::rbf_kernel(&y, &x, SCALE),
        Err(MathError::DimensionMismatch { left: 1, right: 2 })
    ));
}

#[test]
fn apply_kernel_maps_each_component() {
    let a = [1i64, 2, 3];
    let doubled = kernel::apply_kernel(&a, |v: i64| v * 2);
    assert_eq!(doubled, vec![2, 4, 6]);
}

#[test]
fn apply_kernel2_combines_componentwise() {
    let a = [10i64, 20];
    let b = [1i64, 2];
    let summed = kernel::apply_kernel2(&a, &b, |x: i64, y: i64| x + y).unwrap();
    assert_eq!(summed, vec![11, 22]);
    let short = [1i64];
    assert!(matches!(
        kernel::apply_kernel2(&a, &short, |x: i64, _y: i64| x),
        Err(MathError::DimensionMismatch { left: 2, right: 1 })
    ));
}

#[test]
fn apply_kernel_indexed_sees_positions() {
    let a = [5i64, 5, 5];
    let r = kernel::apply_kernel_indexed(&a, |i: usize, v: i64| v + i as i64);
    assert_eq!(r, vec![5, 6, 7]);
}
