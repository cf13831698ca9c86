use fcwt2::discrete::{
    circular_convolve_same, circular_downsample, circular_upsample, reflect_index,
    validate_power_of_two, wrap_add, wrap_sub,
};
use fcwt2::TransformError;

const FRAC_1_SQRT_2: f32 = std::f32::consts::FRAC_1_SQRT_2;
const HAAR_LO: [f32; 2] = [FRAC_1_SQRT_2, FRAC_1_SQRT_2];
const HAAR_HI: [f32; 2] = [FRAC_1_SQRT_2, -FRAC_1_SQRT_2];

fn close(actual: f32, expected: f32, epsilon: f32) -> bool {
    (actual - expected).abs() <= epsilon.max(f32::EPSILON * expected.abs().max(actual.abs()))
}

#[test]
fn validates_lengths_and_levels() {
    assert_eq!(validate_power_of_two(0, 0), Err(TransformError::EmptyInput));
    assert_eq!(
        validate_power_of_two(6, 1),
        Err(TransformError::NonPowerOfTwo { len: 6 })
    );
    assert_eq!(
        validate_power_of_two(8, 4),
        Err(TransformError::LevelTooDeep {
            levels: 4,
            max_levels: 3
        })
    );
    assert_eq!(validate_power_of_two(8, 3), Ok(3));
}

#[test]
fn haar_downsample_upsample_reconstructs() {
    let input = [1.0, 2.0, -3.0, 4.0, 5.0, -6.0, 7.0, 8.0];
    let (approx, detail) = circular_downsample(&input, &HAAR_LO, &HAAR_HI);
    let reconstructed = circular_upsample(&approx, &detail, &HAAR_LO, &HAAR_HI).unwrap();

    for (actual, expected) in reconstructed.iter().zip(input) {
        assert!(close(*actual, expected, 1e-6));
    }
}

#[test]
fn validate_accepts_single_sample_and_reports_zero_levels() {
    assert_eq!(validate_power_of_two(1, 0), Ok(0));
    assert_eq!(
        validate_power_of_two(1, 1),
        Err(TransformError::LevelTooDeep {
            levels: 1,
            max_levels: 0
        })
    );
    assert_eq!(validate_power_of_two(1024, 10), Ok(10));
    assert_eq!(
        validate_power_of_two(3, 0),
        Err(TransformError::NonPowerOfTwo { len: 3 })
    );
}

#[test]
fn upsample_rejects_unequal_halves() {
    assert_eq!(
        circular_upsample(&[1.0f32, 2.0], &[1.0], &HAAR_LO, &HAAR_HI),
        Err(TransformError::InvalidCoefficientTree)
    );
}

#[test]
fn downsample_haar_values() {
    let (approx, detail) = circular_downsample(&[1.0f32, 3.0, 5.0, 9.0], &HAAR_LO, &HAAR_HI);
    assert_eq!(approx.len(), 2);
    assert!(close(approx[0], 4.0 * FRAC_1_SQRT_2, 1e-6));
    assert!(close(approx[1], 14.0 * FRAC_1_SQRT_2, 1e-6));
    assert!(close(detail[0], -2.0 * FRAC_1_SQRT_2, 1e-6));
    assert!(close(detail[1], -4.0 * FRAC_1_SQRT_2, 1e-6));
}

#[test]
fn convolve_same_wraps_around_with_stride() {
    let output = circular_convolve_same(&[1.0f32, 2.0, 3.0, 4.0], &[1.0, 10.0], 2);
    assert_eq!(output, vec![31.0, 42.0, 13.0, 24.0]);
}

#[test]
fn reflect_index_mirrors_half_sample() {
    assert_eq!(reflect_index(-1, 4), 0);
    assert_eq!(reflect_index(-2, 4), 1);
    assert_eq!(reflect_index(4, 4), 3);
    assert_eq!(reflect_index(5, 4), 2);
    assert_eq!(reflect_index(9, 4), 1);
    assert_eq!(reflect_index(-9, 4), 0);
    assert_eq!(reflect_index(2, 4), 2);
    assert_eq!(reflect_index(-3, 1), 0);
}

#[test]
fn wrapping_index_steps() {
    assert_eq!(wrap_add(6, 5, 8), 3);
    assert_eq!(wrap_add(0, 17, 8), 1);
    assert_eq!(wrap_sub(1, 3, 8), 6);
    assert_eq!(wrap_sub(5, 16, 8), 5);
}
