use fcwt2::{
    DiscreteWavelet, StationaryWaveletTransform, SwtCoefficients, SwtLevel, TransformError,
    WaveletFilterBank,
};

const FRAC_1_SQRT_2: f32 = std::f32::consts::FRAC_1_SQRT_2;

fn close(actual: f32, expected: f32, epsilon: f32) -> bool {
    (actual - expected).abs() <= epsilon.max(f32::EPSILON * expected.abs().max(actual.abs()))
}

fn haar() -> WaveletFilterBank<f32> {
    WaveletFilterBank::orthogonal("haar", 1, &[FRAC_1_SQRT_2, FRAC_1_SQRT_2]).unwrap()
}

fn haar_swt(levels: usize) -> StationaryWaveletTransform<f32> {
    StationaryWaveletTransform::with_filter_bank(levels, haar())
}

fn supported(wavelet: DiscreteWavelet) -> WaveletFilterBank<f32> {
    let low: &[f32] = match wavelet {
        DiscreteWavelet::Daubechies(2) | DiscreteWavelet::Symlet(2) => {
            &[-0.12940952, 0.22414386, 0.8365163, 0.4829629]
        }
        DiscreteWavelet::Daubechies(4) => &[
            -0.010597402,
            0.03288301,
            0.030841382,
            -0.18703482,
            -0.02798377,
            0.6308808,
            0.71484655,
            0.23037781,
        ],
        DiscreteWavelet::Daubechies(6) => &[
            -0.0010773011,
            0.0047772573,
            0.0005538422,
            -0.03158204,
            0.027522866,
            0.097501606,
            -0.12976687,
            -0.2262647,
            0.31525034,
            0.7511339,
            0.4946239,
            0.11154074,
        ],
        DiscreteWavelet::Daubechies(8) => &[
            -0.00011747678,
            0.0006754494,
            -0.00039174038,
            -0.004870353,
            0.008746094,
            0.013981028,
            -0.044088256,
            -0.017369302,
            0.12874743,
            0.00047248456,
            -0.28401554,
            -0.015829105,
            0.5853547,
            0.67563075,
            0.3128716,
            0.05441584,
        ],
        DiscreteWavelet::Symlet(4) => &[
            -0.075765714,
            -0.029635528,
            0.49761868,
            0.8037388,
            0.2978578,
            -0.099219546,
            -0.012603967,
            0.0322231,
        ],
        DiscreteWavelet::Symlet(6) => &[
            0.015404109,
            0.003490712,
            -0.117990114,
            -0.048311744,
            0.49105594,
            0.78764117,
            0.33792943,
            -0.07263752,
            -0.021060292,
            0.0447249,
            0.0017677118,
            -0.007800708,
        ],
        DiscreteWavelet::Symlet(8) => &[
            -0.003382416,
            -0.0005421323,
            0.031695087,
            0.0076074875,
            -0.14329424,
            -0.06127336,
            0.48135966,
            0.77718574,
            0.3644419,
            -0.05194584,
            -0.02721903,
            0.04913718,
            0.003808752,
            -0.014952258,
            -0.0003029205,
            0.0018899504,
        ],
        _ => &[FRAC_1_SQRT_2, FRAC_1_SQRT_2],
    };
    wavelet.filter_bank_from_lowpass(low).unwrap()
}

#[test]
fn stationary_rejects_invalid_inputs() {
    assert_eq!(haar_swt(1).decompose(&[]), Err(TransformError::EmptyInput));
    assert_eq!(
        haar_swt(1).decompose(&[1.0, 2.0, 3.0]),
        Err(TransformError::NonPowerOfTwo { len: 3 })
    );
}

#[test]
fn preserves_lengths_at_each_level() {
    let coeffs = haar_swt(3)
        .decompose(&[1.0, 2.0, 3.0, 4.0, -1.0, -2.0, -3.0, -4.0])
        .unwrap();

    assert_eq!(coeffs.levels().len(), 3);
    for level in coeffs.levels() {
        assert_eq!(level.approximation.len(), 8);
        assert_eq!(level.detail.len(), 8);
    }
}

#[test]
fn first_level_matches_haar_with_periodic_wrap() {
    let coeffs = haar_swt(1).decompose(&[1.0, 2.0, 3.0, 4.0]).unwrap();

    let level = &coeffs.levels()[0];
    assert!(close(level.approximation[0], 3.0 * FRAC_1_SQRT_2, 0.0));
    assert!(close(level.detail[0], -FRAC_1_SQRT_2, 0.0));
    assert!(close(level.approximation[3], 5.0 * FRAC_1_SQRT_2, 0.0));
    assert!(close(level.detail[3], 3.0 * FRAC_1_SQRT_2, 0.0));
}

#[test]
fn stationary_reconstructs_input() {
    let input = [1.0, -2.0, 3.5, 4.25, -5.0, 6.0, 7.0, -8.0];
    let transform = haar_swt(3);
    let coeffs = transform.decompose(&input).unwrap();
    let reconstructed = transform.reconstruct(&coeffs).unwrap();

    for (actual, expected) in reconstructed.iter().zip(input) {
        assert!(close(*actual, expected, 1e-5));
    }
}

#[test]
fn stationary_reconstructs_input_with_supported_wavelets() {
    let input = [
        1.0, -2.0, 3.5, 4.25, -5.0, 6.0, 7.0, -8.0, 0.5, 2.25, -1.75, 9.0, 3.0, -4.0, 5.5, -6.5,
    ];
    let wavelets = [
        DiscreteWavelet::Daubechies(2),
        DiscreteWavelet::Daubechies(4),
        DiscreteWavelet::Daubechies(6),
        DiscreteWavelet::Daubechies(8),
        DiscreteWavelet::Symlet(2),
        DiscreteWavelet::Symlet(4),
        DiscreteWavelet::Symlet(6),
        DiscreteWavelet::Symlet(8),
    ];

    for wavelet in wavelets {
        let transform = StationaryWaveletTransform::with_filter_bank(2, supported(wavelet));
        let coeffs = transform.decompose(&input).unwrap();
        let reconstructed = transform.reconstruct(&coeffs).unwrap();

        for (actual, expected) in reconstructed.iter().zip(input) {
            assert!(close(*actual, expected, 5e-5));
        }
    }
}

#[test]
fn circular_shift_shifts_coefficients() {
    let input = [1.0, 0.0, 2.0, 0.0, 3.0, 0.0, 4.0, 0.0];
    let shifted = [0.0, 1.0, 0.0, 2.0, 0.0, 3.0, 0.0, 4.0];
    let transform = haar_swt(2);
    let coeffs = transform.decompose(&input).unwrap();
    let shifted_coeffs = transform.decompose(&shifted).unwrap();

    for (level, shifted_level) in coeffs.levels().iter().zip(shifted_coeffs.levels()) {
        for i in 0..input.len() {
            assert!(close(
                level.approximation[i],
                shifted_level.approximation[(i + 1) % input.len()],
                1e-6
            ));
            assert!(close(
                level.detail[i],
                shifted_level.detail[(i + 1) % input.len()],
                1e-6
            ));
        }
    }
}

#[test]
fn stationary_rejects_too_many_levels() {
    assert_eq!(
        haar_swt(3).decompose(&[1.0, 2.0, 3.0, 4.0]),
        Err(TransformError::LevelTooDeep {
            levels: 3,
            max_levels: 2
        })
    );
}

#[test]
fn zero_level_stationary_transform() {
    let transform = haar_swt(0);
    let coeffs = transform.decompose(&[1.0, 2.0]).unwrap();
    assert_eq!(coeffs.input_len(), 2);
    assert!(coeffs.levels().is_empty());
    assert_eq!(transform.reconstruct(&coeffs).unwrap(), vec![0.0, 0.0]);
}

#[test]
fn second_level_uses_dilated_filters() {
    let coeffs = haar_swt(2).decompose(&[1.0, 2.0, 3.0, 4.0]).unwrap();
    let first = &coeffs.levels()[0];
    let second = &coeffs.levels()[1];
    for i in 0..4 {
        let expected = (first.approximation[i] + first.approximation[(i + 2) % 4]) * FRAC_1_SQRT_2;
        assert!(close(second.approximation[i], expected, 1e-6));
        let expected = (first.approximation[i] - first.approximation[(i + 2) % 4]) * FRAC_1_SQRT_2;
        assert!(close(second.detail[i], expected, 1e-6));
    }
    assert!(close(second.approximation[0], 5.0, 1e-6));
}

#[test]
fn reconstruct_rejects_mismatched_coefficients() {
    let transform = haar_swt(2);
    let coeffs = transform.decompose(&[1.0, 2.0, 3.0, 4.0]).unwrap();

    let mut levels = coeffs.clone().into_levels();
    levels.pop();
    let missing = SwtCoefficients::from_levels(4, levels);
    assert_eq!(
        transform.reconstruct(&missing),
        Err(TransformError::InvalidCoefficientTree)
    );

    let wrong_len = SwtCoefficients::from_levels(3, coeffs.clone().into_levels());
    assert_eq!(
        transform.reconstruct(&wrong_len),
        Err(TransformError::NonPowerOfTwo { len: 3 })
    );

    let too_short = SwtCoefficients::from_levels(2, coeffs.clone().into_levels());
    assert_eq!(
        transform.reconstruct(&too_short),
        Err(TransformError::LevelTooDeep {
            levels: 2,
            max_levels: 1
        })
    );

    let mut levels = coeffs.into_levels();
    levels[0] = SwtLevel {
        approximation: vec![0.0; 4],
        detail: vec![0.0; 3],
    };
    let ragged = SwtCoefficients::from_levels(4, levels);
    assert_eq!(
        transform.reconstruct(&ragged),
        Err(TransformError::InvalidCoefficientTree)
    );
}

#[test]
fn coefficients_round_trip_through_their_levels() {
    let coeffs = haar_swt(2).decompose(&[1.0, 2.0, 3.0, 4.0]).unwrap();
    let rebuilt = SwtCoefficients::from_levels(coeffs.input_len(), coeffs.clone().into_levels());
    assert_eq!(rebuilt, coeffs);
    let level = coeffs.levels()[0].clone();
    assert_eq!(level, coeffs.levels()[0]);
}
