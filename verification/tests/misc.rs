use fcwt2::basis_selection::validate_detail_band;
use fcwt2::dual_tree_complex::offset_values;
use fcwt2::{
    coarsest_detail, BasisSelectionCriterion, TransformKind,
    next_power_of_two_len, DiscreteWavelet, DualTreeComplexWaveletTransform, Fcwt, ScaleError,
    ScaleType, Scales, TransformError, WaveletFilterBank,
};

#[test]
fn finds_next_power_of_two() {
    assert_eq!(next_power_of_two_len(0), 1);
    assert_eq!(next_power_of_two_len(1), 1);
    assert_eq!(next_power_of_two_len(2), 2);
    assert_eq!(next_power_of_two_len(3), 4);
    assert_eq!(next_power_of_two_len(1025), 2048);
}

#[test]
fn wavelet_names() {
    assert_eq!(DiscreteWavelet::Haar.name(), "haar");
    assert_eq!(DiscreteWavelet::Daubechies(4).name(), "db4");
    assert_eq!(DiscreteWavelet::Symlet(8).name(), "sym8");
    assert_eq!(DiscreteWavelet::Daubechies(0).name(), "db0");
    assert_eq!(DiscreteWavelet::Symlet(120).name(), "sym120");
}

#[test]
fn validates_custom_filter_banks() {
    assert_eq!(
        WaveletFilterBank::new("bad", 0, vec![1.0], vec![1.0, 2.0], vec![1.0], vec![1.0]),
        Err(TransformError::InvalidWaveletFilterBank)
    );
    assert_eq!(
        WaveletFilterBank::new("bad", 0, vec![f32::NAN], vec![1.0], vec![1.0], vec![1.0]),
        Err(TransformError::InvalidWaveletFilterBank)
    );
}

#[test]
fn filter_bank_rejects_empty_and_infinite_filters() {
    assert_eq!(
        WaveletFilterBank::<f32>::new("empty", 0, vec![], vec![], vec![], vec![]),
        Err(TransformError::InvalidWaveletFilterBank)
    );
    assert_eq!(
        WaveletFilterBank::new("inf", 0, vec![1.0], vec![1.0], vec![1.0], vec![f32::INFINITY]),
        Err(TransformError::InvalidWaveletFilterBank)
    );
    assert_eq!(
        WaveletFilterBank::<f32>::orthogonal("empty", 1, &[]),
        Err(TransformError::InvalidWaveletFilterBank)
    );
}

#[test]
fn exposes_supported_wavelet_metadata() {
    let db4 = [
        -0.010597402f32,
        0.03288301,
        0.030841382,
        -0.18703482,
        -0.02798377,
        0.6308808,
        0.71484655,
        0.23037781,
    ];
    let wavelet = DiscreteWavelet::Daubechies(4)
        .filter_bank_from_lowpass(&db4)
        .unwrap();
    assert_eq!(wavelet.name(), "db4");
    assert_eq!(wavelet.vanishing_moments(), 4);
    assert_eq!(wavelet.support_len(), 8);
}

#[test]
fn orthogonal_bank_uses_quadrature_mirror_highpass() {
    let bank = WaveletFilterBank::orthogonal("custom", 2, &[1.0f32, 2.0, 3.0, 4.0]).unwrap();
    assert_eq!(bank.analysis_low(), &[1.0, 2.0, 3.0, 4.0]);
    assert_eq!(bank.synthesis_low(), &[1.0, 2.0, 3.0, 4.0]);
    assert_eq!(bank.analysis_high(), &[4.0, -3.0, 2.0, -1.0]);
    assert_eq!(bank.synthesis_high(), &[4.0, -3.0, 2.0, -1.0]);
    let copy = bank.clone();
    assert_eq!(copy, bank);
}

#[test]
fn scales_from_explicit_values() {
    let scales = Scales::from_scales(100, vec![2.0f32, 4.0, 10.0]).unwrap();
    assert_eq!(scales.sample_rate(), 100);
    assert_eq!(scales.len(), 3);
    assert!(!scales.is_empty());
    assert_eq!(scales.as_slice(), &[2.0, 4.0, 10.0]);
    assert_eq!(
        Scales::<f32>::from_scales(100, vec![]),
        Err(ScaleError::EmptyScaleSet)
    );
    assert_ne!(ScaleType::LogScales, ScaleType::LinearScales);
}

#[test]
fn fcwt_configuration() {
    let fcwt = Fcwt::new(7u32);
    assert!(fcwt.normalization());
    assert_eq!(*fcwt.wavelet(), 7);
    let mut raw = fcwt.with_normalization(false);
    assert!(!raw.normalization());
    *raw.wavelet_mut() = 9;
    assert_eq!(*raw.wavelet(), 9);
}

#[test]
fn dual_tree_levels_and_offsets() {
    let transform = DualTreeComplexWaveletTransform::new(3);
    assert_eq!(transform.levels(), 3);
    assert_eq!(offset_values(&[3, 5, 7], -1), vec![2, 4, 6]);
    assert_eq!(offset_values(&[3, 5, 7], 2), vec![5, 7, 9]);
}

#[test]
fn coarsest_detail_picks_the_last_detail_band() {
    let h = std::f32::consts::FRAC_1_SQRT_2;
    let haar = WaveletFilterBank::orthogonal("haar", 1, &[h, h]).unwrap();
    let input = [1.0f32, 3.0, 5.0, 9.0];

    let packet = coarsest_detail(&input, 1, &haar, TransformKind::WaveletPacket).unwrap();
    assert_eq!(packet.len(), 2);
    assert!((packet[0] + 2.0 * h).abs() < 1e-6);
    assert!((packet[1] + 4.0 * h).abs() < 1e-6);

    let stationary = coarsest_detail(&input, 1, &haar, TransformKind::Stationary).unwrap();
    assert_eq!(stationary.len(), 4);
    assert!((stationary[3] - 8.0 * h).abs() < 1e-6);

    let deeper = coarsest_detail(&input, 2, &haar, TransformKind::WaveletPacket).unwrap();
    assert_eq!(deeper.len(), 1);
    assert!((deeper[0] - (-10.0 * h * h)).abs() < 1e-5);

    assert_eq!(
        coarsest_detail(&input, 0, &haar, TransformKind::WaveletPacket),
        Err(TransformError::InvalidCoefficientTree)
    );
    assert_eq!(
        coarsest_detail(&input, 0, &haar, TransformKind::Stationary),
        Err(TransformError::LevelTooDeep {
            levels: 0,
            max_levels: 0
        })
    );
    assert_eq!(
        coarsest_detail(&input, 3, &haar, TransformKind::Stationary),
        Err(TransformError::LevelTooDeep {
            levels: 3,
            max_levels: 2
        })
    );
    assert_eq!(BasisSelectionCriterion::CoarsestDetailPdfShape, BasisSelectionCriterion::CoarsestDetailPdfShape);
}

#[test]
fn builtin_wavelets_take_their_order_and_name() {
    let h = std::f32::consts::FRAC_1_SQRT_2;
    let bank = DiscreteWavelet::Symlet(2)
        .filter_bank_from_lowpass(&[-0.12940952f32, 0.22414386, 0.8365163, 0.4829629])
        .unwrap();
    assert_eq!(bank.name(), "sym2");
    assert_eq!(bank.vanishing_moments(), 2);
    assert_eq!(bank.support_len(), 4);
    let haar = DiscreteWavelet::Haar.filter_bank_from_lowpass(&[h, h]).unwrap();
    assert_eq!(haar.name(), "haar");
    assert_eq!(haar.vanishing_moments(), 1);
    assert_eq!(haar.analysis_high(), &[h, -h]);
    assert_eq!(
        DiscreteWavelet::Daubechies(3).filter_bank_from_lowpass(&[h, h]),
        Err(TransformError::InvalidWaveletFilterBank)
    );
    assert_eq!(
        DiscreteWavelet::Symlet(10).filter_bank_from_lowpass(&[h, h]),
        Err(TransformError::InvalidWaveletFilterBank)
    );
    assert_eq!(
        DiscreteWavelet::Daubechies(4).filter_bank_from_lowpass::<f32>(&[]),
        Err(TransformError::InvalidWaveletFilterBank)
    );
}

#[test]
fn detail_bands_need_four_finite_coefficients() {
    assert_eq!(validate_detail_band(&[1.0f32, 2.0, 3.0, 4.0]), Ok(()));
    assert_eq!(
        validate_detail_band(&[1.0f32, 2.0, 3.0]),
        Err(TransformError::InvalidCoefficientTree)
    );
    assert_eq!(
        validate_detail_band(&[1.0f32, f32::NAN, 3.0, 4.0]),
        Err(TransformError::InvalidCoefficientTree)
    );
    assert_eq!(
        validate_detail_band(&[1.0f32, 2.0, f32::NEG_INFINITY, 4.0, 5.0]),
        Err(TransformError::InvalidCoefficientTree)
    );
}
