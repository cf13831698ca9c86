use fcwt2::dual_tree_complex::{colfilter, offset_values, DtcwtFilters};
use fcwt2::{DualTreeComplexWaveletTransform, TransformError};

const H0O: [f32; 5] = [-0.05, 0.25, 0.6, 0.25, -0.05];
const G0O: [f32; 7] = [
    -0.010_714_286,
    -0.053_571_43,
    0.260_714_3,
    0.607_142_87,
    0.260_714_3,
    -0.053_571_43,
    -0.010_714_286,
];
const H1O: [f32; 7] = [
    0.010_714_286,
    -0.053_571_43,
    -0.260_714_3,
    0.607_142_87,
    -0.260_714_3,
    -0.053_571_43,
    0.010_714_286,
];
const G1O: [f32; 5] = [-0.05, -0.25, 0.6, -0.25, -0.05];
const H0A: [f32; 10] = [
    0.051_130_407,
    -0.013_975_37,
    -0.109_836_05,
    0.263_839_57,
    0.766_628_44,
    0.563_655_73,
    0.000_873_622_7,
    -0.100_231_22,
    -0.001_689_681_3,
    -0.006_181_882,
];
const H0B: [f32; 10] = [
    -0.006_181_882,
    -0.001_689_681_3,
    -0.100_231_22,
    0.000_873_622_7,
    0.563_655_73,
    0.766_628_44,
    0.263_839_57,
    -0.109_836_05,
    -0.013_975_37,
    0.051_130_407,
];
const H1A: [f32; 10] = [
    -0.006_181_882,
    0.001_689_681_3,
    -0.100_231_22,
    -0.000_873_622_7,
    0.563_655_73,
    -0.766_628_44,
    0.263_839_57,
    0.109_836_05,
    -0.013_975_37,
    -0.051_130_407,
];
const H1B: [f32; 10] = [
    -0.051_130_407,
    -0.013_975_37,
    0.109_836_05,
    0.263_839_57,
    -0.766_628_44,
    0.563_655_73,
    -0.000_873_622_7,
    -0.100_231_22,
    0.001_689_681_3,
    -0.006_181_882,
];

fn close(actual: f32, expected: f32, epsilon: f32) -> bool {
    (actual - expected).abs() <= epsilon.max(f32::EPSILON * expected.abs().max(actual.abs()))
}

fn filters() -> DtcwtFilters<f32> {
    DtcwtFilters::new(
        H0O.to_vec(),
        H1O.to_vec(),
        G0O.to_vec(),
        G1O.to_vec(),
        H0A.to_vec(),
        H0B.to_vec(),
        H1A.to_vec(),
        H1B.to_vec(),
        H0B.to_vec(),
        H0A.to_vec(),
        H1B.to_vec(),
        H1A.to_vec(),
    )
    .unwrap()
}

#[test]
fn dual_tree_complex_rejects_invalid_inputs() {
    let filters = filters();
    assert_eq!(
        DualTreeComplexWaveletTransform::new(1).decompose::<f32>(&[], &filters),
        Err(TransformError::EmptyInput)
    );
    assert_eq!(
        DualTreeComplexWaveletTransform::new(1).decompose(&[1.0, 2.0, 3.0], &filters),
        Err(TransformError::NonPowerOfTwo { len: 3 })
    );
}

#[test]
fn colfilter_preserves_length_for_odd_filters() {
    let output = colfilter(&[1.0, 2.0, 3.0, 4.0], &[0.25, 0.5, 0.25]);
    assert_eq!(output.len(), 4);
}

#[test]
fn colfilter_reflects_at_both_ends() {
    let output = colfilter(&[1.0f32, 2.0, 3.0, 4.0], &[0.25, 0.5, 0.25]);
    assert_eq!(output, vec![1.25, 2.0, 3.0, 3.75]);
    let output = colfilter(&[1.0f32, 2.0, 3.0], &[1.0, 0.0, 0.0, 0.0, 0.0]);
    assert_eq!(output, vec![3.0, 3.0, 2.0]);
}

#[test]
fn decomposes_to_expected_shapes() {
    let input = (0..32).map(|i| (i as f32 * 0.25).sin()).collect::<Vec<_>>();
    let tree = DualTreeComplexWaveletTransform::new(3)
        .decompose(&input, &filters())
        .unwrap();

    assert_eq!(tree.highpasses().len(), 3);
    assert_eq!(tree.highpasses()[0].detail.len(), 16);
    assert_eq!(tree.highpasses()[1].detail.len(), 8);
    assert_eq!(tree.highpasses()[2].detail.len(), 4);
    assert_eq!(tree.lowpass().len(), 8);
    assert!(tree.highpasses()[0]
        .detail
        .iter()
        .any(|value| value.im != 0.0));
}

#[test]
fn dual_tree_complex_reconstructs_input() {
    let input = (0..64)
        .map(|i| ((i as f32) * 0.17).sin() + 0.25 * ((i as f32) * 0.41).cos())
        .collect::<Vec<_>>();
    let filters = filters();
    let transform = DualTreeComplexWaveletTransform::new(4);
    let tree = transform.decompose(&input, &filters).unwrap();
    let reconstructed = transform.reconstruct(&tree, &filters).unwrap();

    assert_eq!(reconstructed.len(), input.len());
    for (actual, expected) in reconstructed.iter().zip(input) {
        assert!(close(*actual, expected, 2e-4));
    }
}

#[test]
fn zero_level_dual_tree_keeps_input() {
    let filters = filters();
    let transform = DualTreeComplexWaveletTransform::new(0);
    let tree = transform.decompose(&[1.0f32, 2.0], &filters).unwrap();
    assert_eq!(tree.lowpass(), &[1.0, 2.0]);
    assert!(tree.highpasses().is_empty());
    assert_eq!(transform.reconstruct(&tree, &filters).unwrap(), vec![1.0, 2.0]);
}

#[test]
fn dual_tree_rejects_too_many_levels_and_mismatched_trees() {
    let filters = filters();
    assert_eq!(
        DualTreeComplexWaveletTransform::new(3).decompose(&[1.0f32, 2.0, 3.0, 4.0], &filters),
        Err(TransformError::LevelTooDeep {
            levels: 3,
            max_levels: 2
        })
    );
    let tree = DualTreeComplexWaveletTransform::new(2)
        .decompose(&[1.0f32, 2.0, 3.0, 4.0, 5.0, 6.0, 7.0, 8.0], &filters)
        .unwrap();
    assert_eq!(tree.highpasses()[0].detail.len(), 4);
    assert_eq!(tree.highpasses()[1].detail.len(), 2);
    assert_eq!(tree.lowpass().len(), 4);
    assert_eq!(
        DualTreeComplexWaveletTransform::new(1).reconstruct(&tree, &filters),
        Err(TransformError::InvalidCoefficientTree)
    );
    let copy = tree.clone();
    assert_eq!(copy, tree);
}

#[test]
fn first_level_details_pair_neighbouring_highpass_samples() {
    let input = [1.0f32, 2.0, 3.0, 4.0];
    let filters = filters();
    let tree = DualTreeComplexWaveletTransform::new(1)
        .decompose(&input, &filters)
        .unwrap();
    let high = colfilter(&input, &H1O);
    let low = colfilter(&input, &H0O);
    assert_eq!(tree.lowpass(), low.as_slice());
    let detail = &tree.highpasses()[0].detail;
    assert_eq!(detail.len(), 2);
    assert_eq!(detail[0].re, high[0]);
    assert_eq!(detail[0].im, high[1]);
    assert_eq!(detail[1].re, high[2]);
    assert_eq!(detail[1].im, high[3]);
}

#[test]
fn dtcwt_filters_reject_bad_lengths() {
    let even = vec![1.0f32, 2.0];
    assert!(DtcwtFilters::new(
        even.clone(),
        H1O.to_vec(),
        G0O.to_vec(),
        G1O.to_vec(),
        H0A.to_vec(),
        H0B.to_vec(),
        H1A.to_vec(),
        H1B.to_vec(),
        H0B.to_vec(),
        H0A.to_vec(),
        H1B.to_vec(),
        H1A.to_vec(),
    )
    .is_err());
    assert_eq!(
        DtcwtFilters::new(
            H0O.to_vec(),
            H1O.to_vec(),
            G0O.to_vec(),
            G1O.to_vec(),
            H0A.to_vec(),
            H0B.to_vec(),
            H1A.to_vec(),
            H1B.to_vec(),
            H0B.to_vec(),
            H0A.to_vec(),
            H1B.to_vec(),
            vec![1.0f32, 2.0],
        )
        .unwrap_err(),
        TransformError::InvalidWaveletFilterBank
    );
}

#[test]
fn offsets_shift_indices() {
    assert_eq!(offset_values(&[3, 5, 7], -3), vec![0, 2, 4]);
    assert_eq!(offset_values(&[], 4), Vec::<usize>::new());
}
