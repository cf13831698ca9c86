use fcwt2::{
    DiscreteWavelet, PacketBand, TransformError, WaveletFilterBank, WaveletPacketNode,
    WaveletPacketTransform, WaveletPacketTree,
};

const FRAC_1_SQRT_2: f32 = std::f32::consts::FRAC_1_SQRT_2;

fn close(actual: f32, expected: f32, epsilon: f32) -> bool {
    (actual - expected).abs() <= epsilon.max(f32::EPSILON * expected.abs().max(actual.abs()))
}

fn haar() -> WaveletFilterBank<f32> {
    WaveletFilterBank::orthogonal("haar", 1, &[FRAC_1_SQRT_2, FRAC_1_SQRT_2]).unwrap()
}

fn haar_packet(levels: usize) -> WaveletPacketTransform<f32> {
    WaveletPacketTransform::with_filter_bank(levels, haar())
}

fn supported(wavelet: DiscreteWavelet) -> WaveletFilterBank<f32> {
    let low: &[f32] = match wavelet {
        DiscreteWavelet::Daubechies(2) | DiscreteWavelet::Symlet(2) => {
            &[-0.12940952, 0.22414386, 0.8365163, 0.4829629]
        }
        DiscreteWavelet::Daubechies(4) => &[
            -0.010597402,
            0.03288301,
            0.030841382,
            -0.18703482,
            -0.02798377,
            0.6308808,
            0.71484655,
            0.23037781,
        ],
        DiscreteWavelet::Daubechies(6) => &[
            -0.0010773011,
            0.0047772573,
            0.0005538422,
            -0.03158204,
            0.027522866,
            0.097501606,
            -0.12976687,
            -0.2262647,
            0.31525034,
            0.7511339,
            0.4946239,
            0.11154074,
        ],
        DiscreteWavelet::Daubechies(8) => &[
            -0.00011747678,
            0.0006754494,
            -0.00039174038,
            -0.004870353,
            0.008746094,
            0.013981028,
            -0.044088256,
            -0.017369302,
            0.12874743,
            0.00047248456,
            -0.28401554,
            -0.015829105,
            0.5853547,
            0.67563075,
            0.3128716,
            0.05441584,
        ],
        DiscreteWavelet::Symlet(4) => &[
            -0.075765714,
            -0.029635528,
            0.49761868,
            0.8037388,
            0.2978578,
            -0.099219546,
            -0.012603967,
            0.0322231,
        ],
        DiscreteWavelet::Symlet(6) => &[
            0.015404109,
            0.003490712,
            -0.117990114,
            -0.048311744,
            0.49105594,
            0.78764117,
            0.33792943,
            -0.07263752,
            -0.021060292,
            0.0447249,
            0.0017677118,
            -0.007800708,
        ],
        DiscreteWavelet::Symlet(8) => &[
            -0.003382416,
            -0.0005421323,
            0.031695087,
            0.0076074875,
            -0.14329424,
            -0.06127336,
            0.48135966,
            0.77718574,
            0.3644419,
            -0.05194584,
            -0.02721903,
            0.04913718,
            0.003808752,
            -0.014952258,
            -0.0003029205,
            0.0018899504,
        ],
        _ => &[FRAC_1_SQRT_2, FRAC_1_SQRT_2],
    };
    wavelet.filter_bank_from_lowpass(low).unwrap()
}

#[test]
fn wavelet_packet_rejects_invalid_inputs() {
    assert_eq!(
        haar_packet(1).decompose(&[]),
        Err(TransformError::EmptyInput)
    );
    assert_eq!(
        haar_packet(1).decompose(&[1.0, 2.0, 3.0]),
        Err(TransformError::NonPowerOfTwo { len: 3 })
    );
    assert_eq!(
        haar_packet(3).decompose(&[1.0, 2.0, 3.0, 4.0]),
        Err(TransformError::LevelTooDeep {
            levels: 3,
            max_levels: 2
        })
    );
}

#[test]
fn decomposes_expected_packet_paths() {
    let tree = haar_packet(2).decompose(&[1.0, 2.0, 3.0, 4.0]).unwrap();

    assert_eq!(tree.levels(), 2);
    assert_eq!(tree.leaves().len(), 4);
    assert_eq!(
        tree.leaves()[0].path,
        vec![PacketBand::Approximation, PacketBand::Approximation]
    );
    assert_eq!(
        tree.leaves()[3].path,
        vec![PacketBand::Detail, PacketBand::Detail]
    );
    assert_eq!(tree.leaves()[0].coefficients.len(), 1);
}

#[test]
fn wavelet_packet_reconstructs_input() {
    let input = [1.0, -2.0, 3.5, 4.25, -5.0, 6.0, 7.0, -8.0];
    let tree = haar_packet(3).decompose(&input).unwrap();
    let reconstructed = tree.reconstruct().unwrap();

    for (actual, expected) in reconstructed.iter().zip(input) {
        assert!(close(*actual, expected, 1e-5));
    }
}

#[test]
fn wavelet_packet_reconstructs_input_with_supported_wavelets() {
    let input = [
        1.0, -2.0, 3.5, 4.25, -5.0, 6.0, 7.0, -8.0, 0.5, 2.25, -1.75, 9.0, 3.0, -4.0, 5.5, -6.5,
    ];
    let wavelets = [
        DiscreteWavelet::Daubechies(2),
        DiscreteWavelet::Daubechies(4),
        DiscreteWavelet::Daubechies(6),
        DiscreteWavelet::Daubechies(8),
        DiscreteWavelet::Symlet(2),
        DiscreteWavelet::Symlet(4),
        DiscreteWavelet::Symlet(6),
        DiscreteWavelet::Symlet(8),
    ];

    for wavelet in wavelets {
        let transform = WaveletPacketTransform::with_filter_bank(2, supported(wavelet));
        let tree = transform.decompose(&input).unwrap();
        let reconstructed = tree.reconstruct().unwrap();

        for (actual, expected) in reconstructed.iter().zip(input) {
            assert!(close(*actual, expected, 5e-5));
        }
    }
}

#[test]
fn packet_paths_follow_binary_order() {
    let input: Vec<f32> = (0..16).map(|i| i as f32).collect();
    let tree = haar_packet(3).decompose(&input).unwrap();
    let a = PacketBand::Approximation;
    let d = PacketBand::Detail;
    assert_eq!(tree.leaves().len(), 8);
    assert_eq!(tree.leaves()[5].path, vec![d, a, d]);
    assert_eq!(tree.leaves()[6].path, vec![d, d, a]);
    for leaf in tree.leaves() {
        assert_eq!(leaf.coefficients.len(), 2);
    }
}

#[test]
fn zero_level_tree_returns_its_leaf() {
    let tree = haar_packet(0).decompose(&[3.0, 1.0]).unwrap();
    assert_eq!(tree.leaves().len(), 1);
    assert!(tree.leaves()[0].path.is_empty());
    assert_eq!(tree.reconstruct().unwrap(), vec![3.0, 1.0]);
    let empty = WaveletPacketTree::from_leaves_with_filter_bank(0, Vec::new(), haar());
    assert_eq!(empty.reconstruct(), Err(TransformError::InvalidCoefficientTree));
}

#[test]
fn reconstruct_rejects_misplaced_or_ragged_leaves() {
    let tree = haar_packet(2).decompose(&[1.0, 2.0, 3.0, 4.0]).unwrap();
    let levels = tree.levels();
    let bank = tree.filter_bank().clone();

    let mut swapped = tree.clone().into_leaves();
    swapped.swap(1, 2);
    let swapped = WaveletPacketTree::from_leaves_with_filter_bank(levels, swapped, bank.clone());
    assert_eq!(swapped.reconstruct(), Err(TransformError::InvalidCoefficientTree));

    let mut ragged = tree.clone().into_leaves();
    ragged[3].coefficients.push(0.0);
    let ragged = WaveletPacketTree::from_leaves_with_filter_bank(levels, ragged, bank.clone());
    assert_eq!(ragged.reconstruct(), Err(TransformError::InvalidCoefficientTree));

    let mut short = tree.into_leaves();
    short.pop();
    let short = WaveletPacketTree::from_leaves_with_filter_bank(levels, short, bank);
    assert_eq!(short.reconstruct(), Err(TransformError::InvalidCoefficientTree));
}

#[test]
fn modified_leaves_reconstruct_through_filter_bank() {
    let input = [4.0f32, 4.0, 4.0, 4.0];
    let tree = haar_packet(1).decompose(&input).unwrap();
    let levels = tree.levels();
    let bank = tree.filter_bank().clone();
    let mut leaves = tree.into_leaves();
    for value in &mut leaves[1].coefficients {
        *value = 0.0;
    }
    let rebuilt = WaveletPacketTree::from_leaves_with_filter_bank(levels, leaves, bank)
        .reconstruct()
        .unwrap();
    for value in rebuilt {
        assert!(close(value, 4.0, 1e-5));
    }
    let node = WaveletPacketNode::<f32> {
        path: vec![PacketBand::Detail],
        coefficients: vec![1.0],
    };
    assert_eq!(node.clone(), node);
}
