use fcwt2::basis_selection::best_candidate;
use fcwt2::fcwt::{
    daughter_wavelet_multiply, mirror_real_spectrum, normalize_inverse_fft, store_scale_row,
};
use fcwt2::{ComplexSample, TransformError};

fn c(re: f32, im: f32) -> ComplexSample<f32> {
    ComplexSample { re, im }
}

#[test]
fn daughter_multiply_weights_positive_bins_only() {
    let input = vec![c(1.0, 2.0), c(3.0, 4.0), c(5.0, 6.0), c(7.0, 8.0)];
    let mut output = vec![c(9.0, 9.0); 4];
    let mother = [10.0f32, 20.0, 30.0, 40.0];
    daughter_wavelet_multiply(&input, &mut output, &mother, &[0, 2], false, false);
    assert_eq!(
        output,
        vec![c(10.0, 20.0), c(90.0, 120.0), c(0.0, 0.0), c(0.0, 0.0)]
    );
}

#[test]
fn daughter_multiply_double_sided_and_imaginary() {
    let input = vec![c(1.0, 2.0), c(3.0, 4.0), c(5.0, 6.0), c(7.0, 8.0)];
    let mut output = vec![c(9.0, 9.0); 4];
    let mother = [10.0f32, 20.0, 30.0, 40.0];
    daughter_wavelet_multiply(&input, &mut output, &mother, &[1, 3], true, true);
    assert_eq!(
        output,
        vec![c(20.0, -40.0), c(120.0, -160.0), c(-200.0, 240.0), c(-140.0, 160.0)]
    );
}

#[test]
fn daughter_multiply_without_bins_clears_output() {
    let input = vec![c(1.0, 2.0), c(3.0, 4.0)];
    let mut output = vec![c(9.0, 9.0); 2];
    daughter_wavelet_multiply(&input, &mut output, &[1.0f32], &[], false, true);
    assert_eq!(output, vec![c(0.0, 0.0); 2]);
}

#[test]
fn mirrors_real_spectrum_into_upper_half() {
    let mut values = vec![
        c(0.0, 0.5),
        c(1.0, 1.0),
        c(2.0, 2.0),
        c(3.0, 3.0),
        c(4.0, 4.0),
        c(5.0, 5.0),
        c(6.0, 6.0),
        c(7.0, 7.0),
    ];
    mirror_real_spectrum(&mut values);
    assert_eq!(
        values,
        vec![
            c(0.0, 0.5),
            c(1.0, 1.0),
            c(2.0, 2.0),
            c(3.0, 3.0),
            c(4.0, 4.0),
            c(3.0, -3.0),
            c(2.0, -2.0),
            c(1.0, -1.0),
        ]
    );
    let mut single = vec![c(1.0, 1.0)];
    mirror_real_spectrum(&mut single);
    assert_eq!(single, vec![c(1.0, 1.0)]);
}

#[test]
fn normalizes_by_fft_length() {
    let mut values = vec![c(4.0, -8.0), c(2.0, 6.0)];
    normalize_inverse_fft(&mut values, 4.0);
    assert_eq!(values, vec![c(1.0, -2.0), c(0.5, 1.5)]);
}

#[test]
fn output_rows_are_scale_major() {
    let mut output = vec![c(0.0, 0.0); 6];
    store_scale_row(&mut output, 1, 3, &[c(1.0, 1.0), c(2.0, 2.0), c(3.0, 3.0), c(9.0, 9.0)]);
    assert_eq!(
        output,
        vec![
            c(0.0, 0.0),
            c(0.0, 0.0),
            c(0.0, 0.0),
            c(1.0, 1.0),
            c(2.0, 2.0),
            c(3.0, 3.0)
        ]
    );
}

#[test]
fn best_candidate_is_last_maximum() {
    assert_eq!(best_candidate(&[3, 7, 1, 7, 2]), Ok(3));
    assert_eq!(best_candidate(&[-5]), Ok(0));
    assert_eq!(best_candidate(&[4, 2]), Ok(0));
    assert_eq!(
        best_candidate(&[]),
        Err(TransformError::InvalidWaveletFilterBank)
    );
}
