use rustchord::config::{Configuration, DFTAlgorithm, NoteFinderValidationError};
use rustchord::notefinder::Notefinder;

fn outside<T>(expected_min: T, expected_max: T, found: T) -> NoteFinderValidationError<T> {
    NoteFinderValidationError::OutsideValidRange { expected_min, expected_max, found }
}

#[test]
fn finder_starts_with_the_usual_settings() {
    let nf = Notefinder::new(44_100);
    assert_eq!(nf.samplerate(), 44_100);
    assert_eq!(nf.dft_algorithm(), DFTAlgorithm::DFTProgressive);
    let c = nf.config();
    assert_eq!(c, Configuration::new());
    assert_eq!(c.octaves, 8);
    assert_eq!(c.frequency_bins, 24);
    assert_eq!(c.base_hz, 0);
    assert_eq!(c.filter_strength, 500_000);
    assert_eq!(c.filter_iterations, 1);
    assert_eq!(c.decompose_iterations, 1000);
    assert_eq!(c.dft_speedup, 300_000_000);
    assert_eq!(c.dft_q, 16_000_000);
    assert_eq!(c.default_sigma, 1_400_000);
    assert_eq!(c.note_jumpability, 500_000);
    assert_eq!(c.note_combine_distance, 500_000);
    assert_eq!(c.note_minimum_new_distribution_value, 20_000);
}

#[test]
fn nine_octaves_are_refused_and_four_are_taken() {
    let mut nf = Notefinder::new(48_000);
    assert_eq!(nf.set_octaves(9), Err(outside(0, 8, 9)));
    assert_eq!(nf.config().octaves, 8);
    assert_eq!(nf.set_octaves(4), Ok(()));
    assert_eq!(nf.config().octaves, 4);
}

#[test]
fn refused_setting_leaves_everything_as_it_was() {
    let mut nf = Notefinder::new(48_000);
    nf.set_dft_q(32_000_000).unwrap();
    nf.run(&[900_000u32; 24]);
    let settings = nf.config();
    let notes = nf.get_notes();
    let spectrum = nf.get_folded().to_vec();
    assert_eq!(nf.set_frequency_bins(49), Err(outside(12, 48, 49)));
    assert_eq!(nf.set_dft_q(3_999_999), Err(outside(4_000_000, 64_000_000, 3_999_999)));
    assert_eq!(nf.set_slope(-1), Err(outside(0, 1_000_000, -1)));
    assert_eq!(nf.config(), settings);
    assert_eq!(nf.get_notes(), notes);
    assert_eq!(nf.get_folded().to_vec(), spectrum);
}

#[test]
fn accepted_setting_changes_only_itself() {
    let mut nf = Notefinder::new(48_000);
    nf.run(&[900_000u32; 24]);
    let notes = nf.get_notes();
    let spectrum = nf.get_folded().to_vec();
    nf.set_note_jumpability(2_500_000).unwrap();
    let mut expected = Configuration::new();
    expected.note_jumpability = 2_500_000;
    assert_eq!(nf.config(), expected);
    assert_eq!(nf.get_notes(), notes);
    assert_eq!(nf.get_folded().to_vec(), spectrum);
}

#[test]
fn new_number_of_bins_starts_the_tracking_afresh() {
    let mut nf = Notefinder::new(48_000);
    let mut bins = vec![0u32; 24];
    bins[7] = 900_000;
    nf.run(&bins);
    assert_eq!(nf.get_notes().iter().filter(|n| n.active).count(), 1);
    assert_eq!(nf.set_frequency_bins(24), Ok(()));
    assert_eq!(nf.get_notes().iter().filter(|n| n.active).count(), 1);
    assert_eq!(nf.get_folded()[7], 900_000);
    assert_eq!(nf.set_frequency_bins(36), Ok(()));
    assert_eq!(nf.config().frequency_bins, 36);
    assert_eq!(nf.get_folded().to_vec(), vec![0i64; 36]);
    assert_eq!(nf.get_notes().len(), 18);
    assert!(nf.get_notes().iter().all(|n| !n.active));
    assert_eq!(nf.set_frequency_bins(13), Ok(()));
    assert_eq!(nf.get_folded().len(), 13);
    assert_eq!(nf.get_notes().len(), 6);
}

#[test]
fn transform_is_chosen_without_a_range() {
    let mut nf = Notefinder::new(48_000);
    let all = [
        (DFTAlgorithm::DFTQuick, 0),
        (DFTAlgorithm::DFTProgressive, 1),
        (DFTAlgorithm::DFTProgressiveInteger, 2),
        (DFTAlgorithm::DFTProgressiveIntegerSkippy, 3),
        (DFTAlgorithm::DFTProgressive32, 4),
    ];
    for (algo, code) in all {
        nf.set_dft_algorithm(algo);
        assert_eq!(nf.dft_algorithm(), algo);
        assert_eq!(algo.code(), code);
        assert_eq!(nf.config(), Configuration::new());
    }
}

#[test]
fn unknown_error_is_its_own_case() {
    let unknown: NoteFinderValidationError<i32> = NoteFinderValidationError::Unknown;
    assert_ne!(unknown, outside(0, 8, 9));
    assert_eq!(unknown, NoteFinderValidationError::Unknown);
}

#[test]
fn set_octaves_keeps_to_its_range() {
    let mut nf = Notefinder::new(48_000);
    let before = nf.config();
    assert_eq!(nf.set_octaves(0 - 1), Err(outside(0, 8, 0 - 1)));
    assert_eq!(nf.set_octaves(8 + 1), Err(outside(0, 8, 8 + 1)));
    assert_eq!(nf.set_octaves(i32::MIN), Err(outside(0, 8, i32::MIN)));
    assert_eq!(nf.set_octaves(i32::MAX), Err(outside(0, 8, i32::MAX)));
    assert_eq!(nf.config(), before);
    assert_eq!(nf.set_octaves(0), Ok(()));
    assert_eq!(nf.config().octaves, 0);
    assert_eq!(nf.set_octaves(8), Ok(()));
    assert_eq!(nf.config().octaves, 8);
    let mut expected = before;
    expected.octaves = 8;
    assert_eq!(nf.config(), expected);
}

#[test]
fn set_frequency_bins_keeps_to_its_range() {
    let mut nf = Notefinder::new(48_000);
    let before = nf.config();
    assert_eq!(nf.set_frequency_bins(12 - 1), Err(outside(12, 48, 12 - 1)));
    assert_eq!(nf.set_frequency_bins(48 + 1), Err(outside(12, 48, 48 + 1)));
    assert_eq!(nf.set_frequency_bins(i32::MIN), Err(outside(12, 48, i32::MIN)));
    assert_eq!(nf.set_frequency_bins(i32::MAX), Err(outside(12, 48, i32::MAX)));
    assert_eq!(nf.config(), before);
    assert_eq!(nf.set_frequency_bins(12), Ok(()));
    assert_eq!(nf.config().frequency_bins, 12);
    assert_eq!(nf.set_frequency_bins(48), Ok(()));
    assert_eq!(nf.config().frequency_bins, 48);
    let mut expected = before;
    expected.frequency_bins = 48;
    assert_eq!(nf.config(), expected);
}

#[test]
fn set_base_hz_keeps_to_its_range() {
    let mut nf = Notefinder::new(48_000);
    let before = nf.config();
    assert_eq!(nf.set_base_hz(0 - 1), Err(outside(0, 20000000000, 0 - 1)));
    assert_eq!(nf.set_base_hz(20000000000 + 1), Err(outside(0, 20000000000, 20000000000 + 1)));
    assert_eq!(nf.set_base_hz(i64::MIN), Err(outside(0, 20000000000, i64::MIN)));
    assert_eq!(nf.set_base_hz(i64::MAX), Err(outside(0, 20000000000, i64::MAX)));
    assert_eq!(nf.config(), before);
    assert_eq!(nf.set_base_hz(0), Ok(()));
    assert_eq!(nf.config().base_hz, 0);
    assert_eq!(nf.set_base_hz(20000000000), Ok(()));
    assert_eq!(nf.config().base_hz, 20000000000);
    let mut expected = before;
    expected.base_hz = 20000000000;
    assert_eq!(nf.config(), expected);
}

#[test]
fn set_filter_strength_keeps_to_its_range() {
    let mut nf = Notefinder::new(48_000);
    let before = nf.config();
    assert_eq!(nf.set_filter_strength(0 - 1), Err(outside(0, 1000000, 0 - 1)));
    assert_eq!(nf.set_filter_strength(1000000 + 1), Err(outside(0, 1000000, 1000000 + 1)));
    assert_eq!(nf.set_filter_strength(i64::MIN), Err(outside(0, 1000000, i64::MIN)));
    assert_eq!(nf.set_filter_strength(i64::MAX), Err(outside(0, 1000000, i64::MAX)));
    assert_eq!(nf.config(), before);
    assert_eq!(nf.set_filter_strength(0), Ok(()));
    assert_eq!(nf.config().filter_strength, 0);
    assert_eq!(nf.set_filter_strength(1000000), Ok(()));
    assert_eq!(nf.config().filter_strength, 1000000);
    let mut expected = before;
    expected.filter_strength = 1000000;
    assert_eq!(nf.config(), expected);
}

#[test]
fn set_filter_iterations_keeps_to_its_range() {
    let mut nf = Notefinder::new(48_000);
    let before = nf.config();
    assert_eq!(nf.set_filter_iterations(1 - 1), Err(outside(1, 8, 1 - 1)));
    assert_eq!(nf.set_filter_iterations(8 + 1), Err(outside(1, 8, 8 + 1)));
    assert_eq!(nf.set_filter_iterations(i32::MIN), Err(outside(1, 8, i32::MIN)));
    assert_eq!(nf.set_filter_iterations(i32::MAX), Err(outside(1, 8, i32::MAX)));
    assert_eq!(nf.config(), before);
    assert_eq!(nf.set_filter_iterations(1), Ok(()));
    assert_eq!(nf.config().filter_iterations, 1);
    assert_eq!(nf.set_filter_iterations(8), Ok(()));
    assert_eq!(nf.config().filter_iterations, 8);
    let mut expected = before;
    expected.filter_iterations = 8;
    assert_eq!(nf.config(), expected);
}

#[test]
fn set_decompose_iterations_keeps_to_its_range() {
    let mut nf = Notefinder::new(48_000);
    let before = nf.config();
    assert_eq!(nf.set_decompose_iterations(100 - 1), Err(outside(100, 10000, 100 - 1)));
    assert_eq!(nf.set_decompose_iterations(10000 + 1), Err(outside(100, 10000, 10000 + 1)));
    assert_eq!(nf.set_decompose_iterations(i32::MIN), Err(outside(100, 10000, i32::MIN)));
    assert_eq!(nf.set_decompose_iterations(i32::MAX), Err(outside(100, 10000, i32::MAX)));
    assert_eq!(nf.config(), before);
    assert_eq!(nf.set_decompose_iterations(100), Ok(()));
    assert_eq!(nf.config().decompose_iterations, 100);
    assert_eq!(nf.set_decompose_iterations(10000), Ok(()));
    assert_eq!(nf.config().decompose_iterations, 10000);
    let mut expected = before;
    expected.decompose_iterations = 10000;
    assert_eq!(nf.config(), expected);
}

#[test]
fn set_amplification_keeps_to_its_range() {
    let mut nf = Notefinder::new(48_000);
    let before = nf.config();
    assert_eq!(nf.set_amplification(0 - 1), Err(outside(0, 40000000, 0 - 1)));
    assert_eq!(nf.set_amplification(40000000 + 1), Err(outside(0, 40000000, 40000000 + 1)));
    assert_eq!(nf.set_amplification(i64::MIN), Err(outside(0, 40000000, i64::MIN)));
    assert_eq!(nf.set_amplification(i64::MAX), Err(outside(0, 40000000, i64::MAX)));
    assert_eq!(nf.config(), before);
    assert_eq!(nf.set_amplification(0), Ok(()));
    assert_eq!(nf.config().amplification, 0);
    assert_eq!(nf.set_amplification(40000000), Ok(()));
    assert_eq!(nf.config().amplification, 40000000);
    let mut expected = before;
    expected.amplification = 40000000;
    assert_eq!(nf.config(), expected);
}

#[test]
fn set_compress_exponent_keeps_to_its_range() {
    let mut nf = Notefinder::new(48_000);
    let before = nf.config();
    assert_eq!(nf.set_compress_exponent(0 - 1), Err(outside(0, 10000000, 0 - 1)));
    assert_eq!(nf.set_compress_exponent(10000000 + 1), Err(outside(0, 10000000, 10000000 + 1)));
    assert_eq!(nf.set_compress_exponent(i64::MIN), Err(outside(0, 10000000, i64::MIN)));
    assert_eq!(nf.set_compress_exponent(i64::MAX), Err(outside(0, 10000000, i64::MAX)));
    assert_eq!(nf.config(), before);
    assert_eq!(nf.set_compress_exponent(0), Ok(()));
    assert_eq!(nf.config().compress_exponent, 0);
    assert_eq!(nf.set_compress_exponent(10000000), Ok(()));
    assert_eq!(nf.config().compress_exponent, 10000000);
    let mut expected = before;
    expected.compress_exponent = 10000000;
    assert_eq!(nf.config(), expected);
}

#[test]
fn set_compress_coefficient_keeps_to_its_range() {
    let mut nf = Notefinder::new(48_000);
    let before = nf.config();
    assert_eq!(nf.set_compress_coefficient(0 - 1), Err(outside(0, 5000000, 0 - 1)));
    assert_eq!(nf.set_compress_coefficient(5000000 + 1), Err(outside(0, 5000000, 5000000 + 1)));
    assert_eq!(nf.set_compress_coefficient(i64::MIN), Err(outside(0, 5000000, i64::MIN)));
    assert_eq!(nf.set_compress_coefficient(i64::MAX), Err(outside(0, 5000000, i64::MAX)));
    assert_eq!(nf.config(), before);
    assert_eq!(nf.set_compress_coefficient(0), Ok(()));
    assert_eq!(nf.config().compress_coefficient, 0);
    assert_eq!(nf.set_compress_coefficient(5000000), Ok(()));
    assert_eq!(nf.config().compress_coefficient, 5000000);
    let mut expected = before;
    expected.compress_coefficient = 5000000;
    assert_eq!(nf.config(), expected);
}

#[test]
fn set_dft_speedup_keeps_to_its_range() {
    let mut nf = Notefinder::new(48_000);
    let before = nf.config();
    assert_eq!(nf.set_dft_speedup(100000000 - 1), Err(outside(100000000, 20000000000, 100000000 - 1)));
    assert_eq!(nf.set_dft_speedup(20000000000 + 1), Err(outside(100000000, 20000000000, 20000000000 + 1)));
    assert_eq!(nf.set_dft_speedup(i64::MIN), Err(outside(100000000, 20000000000, i64::MIN)));
    assert_eq!(nf.set_dft_speedup(i64::MAX), Err(outside(100000000, 20000000000, i64::MAX)));
    assert_eq!(nf.config(), before);
    assert_eq!(nf.set_dft_speedup(100000000), Ok(()));
    assert_eq!(nf.config().dft_speedup, 100000000);
    assert_eq!(nf.set_dft_speedup(20000000000), Ok(()));
    assert_eq!(nf.config().dft_speedup, 20000000000);
    let mut expected = before;
    expected.dft_speedup = 20000000000;
    assert_eq!(nf.config(), expected);
}

#[test]
fn set_dft_q_keeps_to_its_range() {
    let mut nf = Notefinder::new(48_000);
    let before = nf.config();
    assert_eq!(nf.set_dft_q(4000000 - 1), Err(outside(4000000, 64000000, 4000000 - 1)));
    assert_eq!(nf.set_dft_q(64000000 + 1), Err(outside(4000000, 64000000, 64000000 + 1)));
    assert_eq!(nf.set_dft_q(i64::MIN), Err(outside(4000000, 64000000, i64::MIN)));
    assert_eq!(nf.set_dft_q(i64::MAX), Err(outside(4000000, 64000000, i64::MAX)));
    assert_eq!(nf.config(), before);
    assert_eq!(nf.set_dft_q(4000000), Ok(()));
    assert_eq!(nf.config().dft_q, 4000000);
    assert_eq!(nf.set_dft_q(64000000), Ok(()));
    assert_eq!(nf.config().dft_q, 64000000);
    let mut expected = before;
    expected.dft_q = 64000000;
    assert_eq!(nf.config(), expected);
}

#[test]
fn set_default_sigma_keeps_to_its_range() {
    let mut nf = Notefinder::new(48_000);
    let before = nf.config();
    assert_eq!(nf.set_default_sigma(0 - 1), Err(outside(0, 8000000, 0 - 1)));
    assert_eq!(nf.set_default_sigma(8000000 + 1), Err(outside(0, 8000000, 8000000 + 1)));
    assert_eq!(nf.set_default_sigma(i64::MIN), Err(outside(0, 8000000, i64::MIN)));
    assert_eq!(nf.set_default_sigma(i64::MAX), Err(outside(0, 8000000, i64::MAX)));
    assert_eq!(nf.config(), before);
    assert_eq!(nf.set_default_sigma(0), Ok(()));
    assert_eq!(nf.config().default_sigma, 0);
    assert_eq!(nf.set_default_sigma(8000000), Ok(()));
    assert_eq!(nf.config().default_sigma, 8000000);
    let mut expected = before;
    expected.default_sigma = 8000000;
    assert_eq!(nf.config(), expected);
}

#[test]
fn set_note_jumpability_keeps_to_its_range() {
    let mut nf = Notefinder::new(48_000);
    let before = nf.config();
    assert_eq!(nf.set_note_jumpability(0 - 1), Err(outside(0, 8000000, 0 - 1)));
    assert_eq!(nf.set_note_jumpability(8000000 + 1), Err(outside(0, 8000000, 8000000 + 1)));
    assert_eq!(nf.set_note_jumpability(i64::MIN), Err(outside(0, 8000000, i64::MIN)));
    assert_eq!(nf.set_note_jumpability(i64::MAX), Err(outside(0, 8000000, i64::MAX)));
    assert_eq!(nf.config(), before);
    assert_eq!(nf.set_note_jumpability(0), Ok(()));
    assert_eq!(nf.config().note_jumpability, 0);
    assert_eq!(nf.set_note_jumpability(8000000), Ok(()));
    assert_eq!(nf.config().note_jumpability, 8000000);
    let mut expected = before;
    expected.note_jumpability = 8000000;
    assert_eq!(nf.config(), expected);
}

#[test]
fn set_note_combine_distance_keeps_to_its_range() {
    let mut nf = Notefinder::new(48_000);
    let before = nf.config();
    assert_eq!(nf.set_note_combine_distance(0 - 1), Err(outside(0, 4000000, 0 - 1)));
    assert_eq!(nf.set_note_combine_distance(4000000 + 1), Err(outside(0, 4000000, 4000000 + 1)));
    assert_eq!(nf.set_note_combine_distance(i64::MIN), Err(outside(0, 4000000, i64::MIN)));
    assert_eq!(nf.set_note_combine_distance(i64::MAX), Err(outside(0, 4000000, i64::MAX)));
    assert_eq!(nf.config(), before);
    assert_eq!(nf.set_note_combine_distance(0), Ok(()));
    assert_eq!(nf.config().note_combine_distance, 0);
    assert_eq!(nf.set_note_combine_distance(4000000), Ok(()));
    assert_eq!(nf.config().note_combine_distance, 4000000);
    let mut expected = before;
    expected.note_combine_distance = 4000000;
    assert_eq!(nf.config(), expected);
}

#[test]
fn set_slope_keeps_to_its_range() {
    let mut nf = Notefinder::new(48_000);
    let before = nf.config();
    assert_eq!(nf.set_slope(0 - 1), Err(outside(0, 1000000, 0 - 1)));
    assert_eq!(nf.set_slope(1000000 + 1), Err(outside(0, 1000000, 1000000 + 1)));
    assert_eq!(nf.set_slope(i64::MIN), Err(outside(0, 1000000, i64::MIN)));
    assert_eq!(nf.set_slope(i64::MAX), Err(outside(0, 1000000, i64::MAX)));
    assert_eq!(nf.config(), before);
    assert_eq!(nf.set_slope(0), Ok(()));
    assert_eq!(nf.config().slope, 0);
    assert_eq!(nf.set_slope(1000000), Ok(()));
    assert_eq!(nf.config().slope, 1000000);
    let mut expected = before;
    expected.slope = 1000000;
    assert_eq!(nf.config(), expected);
}

#[test]
fn set_note_attach_freq_iir_keeps_to_its_range() {
    let mut nf = Notefinder::new(48_000);
    let before = nf.config();
    assert_eq!(nf.set_note_attach_freq_iir(0 - 1), Err(outside(0, 3000000, 0 - 1)));
    assert_eq!(nf.set_note_attach_freq_iir(3000000 + 1), Err(outside(0, 3000000, 3000000 + 1)));
    assert_eq!(nf.set_note_attach_freq_iir(i64::MIN), Err(outside(0, 3000000, i64::MIN)));
    assert_eq!(nf.set_note_attach_freq_iir(i64::MAX), Err(outside(0, 3000000, i64::MAX)));
    assert_eq!(nf.config(), before);
    assert_eq!(nf.set_note_attach_freq_iir(0), Ok(()));
    assert_eq!(nf.config().note_attach_freq_iir, 0);
    assert_eq!(nf.set_note_attach_freq_iir(3000000), Ok(()));
    assert_eq!(nf.config().note_attach_freq_iir, 3000000);
    let mut expected = before;
    expected.note_attach_freq_iir = 3000000;
    assert_eq!(nf.config(), expected);
}

#[test]
fn set_note_attach_amp_iir_keeps_to_its_range() {
    let mut nf = Notefinder::new(48_000);
    let before = nf.config();
    assert_eq!(nf.set_note_attach_amp_iir(0 - 1), Err(outside(0, 3000000, 0 - 1)));
    assert_eq!(nf.set_note_attach_amp_iir(3000000 + 1), Err(outside(0, 3000000, 3000000 + 1)));
    assert_eq!(nf.set_note_attach_amp_iir(i64::MIN), Err(outside(0, 3000000, i64::MIN)));
    assert_eq!(nf.set_note_attach_amp_iir(i64::MAX), Err(outside(0, 3000000, i64::MAX)));
    assert_eq!(nf.config(), before);
    assert_eq!(nf.set_note_attach_amp_iir(0), Ok(()));
    assert_eq!(nf.config().note_attach_amp_iir, 0);
    assert_eq!(nf.set_note_attach_amp_iir(3000000), Ok(()));
    assert_eq!(nf.config().note_attach_amp_iir, 3000000);
    let mut expected = before;
    expected.note_attach_amp_iir = 3000000;
    assert_eq!(nf.config(), expected);
}

#[test]
fn set_note_attach_amp_iir2_keeps_to_its_range() {
    let mut nf = Notefinder::new(48_000);
    let before = nf.config();
    assert_eq!(nf.set_note_attach_amp_iir2(0 - 1), Err(outside(0, 3000000, 0 - 1)));
    assert_eq!(nf.set_note_attach_amp_iir2(3000000 + 1), Err(outside(0, 3000000, 3000000 + 1)));
    assert_eq!(nf.set_note_attach_amp_iir2(i64::MIN), Err(outside(0, 3000000, i64::MIN)));
    assert_eq!(nf.set_note_attach_amp_iir2(i64::MAX), Err(outside(0, 3000000, i64::MAX)));
    assert_eq!(nf.config(), before);
    assert_eq!(nf.set_note_attach_amp_iir2(0), Ok(()));
    assert_eq!(nf.config().note_attach_amp_iir2, 0);
    assert_eq!(nf.set_note_attach_amp_iir2(3000000), Ok(()));
    assert_eq!(nf.config().note_attach_amp_iir2, 3000000);
    let mut expected = before;
    expected.note_attach_amp_iir2 = 3000000;
    assert_eq!(nf.config(), expected);
}

#[test]
fn set_note_minimum_new_distribution_value_keeps_to_its_range() {
    let mut nf = Notefinder::new(48_000);
    let before = nf.config();
    assert_eq!(nf.set_note_minimum_new_distribution_value(0 - 1), Err(outside(0, 1000000, 0 - 1)));
    assert_eq!(nf.set_note_minimum_new_distribution_value(1000000 + 1), Err(outside(0, 1000000, 1000000 + 1)));
    assert_eq!(nf.set_note_minimum_new_distribution_value(i64::MIN), Err(outside(0, 1000000, i64::MIN)));
    assert_eq!(nf.set_note_minimum_new_distribution_value(i64::MAX), Err(outside(0, 1000000, i64::MAX)));
    assert_eq!(nf.config(), before);
    assert_eq!(nf.set_note_minimum_new_distribution_value(0), Ok(()));
    assert_eq!(nf.config().note_minimum_new_distribution_value, 0);
    assert_eq!(nf.set_note_minimum_new_distribution_value(1000000), Ok(()));
    assert_eq!(nf.config().note_minimum_new_distribution_value, 1000000);
    let mut expected = before;
    expected.note_minimum_new_distribution_value = 1000000;
    assert_eq!(nf.config(), expected);
}

#[test]
fn set_note_out_chop_keeps_to_its_range() {
    let mut nf = Notefinder::new(48_000);
    let before = nf.config();
    assert_eq!(nf.set_note_out_chop(0 - 1), Err(outside(0, 1000000, 0 - 1)));
    assert_eq!(nf.set_note_out_chop(1000000 + 1), Err(outside(0, 1000000, 1000000 + 1)));
    assert_eq!(nf.set_note_out_chop(i64::MIN), Err(outside(0, 1000000, i64::MIN)));
    assert_eq!(nf.set_note_out_chop(i64::MAX), Err(outside(0, 1000000, i64::MAX)));
    assert_eq!(nf.config(), before);
    assert_eq!(nf.set_note_out_chop(0), Ok(()));
    assert_eq!(nf.config().note_out_chop, 0);
    assert_eq!(nf.set_note_out_chop(1000000), Ok(()));
    assert_eq!(nf.config().note_out_chop, 1000000);
    let mut expected = before;
    expected.note_out_chop = 1000000;
    assert_eq!(nf.config(), expected);
}

#[test]
fn set_dft_iir_keeps_to_its_range() {
    let mut nf = Notefinder::new(48_000);
    let before = nf.config();
    assert_eq!(nf.set_dft_iir(0 - 1), Err(outside(0, 10000000, 0 - 1)));
    assert_eq!(nf.set_dft_iir(10000000 + 1), Err(outside(0, 10000000, 10000000 + 1)));
    assert_eq!(nf.set_dft_iir(i64::MIN), Err(outside(0, 10000000, i64::MIN)));
    assert_eq!(nf.set_dft_iir(i64::MAX), Err(outside(0, 10000000, i64::MAX)));
    assert_eq!(nf.config(), before);
    assert_eq!(nf.set_dft_iir(0), Ok(()));
    assert_eq!(nf.config().dft_iir, 0);
    assert_eq!(nf.set_dft_iir(10000000), Ok(()));
    assert_eq!(nf.config().dft_iir, 10000000);
    let mut expected = before;
    expected.dft_iir = 10000000;
    assert_eq!(nf.config(), expected);
}
