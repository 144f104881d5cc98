use rustchord::config::Configuration;
use rustchord::peaks::decompose;
use rustchord::tracker::NoteDists;

const ONE: i64 = 1_000_000;

fn curve(amp: i64, mean: i64, sigma: i64) -> NoteDists {
    NoteDists { amp, mean, sigma, taken: false }
}

#[test]
fn single_bin_gives_a_curve_at_its_middle() {
    let cfg = Configuration::new();
    let mut spectrum = vec![0i64; 24];
    spectrum[5] = ONE;
    assert_eq!(decompose(&spectrum, &cfg), vec![curve(ONE, 5 * ONE, 1_400_000)]);
}

#[test]
fn mean_is_drawn_towards_the_heavier_side() {
    let cfg = Configuration::new();
    let mut spectrum = vec![0i64; 24];
    spectrum[4] = 600_000;
    spectrum[5] = ONE;
    spectrum[6] = 300_000;
    assert_eq!(decompose(&spectrum, &cfg), vec![curve(ONE, 4_829_014, 1_400_000)]);
}

#[test]
fn mean_wraps_round_the_octave() {
    let cfg = Configuration::new();
    let mut spectrum = vec![0i64; 24];
    spectrum[0] = ONE;
    spectrum[23] = 800_000;
    assert_eq!(decompose(&spectrum, &cfg), vec![curve(ONE, 23_563_641, 1_400_000)]);
}

#[test]
fn curves_come_strongest_first() {
    let cfg = Configuration::new();
    let mut spectrum = vec![0i64; 24];
    spectrum[3] = 500_000;
    spectrum[15] = 900_000;
    assert_eq!(
        decompose(&spectrum, &cfg),
        vec![curve(900_000, 15 * ONE, 1_400_000), curve(500_000, 3 * ONE, 1_400_000)]
    );
}

#[test]
fn equal_bins_come_lowest_first() {
    let cfg = Configuration::new();
    let mut spectrum = vec![0i64; 24];
    spectrum[3] = 500_000;
    spectrum[15] = 500_000;
    assert_eq!(
        decompose(&spectrum, &cfg),
        vec![curve(500_000, 3 * ONE, 1_400_000), curve(500_000, 15 * ONE, 1_400_000)]
    );
}

#[test]
fn bins_at_the_least_amplitude_give_no_curve() {
    let cfg = Configuration::new();
    assert_eq!(decompose(&vec![20_000i64; 24], &cfg), Vec::<NoteDists>::new());
    assert_eq!(decompose(&vec![0i64; 24], &cfg), Vec::<NoteDists>::new());
    let found = decompose(&vec![20_001i64; 24], &cfg);
    assert_eq!(found.len(), 3);
    assert_eq!(found[0], curve(20_001, 0, 1_400_000));
    assert_eq!(found[1], curve(20_001, 7_500_000, 1_400_000));
    assert_eq!(found[2], curve(20_001, 14_500_000, 1_400_000));
}

#[test]
fn no_more_curves_than_slots() {
    let mut cfg = Configuration::new();
    cfg.default_sigma = 0;
    let spectrum: Vec<i64> = (0..24).map(|i| 100_000 + i).collect();
    let found = decompose(&spectrum, &cfg);
    assert_eq!(found.len(), 12);
    assert_eq!(found[0], curve(100_023, 23 * ONE, 0));
    assert_eq!(found[1], curve(100_022, 22 * ONE, 0));
    assert_eq!(found[11], curve(100_012, 12 * ONE, 0));
}

#[test]
fn wide_curve_takes_its_neighbour_with_it() {
    let mut cfg = Configuration::new();
    cfg.default_sigma = 8 * ONE;
    let mut spectrum = vec![0i64; 24];
    spectrum[5] = ONE;
    spectrum[6] = 900_000;
    assert_eq!(decompose(&spectrum, &cfg), vec![curve(ONE, 5_473_428, 8 * ONE)]);
}

#[test]
fn largest_amplitudes_are_handled() {
    let cfg = Configuration::new();
    let mut spectrum = vec![0i64; 24];
    spectrum[10] = 1_000_000_000_000;
    spectrum[11] = 500_000_000_000;
    assert_eq!(
        decompose(&spectrum, &cfg),
        vec![curve(1_000_000_000_000, 10_312_488, 1_400_000)]
    );
}

#[test]
fn every_curve_is_strong_enough_and_within_the_octave() {
    let cfg = Configuration::new();
    let spectrum: Vec<i64> = (0..24).map(|i| ((i * 7919) % 24) * 40_000).collect();
    let found = decompose(&spectrum, &cfg);
    assert!(!found.is_empty());
    assert!(found.len() <= 12);
    for d in found.iter() {
        assert!(d.amp > cfg.note_minimum_new_distribution_value);
        assert!((0..24 * ONE).contains(&d.mean));
        assert_eq!(d.sigma, cfg.default_sigma);
        assert!(!d.taken);
    }
    for pair in found.windows(2) {
        assert!(pair[0].amp >= pair[1].amp);
    }
}
