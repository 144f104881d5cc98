use rustchord::notefinder::{Note, Notefinder};
use rustchord::tracker::{chop, NoteDists};

const ONE: i64 = 1_000_000;

fn curve(amp: i64, mean: i64) -> NoteDists {
    NoteDists { amp, mean, sigma: 1_400_000, taken: false }
}

fn taken(amp: i64, mean: i64) -> NoteDists {
    NoteDists { amp, mean, sigma: 1_400_000, taken: true }
}

fn sounding(nf: &Notefinder) -> Vec<(usize, Note)> {
    nf.get_notes().into_iter().enumerate().filter(|(_, n)| n.active).collect()
}

fn silent_note() -> Note {
    Note {
        active: false,
        id: 0,
        dist: NoteDists { amp: 0, mean: 0, sigma: 0, taken: false },
        amplitude_out: 0,
        amplitude_iir2: 0,
        endured: 0,
    }
}

#[test]
fn new_finder_has_twelve_silent_notes() {
    let nf = Notefinder::new(48_000);
    assert_eq!(nf.get_notes(), vec![silent_note(); 12]);
}

#[test]
fn steady_tone_holds_one_note_that_grows_older() {
    let mut nf = Notefinder::new(48_000);
    let tone = [curve(800_000, 5_250_000)];
    let second = [200_000i64, 350_000, 462_500, 546_875];
    for frame in 0..4 {
        nf.track(&tone);
        let notes = sounding(&nf);
        assert_eq!(notes.len(), 1);
        assert_eq!(
            notes[0],
            (
                0,
                Note {
                    active: true,
                    id: 218_750,
                    dist: taken(800_000, 5_250_000),
                    amplitude_out: 800_000,
                    amplitude_iir2: second[frame],
                    endured: frame as i32,
                }
            )
        );
    }
    for frame in 4..200 {
        nf.track(&tone);
        let notes = sounding(&nf);
        assert_eq!(notes.len(), 1);
        assert_eq!(notes[0].1.endured, frame);
        assert_eq!(notes[0].1.id, 218_750);
    }
}

#[test]
fn note_fades_after_the_tone_stops() {
    let mut nf = Notefinder::new(48_000);
    let tone = [curve(800_000, 5_250_000)];
    for _ in 0..4 {
        nf.track(&tone);
    }
    let expected = [(520_000i64, 540_156i64), (338_000, 489_617), (219_700, 422_137)];
    for (out, second) in expected {
        nf.track(&[]);
        let notes = sounding(&nf);
        assert_eq!(notes.len(), 1);
        assert_eq!(notes[0].1.amplitude_out, out);
        assert_eq!(notes[0].1.amplitude_iir2, second);
        assert_eq!(notes[0].1.endured, 3);
        assert_eq!(notes[0].1.dist, NoteDists { amp: 0, mean: 0, sigma: 0, taken: false });
    }
    let mut frames = 3;
    while !sounding(&nf).is_empty() {
        nf.track(&[]);
        frames += 1;
        assert!(frames <= 800_000);
    }
    assert_eq!(frames, 30);
    assert_eq!(nf.get_notes(), vec![silent_note(); 12]);
}

#[test]
fn silence_creates_nothing_and_only_lowers_what_sounds() {
    let mut nf = Notefinder::new(48_000);
    nf.track(&[curve(800_000, 5 * ONE), curve(500_000, 9 * ONE), curve(90_000, 20 * ONE)]);
    let mut before = nf.get_notes();
    assert_eq!(sounding(&nf).len(), 3);
    for _ in 0..60 {
        nf.track(&[]);
        let after = nf.get_notes();
        for (old, new) in before.iter().zip(after.iter()) {
            assert!(new.amplitude_out <= old.amplitude_out);
            assert!(!new.active || old.active);
            assert!(!new.active || new.id == old.id);
        }
        before = after;
    }
    assert!(sounding(&nf).is_empty());
}

#[test]
fn note_follows_a_peak_that_moves() {
    let mut nf = Notefinder::new(48_000);
    for _ in 0..4 {
        nf.track(&[curve(800_000, 5_250_000)]);
    }
    nf.track(&[curve(600_000, 5_450_000)]);
    let notes = sounding(&nf);
    assert_eq!(notes.len(), 1);
    assert_eq!(
        notes[0].1,
        Note {
            active: true,
            id: 5_310_000 / 24,
            dist: taken(600_000, 5_450_000),
            amplitude_out: 730_000,
            amplitude_iir2: 592_656,
            endured: 4,
        }
    );
}

#[test]
fn peak_out_of_reach_starts_a_new_note() {
    let mut nf = Notefinder::new(48_000);
    nf.track(&[curve(800_000, 5 * ONE)]);
    nf.track(&[curve(800_000, 5_500_001)]);
    let notes = sounding(&nf);
    assert_eq!(notes.len(), 2);
    assert_eq!(notes[0].1.endured, 0);
    assert_eq!(notes[0].1.amplitude_out, 520_000);
    assert!(!notes[0].1.dist.taken);
    assert_eq!(notes[1].0, 1);
    assert_eq!(notes[1].1.id, 5_500_001 / 24);
    assert_eq!(notes[1].1.endured, 0);
}

#[test]
fn peak_just_within_reach_is_followed() {
    let mut nf = Notefinder::new(48_000);
    nf.track(&[curve(800_000, 5 * ONE)]);
    nf.track(&[curve(800_000, 5_500_000)]);
    let notes = sounding(&nf);
    assert_eq!(notes.len(), 1);
    assert_eq!(notes[0].1.endured, 1);
    assert_eq!(notes[0].1.id, 5_150_000 / 24);
}

#[test]
fn reach_goes_round_the_end_of_the_octave() {
    let mut nf = Notefinder::new(48_000);
    nf.track(&[curve(800_000, 23_900_000)]);
    nf.track(&[curve(800_000, 100_000)]);
    let notes = sounding(&nf);
    assert_eq!(notes.len(), 1);
    assert_eq!(notes[0].1.id, 23_960_000 / 24);
    assert_eq!(notes[0].1.endured, 1);
}

#[test]
fn closest_note_takes_the_peak() {
    let mut nf = Notefinder::new(48_000);
    nf.track(&[curve(800_000, 5 * ONE), curve(700_000, 5_800_000)]);
    assert_eq!(sounding(&nf).len(), 2);
    nf.track(&[curve(600_000, 5_450_000)]);
    let notes = sounding(&nf);
    assert_eq!(notes.len(), 2);
    assert_eq!(notes[0].1.endured, 0);
    assert!(!notes[0].1.dist.taken);
    assert_eq!(notes[1].1.endured, 1);
    assert_eq!(notes[1].1.dist, taken(600_000, 5_450_000));
}

#[test]
fn two_close_peaks_become_one_note() {
    let mut nf = Notefinder::new(48_000);
    nf.track(&[curve(800_000, 5 * ONE), curve(500_000, 5_300_000)]);
    let notes = sounding(&nf);
    assert_eq!(notes.len(), 1);
    assert_eq!(
        notes[0],
        (
            0,
            Note {
                active: true,
                id: 5 * ONE / 24,
                dist: taken(800_000, 5 * ONE),
                amplitude_out: 800_000,
                amplitude_iir2: 200_000,
                endured: 0,
            }
        )
    );
}

#[test]
fn louder_of_two_new_close_notes_stays() {
    let mut nf = Notefinder::new(48_000);
    nf.track(&[curve(500_000, 5 * ONE), curve(800_000, 5_300_000)]);
    let notes = sounding(&nf);
    assert_eq!(notes.len(), 1);
    assert_eq!(notes[0].0, 1);
    assert_eq!(notes[0].1.id, 5_300_000 / 24);
    assert_eq!(notes[0].1.amplitude_out, 800_000);
}

#[test]
fn older_of_two_close_notes_stays_with_the_larger_amplitude() {
    let mut nf = Notefinder::new(48_000);
    nf.set_note_jumpability(0).unwrap();
    nf.track(&[curve(300_000, 5 * ONE)]);
    nf.track(&[curve(300_000, 5 * ONE)]);
    nf.track(&[curve(300_000, 5 * ONE), curve(900_000, 5_200_000)]);
    let notes = sounding(&nf);
    assert_eq!(notes.len(), 1);
    assert_eq!(notes[0].0, 0);
    assert_eq!(notes[0].1.id, 5 * ONE / 24);
    assert_eq!(notes[0].1.endured, 2);
    assert_eq!(notes[0].1.amplitude_out, 900_000);
}

#[test]
fn far_peaks_give_two_notes() {
    let mut nf = Notefinder::new(48_000);
    nf.track(&[curve(800_000, 5 * ONE), curve(500_000, 9 * ONE)]);
    let notes = sounding(&nf);
    assert_eq!(notes.len(), 2);
    assert_eq!(notes[0].1.amplitude_out, 800_000);
    assert_eq!(notes[1].1.amplitude_out, 500_000);
    assert_eq!(notes[1].1.amplitude_iir2, 125_000);
}

#[test]
fn after_every_frame_no_two_notes_are_close() {
    let mut nf = Notefinder::new(48_000);
    let mut seed: i64 = 12345;
    for _ in 0..200 {
        let mut cands = Vec::new();
        for _ in 0..5 {
            seed = (seed * 1_103_515_245 + 12_345) % 2_147_483_648;
            let mean = seed % (24 * ONE);
            seed = (seed * 1_103_515_245 + 12_345) % 2_147_483_648;
            let amp = seed % ONE;
            cands.push(curve(amp, mean));
        }
        nf.track(&cands);
        let notes = sounding(&nf);
        for (i, a) in notes.iter() {
            for (j, b) in notes.iter() {
                if i < j {
                    let straight = (a.id - b.id).abs();
                    let round = straight.min(ONE - straight);
                    assert!(24 * round + 24 >= 500_000);
                }
            }
        }
    }
}

#[test]
fn weak_peak_starts_no_note() {
    let mut nf = Notefinder::new(48_000);
    nf.track(&[curve(20_000, 100_000)]);
    assert!(sounding(&nf).is_empty());
    nf.track(&[curve(20_001, 100_000)]);
    let notes = sounding(&nf);
    assert_eq!(notes.len(), 1);
    assert_eq!(notes[0].1.amplitude_out, 20_001);
    assert_eq!(notes[0].1.amplitude_iir2, 5_000);
}

#[test]
fn weak_peak_still_feeds_the_note_it_belongs_to() {
    let mut nf = Notefinder::new(48_000);
    nf.track(&[curve(800_000, 5 * ONE)]);
    nf.track(&[curve(10_000, 5 * ONE)]);
    let notes = sounding(&nf);
    assert_eq!(notes.len(), 1);
    assert_eq!(notes[0].1.endured, 1);
    assert_eq!(notes[0].1.amplitude_out, 523_500);
}

#[test]
fn peak_without_a_free_slot_is_dropped() {
    let mut nf = Notefinder::new(48_000);
    let cands: Vec<NoteDists> =
        (0..13).map(|i| NoteDists { amp: 100_000 + i, mean: i * 1_800_000, sigma: 0, taken: false }).collect();
    nf.track(&cands);
    let notes = sounding(&nf);
    assert_eq!(notes.len(), 12);
    assert_eq!(notes[11].1.amplitude_out, 100_011);
    assert_eq!(notes[11].1.id, 19_800_000 / 24);
    assert_eq!(notes[11].1.amplitude_iir2, 25_002);
}

#[test]
fn peaks_out_of_range_are_brought_into_range() {
    let mut nf = Notefinder::new(48_000);
    nf.track(&[curve(i64::MAX, -ONE), curve(-5, 3 * ONE), curve(i64::MIN, i64::MIN)]);
    let notes = sounding(&nf);
    assert_eq!(notes.len(), 1);
    assert_eq!(notes[0].1.id, 23 * ONE / 24);
    assert_eq!(notes[0].1.amplitude_out, 1_000_000_000_000);
    assert_eq!(notes[0].1.dist, taken(1_000_000_000_000, 23 * ONE));
}

#[test]
fn slope_takes_a_fixed_amount_each_frame() {
    let mut nf = Notefinder::new(48_000);
    nf.set_note_attach_amp_iir(0).unwrap();
    nf.set_slope(300_000).unwrap();
    nf.set_note_out_chop(0).unwrap();
    nf.track(&[curve(800_000, 5 * ONE)]);
    nf.track(&[]);
    assert_eq!(sounding(&nf)[0].1.amplitude_out, 500_000);
    nf.track(&[]);
    assert_eq!(sounding(&nf)[0].1.amplitude_out, 200_000);
    nf.track(&[]);
    assert!(sounding(&nf).is_empty());
}

#[test]
fn without_decay_a_note_stays() {
    let mut nf = Notefinder::new(48_000);
    nf.set_note_attach_amp_iir(0).unwrap();
    nf.track(&[curve(800_000, 5 * ONE)]);
    for _ in 0..100 {
        nf.track(&[]);
    }
    let notes = sounding(&nf);
    assert_eq!(notes.len(), 1);
    assert_eq!(notes[0].1.amplitude_out, 800_000);
    assert_eq!(notes[0].1.endured, 0);
}

#[test]
fn output_is_held_while_the_change_is_small() {
    assert_eq!(chop(800_000, 790_000, 50_000), 800_000);
    assert_eq!(chop(800_000, 760_000, 50_000), 760_000);
    assert_eq!(chop(800_000, 759_999, 50_000), 759_999);
    assert_eq!(chop(800_000, 839_999, 50_000), 800_000);
    assert_eq!(chop(800_000, 840_000, 50_000), 840_000);
    assert_eq!(chop(0, 5, 50_000), 5);
    assert_eq!(chop(800_000, 799_999, 0), 799_999);
    let mut nf = Notefinder::new(48_000);
    nf.track(&[curve(800_000, 5 * ONE)]);
    nf.track(&[curve(780_000, 5 * ONE)]);
    let notes = sounding(&nf);
    assert_eq!(notes[0].1.amplitude_out, 800_000);
    assert_eq!(notes[0].1.amplitude_iir2, 348_250);
}

#[test]
fn empty_frames_on_an_empty_row_do_nothing() {
    let mut nf = Notefinder::new(48_000);
    for _ in 0..10 {
        nf.track(&[]);
    }
    assert_eq!(nf.get_notes(), vec![silent_note(); 12]);
}

fn fade_time(iir: i64, slope: i64) -> i64 {
    if iir > 0 {
        40 * (ONE / iir + 1)
    } else {
        1_000_000_000_000 / slope + 1
    }
}

#[test]
fn notes_are_gone_within_the_fade_time_of_the_settings() {
    for (iir, slope, amp) in [
        (350_000i64, 0i64, 1_000_000_000_000i64),
        (3 * ONE, 0, 1_000_000_000_000),
        (ONE, 0, 800_000),
        (1_000, 0, 1_000_000_000_000),
        (10, 0, 150_000),
        (0, 300_000, 1_000_000_000_000),
        (0, 1, 50_000),
        (200_000, ONE, 900_000),
    ] {
        let mut nf = Notefinder::new(48_000);
        nf.set_note_attach_amp_iir(iir).unwrap();
        nf.set_slope(slope).unwrap();
        nf.track(&[curve(amp, 5 * ONE), curve(amp / 2 + 30_000, 11 * ONE)]);
        assert_eq!(sounding(&nf).len(), 2);
        let mut frames = 0;
        while !sounding(&nf).is_empty() {
            nf.track(&[]);
            frames += 1;
            assert!(frames <= fade_time(iir, slope));
        }
        assert!(frames >= 1);
    }
}

#[test]
fn two_close_peaks_beside_an_old_note_become_one_note() {
    let mut nf = Notefinder::new(48_000);
    for _ in 0..3 {
        nf.track(&[curve(600_000, 17 * ONE)]);
    }
    nf.track(&[curve(600_000, 17 * ONE), curve(800_000, 5 * ONE), curve(500_000, 5_300_000)]);
    let notes = sounding(&nf);
    assert_eq!(notes.len(), 2);
    assert_eq!(notes[0].1.endured, 3);
    assert_eq!(notes[0].1.id, 17 * ONE / 24);
    assert_eq!(notes[1].0, 1);
    assert_eq!(notes[1].1.id, 5 * ONE / 24);
    assert_eq!(notes[1].1.amplitude_out, 800_000);
    assert_eq!(notes[1].1.endured, 0);
    assert!(!nf.get_notes()[2].active);
}

#[test]
fn notes_that_follow_close_peaks_take_frames_to_become_one() {
    let mut nf = Notefinder::new(48_000);
    nf.track(&[curve(800_000, 4_600_000), curve(800_000, 5_600_000)]);
    assert_eq!(sounding(&nf).len(), 2);
    let close = [curve(800_000, 5_050_000), curve(800_000, 5_150_000)];
    nf.track(&close);
    assert_eq!(sounding(&nf).len(), 2);
    let mut frames = 1;
    while sounding(&nf).len() == 2 {
        nf.track(&close);
        frames += 1;
        assert!(frames < 100);
    }
    assert_eq!(frames, 3);
    assert_eq!(sounding(&nf).len(), 1);
}

#[test]
fn output_may_rise_in_silence_after_a_setting_was_changed() {
    let mut nf = Notefinder::new(48_000);
    nf.set_note_out_chop(ONE).unwrap();
    nf.set_note_attach_amp_iir(ONE).unwrap();
    nf.track(&[curve(100_000, 5 * ONE)]);
    nf.track(&[curve(190_000, 5 * ONE)]);
    assert_eq!(sounding(&nf)[0].1.amplitude_out, 100_000);
    nf.set_note_out_chop(0).unwrap();
    nf.set_note_attach_amp_iir(50_000).unwrap();
    nf.track(&[]);
    assert_eq!(sounding(&nf)[0].1.amplitude_out, 180_500);
}
