//! The settings of a note finder, their ranges and their defaults.

use vstd::prelude::*;
use crate::fixed::ONE;

verus! {

/// Why a setting was refused.
#[derive(Debug, Clone, Copy, PartialEq, Eq)]
pub enum NoteFinderValidationError<T> {
    /// The value lies outside the closed range from `expected_min` to
    /// `expected_max`.
    OutsideValidRange { expected_min: T, expected_max: T, found: T },
    /// Any other reason.
    Unknown,
}

/// The transform that turns a window of samples into the bins of the octaves.
#[derive(Debug, Clone, Copy, PartialEq, Eq)]
pub enum DFTAlgorithm {
    /// The fastest transform, with the coarsest result.
    DFTQuick,
    /// The usual transform.
    DFTProgressive,
    /// The progressive transform in whole-number arithmetic.
    DFTProgressiveInteger,
    /// The progressive whole-number transform that skips samples.
    DFTProgressiveIntegerSkippy,
    /// The progressive transform in 32-bit arithmetic.
    DFTProgressive32,
}

impl DFTAlgorithm {
    /// The number by which a transform kernel knows this choice.
    pub open spec fn code_spec(self) -> int {
        match self {
            DFTAlgorithm::DFTQuick => 0,
            DFTAlgorithm::DFTProgressive => 1,
            DFTAlgorithm::DFTProgressiveInteger => 2,
            DFTAlgorithm::DFTProgressiveIntegerSkippy => 3,
            DFTAlgorithm::DFTProgressive32 => 4,
        }
    }

    /// The number by which a transform kernel knows this choice.
    pub fn code(&self) -> (c: i32)
        ensures
            c == self.code_spec(),
    {
        match self {
            DFTAlgorithm::DFTQuick => 0,
            DFTAlgorithm::DFTProgressive => 1,
            DFTAlgorithm::DFTProgressiveInteger => 2,
            DFTAlgorithm::DFTProgressiveIntegerSkippy => 3,
            DFTAlgorithm::DFTProgressive32 => 4,
        }
    }
}

/// The verdict on a value that is `inside` its range or not.
pub open spec fn judged<T>(inside: bool, min: T, max: T, found: T) -> Result<
    (),
    NoteFinderValidationError<T>,
> {
    if inside {
        Ok(())
    } else {
        Err(
            NoteFinderValidationError::OutsideValidRange {
                expected_min: min,
                expected_max: max,
                found,
            },
        )
    }
}

pub const OCTAVES_MAX: i32 = 8;

pub const FREQUENCY_BINS_MIN: i32 = 12;

pub const FREQUENCY_BINS_MAX: i32 = 48;

pub const BASE_HZ_MAX: i64 = 20_000_000_000;

pub const FILTER_STRENGTH_MAX: i64 = 1_000_000;

pub const FILTER_ITERATIONS_MIN: i32 = 1;

pub const FILTER_ITERATIONS_MAX: i32 = 8;

pub const DECOMPOSE_ITERATIONS_MIN: i32 = 100;

pub const DECOMPOSE_ITERATIONS_MAX: i32 = 10_000;

pub const AMPLIFICATION_MAX: i64 = 40_000_000;

pub const COMPRESS_EXPONENT_MAX: i64 = 10_000_000;

pub const COMPRESS_COEFFICIENT_MAX: i64 = 5_000_000;

pub const DFT_SPEEDUP_MIN: i64 = 100_000_000;

pub const DFT_SPEEDUP_MAX: i64 = 20_000_000_000;

pub const DFT_Q_MIN: i64 = 4_000_000;

pub const DFT_Q_MAX: i64 = 64_000_000;

pub const DEFAULT_SIGMA_MAX: i64 = 8_000_000;

pub const NOTE_JUMPABILITY_MAX: i64 = 8_000_000;

pub const NOTE_COMBINE_DISTANCE_MAX: i64 = 4_000_000;

pub const SLOPE_MAX: i64 = 1_000_000;

pub const NOTE_ATTACH_IIR_MAX: i64 = 3_000_000;

pub const NOTE_MINIMUM_NEW_DISTRIBUTION_VALUE_MAX: i64 = 1_000_000;

pub const NOTE_OUT_CHOP_MAX: i64 = 1_000_000;

pub const DFT_IIR_MAX: i64 = 10_000_000;

/// The settings of a note finder. Counts are whole numbers; every other
/// setting is a fraction in millionths.
#[derive(Debug, Clone, Copy, PartialEq, Eq)]
pub struct Configuration {
    /// The number of octaves that are folded into one.
    pub octaves: i32,
    /// The number of bins that one octave is divided into.
    pub frequency_bins: i32,
    /// The frequency at which the lowest octave starts.
    pub base_hz: i64,
    pub filter_strength: i64,
    pub filter_iterations: i32,
    /// The most steps by which the mean of one peak is refined.
    pub decompose_iterations: i32,
    pub amplification: i64,
    pub compress_exponent: i64,
    pub compress_coefficient: i64,
    pub dft_speedup: i64,
    pub dft_q: i64,
    /// The width of the bell curve that a peak is taken to have, in bins.
    pub default_sigma: i64,
    /// The farthest that a note may lie from a peak and still follow it.
    pub note_jumpability: i64,
    /// The distance below which two notes become one.
    pub note_combine_distance: i64,
    /// The amount that a note without a peak loses in each frame, over and
    /// above its decay.
    pub slope: i64,
    /// The fraction of the way that a note's position moves to its peak.
    pub note_attach_freq_iir: i64,
    /// The fraction of the way that a note's amplitude moves to its peak's,
    /// or towards zero when it has no peak.
    pub note_attach_amp_iir: i64,
    /// The fraction of the way that a note's second, slower amplitude moves
    /// to its first.
    pub note_attach_amp_iir2: i64,
    /// The amplitude that a peak must exceed to count.
    pub note_minimum_new_distribution_value: i64,
    /// The fraction of its last output by which a note's amplitude must have
    /// changed for the output to follow it.
    pub note_out_chop: i64,
    /// The fraction of the previous folded spectrum that stays in the next.
    pub dft_iir: i64,
}

impl Configuration {
    /// Every setting lies in its range.
    pub open spec fn valid(self) -> bool {
        &&& 0 <= self.octaves <= OCTAVES_MAX
        &&& FREQUENCY_BINS_MIN <= self.frequency_bins <= FREQUENCY_BINS_MAX
        &&& 0 <= self.base_hz <= BASE_HZ_MAX
        &&& 0 <= self.filter_strength <= FILTER_STRENGTH_MAX
        &&& FILTER_ITERATIONS_MIN <= self.filter_iterations <= FILTER_ITERATIONS_MAX
        &&& DECOMPOSE_ITERATIONS_MIN <= self.decompose_iterations <= DECOMPOSE_ITERATIONS_MAX
        &&& 0 <= self.amplification <= AMPLIFICATION_MAX
        &&& 0 <= self.compress_exponent <= COMPRESS_EXPONENT_MAX
        &&& 0 <= self.compress_coefficient <= COMPRESS_COEFFICIENT_MAX
        &&& DFT_SPEEDUP_MIN <= self.dft_speedup <= DFT_SPEEDUP_MAX
        &&& DFT_Q_MIN <= self.dft_q <= DFT_Q_MAX
        &&& 0 <= self.default_sigma <= DEFAULT_SIGMA_MAX
        &&& 0 <= self.note_jumpability <= NOTE_JUMPABILITY_MAX
        &&& 0 <= self.note_combine_distance <= NOTE_COMBINE_DISTANCE_MAX
        &&& 0 <= self.slope <= SLOPE_MAX
        &&& 0 <= self.note_attach_freq_iir <= NOTE_ATTACH_IIR_MAX
        &&& 0 <= self.note_attach_amp_iir <= NOTE_ATTACH_IIR_MAX
        &&& 0 <= self.note_attach_amp_iir2 <= NOTE_ATTACH_IIR_MAX
        &&& 0 <= self.note_minimum_new_distribution_value
            <= NOTE_MINIMUM_NEW_DISTRIBUTION_VALUE_MAX
        &&& 0 <= self.note_out_chop <= NOTE_OUT_CHOP_MAX
        &&& 0 <= self.dft_iir <= DFT_IIR_MAX
    }

    /// The settings that a new note finder starts with.
    pub open spec fn initial() -> Configuration {
        Configuration {
            octaves: 8,
            frequency_bins: 24,
            base_hz: 0,
            filter_strength: 500_000,
            filter_iterations: 1,
            decompose_iterations: 1000,
            amplification: 1_000_000,
            compress_exponent: 500_000,
            compress_coefficient: 1_000_000,
            dft_speedup: 300_000_000,
            dft_q: 16_000_000,
            default_sigma: 1_400_000,
            note_jumpability: 500_000,
            note_combine_distance: 500_000,
            slope: 0,
            note_attach_freq_iir: 300_000,
            note_attach_amp_iir: 350_000,
            note_attach_amp_iir2: 250_000,
            note_minimum_new_distribution_value: 20_000,
            note_out_chop: 50_000,
            dft_iir: 0,
        }
    }

    /// The length of one octave in millionths of a bin: the circumference of
    /// the circle that positions lie on.
    pub open spec fn circle(self) -> int {
        self.frequency_bins * ONE
    }

    /// The circumference of the circle that positions lie on.
    pub fn circumference(&self) -> (circ: i64)
        requires
            self.valid(),
        ensures
            circ == self.circle(),
            circ > 0,
    {
        self.frequency_bins as i64 * ONE
    }

    /// The settings that a new note finder starts with.
    pub fn new() -> (c: Configuration)
        ensures
            c == Configuration::initial(),
            c.valid(),
    {
        Configuration {
            octaves: 8,
            frequency_bins: 24,
            base_hz: 0,
            filter_strength: 500_000,
            filter_iterations: 1,
            decompose_iterations: 1000,
            amplification: 1_000_000,
            compress_exponent: 500_000,
            compress_coefficient: 1_000_000,
            dft_speedup: 300_000_000,
            dft_q: 16_000_000,
            default_sigma: 1_400_000,
            note_jumpability: 500_000,
            note_combine_distance: 500_000,
            slope: 0,
            note_attach_freq_iir: 300_000,
            note_attach_amp_iir: 350_000,
            note_attach_amp_iir2: 250_000,
            note_minimum_new_distribution_value: 20_000,
            note_out_chop: 50_000,
            dft_iir: 0,
        }
    }
}

} // verus!
