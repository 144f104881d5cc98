//! The note finder: its settings, the folded spectrum of the last frame and
//! the row of notes.
//!
//! A note finder is made for one sample rate. Each frame it takes the bins
//! that a transform has computed from the latest window of samples, folds
//! them into one octave, takes the peaks out of the folded spectrum and
//! carries its notes on. A setting changed between two frames holds from the
//! next frame on.

use vstd::prelude::*;
use crate::config::{
    judged,
    Configuration,
    DFTAlgorithm,
    NoteFinderValidationError,
    AMPLIFICATION_MAX,
    BASE_HZ_MAX,
    COMPRESS_COEFFICIENT_MAX,
    COMPRESS_EXPONENT_MAX,
    DECOMPOSE_ITERATIONS_MAX,
    DECOMPOSE_ITERATIONS_MIN,
    DEFAULT_SIGMA_MAX,
    DFT_IIR_MAX,
    DFT_Q_MAX,
    DFT_Q_MIN,
    DFT_SPEEDUP_MAX,
    DFT_SPEEDUP_MIN,
    FILTER_ITERATIONS_MAX,
    FILTER_ITERATIONS_MIN,
    FILTER_STRENGTH_MAX,
    FREQUENCY_BINS_MAX,
    FREQUENCY_BINS_MIN,
    NOTE_ATTACH_IIR_MAX,
    NOTE_COMBINE_DISTANCE_MAX,
    NOTE_JUMPABILITY_MAX,
    NOTE_MINIMUM_NEW_DISTRIBUTION_VALUE_MAX,
    NOTE_OUT_CHOP_MAX,
    OCTAVES_MAX,
    SLOPE_MAX,
};
use crate::fixed::clamp_amp;
use crate::peaks::{decompose, is_peak, lemma_strongest_is_largest, peaks};
use crate::persistence::{lemma_frame_separates, lemma_frame_steadies, separated, steady};
use crate::fixed::ONE;
use crate::spectrum::{
    blend,
    blended,
    copy_spectrum,
    faded_often,
    lemma_spectrum_fades,
    spectrum_fade_time,
    fold,
    folded,
    octave_sum,
    silence,
    silent,
    spectrum_wf,
};
use crate::tracker::{
    after_frame,
    copy_row,
    slots_rested,
    slots_wf,
    track_frame,
    vacancies,
    vacant_row,
    NoteDists,
    Slot,
};

verus! {

/// A note as it is given out.
#[derive(Debug, Clone, Copy, PartialEq, Eq)]
pub struct Note {
    /// Whether the note sounds: its amplitude given out is above zero.
    pub active: bool,
    /// The pitch class of the note: its place within the octave, from 0 up to
    /// but not including 1.
    pub id: i64,
    /// The curve that the note took in the last frame, if it took one.
    pub dist: NoteDists,
    /// The amplitude given out.
    pub amplitude_out: i64,
    /// The second, slower amplitude.
    pub amplitude_iir2: i64,
    /// The number of frames in which the note has followed a peak.
    pub endured: i32,
}

/// The note that the slot `s` gives out, in an octave of `bins` bins.
pub open spec fn note_of(s: Slot, bins: int) -> Note {
    Note {
        active: s.amplitude_out > 0,
        id: ((s.position as int) / bins) as i64,
        dist: s.dist,
        amplitude_out: s.amplitude_out,
        amplitude_iir2: s.amplitude2,
        endured: s.age,
    }
}

/// What a note finder holds.
pub struct NotefinderState {
    /// The sample rate that the note finder was made for.
    pub samplerate: i32,
    /// The transform that is chosen.
    pub algorithm: DFTAlgorithm,
    /// The settings.
    pub config: Configuration,
    /// The settings as they stood when the last frame was taken.
    pub framed: Configuration,
    /// The folded spectrum of the last frame.
    pub folded: Seq<i64>,
    /// The row of notes.
    pub slots: Seq<Slot>,
}

impl NotefinderState {
    /// The settings are valid, the folded spectrum has one value for each bin
    /// of the octave, there is one slot for every two bins, every number lies
    /// in its range, and every slot holds a note that is given out or is
    /// vacant. By the settings of the last frame no two notes are close, and
    /// what is given out stands as that frame left it.
    pub open spec fn wf(self) -> bool {
        &&& self.config.valid()
        &&& self.framed.valid()
        &&& self.folded.len() == self.config.frequency_bins
        &&& spectrum_wf(self.folded)
        &&& self.slots.len() == self.config.frequency_bins / 2
        &&& slots_wf(self.slots, self.config.circle())
        &&& slots_rested(self.slots)
        &&& separated(self.slots, self.framed)
        &&& forall|i: int|
            0 <= i < self.slots.len() ==> steady(#[trigger] self.slots[i], self.framed)
    }

    /// A new note finder for the sample rate `samplerate`.
    pub open spec fn initial(samplerate: i32) -> NotefinderState {
        NotefinderState {
            samplerate,
            algorithm: DFTAlgorithm::DFTProgressive,
            config: Configuration::initial(),
            framed: Configuration::initial(),
            folded: silence(24),
            slots: vacant_row(12),
        }
    }

    /// The same with the settings `config`.
    pub open spec fn configured(self, config: Configuration) -> NotefinderState {
        NotefinderState { config, ..self }
    }

    /// The same with `bins` bins to the octave. Where that is a change, the
    /// folded spectrum is silent and the row of notes vacant.
    pub open spec fn rebinned(self, bins: i32) -> NotefinderState {
        if bins == self.config.frequency_bins {
            self
        } else {
            NotefinderState {
                config: Configuration { frequency_bins: bins, ..self.config },
                framed: Configuration { frequency_bins: bins, ..self.config },
                folded: silence(bins as nat),
                slots: vacant_row((bins / 2) as nat),
                ..self
            }
        }
    }

    /// The folded spectrum of a frame that brings the transform `bins`.
    pub open spec fn spectrum_after(self, bins: Seq<u32>) -> Seq<i64> {
        blended(
            self.folded,
            folded(bins, self.config.octaves as int, self.config.frequency_bins as int),
            self.config.dft_iir as int,
        )
    }

    /// The same after the curves `cands` have been taken in as one frame.
    pub open spec fn after_track(self, cands: Seq<NoteDists>) -> NotefinderState {
        NotefinderState {
            framed: self.config,
            slots: after_frame(self.slots, cands, self.config),
            ..self
        }
    }

    /// The same after a frame that brings the transform `bins`.
    pub open spec fn after_run(self, bins: Seq<u32>) -> NotefinderState {
        NotefinderState {
            framed: self.config,
            folded: self.spectrum_after(bins),
            slots: after_frame(
                self.slots,
                peaks(self.spectrum_after(bins), self.config),
                self.config,
            ),
            ..self
        }
    }

    /// The notes given out, one for each slot.
    pub open spec fn notes(self) -> Seq<Note> {
        Seq::new(
            self.slots.len(),
            |i: int| note_of(self.slots[i], self.config.frequency_bins as int),
        )
    }
}

/// The note finder.
pub struct Notefinder {
    samplerate: i32,
    algorithm: DFTAlgorithm,
    config: Configuration,
    framed: Ghost<Configuration>,
    folded: Vec<i64>,
    slots: Vec<Slot>,
}

impl View for Notefinder {
    type V = NotefinderState;

    closed spec fn view(&self) -> NotefinderState {
        NotefinderState {
            samplerate: self.samplerate,
            algorithm: self.algorithm,
            config: self.config,
            framed: self.framed@,
            folded: self.folded@,
            slots: self.slots@,
        }
    }
}

impl Notefinder {
    #[verifier::type_invariant]
    spec fn inv(self) -> bool {
        self@.wf()
    }

    /// A note finder for the sample rate `samplerate`, with the settings that
    /// every note finder starts with, a silent spectrum and no note.
    pub fn new(samplerate: i32) -> (nf: Notefinder)
        ensures
            nf@ == NotefinderState::initial(samplerate),
            nf@.wf(),
    {
        Notefinder {
            samplerate,
            algorithm: DFTAlgorithm::DFTProgressive,
            config: Configuration::new(),
            framed: Ghost(Configuration::initial()),
            folded: silent(24),
            slots: vacancies(12),
        }
    }

    /// The sample rate that the note finder was made for.
    pub fn samplerate(&self) -> (rate: i32)
        ensures
            rate == self@.samplerate,
    {
        self.samplerate
    }

    /// The settings as they stand.
    pub fn config(&self) -> (c: Configuration)
        ensures
            c == self@.config,
            c.valid(),
    {
        proof {
            use_type_invariant(self);
        }
        self.config
    }

    /// The transform that is chosen.
    pub fn dft_algorithm(&self) -> (algo: DFTAlgorithm)
        ensures
            algo == self@.algorithm,
    {
        self.algorithm
    }

    /// Takes one frame: folds the transform `data` into one octave, smooths
    /// the folded spectrum against the last, takes its peaks and carries the
    /// notes on.
    pub fn run(&mut self, data: &[u32])
        ensures
            final(self)@ == old(self)@.after_run(data@),
            final(self)@.wf(),
    {
        proof {
            use_type_invariant(&*self);
        }
        let fresh = fold(data, self.config.octaves, self.config.frequency_bins);
        let spectrum = blend(&self.folded, &fresh, self.config.dft_iir);
        let dists = decompose(&spectrum, &self.config);
        let mut slots = copy_row(&self.slots);
        track_frame(&mut slots, dists.as_slice(), &self.config);
        proof {
            lemma_frame_separates(self.slots@, dists@, self.config);
            lemma_frame_steadies(self.slots@, dists@, self.config);
        }
        *self = Notefinder {
            samplerate: self.samplerate,
            algorithm: self.algorithm,
            config: self.config,
            framed: Ghost(self.config),
            folded: spectrum,
            slots,
        };
    }

    /// Takes the curves `candidates` in as the peaks of one frame and carries
    /// the notes on; the folded spectrum stays as it is.
    pub fn track(&mut self, candidates: &[NoteDists])
        ensures
            final(self)@ == old(self)@.after_track(candidates@),
            final(self)@.wf(),
    {
        proof {
            use_type_invariant(&*self);
        }
        let mut slots = copy_row(&self.slots);
        track_frame(&mut slots, candidates, &self.config);
        let folded = copy_spectrum(&self.folded);
        proof {
            lemma_frame_separates(self.slots@, candidates@, self.config);
            lemma_frame_steadies(self.slots@, candidates@, self.config);
        }
        *self = Notefinder {
            samplerate: self.samplerate,
            algorithm: self.algorithm,
            config: self.config,
            framed: Ghost(self.config),
            folded,
            slots,
        };
    }

    /// The notes, one for each slot of the row, sounding or not.
    pub fn get_notes(&self) -> (notes: Vec<Note>)
        ensures
            notes@ == self@.notes(),
    {
        proof {
            use_type_invariant(self);
        }
        let bins: i64 = self.config.frequency_bins as i64;
        let mut notes: Vec<Note> = Vec::new();
        let mut i: usize = 0;
        while i < self.slots.len()
            invariant
                i <= self.slots.len(),
                bins == self.config.frequency_bins,
                self@.wf(),
                notes@.len() == i,
                forall|k: int| 0 <= k < i ==> #[trigger] notes@[k] == self@.notes()[k],
            decreases self.slots.len() - i,
        {
            let s = self.slots[i];
            proof {
                assert(self@.slots[i as int].wf(self.config.circle()));
                assert(s.position / bins == (s.position as int) / (bins as int));
            }
            notes.push(
                Note {
                    active: s.amplitude_out > 0,
                    id: s.position / bins,
                    dist: s.dist,
                    amplitude_out: s.amplitude_out,
                    amplitude_iir2: s.amplitude2,
                    endured: s.age,
                },
            );
            i += 1;
        }
        assert(notes@ =~= self@.notes());
        notes
    }

    /// The folded spectrum of the last frame: one value for each bin of the
    /// octave.
    pub fn get_folded(&self) -> (spectrum: &[i64])
        ensures
            spectrum@ == self@.folded,
            spectrum@.len() == self@.config.frequency_bins,
    {
        proof {
            use_type_invariant(self);
        }
        self.folded.as_slice()
    }

    /// Chooses the transform.
    pub fn set_dft_algorithm(&mut self, algo: DFTAlgorithm)
        ensures
            final(self)@ == (NotefinderState { algorithm: algo, ..old(self)@ }),
            final(self)@.wf(),
    {
        proof {
            use_type_invariant(&*self);
        }
        self.algorithm = algo;
    }

    /// The number of bins that one octave is divided into, from 12 to 48. A
    /// value outside the range is refused and nothing changes. A change of the
    /// number silences the folded spectrum and vacates the row of notes: what
    /// they held was measured in the old bins.
    pub fn set_frequency_bins(&mut self, frequency_bins: i32) -> (r: Result<
        (),
        NoteFinderValidationError<i32>,
    >)
        ensures
            r == judged(
                FREQUENCY_BINS_MIN <= frequency_bins <= FREQUENCY_BINS_MAX,
                FREQUENCY_BINS_MIN,
                FREQUENCY_BINS_MAX,
                frequency_bins,
            ),
            r is Ok ==> final(self)@ == old(self)@.rebinned(frequency_bins),
            r is Err ==> final(self)@ == old(self)@,
            final(self)@.wf(),
    {
        proof {
            use_type_invariant(&*self);
        }
        if frequency_bins < FREQUENCY_BINS_MIN || frequency_bins > FREQUENCY_BINS_MAX {
            return Err(
                NoteFinderValidationError::OutsideValidRange {
                    expected_min: FREQUENCY_BINS_MIN,
                    expected_max: FREQUENCY_BINS_MAX,
                    found: frequency_bins,
                },
            );
        }
        if frequency_bins != self.config.frequency_bins {
            let mut config = self.config;
            config.frequency_bins = frequency_bins;
            let folded = silent(frequency_bins as usize);
            let slots = vacancies((frequency_bins / 2) as usize);
            *self = Notefinder {
                samplerate: self.samplerate,
                algorithm: self.algorithm,
                config,
                framed: Ghost(config),
                folded,
                slots,
            };
        }
        Ok(())
    }

    /// The number of octaves that are folded into one, from 0 to 8. A value
    /// outside the range is refused and nothing changes.
    pub fn set_octaves(&mut self, octaves: i32) -> (r: Result<
        (),
        NoteFinderValidationError<i32>,
    >)
        ensures
            r == judged(
                0 <= octaves <= OCTAVES_MAX,
                0i32,
                OCTAVES_MAX,
                octaves,
            ),
            r is Ok ==> final(self)@ == old(self)@.configured(
                (Configuration { octaves, ..old(self)@.config }),
            ),
            r is Err ==> final(self)@ == old(self)@,
            final(self)@.wf(),
    {
        proof {
            use_type_invariant(&*self);
        }
        if octaves < 0 || octaves > OCTAVES_MAX {
            return Err(
                NoteFinderValidationError::OutsideValidRange {
                    expected_min: 0,
                    expected_max: OCTAVES_MAX,
                    found: octaves,
                },
            );
        }
        self.config.octaves = octaves;
        Ok(())
    }

    /// The frequency at which the lowest octave starts, from 0 to 20000. A
    /// value outside the range is refused and nothing changes.
    pub fn set_base_hz(&mut self, base_hz: i64) -> (r: Result<
        (),
        NoteFinderValidationError<i64>,
    >)
        ensures
            r == judged(
                0 <= base_hz <= BASE_HZ_MAX,
                0i64,
                BASE_HZ_MAX,
                base_hz,
            ),
            r is Ok ==> final(self)@ == old(self)@.configured(
                (Configuration { base_hz, ..old(self)@.config }),
            ),
            r is Err ==> final(self)@ == old(self)@,
            final(self)@.wf(),
    {
        proof {
            use_type_invariant(&*self);
        }
        if base_hz < 0 || base_hz > BASE_HZ_MAX {
            return Err(
                NoteFinderValidationError::OutsideValidRange {
                    expected_min: 0,
                    expected_max: BASE_HZ_MAX,
                    found: base_hz,
                },
            );
        }
        self.config.base_hz = base_hz;
        Ok(())
    }

    /// The strength of the filter, from 0 to 1. A value outside the range is
    /// refused and nothing changes.
    pub fn set_filter_strength(&mut self, filter_strength: i64) -> (r: Result<
        (),
        NoteFinderValidationError<i64>,
    >)
        ensures
            r == judged(
                0 <= filter_strength <= FILTER_STRENGTH_MAX,
                0i64,
                FILTER_STRENGTH_MAX,
                filter_strength,
            ),
            r is Ok ==> final(self)@ == old(self)@.configured(
                (Configuration { filter_strength, ..old(self)@.config }),
            ),
            r is Err ==> final(self)@ == old(self)@,
            final(self)@.wf(),
    {
        proof {
            use_type_invariant(&*self);
        }
        if filter_strength < 0 || filter_strength > FILTER_STRENGTH_MAX {
            return Err(
                NoteFinderValidationError::OutsideValidRange {
                    expected_min: 0,
                    expected_max: FILTER_STRENGTH_MAX,
                    found: filter_strength,
                },
            );
        }
        self.config.filter_strength = filter_strength;
        Ok(())
    }

    /// The number of passes of the filter, from 1 to 8. A value outside the
    /// range is refused and nothing changes.
    pub fn set_filter_iterations(&mut self, filter_iterations: i32) -> (r: Result<
        (),
        NoteFinderValidationError<i32>,
    >)
        ensures
            r == judged(
                FILTER_ITERATIONS_MIN <= filter_iterations <= FILTER_ITERATIONS_MAX,
                FILTER_ITERATIONS_MIN,
                FILTER_ITERATIONS_MAX,
                filter_iterations,
            ),
            r is Ok ==> final(self)@ == old(self)@.configured(
                (Configuration { filter_iterations, ..old(self)@.config }),
            ),
            r is Err ==> final(self)@ == old(self)@,
            final(self)@.wf(),
    {
        proof {
            use_type_invariant(&*self);
        }
        if filter_iterations < FILTER_ITERATIONS_MIN || filter_iterations > FILTER_ITERATIONS_MAX {
            return Err(
                NoteFinderValidationError::OutsideValidRange {
                    expected_min: FILTER_ITERATIONS_MIN,
                    expected_max: FILTER_ITERATIONS_MAX,
                    found: filter_iterations,
                },
            );
        }
        self.config.filter_iterations = filter_iterations;
        Ok(())
    }

    /// The most steps by which the mean of one peak is refined, from 100 to
    /// 10000. A value outside the range is refused and nothing changes.
    pub fn set_decompose_iterations(&mut self, decompose_iterations: i32) -> (r: Result<
        (),
        NoteFinderValidationError<i32>,
    >)
        ensures
            r == judged(
                DECOMPOSE_ITERATIONS_MIN <= decompose_iterations <= DECOMPOSE_ITERATIONS_MAX,
                DECOMPOSE_ITERATIONS_MIN,
                DECOMPOSE_ITERATIONS_MAX,
                decompose_iterations,
            ),
            r is Ok ==> final(self)@ == old(self)@.configured(
                (Configuration { decompose_iterations, ..old(self)@.config }),
            ),
            r is Err ==> final(self)@ == old(self)@,
            final(self)@.wf(),
    {
        proof {
            use_type_invariant(&*self);
        }
        if decompose_iterations < DECOMPOSE_ITERATIONS_MIN
            || decompose_iterations > DECOMPOSE_ITERATIONS_MAX {
            return Err(
                NoteFinderValidationError::OutsideValidRange {
                    expected_min: DECOMPOSE_ITERATIONS_MIN,
                    expected_max: DECOMPOSE_ITERATIONS_MAX,
                    found: decompose_iterations,
                },
            );
        }
        self.config.decompose_iterations = decompose_iterations;
        Ok(())
    }

    /// The factor by which the input is amplified, from 0 to 40. A value
    /// outside the range is refused and nothing changes.
    pub fn set_amplification(&mut self, amplification: i64) -> (r: Result<
        (),
        NoteFinderValidationError<i64>,
    >)
        ensures
            r == judged(
                0 <= amplification <= AMPLIFICATION_MAX,
                0i64,
                AMPLIFICATION_MAX,
                amplification,
            ),
            r is Ok ==> final(self)@ == old(self)@.configured(
                (Configuration { amplification, ..old(self)@.config }),
            ),
            r is Err ==> final(self)@ == old(self)@,
            final(self)@.wf(),
    {
        proof {
            use_type_invariant(&*self);
        }
        if amplification < 0 || amplification > AMPLIFICATION_MAX {
            return Err(
                NoteFinderValidationError::OutsideValidRange {
                    expected_min: 0,
                    expected_max: AMPLIFICATION_MAX,
                    found: amplification,
                },
            );
        }
        self.config.amplification = amplification;
        Ok(())
    }

    /// The exponent of the compressor, from 0 to 10. A value outside the range
    /// is refused and nothing changes.
    pub fn set_compress_exponent(&mut self, compress_exponent: i64) -> (r: Result<
        (),
        NoteFinderValidationError<i64>,
    >)
        ensures
            r == judged(
                0 <= compress_exponent <= COMPRESS_EXPONENT_MAX,
                0i64,
                COMPRESS_EXPONENT_MAX,
                compress_exponent,
            ),
            r is Ok ==> final(self)@ == old(self)@.configured(
                (Configuration { compress_exponent, ..old(self)@.config }),
            ),
            r is Err ==> final(self)@ == old(self)@,
            final(self)@.wf(),
    {
        proof {
            use_type_invariant(&*self);
        }
        if compress_exponent < 0 || compress_exponent > COMPRESS_EXPONENT_MAX {
            return Err(
                NoteFinderValidationError::OutsideValidRange {
                    expected_min: 0,
                    expected_max: COMPRESS_EXPONENT_MAX,
                    found: compress_exponent,
                },
            );
        }
        self.config.compress_exponent = compress_exponent;
        Ok(())
    }

    /// The coefficient of the compressor, from 0 to 5. A value outside the
    /// range is refused and nothing changes.
    pub fn set_compress_coefficient(&mut self, compress_coefficient: i64) -> (r: Result<
        (),
        NoteFinderValidationError<i64>,
    >)
        ensures
            r == judged(
                0 <= compress_coefficient <= COMPRESS_COEFFICIENT_MAX,
                0i64,
                COMPRESS_COEFFICIENT_MAX,
                compress_coefficient,
            ),
            r is Ok ==> final(self)@ == old(self)@.configured(
                (Configuration { compress_coefficient, ..old(self)@.config }),
            ),
            r is Err ==> final(self)@ == old(self)@,
            final(self)@.wf(),
    {
        proof {
            use_type_invariant(&*self);
        }
        if compress_coefficient < 0 || compress_coefficient > COMPRESS_COEFFICIENT_MAX {
            return Err(
                NoteFinderValidationError::OutsideValidRange {
                    expected_min: 0,
                    expected_max: COMPRESS_COEFFICIENT_MAX,
                    found: compress_coefficient,
                },
            );
        }
        self.config.compress_coefficient = compress_coefficient;
        Ok(())
    }

    /// The speed-up of the transform, from 100 to 20000. A value outside the
    /// range is refused and nothing changes.
    pub fn set_dft_speedup(&mut self, dft_speedup: i64) -> (r: Result<
        (),
        NoteFinderValidationError<i64>,
    >)
        ensures
            r == judged(
                DFT_SPEEDUP_MIN <= dft_speedup <= DFT_SPEEDUP_MAX,
                DFT_SPEEDUP_MIN,
                DFT_SPEEDUP_MAX,
                dft_speedup,
            ),
            r is Ok ==> final(self)@ == old(self)@.configured(
                (Configuration { dft_speedup, ..old(self)@.config }),
            ),
            r is Err ==> final(self)@ == old(self)@,
            final(self)@.wf(),
    {
        proof {
            use_type_invariant(&*self);
        }
        if dft_speedup < DFT_SPEEDUP_MIN || dft_speedup > DFT_SPEEDUP_MAX {
            return Err(
                NoteFinderValidationError::OutsideValidRange {
                    expected_min: DFT_SPEEDUP_MIN,
                    expected_max: DFT_SPEEDUP_MAX,
                    found: dft_speedup,
                },
            );
        }
        self.config.dft_speedup = dft_speedup;
        Ok(())
    }

    /// The tightness of the transform, from 4 to 64. A value outside the range
    /// is refused and nothing changes.
    pub fn set_dft_q(&mut self, dft_q: i64) -> (r: Result<
        (),
        NoteFinderValidationError<i64>,
    >)
        ensures
            r == judged(
                DFT_Q_MIN <= dft_q <= DFT_Q_MAX,
                DFT_Q_MIN,
                DFT_Q_MAX,
                dft_q,
            ),
            r is Ok ==> final(self)@ == old(self)@.configured(
                (Configuration { dft_q, ..old(self)@.config }),
            ),
            r is Err ==> final(self)@ == old(self)@,
            final(self)@.wf(),
    {
        proof {
            use_type_invariant(&*self);
        }
        if dft_q < DFT_Q_MIN || dft_q > DFT_Q_MAX {
            return Err(
                NoteFinderValidationError::OutsideValidRange {
                    expected_min: DFT_Q_MIN,
                    expected_max: DFT_Q_MAX,
                    found: dft_q,
                },
            );
        }
        self.config.dft_q = dft_q;
        Ok(())
    }

    /// The width that a peak is taken to have, in bins, from 0 to 8. A value
    /// outside the range is refused and nothing changes.
    pub fn set_default_sigma(&mut self, default_sigma: i64) -> (r: Result<
        (),
        NoteFinderValidationError<i64>,
    >)
        ensures
            r == judged(
                0 <= default_sigma <= DEFAULT_SIGMA_MAX,
                0i64,
                DEFAULT_SIGMA_MAX,
                default_sigma,
            ),
            r is Ok ==> final(self)@ == old(self)@.configured(
                (Configuration { default_sigma, ..old(self)@.config }),
            ),
            r is Err ==> final(self)@ == old(self)@,
            final(self)@.wf(),
    {
        proof {
            use_type_invariant(&*self);
        }
        if default_sigma < 0 || default_sigma > DEFAULT_SIGMA_MAX {
            return Err(
                NoteFinderValidationError::OutsideValidRange {
                    expected_min: 0,
                    expected_max: DEFAULT_SIGMA_MAX,
                    found: default_sigma,
                },
            );
        }
        self.config.default_sigma = default_sigma;
        Ok(())
    }

    /// The farthest that a note may lie from a peak and still follow it, from 0
    /// to 8. A value outside the range is refused and nothing changes.
    pub fn set_note_jumpability(&mut self, note_jumpability: i64) -> (r: Result<
        (),
        NoteFinderValidationError<i64>,
    >)
        ensures
            r == judged(
                0 <= note_jumpability <= NOTE_JUMPABILITY_MAX,
                0i64,
                NOTE_JUMPABILITY_MAX,
                note_jumpability,
            ),
            r is Ok ==> final(self)@ == old(self)@.configured(
                (Configuration { note_jumpability, ..old(self)@.config }),
            ),
            r is Err ==> final(self)@ == old(self)@,
            final(self)@.wf(),
    {
        proof {
            use_type_invariant(&*self);
        }
        if note_jumpability < 0 || note_jumpability > NOTE_JUMPABILITY_MAX {
            return Err(
                NoteFinderValidationError::OutsideValidRange {
                    expected_min: 0,
                    expected_max: NOTE_JUMPABILITY_MAX,
                    found: note_jumpability,
                },
            );
        }
        self.config.note_jumpability = note_jumpability;
        Ok(())
    }

    /// The distance below which two notes become one, from 0 to 4. A value
    /// outside the range is refused and nothing changes.
    pub fn set_note_combine_distance(&mut self, note_combine_distance: i64) -> (r: Result<
        (),
        NoteFinderValidationError<i64>,
    >)
        ensures
            r == judged(
                0 <= note_combine_distance <= NOTE_COMBINE_DISTANCE_MAX,
                0i64,
                NOTE_COMBINE_DISTANCE_MAX,
                note_combine_distance,
            ),
            r is Ok ==> final(self)@ == old(self)@.configured(
                (Configuration { note_combine_distance, ..old(self)@.config }),
            ),
            r is Err ==> final(self)@ == old(self)@,
            final(self)@.wf(),
    {
        proof {
            use_type_invariant(&*self);
        }
        if note_combine_distance < 0 || note_combine_distance > NOTE_COMBINE_DISTANCE_MAX {
            return Err(
                NoteFinderValidationError::OutsideValidRange {
                    expected_min: 0,
                    expected_max: NOTE_COMBINE_DISTANCE_MAX,
                    found: note_combine_distance,
                },
            );
        }
        self.config.note_combine_distance = note_combine_distance;
        Ok(())
    }

    /// The amount that a note without a peak loses in each frame, from 0 to 1.
    /// A value outside the range is refused and nothing changes.
    pub fn set_slope(&mut self, slope: i64) -> (r: Result<
        (),
        NoteFinderValidationError<i64>,
    >)
        ensures
            r == judged(
                0 <= slope <= SLOPE_MAX,
                0i64,
                SLOPE_MAX,
                slope,
            ),
            r is Ok ==> final(self)@ == old(self)@.configured(
                (Configuration { slope, ..old(self)@.config }),
            ),
            r is Err ==> final(self)@ == old(self)@,
            final(self)@.wf(),
    {
        proof {
            use_type_invariant(&*self);
        }
        if slope < 0 || slope > SLOPE_MAX {
            return Err(
                NoteFinderValidationError::OutsideValidRange {
                    expected_min: 0,
                    expected_max: SLOPE_MAX,
                    found: slope,
                },
            );
        }
        self.config.slope = slope;
        Ok(())
    }

    /// The fraction of the way that a note's position moves to its peak, from 0
    /// to 3. A value outside the range is refused and nothing changes.
    pub fn set_note_attach_freq_iir(&mut self, note_attach_freq_iir: i64) -> (r: Result<
        (),
        NoteFinderValidationError<i64>,
    >)
        ensures
            r == judged(
                0 <= note_attach_freq_iir <= NOTE_ATTACH_IIR_MAX,
                0i64,
                NOTE_ATTACH_IIR_MAX,
                note_attach_freq_iir,
            ),
            r is Ok ==> final(self)@ == old(self)@.configured(
                (Configuration { note_attach_freq_iir, ..old(self)@.config }),
            ),
            r is Err ==> final(self)@ == old(self)@,
            final(self)@.wf(),
    {
        proof {
            use_type_invariant(&*self);
        }
        if note_attach_freq_iir < 0 || note_attach_freq_iir > NOTE_ATTACH_IIR_MAX {
            return Err(
                NoteFinderValidationError::OutsideValidRange {
                    expected_min: 0,
                    expected_max: NOTE_ATTACH_IIR_MAX,
                    found: note_attach_freq_iir,
                },
            );
        }
        self.config.note_attach_freq_iir = note_attach_freq_iir;
        Ok(())
    }

    /// The fraction of the way that a note's amplitude moves to its peak's, or
    /// towards zero when it has no peak, from 0 to 3. A value outside the range
    /// is refused and nothing changes.
    pub fn set_note_attach_amp_iir(&mut self, note_attach_amp_iir: i64) -> (r: Result<
        (),
        NoteFinderValidationError<i64>,
    >)
        ensures
            r == judged(
                0 <= note_attach_amp_iir <= NOTE_ATTACH_IIR_MAX,
                0i64,
                NOTE_ATTACH_IIR_MAX,
                note_attach_amp_iir,
            ),
            r is Ok ==> final(self)@ == old(self)@.configured(
                (Configuration { note_attach_amp_iir, ..old(self)@.config }),
            ),
            r is Err ==> final(self)@ == old(self)@,
            final(self)@.wf(),
    {
        proof {
            use_type_invariant(&*self);
        }
        if note_attach_amp_iir < 0 || note_attach_amp_iir > NOTE_ATTACH_IIR_MAX {
            return Err(
                NoteFinderValidationError::OutsideValidRange {
                    expected_min: 0,
                    expected_max: NOTE_ATTACH_IIR_MAX,
                    found: note_attach_amp_iir,
                },
            );
        }
        self.config.note_attach_amp_iir = note_attach_amp_iir;
        Ok(())
    }

    /// The fraction of the way that a note's second amplitude moves to its
    /// first, from 0 to 3. A value outside the range is refused and nothing
    /// changes.
    pub fn set_note_attach_amp_iir2(&mut self, note_attach_amp_iir2: i64) -> (r: Result<
        (),
        NoteFinderValidationError<i64>,
    >)
        ensures
            r == judged(
                0 <= note_attach_amp_iir2 <= NOTE_ATTACH_IIR_MAX,
                0i64,
                NOTE_ATTACH_IIR_MAX,
                note_attach_amp_iir2,
            ),
            r is Ok ==> final(self)@ == old(self)@.configured(
                (Configuration { note_attach_amp_iir2, ..old(self)@.config }),
            ),
            r is Err ==> final(self)@ == old(self)@,
            final(self)@.wf(),
    {
        proof {
            use_type_invariant(&*self);
        }
        if note_attach_amp_iir2 < 0 || note_attach_amp_iir2 > NOTE_ATTACH_IIR_MAX {
            return Err(
                NoteFinderValidationError::OutsideValidRange {
                    expected_min: 0,
                    expected_max: NOTE_ATTACH_IIR_MAX,
                    found: note_attach_amp_iir2,
                },
            );
        }
        self.config.note_attach_amp_iir2 = note_attach_amp_iir2;
        Ok(())
    }

    /// The amplitude that a peak must exceed to count, from 0 to 1. A value
    /// outside the range is refused and nothing changes.
    pub fn set_note_minimum_new_distribution_value(
        &mut self,
        note_minimum_new_distribution_value: i64,
    ) -> (r: Result<
        (),
        NoteFinderValidationError<i64>,
    >)
        ensures
            r == judged(
                0 <= note_minimum_new_distribution_value <= NOTE_MINIMUM_NEW_DISTRIBUTION_VALUE_MAX,
                0i64,
                NOTE_MINIMUM_NEW_DISTRIBUTION_VALUE_MAX,
                note_minimum_new_distribution_value,
            ),
            r is Ok ==> final(self)@ == old(self)@.configured(
                (Configuration { note_minimum_new_distribution_value, ..old(self)@.config }),
            ),
            r is Err ==> final(self)@ == old(self)@,
            final(self)@.wf(),
    {
        proof {
            use_type_invariant(&*self);
        }
        if note_minimum_new_distribution_value < 0
            || note_minimum_new_distribution_value > NOTE_MINIMUM_NEW_DISTRIBUTION_VALUE_MAX {
            return Err(
                NoteFinderValidationError::OutsideValidRange {
                    expected_min: 0,
                    expected_max: NOTE_MINIMUM_NEW_DISTRIBUTION_VALUE_MAX,
                    found: note_minimum_new_distribution_value,
                },
            );
        }
        self.config.note_minimum_new_distribution_value = note_minimum_new_distribution_value;
        Ok(())
    }

    /// The fraction of its last output by which a note's amplitude must change
    /// for the output to follow, from 0 to 1. A value outside the range is
    /// refused and nothing changes.
    pub fn set_note_out_chop(&mut self, note_out_chop: i64) -> (r: Result<
        (),
        NoteFinderValidationError<i64>,
    >)
        ensures
            r == judged(
                0 <= note_out_chop <= NOTE_OUT_CHOP_MAX,
                0i64,
                NOTE_OUT_CHOP_MAX,
                note_out_chop,
            ),
            r is Ok ==> final(self)@ == old(self)@.configured(
                (Configuration { note_out_chop, ..old(self)@.config }),
            ),
            r is Err ==> final(self)@ == old(self)@,
            final(self)@.wf(),
    {
        proof {
            use_type_invariant(&*self);
        }
        if note_out_chop < 0 || note_out_chop > NOTE_OUT_CHOP_MAX {
            return Err(
                NoteFinderValidationError::OutsideValidRange {
                    expected_min: 0,
                    expected_max: NOTE_OUT_CHOP_MAX,
                    found: note_out_chop,
                },
            );
        }
        self.config.note_out_chop = note_out_chop;
        Ok(())
    }

    /// The fraction of the previous folded spectrum that stays in the next,
    /// from 0 to 10. A value outside the range is refused and nothing changes.
    pub fn set_dft_iir(&mut self, dft_iir: i64) -> (r: Result<
        (),
        NoteFinderValidationError<i64>,
    >)
        ensures
            r == judged(
                0 <= dft_iir <= DFT_IIR_MAX,
                0i64,
                DFT_IIR_MAX,
                dft_iir,
            ),
            r is Ok ==> final(self)@ == old(self)@.configured(
                (Configuration { dft_iir, ..old(self)@.config }),
            ),
            r is Err ==> final(self)@ == old(self)@,
            final(self)@.wf(),
    {
        proof {
            use_type_invariant(&*self);
        }
        if dft_iir < 0 || dft_iir > DFT_IIR_MAX {
            return Err(
                NoteFinderValidationError::OutsideValidRange {
                    expected_min: 0,
                    expected_max: DFT_IIR_MAX,
                    found: dft_iir,
                },
            );
        }
        self.config.dft_iir = dft_iir;
        Ok(())
    }
}

proof fn lemma_silent_sum(bins: Seq<u32>, octaves: int, per_octave: int, i: int)
    requires
        forall|k: int| 0 <= k < bins.len() ==> #[trigger] bins[k] == 0,
    ensures
        octave_sum(bins, octaves, per_octave, i) == 0,
    decreases octaves,
{
    if octaves > 0 {
        lemma_silent_sum(bins, octaves - 1, per_octave, i);
    }
}

/// A frame of silence reaches the notes as a frame without a curve. Where no
/// part of the previous spectrum is left in the next, a transform without
/// energy gives a silent folded spectrum, no peak is taken out of it, and the
/// notes are carried on as by a frame that brings no curve.
pub proof fn lemma_silent_run(state: NotefinderState, bins: Seq<u32>)
    requires
        state.wf(),
        state.config.dft_iir == 0,
        forall|k: int| 0 <= k < bins.len() ==> #[trigger] bins[k] == 0,
    ensures
        state.after_run(bins).folded == silence(state.config.frequency_bins as nat),
        peaks(state.after_run(bins).folded, state.config) == Seq::<NoteDists>::empty(),
        state.after_run(bins) == (NotefinderState {
            folded: silence(state.config.frequency_bins as nat),
            ..state.after_track(Seq::empty())
        }),
{
    let cfg = state.config;
    let fresh = folded(bins, cfg.octaves as int, cfg.frequency_bins as int);
    let spectrum = state.spectrum_after(bins);
    assert forall|i: int| 0 <= i < spectrum.len() implies #[trigger] spectrum[i] == 0 by {
        lemma_silent_sum(bins, cfg.octaves as int, cfg.frequency_bins as int, i);
        assert(fresh[i] == 0);
        let p = clamp_amp(state.folded[i] as int);
        assert((p - 0) * 0 == 0) by (nonlinear_arith);
    }
    assert(spectrum =~= silence(cfg.frequency_bins as nat));
    lemma_strongest_is_largest(spectrum, spectrum.len() as int);
}

/// Whatever a transform brings, a frame leaves the note finder well formed:
/// the folded spectrum has one amplitude for each bin of the octave, and the
/// row of notes keeps its length and its ranges.
pub proof fn lemma_run_keeps_wf(state: NotefinderState, bins: Seq<u32>)
    requires
        state.wf(),
    ensures
        state.after_run(bins).wf(),
{
    let cfg = state.config;
    let spectrum = state.spectrum_after(bins);
    assert forall|i: int| 0 <= i < spectrum.len() implies 0 <= #[trigger] spectrum[i]
        <= crate::fixed::AMP_MAX by {}
    crate::persistence::lemma_frame_keeps_wf(state.slots, peaks(spectrum, cfg), cfg);
    crate::persistence::lemma_frame_marks_active(state.slots, peaks(spectrum, cfg), cfg);
    lemma_frame_separates(state.slots, peaks(spectrum, cfg), cfg);
    lemma_frame_steadies(state.slots, peaks(spectrum, cfg), cfg);
}

/// Whatever curves a frame brings, it leaves the note finder well formed.
pub proof fn lemma_track_keeps_wf(state: NotefinderState, cands: Seq<NoteDists>)
    requires
        state.wf(),
    ensures
        state.after_track(cands).wf(),
{
    crate::persistence::lemma_frame_keeps_wf(state.slots, cands, state.config);
    crate::persistence::lemma_frame_marks_active(state.slots, cands, state.config);
    lemma_frame_separates(state.slots, cands, state.config);
    lemma_frame_steadies(state.slots, cands, state.config);
}

/// The note finder after `n` frames that each bring the transform `bins`.
pub open spec fn after_runs(state: NotefinderState, bins: Seq<u32>, n: nat) -> NotefinderState
    decreases n,
{
    if n == 0 {
        state
    } else {
        after_runs(state, bins, (n - 1) as nat).after_run(bins)
    }
}

/// The transform brings no energy.
pub open spec fn no_energy(bins: Seq<u32>) -> bool {
    forall|k: int| 0 <= k < bins.len() ==> #[trigger] bins[k] == 0
}

/// Where no part of the previous spectrum is left in the next, the folded
/// spectrum of a frame is what its transform folds into.
pub proof fn lemma_plain_spectrum(state: NotefinderState, bins: Seq<u32>)
    requires
        state.wf(),
        state.config.dft_iir == 0,
    ensures
        state.spectrum_after(bins) == folded(
            bins,
            state.config.octaves as int,
            state.config.frequency_bins as int,
        ),
{
    let cfg = state.config;
    let fresh = folded(bins, cfg.octaves as int, cfg.frequency_bins as int);
    let spectrum = state.spectrum_after(bins);
    assert forall|i: int| 0 <= i < spectrum.len() implies #[trigger] spectrum[i] == fresh[i] by {
        let f = clamp_amp(fresh[i] as int);
        let p = clamp_amp(state.folded[i] as int);
        assert((p - f) * 0 == 0) by (nonlinear_arith);
    }
    assert(spectrum =~= fresh);
}

/// Silence lowers what is given out and wakes no note. Where no part of the
/// previous spectrum is left in the next and no setting was changed since the
/// last frame, a frame whose transform brings no energy gives out no note
/// louder than before, and a note sounds after it only where it sounded
/// before, at its pitch class and of its age.
pub proof fn lemma_silent_run_lowers(state: NotefinderState, bins: Seq<u32>)
    requires
        state.wf(),
        state.config == state.framed,
        state.config.dft_iir == 0,
        no_energy(bins),
    ensures
        state.after_run(bins).wf(),
        state.after_run(bins).config == state.after_run(bins).framed,
        state.after_run(bins).notes().len() == state.notes().len(),
        forall|i: int|
            0 <= i < state.notes().len() ==> {
                let before = state.notes()[i];
                let after = #[trigger] state.after_run(bins).notes()[i];
                &&& after.amplitude_out <= before.amplitude_out
                &&& (after.active ==> before.active && after.id == before.id && after.endured
                    == before.endured)
            },
{
    let cfg = state.config;
    lemma_silent_run(state, bins);
    lemma_run_keeps_wf(state, bins);
    crate::persistence::lemma_silent_frame(state.slots, cfg, i64::MAX as int);
    crate::persistence::lemma_silent_output_falls(state.slots, cfg);
    let next = state.after_run(bins);
    assert(next.slots == after_frame(state.slots, Seq::empty(), cfg));
    assert forall|i: int| 0 <= i < state.notes().len() implies {
        let before = state.notes()[i];
        let after = #[trigger] next.notes()[i];
        &&& after.amplitude_out <= before.amplitude_out
        &&& (after.active ==> before.active && after.id == before.id && after.endured
            == before.endured)
    } by {
        assert(state.slots[i].rested());
        assert(next.slots[i].rested());
        assert(next.slots[i].wf(cfg.circle()));
        assert(state.slots[i].wf(cfg.circle()));
    }
}

/// Silence ends every note within a number of frames that the settings give.
/// Where no part of the previous spectrum is left in the next and the
/// settings make notes decay, no note sounds after `fade_time` frames without
/// energy, nor after any number of such frames beyond that.
pub proof fn lemma_silence_ends(state: NotefinderState, bins: Seq<u32>, n: nat)
    requires
        state.wf(),
        state.config.dft_iir == 0,
        state.config.note_attach_amp_iir > 0 || state.config.slope > 0,
        no_energy(bins),
    ensures
        after_runs(state, bins, n).wf(),
        after_runs(state, bins, n).config == state.config,
        after_runs(state, bins, n).slots == crate::persistence::after_frames(
            state.slots,
            Seq::empty(),
            state.config,
            n,
        ),
        n >= crate::persistence::fade_time(state.config) ==> forall|i: int|
            0 <= i < state.notes().len() ==> !(#[trigger] after_runs(
                state,
                bins,
                n,
            ).notes()[i]).active,
    decreases n,
{
    let cfg = state.config;
    if n > 0 {
        let before = after_runs(state, bins, (n - 1) as nat);
        lemma_silence_ends(state, bins, (n - 1) as nat);
        lemma_silent_run(before, bins);
        lemma_run_keeps_wf(before, bins);
    }
    let last = after_runs(state, bins, n);
    if n >= crate::persistence::fade_time(cfg) {
        crate::persistence::lemma_silence_ends_in_time(state.slots, cfg, n);
        assert forall|i: int| 0 <= i < state.notes().len() implies !(
        #[trigger] last.notes()[i]).active by {
            assert(last.slots[i].rested());
        }
    }
}

/// A steady tone holds exactly one note, one frame older with every frame.
/// Where no part of the previous spectrum is left in the next, the row is
/// vacant, and the transform of every frame folds into a spectrum with the one
/// peak `d`, after `n` frames the first note sounds at the pitch class of
/// that peak, as loud as it and of the age `n - 1`, and no other note sounds.
pub proof fn lemma_tone_runs(state: NotefinderState, bins: Seq<u32>, d: NoteDists, n: nat)
    requires
        state.wf(),
        state.config.dft_iir == 0,
        state.slots == vacant_row(state.slots.len()),
        1 <= n <= i32::MAX,
        peaks(
            folded(bins, state.config.octaves as int, state.config.frequency_bins as int),
            state.config,
        ) == seq![d],
        is_peak(d, state.config),
    ensures
        after_runs(state, bins, n).wf(),
        after_runs(state, bins, n).config == state.config,
        after_runs(state, bins, n).slots == crate::persistence::after_frames(
            state.slots,
            seq![d],
            state.config,
            n,
        ),
        after_runs(state, bins, n).notes().len() == state.notes().len(),
        after_runs(state, bins, n).notes()[0].active,
        after_runs(state, bins, n).notes()[0].endured == n - 1,
        after_runs(state, bins, n).notes()[0].id == d.mean / (state.config.frequency_bins as i64),
        after_runs(state, bins, n).notes()[0].amplitude_out > 0,
        forall|i: int|
            1 <= i < state.notes().len() ==> !(#[trigger] after_runs(
                state,
                bins,
                n,
            ).notes()[i]).active,
    decreases n,
{
    let cfg = state.config;
    let len = state.slots.len();
    let before = after_runs(state, bins, (n - 1) as nat);
    if n > 1 {
        lemma_tone_runs(state, bins, d, (n - 1) as nat);
    } else {
        assert(before == state);
        assert(crate::persistence::after_frames(state.slots, seq![d], cfg, 0) == state.slots);
    }
    lemma_plain_spectrum(before, bins);
    lemma_run_keeps_wf(before, bins);
    let last = after_runs(state, bins, n);
    assert(last == before.after_run(bins));
    vstd::arithmetic::div_mod::lemma_small_mod(d.mean as nat, cfg.circle() as nat);
    assert(d.tidied(cfg.circle()) == d);
    crate::persistence::lemma_tone_holds_one_note(len, d, cfg, n);
    assert(last.slots[0].rested());
    assert forall|i: int| 1 <= i < state.notes().len() implies !(
    #[trigger] last.notes()[i]).active by {
        assert(last.slots[i] == Slot::vacant());
    }
}

proof fn lemma_runs_add(state: NotefinderState, bins: Seq<u32>, a: nat, b: nat)
    ensures
        after_runs(state, bins, a + b) == after_runs(after_runs(state, bins, a), bins, b),
    decreases b,
{
    if b > 0 {
        lemma_runs_add(state, bins, a, (b - 1) as nat);
        assert((a + b - 1) as nat == a + (b - 1) as nat);
    }
}

proof fn lemma_spectrum_in_silence(state: NotefinderState, bins: Seq<u32>, n: nat)
    requires
        state.wf(),
        no_energy(bins),
    ensures
        after_runs(state, bins, n).wf(),
        after_runs(state, bins, n).config == state.config,
        after_runs(state, bins, n).folded == faded_often(
            state.folded,
            state.config.dft_iir as int,
            n,
        ),
    decreases n,
{
    if n > 0 {
        let cfg = state.config;
        let before = after_runs(state, bins, (n - 1) as nat);
        lemma_spectrum_in_silence(state, bins, (n - 1) as nat);
        lemma_run_keeps_wf(before, bins);
        let fresh = folded(bins, cfg.octaves as int, cfg.frequency_bins as int);
        assert forall|i: int| 0 <= i < fresh.len() implies #[trigger] fresh[i] == 0 by {
            lemma_silent_sum(bins, cfg.octaves as int, cfg.frequency_bins as int, i);
        }
        assert(fresh =~= silence(before.folded.len()));
    }
}

proof fn lemma_notes_in_quiet(state: NotefinderState, bins: Seq<u32>, n: nat)
    requires
        state.wf(),
        no_energy(bins),
        state.folded == silence(state.folded.len()),
    ensures
        after_runs(state, bins, n).wf(),
        after_runs(state, bins, n).config == state.config,
        after_runs(state, bins, n).folded == state.folded,
        after_runs(state, bins, n).slots == crate::persistence::after_frames(
            state.slots,
            Seq::empty(),
            state.config,
            n,
        ),
    decreases n,
{
    if n > 0 {
        let cfg = state.config;
        let before = after_runs(state, bins, (n - 1) as nat);
        lemma_notes_in_quiet(state, bins, (n - 1) as nat);
        lemma_run_keeps_wf(before, bins);
        lemma_spectrum_in_silence(before, bins, 1);
        assert(after_runs(before, bins, 0) == before);
        assert(after_runs(before, bins, 1) == before.after_run(bins));
        crate::spectrum::lemma_silence_stays(before.folded, cfg.dft_iir as int, 1);
        let spectrum = before.spectrum_after(bins);
        assert(spectrum == state.folded);
        lemma_strongest_is_largest(spectrum, spectrum.len() as int);
        assert(peaks(spectrum, cfg) == Seq::<NoteDists>::empty());
    }
}

/// Silence ends every note within a number of frames that the settings give,
/// also where part of the previous spectrum is left in the next. Where that
/// part is less than all and the settings make notes decay, no note sounds
/// after `spectrum_fade_time` and `fade_time` frames without energy, nor
/// after any number of such frames beyond that.
pub proof fn lemma_silence_ends_with_memory(state: NotefinderState, bins: Seq<u32>, n: nat)
    requires
        state.wf(),
        state.config.dft_iir < ONE,
        state.config.note_attach_amp_iir > 0 || state.config.slope > 0,
        no_energy(bins),
        n >= spectrum_fade_time(state.config.dft_iir as int) + crate::persistence::fade_time(
            state.config,
        ),
    ensures
        after_runs(state, bins, n).wf(),
        after_runs(state, bins, n).folded == silence(state.folded.len()),
        forall|i: int|
            0 <= i < state.notes().len() ==> !(#[trigger] after_runs(
                state,
                bins,
                n,
            ).notes()[i]).active,
{
    let cfg = state.config;
    let first = spectrum_fade_time(cfg.dft_iir as int);
    lemma_spectrum_fades(state.folded, cfg.dft_iir as int, first as nat);
    lemma_spectrum_in_silence(state, bins, first as nat);
    let quiet = after_runs(state, bins, first as nat);
    let rest = (n - first) as nat;
    lemma_notes_in_quiet(quiet, bins, rest);
    lemma_runs_add(state, bins, first as nat, rest);
    let last = after_runs(state, bins, n);
    crate::persistence::lemma_silence_ends_in_time(quiet.slots, cfg, rest);
    assert forall|i: int| 0 <= i < state.notes().len() implies !(
    #[trigger] last.notes()[i]).active by {
        assert(last.slots[i].rested());
    }
}

} // verus!
