//! Note finding for live audio.
//!
//! The library keeps a ring of the most recent samples ([`ring`]), folds the
//! bins that a transform has computed from them into one octave
//! ([`spectrum`]), takes the peaks out of the folded spectrum ([`peaks`]),
//! follows them from frame to frame as notes ([`tracker`], [`persistence`]),
//! and gives each pitch its colour ([`color`]). The note finder
//! ([`notefinder`]) holds the settings ([`config`]) and carries the notes
//! from one frame to the next.
//!
//! Every quantity that is a fraction in the physical world is held as a whole
//! number of millionths ([`fixed`]): 1 is `1_000_000`.

pub mod color;
pub mod config;
pub mod fixed;
pub mod notefinder;
pub mod peaks;
pub mod persistence;
pub mod ring;
pub mod spectrum;
pub mod tracker;

pub use crate::color::cc_to_rgb;
pub use crate::config::{Configuration, DFTAlgorithm, NoteFinderValidationError};
pub use crate::notefinder::{Note, Notefinder};
pub use crate::ring::ringbuffer;
pub use crate::tracker::NoteDists;
