//! Pitches of a just-intonation tuning lattice.
//!
//! Intervals are exact fractions ([`ratio`]). A pitch ([`pitch`]) is such a
//! fraction brought into the octave `[1, 2)` ([`octave`]), with its prime
//! limit and its orientation. Pitches combine by multiplication, and a walk
//! combines one interval again and again. A lattice ([`lattice`]) gathers the
//! walks along the prime axes, upwards and downwards, and sorts into a
//! scale; a pitch on a single axis can be traced back to its place. The
//! arithmetic that all of this stands on is in [`math`], its theory in
//! [`number_theory`] and [`axis`].
//!
//! Every function states what it returns, and no function panics: what
//! cannot be computed is an [`error::Error`]. The statements are proved, but
//! for one call into the `num` crate, which is marked as trusted where it
//! stands.
pub mod axis;
pub mod cli;
pub mod error;
pub mod intervals;
pub mod lattice;
pub mod math;
pub mod number_theory;
pub mod octave;
pub mod pitch;
pub mod ratio;
