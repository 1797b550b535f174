//! Named intervals, each as numerator and denominator: what a fraction or a
//! pitch can be made from.
use vstd::prelude::*;

verus! {

/// 1/1
pub const TONIC: (i32, i32) = (1, 1);

/// 1732/1731
pub const SUPERPARTICULAR_CENT_APPROXIMATION: (i32, i32) = (1732, 1731);

/// 32805/32768 (3^8 / 2^12 x 5/8)
pub const SCHISMA: (i32, i32) = (32805, 32768);

/// 129/128
pub const HARMONIC_129: (i32, i32) = (129, 128);

/// 74/73
pub const SUPERPARTICULAR_PYTHAGOREAN_COMMA_APPROXIMATION: (i32, i32) = (74, 73);

/// 65/64
pub const HARMONIC_65: (i32, i32) = (65, 64);

/// 56/55
pub const PTOLEMYS_ENHARMONIC: (i32, i32) = (56, 55);

/// 46/45 (Ptolemy)
pub const INFERIOR_QUARTER_TONE: (i32, i32) = (46, 45);

/// 131/128
pub const HARMONIC_131: (i32, i32) = (131, 128);

/// 128/125 (16/15 x 24/25)
pub const DIMINISHED_SECOND: (i32, i32) = (128, 125);

/// 525/512 (Avicenna)
pub const ENHARMONIC_DIESIS: (i32, i32) = (525, 512);

/// 39/38 (Eratosthenes)
pub const SUPERIOR_QUARTER_TONE: (i32, i32) = (39, 38);

/// 36/35 (Archytas)
pub const SUPERIOR_QUARTER_TONE_2: (i32, i32) = (36, 35);

/// 35/34
pub const ET_QUARTER_TONE_APPROXIMATION: (i32, i32) = (35, 34);

/// 33/32
pub const HARMONIC_33: (i32, i32) = (33, 32);

/// 32/31 (Didymus)
pub const INFERIOR_QUARTER_TONE_2: (i32, i32) = (32, 31);

/// 31/30 (Didymus)
pub const SUPERIOR_QUARTER_TONE_3: (i32, i32) = (31, 30);

/// 28/27 (Archytas)
pub const INFERIOR_QUARTER_TONE_3: (i32, i32) = (28, 27);

/// 133/128
pub const HARMONIC_133: (i32, i32) = (133, 128);

/// 26/25 (Avicenna)
pub const ONE_THIRD_TONE: (i32, i32) = (26, 25);

/// 25/24
pub const MINOR_FIVE_LIMIT_HALF_STEP: (i32, i32) = (25, 24);

/// 67/64
pub const HARMONIC_67: (i32, i32) = (67, 64);

/// 22/21 (Ptolemy, Avicenna, Safiud)
pub const HARD_HALF_STEP: (i32, i32) = (22, 21);

/// 21/20
pub const SEPTIMAL_SEMITONE: (i32, i32) = (21, 20);

/// 256/243
pub const PYTHAGOREAN_HALF_STEP: (i32, i32) = (256, 243);

/// 135/128
pub const LIMMA_ASCENDANT: (i32, i32) = (135, 128);

/// 2/1
pub const OCTAVE: (i32, i32) = (2, 1);

/// 1/1
pub const C: (i32, i32) = (1, 1);

/// 9/8
pub const D: (i32, i32) = (9, 8);

/// 5/4
pub const E: (i32, i32) = (5, 4);

/// 4/3
pub const F: (i32, i32) = (4, 3);

/// 3/2
pub const G: (i32, i32) = (3, 2);

/// 5/3
pub const A: (i32, i32) = (5, 3);

/// 15/8
pub const B: (i32, i32) = (15, 8);

/// 81/80
pub const SYNTONIC_COMMA: (i32, i32) = (81, 80);

/// 531441/524288 (3^12 / 2^19)
pub const PYTHAGOREAN_COMMA: (i32, i32) = (531441, 524288);

/// 36/35
pub const SEPTIMAL_COMMA: (i32, i32) = (36, 35);

/// 33/32
pub const UNDECIMAL_COMMA: (i32, i32) = (33, 32);

} // verus!
