//! Just-intonation pitch ratios as exact, reduced, octave-normalized
//! fractions, with verified arithmetic: construction, multiplication,
//! division, octave complement, integer powers, and the harmonic
//! (prime) limit.

pub mod edo;
pub mod math;
pub mod play;
pub mod ratio;
