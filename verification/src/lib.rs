//! A genetic algorithm for offline 2D single-bin rectangle packing.
//!
//! Candidate solutions are binary encodings over the problem's item list
//! (place / skip, one gene per item). A deterministic greedy best-area-fit
//! decoder turns an encoding into a concrete non-overlapping layout and an
//! exact rational fitness (used area over bin area). The genetic engine
//! evolves a fixed-size population of encodings with rank-biased selection,
//! two-point crossover, per-gene mutation and elitism.

pub mod area;
pub mod decoder;
pub mod genetic;
pub mod geometry;
pub mod rng;
