//! A verified genome engine: a fixed-shape pool of fixed-width genes with a
//! canonical string codec, a numeric latent projection, a Hamming-style
//! similarity metric, a deterministic crossover/merge operator with optional
//! pseudo-random mutation, and point mutation (zeroing) of single genes.

pub mod api;
pub mod codec;
pub mod dna;
pub mod rng;
