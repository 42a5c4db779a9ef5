//! Deterministic text-corruption engine.
//!
//! Given input text, a seed, and an ordered list of mutation steps, the
//! pipeline produces reproducibly corrupted text: the same (text, seed,
//! step list) always yields the same output. The crate is organised around
//! a segment-indexed text buffer, a deterministic pseudo-random generator,
//! a weighted sampler, the mutation steps themselves, and a pipeline that
//! derives stable per-step seeds from one master seed.

pub mod affix;
pub mod cache;
pub mod glitch_ops;
pub mod homophone;
pub mod pipeline;
pub mod quotes;
pub mod rng;
pub mod sampler;
pub mod text_buffer;
pub mod typo;
