//! A deterministic visual walk over the prime numbers.
//!
//! The walker starts at an origin with a fixed heading, advances a distance
//! equal to the gap between consecutive primes, then rotates by a fixed turn
//! angle, once per prime below a configurable limit. This crate holds the
//! verified core: the prime supply and its line-delimited cache format, the
//! walk state machine (prime gaps, headings, step counts), and the cycling
//! stroke color. Floating-point geometry and image output live with the
//! binary that drives the pipeline.

pub mod cache;
pub mod color;
pub mod prime_walk;
pub mod primes;
