//! Prime factorization of 64-bit unsigned integers by trial division,
//! optionally bounded by a wall-clock deadline.
//!
//! - [`number`] and [`factors`] hold the mathematics: divisibility, primes,
//!   the prime factors of a number, and the proof that a number has only one
//!   factorization into primes.
//! - [`outcome`] says what an attempt to factor a number can come to, and
//!   what follows from that.
//! - [`search`] is the search itself, one candidate at a time; [`clock`] is
//!   the deadline; [`factor`] puts the two together.
//! - [`text`] and [`args`] read the command line.

pub mod args;
pub mod clock;
pub mod factor;
pub mod factors;
pub mod number;
pub mod outcome;
pub mod search;
pub mod text;
