//! Number-theoretic primitives for the multiplicative group of integers
//! modulo a prime: gcd, Euler's totient, and finding and checking generators.
pub mod natural;
pub mod factors;
pub mod arith;
pub mod generator;
pub mod parse;
pub mod render;
