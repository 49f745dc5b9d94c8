//! Short-code link storage: a positional codec between slot indices and
//! fixed-length codes, a multiplicative-group slot generator, and the
//! decision logic of a fixed-block store.

pub mod codec;
pub mod db;
pub mod primes;
pub mod generator;
