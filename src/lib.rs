pub mod arith;
pub mod factors;
pub mod sieve;

pub use factors::Factors;
pub use sieve::Primes;
pub mod laws;
