//! Number-puzzle mathematics: an arbitrary-precision decimal type, an
//! incrementally sieved prime cache with trial-division factorisation, and an
//! algebra over prime-power factorisations.

pub mod algebra;
pub mod arith;
pub mod calendar;
pub mod collatz;
pub mod decimal;
pub mod number_words;
pub mod numbers;
pub mod prime_cache;
pub mod puzzles;

pub use decimal::Decimal;
pub use decimal::ParseError;
pub use number_words::number_as_words;
pub use numbers::factors;
pub use numbers::fib;
pub use numbers::is_palendrome;
pub use numbers::prime_factors;
pub use numbers::primes;
pub use numbers::triangular;
pub use numbers::Factor;
