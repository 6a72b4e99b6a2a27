pub mod primes;
pub mod traits;
pub mod tsp;
pub mod utils;
