//! Prime number tools: a streaming prime sieve, a residue wheel that skips
//! multiples of small primes, a Miller-Rabin primality test and a search for
//! the next prime after a given number.

pub mod arith;
pub mod bignat;
pub mod prime_iter;
pub mod wheel;
pub mod miller_rabin;
pub mod next_prime;
