//! Attacks on weak uses of cryptography: a CBC padding-oracle decryption
//! engine with byte discovery and backtracking, recovery of a many-time-pad
//! key, a reverse block hash chain for file integrity, a meet-in-the-middle
//! discrete-logarithm search, and Fermat-style factoring of RSA moduli
//! whose primes lie close together.

pub mod attack;
pub mod dlog;
pub mod factoring;
pub mod http;
pub mod integrity;
pub mod many_time_pad;
pub mod oracle;
pub mod pad;
