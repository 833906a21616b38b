//! A parallel prime scan, modelled and verified: the primality test, the
//! counter that hands candidates to workers, the collection of the primes
//! they find, and the statistics reported at the end of a run.

pub mod aggregator;
pub mod config;
pub mod distributor;
pub mod model;
pub mod primality;
pub mod report;
pub mod scan;
pub mod sorting;
pub mod worker;

pub use aggregator::{Aggregator, Summary};
pub use config::Config;
pub use distributor::Distributor;
pub use primality::is_prime;
pub use scan::{run, Scan};
pub use worker::{decide, Action};
