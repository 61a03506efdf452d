//! A pooled-stake prediction-market settlement engine.
//!
//! Users stake value on one of several named outcomes of a future event.
//! After the event an outcome is determined, manually or from an oracle
//! observation, and the pooled stake is redistributed pro rata to the
//! holders of the winning outcome, net of a protocol fee.  The engine
//! owns the market lifecycle, the pool ledger, the fee vault and the
//! payout distribution; value transfers, oracle feeds and authentication
//! are modelled at their interfaces over plain values.

pub mod errors;
pub mod token;
pub mod oracle;
pub mod market;
pub mod vault;
pub mod engine;
pub mod laws;
