//! The core of a leaderless Byzantine fault tolerant consensus engine.
//!
//! Workers assemble the transactions of clients into batches and
//! disseminate them; primaries propose headers that open elections, vote in
//! them, and decide one transaction hash per election. This crate holds the
//! decisions of both tiers as state machines: each takes what has arrived
//! and returns what is to be sent. Sending, timing and signing are left to
//! the caller.
//!
//! Every state machine has a model, a plain mathematical value with its
//! transition functions, and the executable code is proved to follow it.
//! What holds of all runs is proved of the models:
//! [`agreement`], [`validity`], [`delivery`] and [`proposing`] for the
//! election and the proposer, and beside their models for the aggregators,
//! the batch maker and the disseminator.

pub mod aggregators;
pub mod agreement;
pub mod assoc;
pub mod batch_maker;
pub mod committee;
pub mod delivery;
pub mod disseminator;
pub mod domain_separators;
pub mod election;
pub mod error;
pub mod hashing;
pub mod messages;
pub mod proposer;
pub mod proposing;
pub mod ring_signer;
pub mod signatures;
pub mod store;
pub mod tally;
pub mod types;
pub mod validation;
pub mod validity;
