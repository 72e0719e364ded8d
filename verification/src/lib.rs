//! The core of an indexer of shielded pools.
//!
//! The commitment tree of a pool is kept as its append frontier ([`frontier`]), which can be built
//! from a stream of leaves ([`builder`]) and from which confirmation batches are planned
//! ([`batch`]); witnesses are put together from archived complete nodes ([`witness`]). All of it
//! rests on the Merkle tree of [`merkle`], the hash of [`poseidon`] and the arithmetic of
//! [`field`].
//!
//! The log of the chain is read from receipts ([`logs`]): settlements and pools of the AMM
//! ([`amm`], [`pools`]), settlements between pools ([`vnote`]), and spends ([`spend`]). What is
//! answered where there is no result is decided along with it ([`api`], [`readiness`]).

pub mod amm;
pub mod api;
pub mod batch;
pub mod builder;
pub mod bytes;
pub mod error;
pub mod field;
pub mod frontier;
pub mod logs;
pub mod merkle;
pub mod pools;
pub mod poseidon;
pub mod readiness;
pub mod spend;
pub mod text;
pub mod vnote;
pub mod witness;
