//! Derived index, provenance resolution and interval sampling for a
//! height-indexed ledger.
//!
//! The crate holds the deterministic core of a block explorer: the rules by
//! which blocks are folded into a coin and supply index, the binary search
//! that finds where a coin was spent, the order-preserving mapper and the
//! power-of-two sampler, and the summaries that the explorer shows.
//! Everything that talks to a node, a database or a socket lives outside
//! and hands this crate plain values.
//!
//! - [`indexer`]: the index of coins, supply and headers, and what holds
//!   of it whatever it is fed ([`indexer::laws`]).
//! - [`crawl`]: the search for the spend of a coin, and crawls around a
//!   transaction.
//! - [`graphs`]: the sampling of heights, the mapper, and graph data.
//! - [`backend`], [`flows`]: summaries of blocks, addresses and transactions.
//! - [`chain`], [`structs`]: the values of the ledger and its rules.
//! - [`parse`], [`hexcode`], [`text`], [`html`], [`tally`]: text and sums.

pub mod backend;
pub mod chain;
pub mod crawl;
pub mod flows;
pub mod graphs;
pub mod hexcode;
pub mod html;
pub mod indexer;
pub mod parse;
pub mod structs;
pub mod tally;
pub mod text;
