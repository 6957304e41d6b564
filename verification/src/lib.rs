//! A single-venue exchange core: a two-sided limit-order book under
//! price-time priority, deterministic content identities for orders,
//! balance-checked matching with per-fill settlement, and the book's
//! canonical persisted form. Every operation carries a contract that
//! pins its result down, and the engine's guarantees — priority,
//! conservation, self-trade rejection, the book invariant, and the
//! persistence round trip — are stated and proved alongside it.

pub mod types;
pub mod numfmt;
pub mod hashing;
pub mod book;
pub mod ledger;
pub mod matching;
pub mod laws;
pub mod codec;
pub mod request;
