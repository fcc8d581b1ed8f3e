//! A verified registry of uniquely identified digital assets ("kitties")
//! that can be created, transferred between owners, and bred to produce
//! offspring whose genetic code derives deterministically from the two
//! parents' codes under a per-call selector.
//!
//! Every mutating operation is gated by a stake reservation against a
//! balance ledger; the ledger and the randomness source are injected by
//! the caller (the selector and seed arrive as plain byte sequences), so
//! the whole lifecycle engine is verified.

pub mod dna;
pub mod idseq;
pub mod kitty;
pub mod ledger;
pub mod registry;

pub use idseq::seq_without;
pub use kitty::Error;
pub use kitty::Kitty;
pub use ledger::Ledger;
pub use registry::Module;
