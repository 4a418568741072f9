//! Control plane of a just-in-time compilation engine: the bookkeeping layer
//! through which independently produced compilation units declare, resolve and
//! retract symbols in shared, mutable namespaces.
//!
//! The heart of the crate is the materialization protocol: a promised symbol
//! moves from *pending* (claimed by a [`MaterializationUnit`]) to *resolved*
//! (address known) to *emitted* (visible to lookups), or to *failed*.  A live
//! [`MaterializationResponsibility`] token governs the pending symbols of one
//! in-flight materialization; responsibility can be split ([`delegate`]) or
//! handed to a new unit ([`replace`]) but never duplicated.  Failure spreads
//! through recorded dependence edges to every symbol that transitively
//! depends on a failed one, and [`ResourceTracker`]s retract whole groups of
//! definitions at once.
//!
//! [`delegate`]: MaterializationResponsibility::delegate
//! [`replace`]: MaterializationResponsibility::replace

mod deps;
mod error;
mod laws;
mod pool;
mod responsibility;
mod session;
mod symbol;
mod tracker;
mod unit;

pub use deps::{DepEdge, DependenceMapPair, DependenceMapPairs, SymRef};
pub use error::OrcError;
pub use laws::{
    lemma_failure_propagated, lemma_interned_names_unique, lemma_listing_duplicate_free,
    lemma_pending_owner_governs, lemma_pending_ownership_unique,
};
pub use pool::{PoolSlot, SymbolStringPool, SymbolStringPoolEntries, SymbolStringPoolEntry};
pub use responsibility::MaterializationResponsibility;
pub use session::{
    DefEntry, DefState, ExecutionSession, JITDylib, JITDylibState, LookupResult, RespRec,
    TrackerRec, UnitRec,
};
pub use tracker::ResourceTracker;
pub use symbol::{
    EvaluatedSymbol, SymbolFlags, SymbolFlagsMapPair, SymbolFlagsMapPairs, SymbolMapPair,
    SymbolMapPairs,
};
pub use unit::{Materializer, MaterializationUnit, ObjectLayer, UnitKind};
