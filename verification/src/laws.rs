//! The protocol's global guarantees, stated and proved once over the session
//! invariant rather than per operation.

use vstd::prelude::*;

use crate::deps::SymRef;
use crate::pool::{SymbolStringPool, SymbolStringPoolEntry};
use crate::session::{contains_sym, DefState, ExecutionSession};

verus! {

/// A pending symbol has exactly one owning responsibility: if one name is
/// pending under two responsibilities of the same namespace, they are the
/// same responsibility — delegation and replacement move ownership, they
/// never duplicate it.
pub proof fn lemma_pending_ownership_unique(
    es: ExecutionSession,
    d: int,
    id: usize,
    r1: usize,
    r2: usize,
)
    requires
        es.wf(),
        match es.def_at(d, id) {
            Some(e) => e.state == (DefState::Materializing { resp: r1 }),
            None => false,
        },
        match es.def_at(d, id) {
            Some(e) => e.state == (DefState::Materializing { resp: r2 }),
            None => false,
        },
    ensures
        r1 == r2,
{
}

/// The owner of a pending symbol is live, targets the symbol's namespace and
/// lists the symbol among those it governs.
pub proof fn lemma_pending_owner_governs(es: ExecutionSession, d: int, id: usize, r: usize)
    requires
        es.wf(),
        0 <= d < es.dylibs@.len(),
        match es.def_at(d, id) {
            Some(e) => e.state == (DefState::Materializing { resp: r }),
            None => false,
        },
    ensures
        r < es.resps@.len(),
        es.resps@[r as int].live,
        es.resps@[r as int].dylib == d,
        contains_sym(es.resps@[r as int].syms@, id),
{
    assert(es.dylib_wf(d));
    let entries = es.dylibs@[d].entries@;
    let kx = crate::session::idx_of(entries, id);
    assert(es.entry_state_ok(d, entries[kx]));
}

/// Dependence failure has always already propagated: no symbol that could
/// still fail sits behind a recorded edge whose target has failed.  In
/// particular, once a dependency fails, every lookup of a transitively
/// dependent symbol observes failure, never a pending state.
pub proof fn lemma_failure_propagated(es: ExecutionSession, i: int)
    requires
        es.wf(),
        0 <= i < es.deps@.len(),
        es.sym_failed(es.deps@[i].dst),
    ensures
        !es.sym_unemitted(es.deps@[i].src),
{
    assert(!(es.sym_failed(es.deps@[i].dst) && es.sym_unemitted(es.deps@[i].src)));
}

/// A live responsibility's symbol listing is duplicate-free: what
/// `get_symbols` and `get_requested_symbols` report never names a symbol
/// twice, whatever sequence of operations produced the listing.
pub proof fn lemma_listing_duplicate_free(es: ExecutionSession, r: usize)
    requires
        es.wf(),
        r < es.resps@.len(),
        es.resps@[r as int].live,
    ensures
        crate::session::distinct_sym_ids(es.resps@[r as int].syms@),
{
}

/// Interning is injective on live handles: two live handles for the same
/// text are the same handle, so handle equality and byte comparison agree.
pub proof fn lemma_interned_names_unique(
    pool: SymbolStringPool,
    a: SymbolStringPoolEntry,
    b: SymbolStringPoolEntry,
)
    requires
        pool.wf(),
        pool.live(a),
        pool.live(b),
        pool.text_of(a) == pool.text_of(b),
    ensures
        a == b,
{
    if a.id != b.id {
        assert(pool.slots@[a.id as int].text@ != pool.slots@[b.id as int].text@);
    }
}

} // verus!
