//! Resource trackers: handles that group definitions for bulk retraction or
//! bulk transfer, and the namespace-wide `clear`.

use vstd::prelude::*;

use crate::deps::SymRef;
use crate::error::OrcError;
use crate::responsibility::fail_symbols;
use crate::session::{
    has_def, lemma_closure_preserved, lemma_closure_preserved_weak, lemma_def_at_same_names,
    lemma_idx_unique, same_but_state, unemitted, DefEntry, DefState, ExecutionSession, JITDylib,
    TrackerRec,
};

verus! {

/// A handle grouping a subset of definitions for bulk lifecycle operations.
/// Every definition belongs to exactly one tracker: its namespace's default
/// tracker unless it was transferred elsewhere.
#[derive(Debug)]
pub struct ResourceTracker {
    pub id: usize,
    pub is_default: bool,
}

impl ResourceTracker {
    /// The handle names a live tracker record of this session.
    pub open spec fn valid_in(self, es: ExecutionSession) -> bool {
        self.id < es.trackers@.len() && es.trackers@[self.id as int].live
            && es.trackers@[self.id as int].is_default == self.is_default
    }
}

/// The definition is owned by tracker `tid` and could still fail.
pub open spec fn covered_unemitted(es: ExecutionSession, tid: usize, s: SymRef) -> bool {
    match es.def_at(s.dylib as int, s.sym) {
        Some(e) => e.tracker == tid && unemitted(e.state),
        None => false,
    }
}

/// Reassigns every definition owned by tracker `tid`: to `dest` when given,
/// else back to the owning namespace's default tracker.  Only bookkeeping
/// changes; no definition state moves.
#[verifier::loop_isolation(false)]
fn retag_covered(es: &mut ExecutionSession, tid: usize, dest: Option<usize>)
    requires
        old(es).wf(),
        match dest {
            Some(d) => d < old(es).trackers@.len(),
            None => true,
        },
    ensures
        final(es).wf(),
        final(es).pool == old(es).pool,
        final(es).trackers == old(es).trackers,
        final(es).units == old(es).units,
        final(es).resps == old(es).resps,
        final(es).deps == old(es).deps,
        final(es).dylibs@.len() == old(es).dylibs@.len(),
        forall|dj: int|
            0 <= dj < old(es).dylibs@.len() ==> (#[trigger] final(es).dylibs@[dj]).name == old(
                es,
            ).dylibs@[dj].name && final(es).dylibs@[dj].bare == old(es).dylibs@[dj].bare
                && final(es).dylibs@[dj].default_tracker == old(es).dylibs@[dj].default_tracker
                && final(es).dylibs@[dj].entries@.len() == old(es).dylibs@[dj].entries@.len(),
        forall|dj: int, kk: int|
            0 <= dj < old(es).dylibs@.len() && 0 <= kk < old(es).dylibs@[dj].entries@.len()
                ==> (#[trigger] final(es).dylibs@[dj].entries@[kk]) == (if old(
                es,
            ).dylibs@[dj].entries@[kk].tracker == tid {
                DefEntry {
                    tracker: (match dest {
                        Some(d) => d,
                        None => old(es).dylibs@[dj].default_tracker,
                    }),
                    ..old(es).dylibs@[dj].entries@[kk]
                }
            } else {
                old(es).dylibs@[dj].entries@[kk]
            }),
{
    let ghost es0 = *es;
    let nd = es.dylibs.len();
    let mut dj: usize = 0;
    while dj < nd
        invariant
            dj <= nd,
            nd == es0.dylibs@.len(),
            es.pool == es0.pool,
            es.trackers == es0.trackers,
            es.units == es0.units,
            es.resps == es0.resps,
            es.deps == es0.deps,
            es.dylibs@.len() == es0.dylibs@.len(),
            forall|d2: int|
                0 <= d2 < nd ==> (#[trigger] es.dylibs@[d2]).name == es0.dylibs@[d2].name
                    && es.dylibs@[d2].bare == es0.dylibs@[d2].bare
                    && es.dylibs@[d2].default_tracker == es0.dylibs@[d2].default_tracker
                    && es.dylibs@[d2].entries@.len() == es0.dylibs@[d2].entries@.len(),
            forall|d2: int, kk: int|
                0 <= d2 < dj && 0 <= kk < es0.dylibs@[d2].entries@.len()
                    ==> (#[trigger] es.dylibs@[d2].entries@[kk]) == (if es0.dylibs@[d2].entries@[kk].tracker
                    == tid {
                    DefEntry {
                        tracker: (match dest {
                            Some(d) => d,
                            None => es0.dylibs@[d2].default_tracker,
                        }),
                        ..es0.dylibs@[d2].entries@[kk]
                    }
                } else {
                    es0.dylibs@[d2].entries@[kk]
                }),
            forall|d2: int, kk: int|
                dj <= d2 < nd && 0 <= kk < es0.dylibs@[d2].entries@.len()
                    ==> (#[trigger] es.dylibs@[d2].entries@[kk]) == es0.dylibs@[d2].entries@[kk],
        decreases nd - dj,
    {
        let new_tracker: usize = match dest {
            Some(d) => d,
            None => es.dylibs[dj].default_tracker,
        };
        let ne = es.dylibs[dj].entries.len();
        let mut kk: usize = 0;
        while kk < ne
            invariant
                kk <= ne,
                dj < nd,
                ne == es0.dylibs@[dj as int].entries@.len(),
                new_tracker == (match dest {
                    Some(d) => d,
                    None => es0.dylibs@[dj as int].default_tracker,
                }),
                es.pool == es0.pool,
                es.trackers == es0.trackers,
                es.units == es0.units,
                es.resps == es0.resps,
                es.deps == es0.deps,
                es.dylibs@.len() == es0.dylibs@.len(),
                forall|d2: int|
                    0 <= d2 < nd ==> (#[trigger] es.dylibs@[d2]).name == es0.dylibs@[d2].name
                        && es.dylibs@[d2].bare == es0.dylibs@[d2].bare
                        && es.dylibs@[d2].default_tracker == es0.dylibs@[d2].default_tracker
                        && es.dylibs@[d2].entries@.len() == es0.dylibs@[d2].entries@.len(),
                forall|d2: int, k2: int|
                    0 <= d2 < dj && 0 <= k2 < es0.dylibs@[d2].entries@.len()
                        ==> (#[trigger] es.dylibs@[d2].entries@[k2]) == (if es0.dylibs@[d2].entries@[k2].tracker
                        == tid {
                        DefEntry {
                            tracker: (match dest {
                                Some(d) => d,
                                None => es0.dylibs@[d2].default_tracker,
                            }),
                            ..es0.dylibs@[d2].entries@[k2]
                        }
                    } else {
                        es0.dylibs@[d2].entries@[k2]
                    }),
                forall|d2: int, k2: int|
                    dj < d2 < nd && 0 <= k2 < es0.dylibs@[d2].entries@.len()
                        ==> (#[trigger] es.dylibs@[d2].entries@[k2]) == es0.dylibs@[d2].entries@[k2],
                forall|k2: int|
                    0 <= k2 < kk ==> (#[trigger] es.dylibs@[dj as int].entries@[k2]) == (if es0.dylibs@[dj as int].entries@[k2].tracker
                        == tid {
                        DefEntry {
                            tracker: (match dest {
                                Some(d) => d,
                                None => es0.dylibs@[dj as int].default_tracker,
                            }),
                            ..es0.dylibs@[dj as int].entries@[k2]
                        }
                    } else {
                        es0.dylibs@[dj as int].entries@[k2]
                    }),
                forall|k2: int|
                    kk <= k2 < ne ==> (#[trigger] es.dylibs@[dj as int].entries@[k2])
                        == es0.dylibs@[dj as int].entries@[k2],
            decreases ne - kk,
        {
            let e = es.dylibs[dj].entries[kk];
            if e.tracker == tid {
                let e2 = DefEntry { tracker: new_tracker, ..e };
                es.dylibs[dj].entries.set(kk, e2);
            }
            kk = kk + 1;
        }
        dj = dj + 1;
    }
    proof {
        assert forall|d2: int, kk: int|
            0 <= d2 < es0.dylibs@.len() && 0 <= kk < es0.dylibs@[d2].entries@.len()
                implies (#[trigger] es.dylibs@[d2].entries@[kk]).tracker
                < es.trackers@.len() by {
            assert(es0.dylib_wf(d2));
            assert(es0.entry_state_ok(d2, es0.dylibs@[d2].entries@[kk]));
        }
        lemma_wf_after_field_only_change(es0, *es);
    }
}

/// Marks every definition owned by tracker `tid` as retracted.
#[verifier::loop_isolation(false)]
fn remove_covered(es: &mut ExecutionSession, tid: usize)
    requires
        old(es).wf(),
    ensures
        final(es).wf(),
        final(es).pool == old(es).pool,
        final(es).trackers == old(es).trackers,
        final(es).units == old(es).units,
        final(es).resps == old(es).resps,
        final(es).deps == old(es).deps,
        final(es).dylibs@.len() == old(es).dylibs@.len(),
        forall|dj: int|
            0 <= dj < old(es).dylibs@.len() ==> (#[trigger] final(es).dylibs@[dj]).name == old(
                es,
            ).dylibs@[dj].name && final(es).dylibs@[dj].bare == old(es).dylibs@[dj].bare
                && final(es).dylibs@[dj].default_tracker == old(es).dylibs@[dj].default_tracker
                && final(es).dylibs@[dj].entries@.len() == old(es).dylibs@[dj].entries@.len(),
        forall|dj: int, kk: int|
            0 <= dj < old(es).dylibs@.len() && 0 <= kk < old(es).dylibs@[dj].entries@.len()
                ==> (#[trigger] final(es).dylibs@[dj].entries@[kk]) == (if old(
                es,
            ).dylibs@[dj].entries@[kk].tracker == tid {
                DefEntry { state: DefState::Removed, ..old(es).dylibs@[dj].entries@[kk] }
            } else {
                old(es).dylibs@[dj].entries@[kk]
            }),
{
    let ghost es0 = *es;
    let nd = es.dylibs.len();
    let mut dj: usize = 0;
    while dj < nd
        invariant
            dj <= nd,
            nd == es0.dylibs@.len(),
            es.pool == es0.pool,
            es.trackers == es0.trackers,
            es.units == es0.units,
            es.resps == es0.resps,
            es.deps == es0.deps,
            es.dylibs@.len() == es0.dylibs@.len(),
            forall|d2: int|
                0 <= d2 < nd ==> (#[trigger] es.dylibs@[d2]).name == es0.dylibs@[d2].name
                    && es.dylibs@[d2].bare == es0.dylibs@[d2].bare
                    && es.dylibs@[d2].default_tracker == es0.dylibs@[d2].default_tracker
                    && es.dylibs@[d2].entries@.len() == es0.dylibs@[d2].entries@.len(),
            forall|d2: int, kk: int|
                0 <= d2 < dj && 0 <= kk < es0.dylibs@[d2].entries@.len()
                    ==> (#[trigger] es.dylibs@[d2].entries@[kk]) == (if es0.dylibs@[d2].entries@[kk].tracker
                    == tid {
                    DefEntry { state: DefState::Removed, ..es0.dylibs@[d2].entries@[kk] }
                } else {
                    es0.dylibs@[d2].entries@[kk]
                }),
            forall|d2: int, kk: int|
                dj <= d2 < nd && 0 <= kk < es0.dylibs@[d2].entries@.len()
                    ==> (#[trigger] es.dylibs@[d2].entries@[kk]) == es0.dylibs@[d2].entries@[kk],
        decreases nd - dj,
    {
        let ne = es.dylibs[dj].entries.len();
        let mut kk: usize = 0;
        while kk < ne
            invariant
                kk <= ne,
                dj < nd,
                ne == es0.dylibs@[dj as int].entries@.len(),
                es.pool == es0.pool,
                es.trackers == es0.trackers,
                es.units == es0.units,
                es.resps == es0.resps,
                es.deps == es0.deps,
                es.dylibs@.len() == es0.dylibs@.len(),
                forall|d2: int|
                    0 <= d2 < nd ==> (#[trigger] es.dylibs@[d2]).name == es0.dylibs@[d2].name
                        && es.dylibs@[d2].bare == es0.dylibs@[d2].bare
                        && es.dylibs@[d2].default_tracker == es0.dylibs@[d2].default_tracker
                        && es.dylibs@[d2].entries@.len() == es0.dylibs@[d2].entries@.len(),
                forall|d2: int, k2: int|
                    0 <= d2 < dj && 0 <= k2 < es0.dylibs@[d2].entries@.len()
                        ==> (#[trigger] es.dylibs@[d2].entries@[k2]) == (if es0.dylibs@[d2].entries@[k2].tracker
                        == tid {
                        DefEntry { state: DefState::Removed, ..es0.dylibs@[d2].entries@[k2] }
                    } else {
                        es0.dylibs@[d2].entries@[k2]
                    }),
                forall|d2: int, k2: int|
                    dj < d2 < nd && 0 <= k2 < es0.dylibs@[d2].entries@.len()
                        ==> (#[trigger] es.dylibs@[d2].entries@[k2]) == es0.dylibs@[d2].entries@[k2],
                forall|k2: int|
                    0 <= k2 < kk ==> (#[trigger] es.dylibs@[dj as int].entries@[k2]) == (if es0.dylibs@[dj as int].entries@[k2].tracker
                        == tid {
                        DefEntry {
                            state: DefState::Removed,
                            ..es0.dylibs@[dj as int].entries@[k2]
                        }
                    } else {
                        es0.dylibs@[dj as int].entries@[k2]
                    }),
                forall|k2: int|
                    kk <= k2 < ne ==> (#[trigger] es.dylibs@[dj as int].entries@[k2])
                        == es0.dylibs@[dj as int].entries@[k2],
            decreases ne - kk,
        {
            let e = es.dylibs[dj].entries[kk];
            if e.tracker == tid {
                let e2 = DefEntry { state: DefState::Removed, ..e };
                es.dylibs[dj].entries.set(kk, e2);
            }
            kk = kk + 1;
        }
        dj = dj + 1;
    }
    proof {
        lemma_wf_after_retraction(es0, *es);
    }
}

/// The invariant survives when only tracker assignments changed.
proof fn lemma_wf_after_field_only_change(es0: ExecutionSession, es1: ExecutionSession)
    requires
        es0.wf(),
        es1.pool == es0.pool,
        es1.trackers == es0.trackers,
        es1.units == es0.units,
        es1.resps == es0.resps,
        es1.deps == es0.deps,
        es1.dylibs@.len() == es0.dylibs@.len(),
        forall|d2: int|
            0 <= d2 < es0.dylibs@.len() ==> (#[trigger] es1.dylibs@[d2]).name
                == es0.dylibs@[d2].name && es1.dylibs@[d2].bare == es0.dylibs@[d2].bare
                && es1.dylibs@[d2].default_tracker == es0.dylibs@[d2].default_tracker
                && es1.dylibs@[d2].entries@.len() == es0.dylibs@[d2].entries@.len(),
        forall|d2: int, kk: int|
            0 <= d2 < es0.dylibs@.len() && 0 <= kk < es0.dylibs@[d2].entries@.len()
                ==> (#[trigger] es1.dylibs@[d2].entries@[kk]).name == es0.dylibs@[d2].entries@[kk].name
                && es1.dylibs@[d2].entries@[kk].state == es0.dylibs@[d2].entries@[kk].state
                && es1.dylibs@[d2].entries@[kk].tracker < es1.trackers@.len(),
    ensures
        es1.wf(),
{
    assert forall|dj: int| 0 <= dj < es1.dylibs@.len() implies es1.dylib_wf(dj) by {
        assert(es0.dylib_wf(dj));
        lemma_def_at_same_names(es0.dylibs@[dj].entries@, es1.dylibs@[dj].entries@);
        assert forall|kk: int|
            0 <= kk < es1.dylibs@[dj].entries@.len() implies es1.entry_state_ok(
            dj,
            #[trigger] es1.dylibs@[dj].entries@[kk],
        ) by {
            assert(es0.entry_state_ok(dj, es0.dylibs@[dj].entries@[kk]));
        }
    }
    assert forall|s: SymRef| #[trigger] es1.sym_failed(s) == es0.sym_failed(s) by {
        lemma_sym_views_same_states(es0, es1, s);
    }
    assert forall|s: SymRef| #[trigger] es1.sym_unemitted(s) implies es0.sym_unemitted(s) by {
        lemma_sym_views_same_states(es0, es1, s);
    }
    lemma_closure_preserved(es0, es1);
}

/// The invariant survives a pure retraction: some entries turned `Removed`,
/// nothing else moved.
proof fn lemma_wf_after_retraction(es0: ExecutionSession, es1: ExecutionSession)
    requires
        es0.wf(),
        es1.pool == es0.pool,
        es1.trackers == es0.trackers,
        es1.units == es0.units,
        es1.resps == es0.resps,
        es1.deps == es0.deps,
        es1.dylibs@.len() == es0.dylibs@.len(),
        forall|d2: int|
            0 <= d2 < es0.dylibs@.len() ==> (#[trigger] es1.dylibs@[d2]).name
                == es0.dylibs@[d2].name && es1.dylibs@[d2].bare == es0.dylibs@[d2].bare
                && es1.dylibs@[d2].default_tracker == es0.dylibs@[d2].default_tracker
                && es1.dylibs@[d2].entries@.len() == es0.dylibs@[d2].entries@.len(),
        forall|d2: int, kk: int|
            0 <= d2 < es0.dylibs@.len() && 0 <= kk < es0.dylibs@[d2].entries@.len()
                ==> (#[trigger] es1.dylibs@[d2].entries@[kk]).name == es0.dylibs@[d2].entries@[kk].name
                && es1.dylibs@[d2].entries@[kk].tracker == es0.dylibs@[d2].entries@[kk].tracker
                && (es1.dylibs@[d2].entries@[kk].state == es0.dylibs@[d2].entries@[kk].state
                || es1.dylibs@[d2].entries@[kk].state == DefState::Removed),
    ensures
        es1.wf(),
{
    assert forall|dj: int| 0 <= dj < es1.dylibs@.len() implies es1.dylib_wf(dj) by {
        assert(es0.dylib_wf(dj));
        lemma_def_at_same_names(es0.dylibs@[dj].entries@, es1.dylibs@[dj].entries@);
        assert forall|kk: int|
            0 <= kk < es1.dylibs@[dj].entries@.len() implies es1.entry_state_ok(
            dj,
            #[trigger] es1.dylibs@[dj].entries@[kk],
        ) by {
            assert(es0.entry_state_ok(dj, es0.dylibs@[dj].entries@[kk]));
        }
    }
    assert forall|s: SymRef| #[trigger] es1.sym_failed(s) implies es0.sym_failed(s) by {
        lemma_sym_views_removed_or_same(es0, es1, s);
    }
    assert forall|s: SymRef| #[trigger] es1.sym_unemitted(s) implies es0.sym_unemitted(s) by {
        lemma_sym_views_removed_or_same(es0, es1, s);
    }
    lemma_closure_preserved_weak(es0, es1);
}

/// How the per-symbol views read when entry states are untouched.
proof fn lemma_sym_views_same_states(es0: ExecutionSession, es1: ExecutionSession, s: SymRef)
    requires
        es0.wf(),
        es1.dylibs@.len() == es0.dylibs@.len(),
        forall|d2: int|
            0 <= d2 < es0.dylibs@.len() ==> (#[trigger] es1.dylibs@[d2]).entries@.len()
                == es0.dylibs@[d2].entries@.len(),
        forall|d2: int, kk: int|
            0 <= d2 < es0.dylibs@.len() && 0 <= kk < es0.dylibs@[d2].entries@.len()
                ==> (#[trigger] es1.dylibs@[d2].entries@[kk]).name == es0.dylibs@[d2].entries@[kk].name
                && es1.dylibs@[d2].entries@[kk].state == es0.dylibs@[d2].entries@[kk].state,
    ensures
        es1.sym_failed(s) == es0.sym_failed(s),
        es1.sym_unemitted(s) == es0.sym_unemitted(s),
{
    let dj = s.dylib as int;
    if 0 <= dj < es0.dylibs@.len() {
        assert(es0.dylib_wf(dj));
        lemma_def_at_same_names(es0.dylibs@[dj].entries@, es1.dylibs@[dj].entries@);
        if has_def(es0.dylibs@[dj].entries@, s.sym) {
            let kx = crate::session::idx_of(es0.dylibs@[dj].entries@, s.sym);
            assert(es1.dylibs@[dj].entries@[kx].state == es0.dylibs@[dj].entries@[kx].state);
        }
    }
}

/// How the per-symbol views read when some entries were retracted.
proof fn lemma_sym_views_removed_or_same(es0: ExecutionSession, es1: ExecutionSession, s: SymRef)
    requires
        es0.wf(),
        es1.dylibs@.len() == es0.dylibs@.len(),
        forall|d2: int|
            0 <= d2 < es0.dylibs@.len() ==> (#[trigger] es1.dylibs@[d2]).entries@.len()
                == es0.dylibs@[d2].entries@.len(),
        forall|d2: int, kk: int|
            0 <= d2 < es0.dylibs@.len() && 0 <= kk < es0.dylibs@[d2].entries@.len()
                ==> (#[trigger] es1.dylibs@[d2].entries@[kk]).name == es0.dylibs@[d2].entries@[kk].name
                && (es1.dylibs@[d2].entries@[kk].state == es0.dylibs@[d2].entries@[kk].state
                || es1.dylibs@[d2].entries@[kk].state == DefState::Removed),
    ensures
        es1.sym_failed(s) ==> es0.sym_failed(s),
        es1.sym_unemitted(s) ==> es0.sym_unemitted(s),
{
    let dj = s.dylib as int;
    if 0 <= dj < es0.dylibs@.len() {
        assert(es0.dylib_wf(dj));
        lemma_def_at_same_names(es0.dylibs@[dj].entries@, es1.dylibs@[dj].entries@);
        if has_def(es0.dylibs@[dj].entries@, s.sym) {
            let kx = crate::session::idx_of(es0.dylibs@[dj].entries@, s.sym);
            assert(es1.dylibs@[dj].entries@[kx].name == es0.dylibs@[dj].entries@[kx].name);
        }
    }
}

impl JITDylib {
    /// The always-present tracker that owns every definition not explicitly
    /// assigned elsewhere.  It cannot be released independently of the
    /// namespace.
    pub fn get_default_resource_tracker(&self, es: &ExecutionSession) -> (r: ResourceTracker)
        requires
            es.wf(),
            self.id < es.dylibs@.len(),
        ensures
            r.id == es.dylibs@[self.id as int].default_tracker,
            r.is_default,
            r.valid_in(*es),
    {
        proof {
            assert(es.dylib_wf(self.id as int));
        }
        ResourceTracker { id: es.dylibs[self.id].default_tracker, is_default: true }
    }

    /// Allocates a new, explicitly releasable tracker scoped to this
    /// namespace.
    pub fn create_resource_tracker(&self, es: &mut ExecutionSession) -> (r: ResourceTracker)
        requires
            old(es).wf(),
            self.id < old(es).dylibs@.len(),
        ensures
            final(es).wf(),
            final(es).pool == old(es).pool,
            final(es).dylibs == old(es).dylibs,
            final(es).units == old(es).units,
            final(es).resps == old(es).resps,
            final(es).deps == old(es).deps,
            final(es).trackers@.len() == old(es).trackers@.len() + 1,
            forall|t: int|
                0 <= t < old(es).trackers@.len() ==> final(es).trackers@[t] == old(
                    es,
                ).trackers@[t],
            r.id == old(es).trackers@.len(),
            !r.is_default,
            r.valid_in(*final(es)),
            final(es).trackers@[r.id as int].dylib == self.id,
            // the fresh tracker covers no definition yet
            forall|dj: int, kk: int|
                0 <= dj < old(es).dylibs@.len() && 0 <= kk < old(es).dylibs@[dj].entries@.len()
                    ==> (#[trigger] final(es).dylibs@[dj].entries@[kk]).tracker != r.id,
    {
        let t = es.trackers.len();
        es.trackers.push(TrackerRec { dylib: self.id, live: true, is_default: false });
        proof {
            assert forall|dj: int, kk: int|
                0 <= dj < old(es).dylibs@.len() && 0 <= kk < old(es).dylibs@[dj].entries@.len()
                    implies (#[trigger] es.dylibs@[dj].entries@[kk]).tracker != t by {
                assert(old(es).dylib_wf(dj));
                assert(old(es).entry_state_ok(dj, old(es).dylibs@[dj].entries@[kk]));
            }
            assert forall|dj: int| 0 <= dj < es.dylibs@.len() implies es.dylib_wf(dj) by {
                assert(old(es).dylib_wf(dj));
                assert(es.trackers@[es.dylibs@[dj].default_tracker as int] == old(
                    es,
                ).trackers@[old(es).dylibs@[dj].default_tracker as int]);
                assert forall|kk: int|
                    0 <= kk < es.dylibs@[dj].entries@.len() implies es.entry_state_ok(
                    dj,
                    #[trigger] es.dylibs@[dj].entries@[kk],
                ) by {
                    assert(old(es).entry_state_ok(dj, old(es).dylibs@[dj].entries@[kk]));
                }
            }
            assert forall|i: int| 0 <= i < es.deps@.len() implies !(es.sym_failed(
                (#[trigger] es.deps@[i]).dst,
            ) && es.sym_unemitted(es.deps@[i].src)) by {
                assert(!(old(es).sym_failed(old(es).deps@[i].dst) && old(es).sym_unemitted(
                    old(es).deps@[i].src,
                )));
            }
        }
        ResourceTracker { id: t, is_default: false }
    }

    /// Forcibly removes every definition of this namespace, failing all its
    /// pending work with full transitive propagation first — the equivalent
    /// of removing every tracker of the namespace.  Its explicitly created
    /// trackers die with it; the default tracker survives, empty.
    #[verifier::loop_isolation(false)]
    pub fn clear(&self, es: &mut ExecutionSession) -> (r: Result<(), OrcError>)
        requires
            old(es).wf(),
            self.id < old(es).dylibs@.len(),
        ensures
            final(es).wf(),
            r is Ok,
            final(es).pool == old(es).pool,
            final(es).units == old(es).units,
            final(es).resps == old(es).resps,
            final(es).deps == old(es).deps,
            final(es).dylibs@.len() == old(es).dylibs@.len(),
            // every definition of this namespace is gone
            forall|id: usize|
                #![trigger final(es).def_at(self.id as int, id)]
                match old(es).def_at(self.id as int, id) {
                    None => final(es).def_at(self.id as int, id) is None,
                    Some(e) => final(es).def_at(self.id as int, id) == Some(
                        DefEntry { state: DefState::Removed, ..e },
                    ) || (unemitted(e.state) && final(es).def_at(self.id as int, id) == Some(
                        DefEntry {
                            state: DefState::Removed,
                            ..(DefEntry { state: DefState::Failed, ..e })
                        },
                    )),
                },
            // failure propagated out of the namespace before the removal
            forall|s: SymRef|
                #[trigger] final(es).sym_failed(s) && !old(es).sym_failed(s) ==> old(
                    es,
                ).sym_unemitted(s) && s.dylib != self.id,
            // other namespaces read unchanged, except that pending work
            // depending on this namespace has failed
            forall|s: SymRef|
                #![trigger final(es).def_at(s.dylib as int, s.sym)]
                s.dylib != self.id ==> (match old(es).def_at(s.dylib as int, s.sym) {
                    None => final(es).def_at(s.dylib as int, s.sym) is None,
                    Some(e) => final(es).def_at(s.dylib as int, s.sym) == Some(e) || (unemitted(
                        e.state,
                    ) && final(es).def_at(s.dylib as int, s.sym) == Some(
                        DefEntry { state: DefState::Failed, ..e },
                    )),
                }),
            // the cascade is complete: edge-wise, a still-failable symbol
            // elsewhere that depended on a cleared (or since-failed) symbol
            // reads failed afterwards, which closes transitively
            forall|i: int|
                0 <= i < old(es).deps@.len() ==> (((old(es).sym_unemitted(
                    (#[trigger] old(es).deps@[i]).dst,
                ) && old(es).deps@[i].dst.dylib == self.id) || final(es).sym_failed(
                    old(es).deps@[i].dst,
                )) && old(es).sym_unemitted(old(es).deps@[i].src) && old(es).deps@[i].src.dylib
                    != self.id ==> final(es).sym_failed(old(es).deps@[i].src)),
            // this namespace's explicit trackers are dead, its default lives
            final(es).trackers@.len() == old(es).trackers@.len(),
            forall|t: int|
                0 <= t < old(es).trackers@.len() ==> final(es).trackers@[t] == (if old(
                    es,
                ).trackers@[t].dylib == self.id && !old(es).trackers@[t].is_default {
                    TrackerRec { live: false, ..old(es).trackers@[t] }
                } else {
                    old(es).trackers@[t]
                }),
    {
        let di = self.id;
        let ghost es0 = *es;
        proof {
            assert(es.dylib_wf(di as int));
        }
        // fail all pending work of this namespace, transitively
        let mut seed: Vec<SymRef> = Vec::new();
        let n = es.dylibs[di].entries.len();
        let mut i: usize = 0;
        while i < n
            invariant
                i <= n,
                n == es0.dylibs@[di as int].entries@.len(),
                seed@.no_duplicates(),
                forall|k: int|
                    0 <= k < seed@.len() ==> (#[trigger] seed@[k]).dylib == di
                        && es0.sym_unemitted(seed@[k]),
                forall|k: int|
                    0 <= k < seed@.len() ==> exists|kk: int|
                        0 <= kk < i && (#[trigger] es0.dylibs@[di as int].entries@[kk]).name.id
                            == (#[trigger] seed@[k]).sym,
                forall|kk: int|
                    0 <= kk < i && unemitted(es0.dylibs@[di as int].entries@[kk].state)
                        ==> seed@.contains(
                        SymRef {
                            dylib: di,
                            sym: (#[trigger] es0.dylibs@[di as int].entries@[kk]).name.id,
                        },
                    ),
            decreases n - i,
        {
            let e = es.dylibs[di].entries[i];
            let pending: bool = match e.state {
                DefState::Claimed { unit } => true,
                DefState::Materializing { resp } => true,
                DefState::Resolved { resp, symbol } => true,
                _ => false,
            };
            if pending {
                let ghost seed0 = seed@;
                let sr = SymRef { dylib: di, sym: e.name.id };
                proof {
                    lemma_idx_unique(es0.dylibs@[di as int].entries@, i as int);
                    assert(es0.def_at(di as int, e.name.id) == Some(e));
                    assert(!seed0.contains(sr)) by {
                        if seed0.contains(sr) {
                            let m = choose|m: int| 0 <= m < seed0.len() && seed0[m] == sr;
                            let kk = choose|kk: int|
                                0 <= kk < i && (#[trigger] es0.dylibs@[di as
                                int].entries@[kk]).name.id == seed0[m].sym;
                            assert(es0.dylibs@[di as int].entries@[kk].name.id == e.name.id);
                        }
                    }
                }
                seed.push(sr);
                proof {
                    assert forall|a: int, b: int|
                        0 <= a < seed@.len() && 0 <= b < seed@.len() && a != b
                            implies #[trigger] seed@[a] != #[trigger] seed@[b] by {
                        if a < seed0.len() && b < seed0.len() {
                            assert(seed0[a] != seed0[b]);
                        } else if b == seed0.len() {
                            assert(seed@[a] == seed0[a]);
                        } else {
                            assert(seed@[b] == seed0[b]);
                        }
                    }
                    assert forall|kk: int|
                        0 <= kk < i + 1 && unemitted(es0.dylibs@[di as int].entries@[kk].state)
                            implies seed@.contains(
                        SymRef {
                            dylib: di,
                            sym: (#[trigger] es0.dylibs@[di as int].entries@[kk]).name.id,
                        },
                    ) by {
                        if kk < i {
                            let srk = SymRef {
                                dylib: di,
                                sym: es0.dylibs@[di as int].entries@[kk].name.id,
                            };
                            assert(seed0.contains(srk));
                            let m = choose|m: int| 0 <= m < seed0.len() && seed0[m] == srk;
                            assert(seed@[m] == srk);
                        } else {
                            assert(seed@[seed@.len() - 1] == sr);
                        }
                    }
                }
            }
            i = i + 1;
        }
        proof {
            assert forall|s: SymRef|
                es0.sym_unemitted(s) && s.dylib == di implies seed@.contains(s) by {
                assert(has_def(es0.dylibs@[di as int].entries@, s.sym));
                let kx = crate::session::idx_of(es0.dylibs@[di as int].entries@, s.sym);
                assert(unemitted(es0.dylibs@[di as int].entries@[kx].state));
                assert(seed@.contains(
                    SymRef { dylib: di, sym: es0.dylibs@[di as int].entries@[kx].name.id },
                ));
            }
        }
        fail_symbols(es, seed);
        let ghost es_mid = *es;
        // retract every definition of the namespace
        let ne = es.dylibs[di].entries.len();
        let mut kk: usize = 0;
        while kk < ne
            invariant
                kk <= ne,
                ne == es_mid.dylibs@[di as int].entries@.len(),
                di < es.dylibs@.len(),
                es.pool == es_mid.pool,
                es.trackers == es_mid.trackers,
                es.units == es_mid.units,
                es.resps == es_mid.resps,
                es.deps == es_mid.deps,
                es.dylibs@.len() == es_mid.dylibs@.len(),
                forall|d2: int|
                    0 <= d2 < es.dylibs@.len() && d2 != di ==> es.dylibs@[d2] == es_mid.dylibs@[d2],
                es.dylibs@[di as int].name == es_mid.dylibs@[di as int].name,
                es.dylibs@[di as int].bare == es_mid.dylibs@[di as int].bare,
                es.dylibs@[di as int].default_tracker == es_mid.dylibs@[di as int].default_tracker,
                es.dylibs@[di as int].entries@.len() == ne,
                forall|k2: int|
                    0 <= k2 < kk ==> (#[trigger] es.dylibs@[di as int].entries@[k2]) == (DefEntry {
                        state: DefState::Removed,
                        ..es_mid.dylibs@[di as int].entries@[k2]
                    }),
                forall|k2: int|
                    kk <= k2 < ne ==> (#[trigger] es.dylibs@[di as int].entries@[k2])
                        == es_mid.dylibs@[di as int].entries@[k2],
            decreases ne - kk,
        {
            let e = es.dylibs[di].entries[kk];
            let e2 = DefEntry { state: DefState::Removed, ..e };
            es.dylibs[di].entries.set(kk, e2);
            kk = kk + 1;
        }
        proof {
            assert forall|d2: int, k2: int|
                0 <= d2 < es_mid.dylibs@.len() && 0 <= k2 < es_mid.dylibs@[d2].entries@.len()
                    implies (#[trigger] es.dylibs@[d2].entries@[k2]).name
                    == es_mid.dylibs@[d2].entries@[k2].name && (es.dylibs@[d2].entries@[k2].state
                    == es_mid.dylibs@[d2].entries@[k2].state || es.dylibs@[d2].entries@[k2].state
                    == DefState::Removed) by {
                if d2 != di {
                    assert(es.dylibs@[d2] == es_mid.dylibs@[d2]);
                }
            }
            assert forall|d2: int|
                0 <= d2 < es_mid.dylibs@.len() implies (#[trigger] es.dylibs@[d2]).name
                    == es_mid.dylibs@[d2].name && es.dylibs@[d2].bare == es_mid.dylibs@[d2].bare
                    && es.dylibs@[d2].default_tracker == es_mid.dylibs@[d2].default_tracker
                    && es.dylibs@[d2].entries@.len() == es_mid.dylibs@[d2].entries@.len() by {
                if d2 != di {
                    assert(es.dylibs@[d2] == es_mid.dylibs@[d2]);
                }
            }
            lemma_wf_after_retraction(es_mid, *es);
        }
        let ghost es_rm = *es;
        // the namespace's explicit trackers die
        let nt = es.trackers.len();
        let mut t: usize = 0;
        while t < nt
            invariant
                t <= nt,
                nt == es_rm.trackers@.len(),
                es.pool == es_rm.pool,
                es.dylibs == es_rm.dylibs,
                es.units == es_rm.units,
                es.resps == es_rm.resps,
                es.deps == es_rm.deps,
                es.trackers@.len() == nt,
                forall|t2: int|
                    0 <= t2 < t ==> (#[trigger] es.trackers@[t2]) == (if es_rm.trackers@[t2].dylib
                        == di && !es_rm.trackers@[t2].is_default {
                        TrackerRec { live: false, ..es_rm.trackers@[t2] }
                    } else {
                        es_rm.trackers@[t2]
                    }),
                forall|t2: int| t <= t2 < nt ==> (#[trigger] es.trackers@[t2]) == es_rm.trackers@[t2],
            decreases nt - t,
        {
            let tr = es.trackers[t];
            if tr.dylib == di && !tr.is_default {
                es.trackers.set(t, TrackerRec { live: false, ..tr });
            }
            t = t + 1;
        }
        proof {
            assert forall|dj: int| 0 <= dj < es.dylibs@.len() implies es.dylib_wf(dj) by {
                assert(es_rm.dylib_wf(dj));
                assert(es.trackers@[es.dylibs@[dj].default_tracker as int]
                    == es_rm.trackers@[es_rm.dylibs@[dj].default_tracker as int]);
                assert forall|k2: int|
                    0 <= k2 < es.dylibs@[dj].entries@.len() implies es.entry_state_ok(
                    dj,
                    #[trigger] es.dylibs@[dj].entries@[k2],
                ) by {
                    assert(es_rm.entry_state_ok(dj, es_rm.dylibs@[dj].entries@[k2]));
                }
            }
            assert forall|i2: int| 0 <= i2 < es.deps@.len() implies !(es.sym_failed(
                (#[trigger] es.deps@[i2]).dst,
            ) && es.sym_unemitted(es.deps@[i2].src)) by {
                assert(!(es_rm.sym_failed(es_rm.deps@[i2].dst) && es_rm.sym_unemitted(
                    es_rm.deps@[i2].src,
                )));
            }
            assert(es.wf());
            // the reading of this namespace, and of failures elsewhere
            assert forall|id: usize|
                #![trigger es.def_at(di as int, id)]
                match es0.def_at(di as int, id) {
                    None => es.def_at(di as int, id) is None,
                    Some(e) => es.def_at(di as int, id) == Some(
                        DefEntry { state: DefState::Removed, ..e },
                    ) || (unemitted(e.state) && es.def_at(di as int, id) == Some(
                        DefEntry {
                            state: DefState::Removed,
                            ..(DefEntry { state: DefState::Failed, ..e })
                        },
                    )),
                } by {
                assert(es0.dylib_wf(di as int));
                assert forall|k2: int|
                    0 <= k2 < es0.dylibs@[di as int].entries@.len() implies (
                #[trigger] es_mid.dylibs@[di as int].entries@[k2]).name == es0.dylibs@[di as
                    int].entries@[k2].name by {
                    assert(same_but_state(
                        es_mid.dylibs@[di as int].entries@[k2],
                        es0.dylibs@[di as int].entries@[k2],
                    ));
                }
                assert forall|k2: int|
                    0 <= k2 < es0.dylibs@[di as int].entries@.len() implies (
                #[trigger] es.dylibs@[di as int].entries@[k2]).name == es0.dylibs@[di as
                    int].entries@[k2].name by {
                    assert(same_but_state(
                        es_mid.dylibs@[di as int].entries@[k2],
                        es0.dylibs@[di as int].entries@[k2],
                    ));
                }
                lemma_def_at_same_names(
                    es0.dylibs@[di as int].entries@,
                    es_mid.dylibs@[di as int].entries@,
                );
                lemma_def_at_same_names(
                    es0.dylibs@[di as int].entries@,
                    es.dylibs@[di as int].entries@,
                );
                if has_def(es0.dylibs@[di as int].entries@, id) {
                    let kx = crate::session::idx_of(es0.dylibs@[di as int].entries@, id);
                    let s = SymRef { dylib: di, sym: id };
                    assert(match es0.def_at(s.dylib as int, s.sym) {
                        None => es_mid.def_at(s.dylib as int, s.sym) is None,
                        Some(e) => es_mid.def_at(s.dylib as int, s.sym) == Some(e) || (unemitted(
                            e.state,
                        ) && es_mid.def_at(s.dylib as int, s.sym) == Some(
                            DefEntry { state: DefState::Failed, ..e },
                        )),
                    });
                    assert(es_mid.def_at(di as int, id) == Some(
                        es_mid.dylibs@[di as int].entries@[kx],
                    ));
                    assert(es.dylibs@[di as int].entries@[kx] == (DefEntry {
                        state: DefState::Removed,
                        ..es_mid.dylibs@[di as int].entries@[kx]
                    }));
                    assert(es.def_at(di as int, id) == Some(es.dylibs@[di as int].entries@[kx]));
                }
            }
            assert forall|s: SymRef|
                #[trigger] es.sym_failed(s) && !es0.sym_failed(s) implies es0.sym_unemitted(s)
                && s.dylib != di by {
                assert(es.sym_failed(s) ==> es_mid.sym_failed(s)) by {
                    lemma_sym_views_removed_or_same(es_mid, es_rm, s);
                    assert(es.def_at(s.dylib as int, s.sym) == es_rm.def_at(
                        s.dylib as int,
                        s.sym,
                    ));
                }
                assert(es_mid.sym_failed(s) && !es0.sym_failed(s));
                if s.dylib == di {
                    assert(es.def_at(di as int, s.sym) is Some);
                    assert(es.def_at(di as int, s.sym)->Some_0.state is Failed);
                    assert(es0.dylib_wf(di as int));
                    assert forall|k2: int|
                        0 <= k2 < es0.dylibs@[di as int].entries@.len() implies (
                    #[trigger] es.dylibs@[di as int].entries@[k2]).name == es0.dylibs@[di as
                        int].entries@[k2].name by {
                        assert(same_but_state(
                            es_mid.dylibs@[di as int].entries@[k2],
                            es0.dylibs@[di as int].entries@[k2],
                        ));
                    }
                    lemma_def_at_same_names(
                        es0.dylibs@[di as int].entries@,
                        es.dylibs@[di as int].entries@,
                    );
                    assert(has_def(es0.dylibs@[di as int].entries@, s.sym));
                    let kx = crate::session::idx_of(es0.dylibs@[di as int].entries@, s.sym);
                    assert(es.dylibs@[di as int].entries@[kx].state == DefState::Removed);
                    assert(es.def_at(di as int, s.sym) == Some(
                        es.dylibs@[di as int].entries@[kx],
                    ));
                    assert(false);
                }
            }
            // other namespaces: the fail-phase reading carries to the final
            // state, since only this namespace's entries were retracted
            assert forall|s: SymRef|
                #![trigger es.def_at(s.dylib as int, s.sym)]
                s.dylib != di implies (match es0.def_at(s.dylib as int, s.sym) {
                None => es.def_at(s.dylib as int, s.sym) is None,
                Some(e) => es.def_at(s.dylib as int, s.sym) == Some(e) || (unemitted(e.state)
                    && es.def_at(s.dylib as int, s.sym) == Some(
                    DefEntry { state: DefState::Failed, ..e },
                )),
            }) by {
                assert(match es0.def_at(s.dylib as int, s.sym) {
                    None => es_mid.def_at(s.dylib as int, s.sym) is None,
                    Some(e) => es_mid.def_at(s.dylib as int, s.sym) == Some(e) || (unemitted(
                        e.state,
                    ) && es_mid.def_at(s.dylib as int, s.sym) == Some(
                        DefEntry { state: DefState::Failed, ..e },
                    )),
                });
                if 0 <= s.dylib < es0.dylibs@.len() {
                    assert(es.dylibs@[s.dylib as int] == es_mid.dylibs@[s.dylib as int]);
                }
            }
            // the cascade is complete, edge by edge
            assert forall|i2: int|
                0 <= i2 < es0.deps@.len() implies (((es0.sym_unemitted(
                (#[trigger] es0.deps@[i2]).dst,
            ) && es0.deps@[i2].dst.dylib == di) || es.sym_failed(es0.deps@[i2].dst))
                && es0.sym_unemitted(es0.deps@[i2].src) && es0.deps@[i2].src.dylib != di
                ==> es.sym_failed(es0.deps@[i2].src)) by {
                let sd = es0.deps@[i2].dst;
                let ss = es0.deps@[i2].src;
                if ((es0.sym_unemitted(sd) && sd.dylib == di) || es.sym_failed(sd))
                    && es0.sym_unemitted(ss) && ss.dylib != di {
                    // the target had already failed after the fail phase
                    if es0.sym_unemitted(sd) && sd.dylib == di {
                        assert(seed@.contains(sd));
                        let m = choose|m: int| 0 <= m < seed@.len() && seed@[m] == sd;
                        assert(es_mid.sym_failed(seed@[m]));
                    } else {
                        lemma_sym_views_removed_or_same(es_mid, es_rm, sd);
                        assert(es.def_at(sd.dylib as int, sd.sym) == es_rm.def_at(
                            sd.dylib as int,
                            sd.sym,
                        ));
                        assert(es_mid.sym_failed(sd));
                    }
                    // so its source was settled by the propagated-failure
                    // invariant of the fail phase — as failed, since it was
                    // still failable before
                    assert(es_mid.deps@[i2] == es0.deps@[i2]);
                    assert(!(es_mid.sym_failed(es_mid.deps@[i2].dst) && es_mid.sym_unemitted(
                        es_mid.deps@[i2].src,
                    )));
                    assert(!es_mid.sym_unemitted(ss));
                    assert(match es0.def_at(ss.dylib as int, ss.sym) {
                        None => es_mid.def_at(ss.dylib as int, ss.sym) is None,
                        Some(e) => es_mid.def_at(ss.dylib as int, ss.sym) == Some(e) || (
                        unemitted(e.state) && es_mid.def_at(ss.dylib as int, ss.sym) == Some(
                            DefEntry { state: DefState::Failed, ..e },
                        )),
                    });
                    assert(es_mid.sym_failed(ss));
                    assert(es.dylibs@[ss.dylib as int] == es_mid.dylibs@[ss.dylib as int]);
                    assert(es.def_at(ss.dylib as int, ss.sym) == es_mid.def_at(
                        ss.dylib as int,
                        ss.sym,
                    ));
                }
            }
        }
        Ok(())
    }
}

impl ResourceTracker {
    /// Moves ownership of every definition this tracker covers to
    /// `destination` — possibly a tracker of another namespace — preserving
    /// each definition's state.  No materializer callback is involved; a
    /// tracker covering nothing transfers nothing.
    pub fn transfer_to(&self, es: &mut ExecutionSession, destination: &ResourceTracker)
        requires
            old(es).wf(),
            self.valid_in(*old(es)),
            destination.valid_in(*old(es)),
            destination.id != self.id,
        ensures
            final(es).wf(),
            final(es).pool == old(es).pool,
            final(es).trackers == old(es).trackers,
            final(es).units == old(es).units,
            final(es).resps == old(es).resps,
            final(es).deps == old(es).deps,
            final(es).dylibs@.len() == old(es).dylibs@.len(),
            forall|dj: int|
                0 <= dj < old(es).dylibs@.len() ==> (#[trigger] final(es).dylibs@[dj]).name == old(
                    es,
                ).dylibs@[dj].name && final(es).dylibs@[dj].bare == old(es).dylibs@[dj].bare
                    && final(es).dylibs@[dj].default_tracker == old(es).dylibs@[dj].default_tracker
                    && final(es).dylibs@[dj].entries@.len() == old(es).dylibs@[dj].entries@.len(),
            forall|dj: int, kk: int|
                0 <= dj < old(es).dylibs@.len() && 0 <= kk < old(es).dylibs@[dj].entries@.len()
                    ==> (#[trigger] final(es).dylibs@[dj].entries@[kk]) == (if old(
                    es,
                ).dylibs@[dj].entries@[kk].tracker == self.id {
                    DefEntry { tracker: destination.id, ..old(es).dylibs@[dj].entries@[kk] }
                } else {
                    old(es).dylibs@[dj].entries@[kk]
                }),
            // afterwards this tracker covers nothing
            forall|dj: int, kk: int|
                0 <= dj < old(es).dylibs@.len() && 0 <= kk < old(es).dylibs@[dj].entries@.len()
                    ==> (#[trigger] final(es).dylibs@[dj].entries@[kk]).tracker != self.id,
    {
        retag_covered(es, self.id, Some(destination.id));
    }

    /// Atomically retracts every definition this tracker covers, first
    /// failing — with full transitive propagation — every covered symbol
    /// that was still pending or resolved.  Consumes the tracker; a
    /// responsibility whose symbols were retracted can never emit and must be
    /// failed by its owner.  Removing a namespace's default tracker empties
    /// it but the default tracker itself survives.
    #[verifier::loop_isolation(false)]
    pub fn remove(self, es: &mut ExecutionSession) -> (r: Result<(), OrcError>)
        requires
            old(es).wf(),
            self.valid_in(*old(es)),
        ensures
            final(es).wf(),
            r is Ok,
            final(es).pool == old(es).pool,
            final(es).units == old(es).units,
            final(es).resps == old(es).resps,
            final(es).deps == old(es).deps,
            final(es).dylibs@.len() == old(es).dylibs@.len(),
            // every covered definition is gone; uncovered pending work that
            // depended on covered pending work has failed
            forall|s: SymRef|
                #![trigger final(es).def_at(s.dylib as int, s.sym)]
                match old(es).def_at(s.dylib as int, s.sym) {
                    None => final(es).def_at(s.dylib as int, s.sym) is None,
                    Some(e) => if e.tracker == self.id {
                        final(es).def_at(s.dylib as int, s.sym) == Some(
                            DefEntry { state: DefState::Removed, ..e },
                        ) || (unemitted(e.state) && final(es).def_at(s.dylib as int, s.sym)
                            == Some(
                            DefEntry {
                                state: DefState::Removed,
                                ..(DefEntry { state: DefState::Failed, ..e })
                            },
                        ))
                    } else {
                        final(es).def_at(s.dylib as int, s.sym) == Some(e) || (unemitted(e.state)
                            && final(es).def_at(s.dylib as int, s.sym) == Some(
                            DefEntry { state: DefState::Failed, ..e },
                        ))
                    },
                },
            forall|s: SymRef|
                covered_unemitted(*old(es), self.id, s) ==> (match final(es).def_at(
                    s.dylib as int,
                    s.sym,
                ) {
                    Some(e) => e.state is Removed,
                    None => false,
                }),
            // the tracker record: dead unless it is a namespace's default
            final(es).trackers@.len() == old(es).trackers@.len(),
            forall|t: int|
                0 <= t < old(es).trackers@.len() && t != self.id ==> final(es).trackers@[t] == old(
                    es,
                ).trackers@[t],
            self.is_default ==> final(es).trackers == old(es).trackers,
            !self.is_default ==> final(es).trackers@[self.id as int] == (TrackerRec {
                live: false,
                ..old(es).trackers@[self.id as int]
            }),
    {
        let tid = self.id;
        let ghost es0 = *es;
        // collect the covered symbols that can still fail
        let mut seed: Vec<SymRef> = Vec::new();
        let nd = es.dylibs.len();
        let mut dj: usize = 0;
        while dj < nd
            invariant
                dj <= nd,
                nd == es0.dylibs@.len(),
                *es == es0,
                seed@.no_duplicates(),
                forall|k: int|
                    0 <= k < seed@.len() ==> es0.sym_unemitted(#[trigger] seed@[k])
                        && covered_unemitted(es0, tid, seed@[k]) && (#[trigger] seed@[k]).dylib
                        < nd,
                forall|k: int| 0 <= k < seed@.len() ==> (#[trigger] seed@[k]).dylib < dj,
                forall|d2: usize, kk: int|
                    d2 < dj && 0 <= kk < es0.dylibs@[d2 as int].entries@.len() && (
                    #[trigger] es0.dylibs@[d2 as int].entries@[kk]).tracker == tid && unemitted(
                        es0.dylibs@[d2 as int].entries@[kk].state,
                    ) ==> seed@.contains(
                        SymRef { dylib: d2, sym: es0.dylibs@[d2 as int].entries@[kk].name.id },
                    ),
            decreases nd - dj,
        {
            let ne = es.dylibs[dj].entries.len();
            let mut kk: usize = 0;
            while kk < ne
                invariant
                    kk <= ne,
                    dj < nd,
                    nd == es0.dylibs@.len(),
                    ne == es0.dylibs@[dj as int].entries@.len(),
                    *es == es0,
                    seed@.no_duplicates(),
                    forall|k: int|
                        0 <= k < seed@.len() ==> es0.sym_unemitted(#[trigger] seed@[k])
                            && covered_unemitted(es0, tid, seed@[k]) && (#[trigger] seed@[k]).dylib
                            < nd,
                    forall|k: int|
                        0 <= k < seed@.len() ==> ((#[trigger] seed@[k]).dylib < dj || (
                        seed@[k].dylib == dj && exists|k2: int|
                            0 <= k2 < kk && (#[trigger] es0.dylibs@[dj as
                            int].entries@[k2]).name.id == seed@[k].sym)),
                    forall|d2: usize, k2: int|
                        d2 < dj && 0 <= k2 < es0.dylibs@[d2 as int].entries@.len() && (
                        #[trigger] es0.dylibs@[d2 as int].entries@[k2]).tracker == tid
                            && unemitted(es0.dylibs@[d2 as int].entries@[k2].state)
                            ==> seed@.contains(
                            SymRef {
                                dylib: d2,
                                sym: es0.dylibs@[d2 as int].entries@[k2].name.id,
                            },
                        ),
                    forall|k2: int|
                        0 <= k2 < kk && (#[trigger] es0.dylibs@[dj as int].entries@[k2]).tracker
                            == tid && unemitted(es0.dylibs@[dj as int].entries@[k2].state)
                            ==> seed@.contains(
                            SymRef {
                                dylib: dj,
                                sym: es0.dylibs@[dj as int].entries@[k2].name.id,
                            },
                        ),
                decreases ne - kk,
            {
                let e = es.dylibs[dj].entries[kk];
                let pend: bool = match e.state {
                    DefState::Claimed { unit } => true,
                    DefState::Materializing { resp } => true,
                    DefState::Resolved { resp, symbol } => true,
                    _ => false,
                };
                if e.tracker == tid && pend {
                    let ghost seed0 = seed@;
                    let sr = SymRef { dylib: dj, sym: e.name.id };
                    proof {
                        assert(es0.dylib_wf(dj as int));
                        lemma_idx_unique(es0.dylibs@[dj as int].entries@, kk as int);
                        assert(es0.def_at(dj as int, e.name.id) == Some(e));
                        assert(!seed0.contains(sr)) by {
                            if seed0.contains(sr) {
                                let m = choose|m: int| 0 <= m < seed0.len() && seed0[m] == sr;
                                assert(seed0[m].dylib == dj);
                                let k2 = choose|k2: int|
                                    0 <= k2 < kk && (#[trigger] es0.dylibs@[dj as
                                    int].entries@[k2]).name.id == seed0[m].sym;
                                assert(es0.dylibs@[dj as int].entries@[k2].name.id == e.name.id);
                            }
                        }
                    }
                    seed.push(sr);
                    proof {
                        assert forall|a: int, b: int|
                            0 <= a < seed@.len() && 0 <= b < seed@.len() && a != b
                                implies #[trigger] seed@[a] != #[trigger] seed@[b] by {
                            if a < seed0.len() && b < seed0.len() {
                                assert(seed0[a] != seed0[b]);
                            } else if b == seed0.len() {
                                assert(seed@[a] == seed0[a]);
                            } else {
                                assert(seed@[b] == seed0[b]);
                            }
                        }
                        assert forall|k2: int|
                            0 <= k2 < kk + 1 && (#[trigger] es0.dylibs@[dj as
                            int].entries@[k2]).tracker == tid && unemitted(
                            es0.dylibs@[dj as int].entries@[k2].state,
                        ) implies seed@.contains(
                            SymRef {
                                dylib: dj,
                                sym: es0.dylibs@[dj as int].entries@[k2].name.id,
                            },
                        ) by {
                            if k2 < kk {
                                let srk = SymRef {
                                    dylib: dj,
                                    sym: es0.dylibs@[dj as int].entries@[k2].name.id,
                                };
                                assert(seed0.contains(srk));
                                let m = choose|m: int| 0 <= m < seed0.len() && seed0[m] == srk;
                                assert(seed@[m] == srk);
                            } else {
                                assert(seed@[seed@.len() - 1] == sr);
                            }
                        }
                        assert forall|d2: usize, k2: int|
                            d2 < dj && 0 <= k2 < es0.dylibs@[d2 as int].entries@.len() && (
                            #[trigger] es0.dylibs@[d2 as int].entries@[k2]).tracker == tid
                                && unemitted(es0.dylibs@[d2 as int].entries@[k2].state)
                                implies seed@.contains(
                            SymRef {
                                dylib: d2,
                                sym: es0.dylibs@[d2 as int].entries@[k2].name.id,
                            },
                        ) by {
                            let srk = SymRef {
                                dylib: d2,
                                sym: es0.dylibs@[d2 as int].entries@[k2].name.id,
                            };
                            assert(seed0.contains(srk));
                            let m = choose|m: int| 0 <= m < seed0.len() && seed0[m] == srk;
                            assert(seed@[m] == srk);
                        }
                    }
                }
                kk = kk + 1;
            }
            proof {
                assert forall|d2: usize, k2: int|
                    d2 < dj + 1 && 0 <= k2 < es0.dylibs@[d2 as int].entries@.len() && (
                    #[trigger] es0.dylibs@[d2 as int].entries@[k2]).tracker == tid && unemitted(
                    es0.dylibs@[d2 as int].entries@[k2].state,
                ) implies seed@.contains(
                    SymRef { dylib: d2, sym: es0.dylibs@[d2 as int].entries@[k2].name.id },
                ) by {}
            }
            dj = dj + 1;
        }
        proof {
            assert forall|s: SymRef| covered_unemitted(es0, tid, s) implies seed@.contains(s) by {
                assert(s.dylib < es0.dylibs@.len());
                assert(es0.dylib_wf(s.dylib as int));
                assert(has_def(es0.dylibs@[s.dylib as int].entries@, s.sym));
                let kx = crate::session::idx_of(es0.dylibs@[s.dylib as int].entries@, s.sym);
                assert(es0.dylibs@[s.dylib as int].entries@[kx].tracker == tid && unemitted(
                    es0.dylibs@[s.dylib as int].entries@[kx].state,
                ));
                assert(seed@.contains(
                    SymRef {
                        dylib: s.dylib,
                        sym: es0.dylibs@[s.dylib as int].entries@[kx].name.id,
                    },
                ));
            }
        }
        fail_symbols(es, seed);
        let ghost es_mid = *es;
        remove_covered(es, tid);
        let ghost es_rm = *es;
        if !self.is_default {
            let tr = es.trackers[tid];
            es.trackers.set(tid, TrackerRec { live: false, ..tr });
        }
        proof {
            assert forall|dj2: int| 0 <= dj2 < es.dylibs@.len() implies es.dylib_wf(dj2) by {
                assert(es_rm.dylib_wf(dj2));
                assert(es0.dylib_wf(dj2));
                assert(es.trackers@[es.dylibs@[dj2].default_tracker as int]
                    == es0.trackers@[es0.dylibs@[dj2].default_tracker as int]) by {
                    if !self.is_default {
                        assert(es0.trackers@[tid as int].is_default == false);
                        assert(es0.dylibs@[dj2].default_tracker != tid) by {
                            if es0.dylibs@[dj2].default_tracker == tid {
                                assert(es0.trackers@[tid as int].is_default);
                            }
                        }
                    }
                }
                assert forall|k2: int|
                    0 <= k2 < es.dylibs@[dj2].entries@.len() implies es.entry_state_ok(
                    dj2,
                    #[trigger] es.dylibs@[dj2].entries@[k2],
                ) by {
                    assert(es_rm.entry_state_ok(dj2, es_rm.dylibs@[dj2].entries@[k2]));
                }
            }
            assert forall|i2: int| 0 <= i2 < es.deps@.len() implies !(es.sym_failed(
                (#[trigger] es.deps@[i2]).dst,
            ) && es.sym_unemitted(es.deps@[i2].src)) by {
                assert(!(es_rm.sym_failed(es_rm.deps@[i2].dst) && es_rm.sym_unemitted(
                    es_rm.deps@[i2].src,
                )));
            }
            assert(es.wf());
            // how each symbol reads now
            assert forall|s: SymRef|
                #![trigger es.def_at(s.dylib as int, s.sym)]
                match es0.def_at(s.dylib as int, s.sym) {
                    None => es.def_at(s.dylib as int, s.sym) is None,
                    Some(e) => if e.tracker == tid {
                        es.def_at(s.dylib as int, s.sym) == Some(
                            DefEntry { state: DefState::Removed, ..e },
                        ) || (unemitted(e.state) && es.def_at(s.dylib as int, s.sym) == Some(
                            DefEntry {
                                state: DefState::Removed,
                                ..(DefEntry { state: DefState::Failed, ..e })
                            },
                        ))
                    } else {
                        es.def_at(s.dylib as int, s.sym) == Some(e) || (unemitted(e.state)
                            && es.def_at(s.dylib as int, s.sym) == Some(
                            DefEntry { state: DefState::Failed, ..e },
                        ))
                    },
                } by {
                self.lemma_remove_reading(es0, es_mid, es_rm, *es, tid, s);
            }
            assert forall|s: SymRef| covered_unemitted(es0, tid, s) implies (match es.def_at(
                s.dylib as int,
                s.sym,
            ) {
                Some(e) => e.state is Removed,
                None => false,
            }) by {
                self.lemma_remove_reading(es0, es_mid, es_rm, *es, tid, s);
            }
        }
        Ok(())
    }

    /// How one symbol reads after the retraction pass of `remove`.
    proof fn lemma_remove_reading(
        self,
        es0: ExecutionSession,
        es_mid: ExecutionSession,
        es_rm: ExecutionSession,
        es_fin: ExecutionSession,
        tid: usize,
        s: SymRef,
    )
        requires
            es0.wf(),
            es_mid.wf(),
            es_mid.dylibs@.len() == es0.dylibs@.len(),
            forall|dj: int|
                0 <= dj < es0.dylibs@.len() ==> (#[trigger] es_mid.dylibs@[dj]).entries@.len()
                    == es0.dylibs@[dj].entries@.len(),
            forall|s2: SymRef|
                #![trigger es_mid.def_at(s2.dylib as int, s2.sym)]
                match es0.def_at(s2.dylib as int, s2.sym) {
                    None => es_mid.def_at(s2.dylib as int, s2.sym) is None,
                    Some(e) => es_mid.def_at(s2.dylib as int, s2.sym) == Some(e) || (unemitted(
                        e.state,
                    ) && es_mid.def_at(s2.dylib as int, s2.sym) == Some(
                        DefEntry { state: DefState::Failed, ..e },
                    )),
                },
            es_rm.dylibs@.len() == es_mid.dylibs@.len(),
            forall|dj: int|
                0 <= dj < es_mid.dylibs@.len() ==> (#[trigger] es_rm.dylibs@[dj]).entries@.len()
                    == es_mid.dylibs@[dj].entries@.len(),
            forall|dj: int, kk: int|
                0 <= dj < es_mid.dylibs@.len() && 0 <= kk < es_mid.dylibs@[dj].entries@.len()
                    ==> (#[trigger] es_rm.dylibs@[dj].entries@[kk]) == (if es_mid.dylibs@[dj].entries@[kk].tracker
                    == tid {
                    DefEntry { state: DefState::Removed, ..es_mid.dylibs@[dj].entries@[kk] }
                } else {
                    es_mid.dylibs@[dj].entries@[kk]
                }),
            es_fin.dylibs == es_rm.dylibs,
        ensures
            match es0.def_at(s.dylib as int, s.sym) {
                None => es_fin.def_at(s.dylib as int, s.sym) is None,
                Some(e) => if e.tracker == tid {
                    es_fin.def_at(s.dylib as int, s.sym) == Some(
                        DefEntry { state: DefState::Removed, ..e },
                    ) || (unemitted(e.state) && es_fin.def_at(s.dylib as int, s.sym) == Some(
                        DefEntry {
                            state: DefState::Removed,
                            ..(DefEntry { state: DefState::Failed, ..e })
                        },
                    ))
                } else {
                    es_fin.def_at(s.dylib as int, s.sym) == Some(e) || (unemitted(e.state)
                        && es_fin.def_at(s.dylib as int, s.sym) == Some(
                        DefEntry { state: DefState::Failed, ..e },
                    ))
                },
            },
            covered_unemitted(es0, tid, s) ==> (match es_fin.def_at(s.dylib as int, s.sym) {
                Some(e) => e.state is Removed,
                None => false,
            }),
    {
        let dj = s.dylib as int;
        if 0 <= dj < es0.dylibs@.len() {
            assert(es0.dylib_wf(dj));
            assert(es_mid.def_at(dj, s.sym) == es_mid.def_at(s.dylib as int, s.sym));
            assert(es_mid.dylib_wf(dj));
            if has_def(es0.dylibs@[dj].entries@, s.sym) {
                let kx = crate::session::idx_of(es0.dylibs@[dj].entries@, s.sym);
                // the entry names are preserved through both passes
                assert(match es0.def_at(s.dylib as int, s.sym) {
                    None => es_mid.def_at(s.dylib as int, s.sym) is None,
                    Some(e) => es_mid.def_at(s.dylib as int, s.sym) == Some(e) || (unemitted(
                        e.state,
                    ) && es_mid.def_at(s.dylib as int, s.sym) == Some(
                        DefEntry { state: DefState::Failed, ..e },
                    )),
                });
                assert(es_mid.def_at(dj, s.sym) is Some);
                assert(has_def(es_mid.dylibs@[dj].entries@, s.sym));
                let km = crate::session::idx_of(es_mid.dylibs@[dj].entries@, s.sym);
                assert(es_mid.def_at(dj, s.sym) == Some(es_mid.dylibs@[dj].entries@[km]));
                lemma_def_at_same_names(es_mid.dylibs@[dj].entries@, es_rm.dylibs@[dj].entries@);
                assert(es_rm.def_at(dj, s.sym) == Some(es_rm.dylibs@[dj].entries@[km]));
                assert(es_fin.def_at(dj, s.sym) == es_rm.def_at(dj, s.sym));
            } else {
                assert(es0.def_at(dj, s.sym) is None);
                assert(es_mid.def_at(s.dylib as int, s.sym) is None);
                assert(!has_def(es_mid.dylibs@[dj].entries@, s.sym));
                assert(es_mid.dylib_wf(dj));
                lemma_def_at_same_names(es_mid.dylibs@[dj].entries@, es_rm.dylibs@[dj].entries@);
                assert(!has_def(es_rm.dylibs@[dj].entries@, s.sym));
                assert(es_fin.def_at(dj, s.sym) is None);
            }
        }
    }
}


impl ResourceTracker {
    /// Releases the handle without removing or transferring anything: the
    /// definitions an explicitly created tracker covers fold back into their
    /// namespace's default tracker, their states untouched.  A default
    /// tracker cannot be released independently of its namespace; releasing
    /// it changes nothing.
    pub fn release(self, es: &mut ExecutionSession)
        requires
            old(es).wf(),
            self.valid_in(*old(es)),
        ensures
            final(es).wf(),
            final(es).pool == old(es).pool,
            final(es).units == old(es).units,
            final(es).resps == old(es).resps,
            final(es).deps == old(es).deps,
            final(es).dylibs@.len() == old(es).dylibs@.len(),
            self.is_default ==> *final(es) == *old(es),
            !self.is_default ==> {
                &&& forall|dj: int, kk: int|
                    0 <= dj < old(es).dylibs@.len() && 0 <= kk < old(es).dylibs@[dj].entries@.len()
                        ==> (#[trigger] final(es).dylibs@[dj].entries@[kk]) == (if old(
                        es,
                    ).dylibs@[dj].entries@[kk].tracker == self.id {
                        DefEntry {
                            tracker: old(es).dylibs@[dj].default_tracker,
                            ..old(es).dylibs@[dj].entries@[kk]
                        }
                    } else {
                        old(es).dylibs@[dj].entries@[kk]
                    })
                &&& final(es).trackers@.len() == old(es).trackers@.len()
                &&& forall|t: int|
                    0 <= t < old(es).trackers@.len() && t != self.id ==> final(es).trackers@[t]
                        == old(es).trackers@[t]
                &&& final(es).trackers@[self.id as int] == (TrackerRec {
                    live: false,
                    ..old(es).trackers@[self.id as int]
                })
            },
    {
        if self.is_default {
            return;
        }
        let tid = self.id;
        retag_covered(es, tid, None);
        let ghost es_rt = *es;
        let tr = es.trackers[tid];
        es.trackers.set(tid, TrackerRec { live: false, ..tr });
        proof {
            assert forall|dj2: int| 0 <= dj2 < es.dylibs@.len() implies es.dylib_wf(dj2) by {
                assert(es_rt.dylib_wf(dj2));
                assert(es.trackers@[es.dylibs@[dj2].default_tracker as int]
                    == old(es).trackers@[old(es).dylibs@[dj2].default_tracker as int]) by {
                    assert(old(es).trackers@[tid as int].is_default == false);
                    assert(old(es).dylibs@[dj2].default_tracker != tid) by {
                        if old(es).dylibs@[dj2].default_tracker == tid {
                            assert(old(es).dylib_wf(dj2));
                            assert(old(es).trackers@[tid as int].is_default);
                        }
                    }
                }
                assert forall|k2: int|
                    0 <= k2 < es.dylibs@[dj2].entries@.len() implies es.entry_state_ok(
                    dj2,
                    #[trigger] es.dylibs@[dj2].entries@[k2],
                ) by {
                    assert(es_rt.entry_state_ok(dj2, es_rt.dylibs@[dj2].entries@[k2]));
                }
            }
            assert forall|i2: int| 0 <= i2 < es.deps@.len() implies !(es.sym_failed(
                (#[trigger] es.deps@[i2]).dst,
            ) && es.sym_unemitted(es.deps@[i2].src)) by {
                assert(!(es_rt.sym_failed(es_rt.deps@[i2].dst) && es_rt.sym_unemitted(
                    es_rt.deps@[i2].src,
                )));
            }
            assert(es.wf());
        }
    }
}

} // verus!
