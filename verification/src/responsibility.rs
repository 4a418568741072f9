//! The live token for one in-flight materialization, and the state-machine
//! steps it drives: resolution, emission, failure with propagation,
//! delegation and replacement.

use vstd::prelude::*;

use crate::error::OrcError;
use crate::deps::DependenceMapPairs;
use crate::pool::{SymbolStringPoolEntries, SymbolStringPoolEntry};
use crate::deps::{acyclic, edge_in, lemma_acyclic_narrow, lemma_fail_set_bound, sym_vec_contains, SymRef};
use crate::session::{
    contains_sym, distinct_ids, distinct_sym_ids, find_idx, has_def, lemma_closure_preserved,
    lemma_def_at_same_names, lemma_idx_unique, lemma_push_entry, lemma_update_entry,
    same_but_state, unemitted,
    DefEntry, DefState, ExecutionSession, JITDylib, RespRec, UnitRec,
};
use crate::unit::{decl_contains, decl_distinct, decl_pairs, MaterializationUnit, UnitKind};
use crate::symbol::{SymbolFlagsMapPair, SymbolFlagsMapPairs, SymbolMapPair, SymbolMapPairs};

verus! {

/// The single-use token issued when a materializer begins work: it governs
/// the symbols the materializer is responsible for.  It is consumed by
/// `notify_emitted` (on success) and `fail_materialization`; the type is
/// deliberately neither `Clone` nor `Copy`, so a consumed token cannot be
/// used again.
#[derive(Debug)]
#[must_use]
pub struct MaterializationResponsibility {
    pub id: usize,
}

/// No two pairs of an address map name the same symbol.
pub open spec fn distinct_map_ids(pairs: Seq<SymbolMapPair>) -> bool {
    forall|k: int, l: int|
        0 <= k < pairs.len() && 0 <= l < pairs.len() && k != l ==> pairs[k].name.id
            != pairs[l].name.id
}

/// The address map names this symbol.
pub open spec fn map_contains(pairs: Seq<SymbolMapPair>, id: usize) -> bool {
    exists|k: int| 0 <= k < pairs.len() && pairs[k].name.id == id
}

impl MaterializationResponsibility {
    /// The token is live in this session.
    pub open spec fn live_in(self, es: ExecutionSession) -> bool {
        self.id < es.resps@.len() && es.resps@[self.id as int].live
    }

    /// The namespace this responsibility materializes into.
    pub open spec fn dylib_of(self, es: ExecutionSession) -> int {
        es.resps@[self.id as int].dylib as int
    }

    /// Every named symbol is currently pending under this responsibility.
    pub open spec fn all_pending(self, es: ExecutionSession, pairs: Seq<SymbolMapPair>) -> bool {
        forall|k: int|
            0 <= k < pairs.len() ==> (match es.def_at(
                self.dylib_of(es),
                (#[trigger] pairs[k]).name.id,
            ) {
                Some(e) => e.state == (DefState::Materializing { resp: self.id }),
                None => false,
            })
    }

    /// The target namespace.
    pub fn get_target_jit_dylib(&self, es: &ExecutionSession) -> (r: JITDylib)
        requires
            self.live_in(*es),
        ensures
            r.id == es.resps@[self.id as int].dylib,
    {
        JITDylib { id: es.resps[self.id].dylib }
    }

    /// The static-initializer symbol the claiming unit declared, if any.
    pub fn get_static_initializer_symbol(&self, es: &ExecutionSession) -> (r: Option<
        SymbolStringPoolEntry,
    >)
        requires
            self.live_in(*es),
        ensures
            r == es.resps@[self.id as int].init,
    {
        es.resps[self.id].init
    }

    /// The symbols this responsibility governs, with their flags.
    pub fn get_symbols(&self, es: &ExecutionSession) -> (r: SymbolFlagsMapPairs)
        requires
            self.live_in(*es),
        ensures
            r.pairs@ == es.resps@[self.id as int].syms@,
    {
        let mut out: Vec<SymbolFlagsMapPair> = Vec::new();
        let n = es.resps[self.id].syms.len();
        let mut i: usize = 0;
        while i < n
            invariant
                self.live_in(*es),
                n == es.resps@[self.id as int].syms@.len(),
                i <= n,
                out@ == es.resps@[self.id as int].syms@.take(i as int),
            decreases n - i,
        {
            out.push(es.resps[self.id].syms[i]);
            proof {
                assert(es.resps@[self.id as int].syms@.take(i + 1) == es.resps@[self.id as
                    int].syms@.take(i as int).push(es.resps@[self.id as int].syms@[i as int]));
            }
            i = i + 1;
        }
        proof {
            assert(es.resps@[self.id as int].syms@.take(n as int) == es.resps@[self.id as
                int].syms@);
        }
        SymbolFlagsMapPairs { pairs: out }
    }

    /// The governed symbols that some lookup actually asked for: a
    /// materializer may do only the requested work and hand the rest on.
    pub fn get_requested_symbols(&self, es: &ExecutionSession) -> (r: SymbolStringPoolEntries)
        requires
            es.wf(),
            self.live_in(*es),
        ensures
            r.entries@.no_duplicates(),
            forall|k: int|
                #![trigger r.entries@[k]]
                0 <= k < r.entries@.len() ==> (exists|m: int|
                    0 <= m < es.resps@[self.id as int].syms@.len() && (#[trigger] es.resps@[self.id as
                    int].syms@[m]).name == r.entries@[k]) && (match es.def_at(
                    self.dylib_of(*es),
                    r.entries@[k].id,
                ) {
                    Some(e) => e.requested,
                    None => false,
                }),
            forall|m: int|
                0 <= m < es.resps@[self.id as int].syms@.len() && (match es.def_at(
                    self.dylib_of(*es),
                    (#[trigger] es.resps@[self.id as int].syms@[m]).name.id,
                ) {
                    Some(e) => e.requested,
                    None => false,
                }) ==> r.entries@.contains(es.resps@[self.id as int].syms@[m].name),
    {
        let rid = self.id;
        let di = es.resps[rid].dylib;
        proof {
            assert(es.dylib_wf(di as int));
        }
        let mut out: Vec<SymbolStringPoolEntry> = Vec::new();
        let n = es.resps[rid].syms.len();
        let mut i: usize = 0;
        while i < n
            invariant
                es.wf(),
                self.live_in(*es),
                di == es.resps@[rid as int].dylib,
                di < es.dylibs@.len(),
                rid == self.id,
                n == es.resps@[rid as int].syms@.len(),
                i <= n,
                out@.no_duplicates(),
                forall|k: int|
                    0 <= k < out@.len() ==> exists|m: int|
                        0 <= m < i && (#[trigger] es.resps@[rid as int].syms@[m]).name
                            == #[trigger] out@[k],
                forall|k: int|
                    #![trigger out@[k]]
                    0 <= k < out@.len() ==> (exists|m: int|
                        0 <= m < n && (#[trigger] es.resps@[rid as int].syms@[m]).name
                            == out@[k]) && (match es.def_at(di as int, out@[k].id) {
                        Some(e) => e.requested,
                        None => false,
                    }),
                forall|m: int|
                    0 <= m < i && (match es.def_at(
                        di as int,
                        (#[trigger] es.resps@[rid as int].syms@[m]).name.id,
                    ) {
                        Some(e) => e.requested,
                        None => false,
                    }) ==> out@.contains(es.resps@[rid as int].syms@[m].name),
            decreases n - i,
        {
            proof {
                assert(es.dylib_wf(di as int));
            }
            let name = es.resps[rid].syms[i].name;
            let req: bool = match find_idx(&es.dylibs[di].entries, name.id) {
                Some(k) => {
                    proof {
                        lemma_idx_unique(es.dylibs@[di as int].entries@, k as int);
                    }
                    es.dylibs[di].entries[k].requested
                },
                None => false,
            };
            if req {
                let ghost out0 = out@;
                proof {
                    assert(distinct_sym_ids(es.resps@[rid as int].syms@));
                    assert(!out0.contains(name)) by {
                        if out0.contains(name) {
                            let k = choose|k: int| 0 <= k < out0.len() && out0[k] == name;
                            let m = choose|m: int|
                                0 <= m < i && (#[trigger] es.resps@[rid as int].syms@[m]).name
                                    == out0[k];
                            assert(es.resps@[rid as int].syms@[m].name.id == es.resps@[rid as
                                int].syms@[i as int].name.id);
                        }
                    }
                }
                out.push(name);
                proof {
                    assert forall|a: int, b: int|
                        0 <= a < out@.len() && 0 <= b < out@.len() && a != b
                            implies #[trigger] out@[a] != #[trigger] out@[b] by {
                        if a < out0.len() && b < out0.len() {
                            assert(out0[a] != out0[b]);
                        } else if b == out0.len() {
                            assert(out@[a] == out0[a]);
                        } else {
                            assert(out@[b] == out0[b]);
                        }
                    }
                    assert forall|k: int|
                        0 <= k < out@.len() implies exists|m: int|
                        0 <= m < i + 1 && (#[trigger] es.resps@[rid as int].syms@[m]).name
                            == #[trigger] out@[k] by {
                        if k < out0.len() {
                            assert(out@[k] == out0[k]);
                            let m = choose|m: int|
                                0 <= m < i && (#[trigger] es.resps@[rid as int].syms@[m]).name
                                    == out0[k];
                        } else {
                            assert(es.resps@[rid as int].syms@[i as int].name == out@[k]);
                        }
                    }
                    assert forall|m: int|
                        0 <= m < i + 1 && (match es.def_at(
                            di as int,
                            (#[trigger] es.resps@[rid as int].syms@[m]).name.id,
                        ) {
                            Some(e) => e.requested,
                            None => false,
                        }) implies out@.contains(es.resps@[rid as int].syms@[m].name) by {
                        if m < i {
                            assert(out0.contains(es.resps@[rid as int].syms@[m].name));
                            let k = choose|k: int|
                                0 <= k < out0.len() && out0[k] == es.resps@[rid as
                                int].syms@[m].name;
                            assert(out@[k] == es.resps@[rid as int].syms@[m].name);
                        } else {
                            assert(out@[out@.len() - 1] == es.resps@[rid as int].syms@[m].name);
                        }
                    }
                }
            }
            i = i + 1;
        }
        SymbolStringPoolEntries { entries: out }
    }

    /// Reports resolved addresses for a subset of this responsibility's
    /// pending symbols: each moves from pending to resolved.  Naming a symbol
    /// outside the responsibility, or one no longer pending under it, is an
    /// error and changes nothing.
    #[verifier::loop_isolation(false)]
    pub fn notify_resolved(&self, es: &mut ExecutionSession, symbols: SymbolMapPairs) -> (r:
        Result<(), OrcError>)
        requires
            old(es).wf(),
            self.live_in(*old(es)),
            distinct_map_ids(symbols.pairs@),
        ensures
            final(es).wf(),
            self.live_in(*final(es)),
            final(es).pool == old(es).pool,
            final(es).trackers == old(es).trackers,
            final(es).units == old(es).units,
            final(es).resps == old(es).resps,
            final(es).deps == old(es).deps,
            final(es).dylibs@.len() == old(es).dylibs@.len(),
            forall|k: int|
                0 <= k < old(es).dylibs@.len() && k != self.dylib_of(*old(es))
                    ==> final(es).dylibs@[k] == old(es).dylibs@[k],
            match r {
                Ok(()) => {
                    &&& self.all_pending(*old(es), symbols.pairs@)
                    &&& forall|k: int|
                        0 <= k < symbols.pairs@.len() ==> final(es).def_at(
                            self.dylib_of(*old(es)),
                            (#[trigger] symbols.pairs@[k]).name.id,
                        ) == Some(
                            DefEntry {
                                state: DefState::Resolved {
                                    resp: self.id,
                                    symbol: symbols.pairs@[k].symbol,
                                },
                                ..old(es).def_at(
                                    self.dylib_of(*old(es)),
                                    symbols.pairs@[k].name.id,
                                )->Some_0
                            },
                        )
                    &&& forall|id: usize|
                        #![trigger final(es).def_at(self.dylib_of(*old(es)), id)]
                        !map_contains(symbols.pairs@, id) ==> final(es).def_at(
                            self.dylib_of(*old(es)),
                            id,
                        ) == old(es).def_at(self.dylib_of(*old(es)), id)
                },
                Err(e) => {
                    &&& e == OrcError::UnknownSymbol
                    &&& *final(es) == *old(es)
                    &&& !self.all_pending(*old(es), symbols.pairs@)
                },
            },
    {
        let rid = self.id;
        let di = es.resps[rid].dylib;
        proof {
            assert(old(es).resps@[rid as int].live);
            assert(di < es.dylibs@.len());
            assert(es.dylib_wf(di as int));
        }
        let n = symbols.pairs.len();
        let mut i: usize = 0;
        while i < n
            invariant
                i <= n,
                forall|k: int|
                    0 <= k < i ==> (match es.def_at(di as int, (#[trigger] symbols.pairs@[k]).name.id) {
                        Some(e) => e.state == (DefState::Materializing { resp: rid }),
                        None => false,
                    }),
            decreases n - i,
        {
            let p = symbols.pairs[i];
            let okk: bool = match find_idx(&es.dylibs[di].entries, p.name.id) {
                Some(k) => {
                    proof {
                        lemma_idx_unique(es.dylibs@[di as int].entries@, k as int);
                    }
                    match es.dylibs[di].entries[k].state {
                        DefState::Materializing { resp } => resp == rid,
                        _ => false,
                    }
                },
                None => false,
            };
            if !okk {
                return Err(OrcError::UnknownSymbol);
            }
            i = i + 1;
        }
        let ghost es1 = *es;
        let mut i: usize = 0;
        while i < n
            invariant
                i <= n,
                es.pool == es1.pool,
                es.trackers == es1.trackers,
                es.units == es1.units,
                es.resps == es1.resps,
                es.deps == es1.deps,
                es.dylibs@.len() == es1.dylibs@.len(),
                forall|k: int|
                    0 <= k < es.dylibs@.len() && k != di ==> es.dylibs@[k] == es1.dylibs@[k],
                es.dylibs@[di as int].name == es1.dylibs@[di as int].name,
                es.dylibs@[di as int].bare == es1.dylibs@[di as int].bare,
                es.dylibs@[di as int].default_tracker == es1.dylibs@[di as int].default_tracker,
                distinct_ids(es.dylibs@[di as int].entries@),
                forall|k: int|
                    0 <= k < i ==> es.def_at(di as int, (#[trigger] symbols.pairs@[k]).name.id)
                        == Some(
                        DefEntry {
                            state: DefState::Resolved {
                                resp: rid,
                                symbol: symbols.pairs@[k].symbol,
                            },
                            ..es1.def_at(di as int, symbols.pairs@[k].name.id)->Some_0
                        },
                    ),
                forall|id: usize|
                    #![trigger es.def_at(di as int, id)]
                    !map_contains(symbols.pairs@.take(i as int), id) ==> es.def_at(di as int, id)
                        == es1.def_at(di as int, id),
                forall|k: int|
                    0 <= k < es.dylibs@[di as int].entries@.len() ==> es.entry_state_ok(
                        di as int,
                        #[trigger] es.dylibs@[di as int].entries@[k],
                    ),
            decreases n - i,
        {
            let p = symbols.pairs[i];
            let ghost ent0 = es.dylibs@[di as int].entries@;
            let ghost es_before = *es;
            proof {
                assert(!map_contains(symbols.pairs@.take(i as int), p.name.id)) by {
                    if map_contains(symbols.pairs@.take(i as int), p.name.id) {
                        let k = choose|k: int|
                            0 <= k < i && symbols.pairs@.take(i as int)[k].name.id == p.name.id;
                        assert(symbols.pairs@[k].name.id == symbols.pairs@[i as int].name.id);
                    }
                }
                assert(es.def_at(di as int, p.name.id) == es1.def_at(di as int, p.name.id));
            }
            let k: usize = match find_idx(&es.dylibs[di].entries, p.name.id) {
                Some(k) => k,
                None => {
                    proof {
                        assert(false);
                    }
                    0
                },
            };
            proof {
                lemma_idx_unique(es.dylibs@[di as int].entries@, k as int);
            }
            let e = es.dylibs[di].entries[k];
            let e2 = DefEntry {
                state: DefState::Resolved { resp: rid, symbol: p.symbol },
                ..e
            };
            es.dylibs[di].entries.set(k, e2);
            proof {
                lemma_update_entry(ent0, k as int, e2);
                assert(symbols.pairs@.take(i + 1) == symbols.pairs@.take(i as int).push(
                    symbols.pairs@[i as int],
                ));
                assert forall|kk: int|
                    0 <= kk < i + 1 implies es.def_at(
                    di as int,
                    (#[trigger] symbols.pairs@[kk]).name.id,
                ) == Some(
                    DefEntry {
                        state: DefState::Resolved {
                            resp: rid,
                            symbol: symbols.pairs@[kk].symbol,
                        },
                        ..es1.def_at(di as int, symbols.pairs@[kk].name.id)->Some_0
                    },
                ) by {
                    if kk < i {
                        assert(symbols.pairs@[kk].name.id != p.name.id);
                        assert(es_before.def_at(di as int, symbols.pairs@[kk].name.id) == Some(
                            DefEntry {
                                state: DefState::Resolved {
                                    resp: rid,
                                    symbol: symbols.pairs@[kk].symbol,
                                },
                                ..es1.def_at(di as int, symbols.pairs@[kk].name.id)->Some_0
                            },
                        ));
                    }
                }
                assert forall|id: usize|
                    #![trigger es.def_at(di as int, id)]
                    !map_contains(symbols.pairs@.take(i + 1), id) implies es.def_at(di as int, id)
                    == es1.def_at(di as int, id) by {
                    assert(!map_contains(symbols.pairs@.take(i as int), id)) by {
                        if map_contains(symbols.pairs@.take(i as int), id) {
                            let m = choose|m: int|
                                0 <= m < i && symbols.pairs@.take(i as int)[m].name.id == id;
                            assert(symbols.pairs@.take(i + 1)[m].name.id == id);
                        }
                    }
                    assert(id != p.name.id) by {
                        if id == p.name.id {
                            assert(symbols.pairs@.take(i + 1)[i as int].name.id == id);
                        }
                    }
                    assert(es_before.def_at(di as int, id) == es1.def_at(di as int, id));
                }
                assert forall|kk: int|
                    0 <= kk < es.dylibs@[di as int].entries@.len() implies es.entry_state_ok(
                    di as int,
                    #[trigger] es.dylibs@[di as int].entries@[kk],
                ) by {
                    let en = es.dylibs@[di as int].entries@[kk];
                    if kk == k {
                        assert(es_before.entry_state_ok(di as int, e));
                        assert(es.resp_owns(di as int, rid, e2.name.id));
                    } else {
                        assert(en == ent0[kk]);
                        assert(es_before.entry_state_ok(di as int, en));
                    }
                }
            }
            i = i + 1;
        }
        proof {
            assert(symbols.pairs@.take(n as int) == symbols.pairs@);
            assert forall|s: crate::deps::SymRef| #[trigger] es.sym_failed(s) == es1.sym_failed(
                s,
            ) by {
                if s.dylib == di && map_contains(symbols.pairs@, s.sym) {
                    let k = choose|k: int|
                        0 <= k < symbols.pairs@.len() && symbols.pairs@[k].name.id == s.sym;
                    assert(es.def_at(di as int, symbols.pairs@[k].name.id) == Some(
                        DefEntry {
                            state: DefState::Resolved {
                                resp: rid,
                                symbol: symbols.pairs@[k].symbol,
                            },
                            ..es1.def_at(di as int, symbols.pairs@[k].name.id)->Some_0
                        },
                    ));
                } else {
                    if s.dylib == di {
                        assert(es.def_at(di as int, s.sym) == es1.def_at(di as int, s.sym));
                    } else {
                        if 0 <= s.dylib < es.dylibs@.len() {
                            assert(es.dylibs@[s.dylib as int] == es1.dylibs@[s.dylib as int]);
                        }
                    }
                }
            }
            assert forall|s: crate::deps::SymRef| #[trigger] es.sym_unemitted(s) implies es1.sym_unemitted(
                s,
            ) by {
                if s.dylib == di && map_contains(symbols.pairs@, s.sym) {
                    let k = choose|k: int|
                        0 <= k < symbols.pairs@.len() && symbols.pairs@[k].name.id == s.sym;
                    assert(es.def_at(di as int, symbols.pairs@[k].name.id) == Some(
                        DefEntry {
                            state: DefState::Resolved {
                                resp: rid,
                                symbol: symbols.pairs@[k].symbol,
                            },
                            ..es1.def_at(di as int, symbols.pairs@[k].name.id)->Some_0
                        },
                    ));
                    assert(es1.sym_unemitted(s));
                } else {
                    if s.dylib == di {
                        assert(es.def_at(di as int, s.sym) == es1.def_at(di as int, s.sym));
                    } else {
                        if 0 <= s.dylib < es.dylibs@.len() {
                            assert(es.dylibs@[s.dylib as int] == es1.dylibs@[s.dylib as int]);
                        }
                    }
                }
            }
            lemma_closure_preserved(es1, *es);
            assert forall|dj: int| 0 <= dj < es.dylibs@.len() implies es.dylib_wf(dj) by {
                assert(es1.dylib_wf(dj));
                if dj != di {
                    assert(es.dylibs@[dj] == es1.dylibs@[dj]);
                    assert forall|kk: int|
                        0 <= kk < es.dylibs@[dj].entries@.len() implies es.entry_state_ok(
                        dj,
                        #[trigger] es.dylibs@[dj].entries@[kk],
                    ) by {
                        assert(es1.entry_state_ok(dj, es1.dylibs@[dj].entries@[kk]));
                    }
                }
            }
            assert(es.wf());
        }
        Ok(())
    }

    /// Every governed symbol is currently resolved under this responsibility.
    pub open spec fn all_resolved(self, es: ExecutionSession) -> bool {
        forall|k: int|
            0 <= k < es.resps@[self.id as int].syms@.len() ==> (match es.def_at(
                self.dylib_of(es),
                (#[trigger] es.resps@[self.id as int].syms@[k]).name.id,
            ) {
                Some(e) => e.state is Resolved && e.state->Resolved_resp == self.id,
                None => false,
            })
    }

    /// The named symbol is still governed by this responsibility: pending or
    /// resolved under it in its namespace.
    pub open spec fn governs(self, es: ExecutionSession, id: usize) -> bool {
        match es.def_at(self.dylib_of(es), id) {
            Some(e) => e.state == (DefState::Materializing { resp: self.id }) || (e.state
                is Resolved && e.state->Resolved_resp == self.id),
            None => false,
        }
    }

    /// `s` is a symbol of this responsibility's namespace that is currently
    /// pending or resolved under it — exactly what `fail_materialization`
    /// seeds the failure with.
    pub open spec fn owns_unemitted(self, es: ExecutionSession, s: SymRef) -> bool {
        s.dylib == es.resps@[self.id as int].dylib && (match es.def_at(s.dylib as int, s.sym) {
            Some(e) => e.state == (DefState::Materializing { resp: self.id }) || (e.state
                is Resolved && e.state->Resolved_resp == self.id),
            None => false,
        })
    }

    /// Declares materialization complete: requires every governed symbol to
    /// be resolved, makes them all visible to lookups, and consumes the
    /// responsibility.  If any symbol is still pending — or has been failed
    /// by a dependency's failure — nothing changes and the token is handed
    /// back with the error, so the caller can retry, inspect state, or fail
    /// outright.
    #[verifier::loop_isolation(false)]
    pub fn notify_emitted(self, es: &mut ExecutionSession) -> (r: Result<
        (),
        (MaterializationResponsibility, OrcError),
    >)
        requires
            old(es).wf(),
            self.live_in(*old(es)),
        ensures
            final(es).wf(),
            final(es).pool == old(es).pool,
            final(es).trackers == old(es).trackers,
            final(es).units == old(es).units,
            final(es).deps == old(es).deps,
            final(es).dylibs@.len() == old(es).dylibs@.len(),
            forall|k: int|
                0 <= k < old(es).dylibs@.len() && k != self.dylib_of(*old(es))
                    ==> final(es).dylibs@[k] == old(es).dylibs@[k],
            match r {
                Ok(()) => {
                    &&& self.all_resolved(*old(es))
                    &&& forall|k: int|
                        0 <= k < old(es).resps@[self.id as int].syms@.len() ==> final(es).def_at(
                            self.dylib_of(*old(es)),
                            (#[trigger] old(es).resps@[self.id as int].syms@[k]).name.id,
                        ) == Some(
                            DefEntry {
                                state: DefState::Emitted {
                                    symbol: old(es).def_at(
                                        self.dylib_of(*old(es)),
                                        old(es).resps@[self.id as int].syms@[k].name.id,
                                    )->Some_0.state->Resolved_symbol,
                                },
                                ..old(es).def_at(
                                    self.dylib_of(*old(es)),
                                    old(es).resps@[self.id as int].syms@[k].name.id,
                                )->Some_0
                            },
                        )
                    &&& forall|id: usize|
                        #![trigger final(es).def_at(self.dylib_of(*old(es)), id)]
                        !contains_sym(old(es).resps@[self.id as int].syms@, id)
                            ==> final(es).def_at(self.dylib_of(*old(es)), id) == old(es).def_at(
                            self.dylib_of(*old(es)),
                            id,
                        )
                    &&& final(es).resps@.len() == old(es).resps@.len()
                    &&& forall|k: int|
                        0 <= k < old(es).resps@.len() && k != self.id ==> final(es).resps@[k]
                            == old(es).resps@[k]
                    &&& !final(es).resps@[self.id as int].live
                    &&& final(es).resps@[self.id as int].dylib == old(es).resps@[self.id as
                        int].dylib
                    &&& final(es).resps@[self.id as int].syms == old(es).resps@[self.id as
                        int].syms
                },
                Err((mr, e)) => {
                    &&& mr.id == self.id
                    &&& e == OrcError::PrematureEmission
                    &&& *final(es) == *old(es)
                    &&& !self.all_resolved(*old(es))
                },
            },
    {
        let rid = self.id;
        let di = es.resps[rid].dylib;
        proof {
            assert(old(es).resps@[rid as int].live);
            assert(di < es.dylibs@.len());
            assert(es.dylib_wf(di as int));
        }
        let n = es.resps[rid].syms.len();
        let mut i: usize = 0;
        while i < n
            invariant
                i <= n,
                forall|k: int|
                    0 <= k < i ==> (match es.def_at(
                        di as int,
                        (#[trigger] es.resps@[rid as int].syms@[k]).name.id,
                    ) {
                        Some(e) => e.state is Resolved && e.state->Resolved_resp == rid,
                        None => false,
                    }),
            decreases n - i,
        {
            let name = es.resps[rid].syms[i].name;
            let okk: bool = match find_idx(&es.dylibs[di].entries, name.id) {
                Some(k) => {
                    proof {
                        lemma_idx_unique(es.dylibs@[di as int].entries@, k as int);
                    }
                    match es.dylibs[di].entries[k].state {
                        DefState::Resolved { resp, symbol } => resp == rid,
                        _ => false,
                    }
                },
                None => false,
            };
            if !okk {
                return Err((self, OrcError::PrematureEmission));
            }
            i = i + 1;
        }
        let ghost es1 = *es;
        let mut i: usize = 0;
        while i < n
            invariant
                i <= n,
                es.pool == es1.pool,
                es.trackers == es1.trackers,
                es.units == es1.units,
                es.resps == es1.resps,
                es.deps == es1.deps,
                es.dylibs@.len() == es1.dylibs@.len(),
                forall|k: int|
                    0 <= k < es.dylibs@.len() && k != di ==> es.dylibs@[k] == es1.dylibs@[k],
                es.dylibs@[di as int].name == es1.dylibs@[di as int].name,
                es.dylibs@[di as int].bare == es1.dylibs@[di as int].bare,
                es.dylibs@[di as int].default_tracker == es1.dylibs@[di as int].default_tracker,
                distinct_ids(es.dylibs@[di as int].entries@),
                forall|k: int|
                    0 <= k < i ==> es.def_at(
                        di as int,
                        (#[trigger] es1.resps@[rid as int].syms@[k]).name.id,
                    ) == Some(
                        DefEntry {
                            state: DefState::Emitted {
                                symbol: es1.def_at(
                                    di as int,
                                    es1.resps@[rid as int].syms@[k].name.id,
                                )->Some_0.state->Resolved_symbol,
                            },
                            ..es1.def_at(di as int, es1.resps@[rid as int].syms@[k].name.id)->Some_0
                        },
                    ),
                forall|id: usize|
                    #![trigger es.def_at(di as int, id)]
                    !contains_sym(es1.resps@[rid as int].syms@.take(i as int), id) ==> es.def_at(
                        di as int,
                        id,
                    ) == es1.def_at(di as int, id),
                forall|k: int|
                    0 <= k < es.dylibs@[di as int].entries@.len() ==> es.entry_state_ok(
                        di as int,
                        #[trigger] es.dylibs@[di as int].entries@[k],
                    ),
            decreases n - i,
        {
            let name = es.resps[rid].syms[i].name;
            let ghost ent0 = es.dylibs@[di as int].entries@;
            let ghost es_before = *es;
            proof {
                if !contains_sym(es1.resps@[rid as int].syms@.take(i as int), name.id) {
                    assert(es.def_at(di as int, name.id) == es1.def_at(di as int, name.id));
                    assert(es1.def_at(di as int, es1.resps@[rid as int].syms@[i as int].name.id)
                        is Some);
                } else {
                    let m = choose|m: int|
                        0 <= m < i && es1.resps@[rid as int].syms@.take(i as int)[m].name.id
                            == name.id;
                    assert(es.def_at(di as int, (es1.resps@[rid as int].syms@[m]).name.id)
                        is Some);
                }
            }
            let k: usize = match find_idx(&es.dylibs[di].entries, name.id) {
                Some(k) => k,
                None => {
                    proof {
                        assert(false);
                    }
                    0
                },
            };
            proof {
                lemma_idx_unique(es.dylibs@[di as int].entries@, k as int);
            }
            let e = es.dylibs[di].entries[k];
            let already: bool = match e.state {
                DefState::Emitted { symbol } => true,
                _ => false,
            };
            if !already {
                let sym = match e.state {
                    DefState::Resolved { resp, symbol } => symbol,
                    _ => {
                        proof {
                            if !contains_sym(es1.resps@[rid as int].syms@.take(i as int), name.id) {
                                assert(es.def_at(di as int, name.id) == es1.def_at(
                                    di as int,
                                    name.id,
                                ));
                                assert(es1.def_at(
                                    di as int,
                                    es1.resps@[rid as int].syms@[i as int].name.id,
                                )->Some_0.state is Resolved);
                            } else {
                                let m = choose|m: int|
                                    0 <= m < i && es1.resps@[rid as int].syms@.take(
                                        i as int,
                                    )[m].name.id == name.id;
                                assert(es.def_at(
                                    di as int,
                                    (es1.resps@[rid as int].syms@[m]).name.id,
                                )->Some_0.state is Emitted);
                            }
                            assert(false);
                        }
                        crate::symbol::EvaluatedSymbol { address: 0, flags: e.flags }
                    },
                };
                let e2 = DefEntry { state: DefState::Emitted { symbol: sym }, ..e };
                es.dylibs[di].entries.set(k, e2);
                proof {
                    lemma_update_entry(ent0, k as int, e2);
                }
            }
            proof {
                assert(es1.resps@[rid as int].syms@.take(i + 1) == es1.resps@[rid as
                    int].syms@.take(i as int).push(es1.resps@[rid as int].syms@[i as int]));
                assert forall|kk: int|
                    0 <= kk < i + 1 implies es.def_at(
                    di as int,
                    (#[trigger] es1.resps@[rid as int].syms@[kk]).name.id,
                ) == Some(
                    DefEntry {
                        state: DefState::Emitted {
                            symbol: es1.def_at(
                                di as int,
                                es1.resps@[rid as int].syms@[kk].name.id,
                            )->Some_0.state->Resolved_symbol,
                        },
                        ..es1.def_at(di as int, es1.resps@[rid as int].syms@[kk].name.id)->Some_0
                    },
                ) by {
                    let id = es1.resps@[rid as int].syms@[kk].name.id;
                    if kk < i {
                        if id != name.id {
                            assert(es_before.def_at(di as int, id) == Some(
                                DefEntry {
                                    state: DefState::Emitted {
                                        symbol: es1.def_at(
                                            di as int,
                                            id,
                                        )->Some_0.state->Resolved_symbol,
                                    },
                                    ..es1.def_at(di as int, id)->Some_0
                                },
                            ));
                        } else {
                            assert(es_before.def_at(di as int, id) == Some(
                                DefEntry {
                                    state: DefState::Emitted {
                                        symbol: es1.def_at(
                                            di as int,
                                            id,
                                        )->Some_0.state->Resolved_symbol,
                                    },
                                    ..es1.def_at(di as int, id)->Some_0
                                },
                            ));
                            assert(es.def_at(di as int, id) == es_before.def_at(di as int, id));
                        }
                    }
                }
                assert forall|id: usize|
                    #![trigger es.def_at(di as int, id)]
                    !contains_sym(es1.resps@[rid as int].syms@.take(i + 1), id) implies es.def_at(
                    di as int,
                    id,
                ) == es1.def_at(di as int, id) by {
                    assert(!contains_sym(es1.resps@[rid as int].syms@.take(i as int), id)) by {
                        if contains_sym(es1.resps@[rid as int].syms@.take(i as int), id) {
                            let m = choose|m: int|
                                0 <= m < i && es1.resps@[rid as int].syms@.take(i as int)[m].name.id
                                    == id;
                            assert(es1.resps@[rid as int].syms@.take(i + 1)[m].name.id == id);
                        }
                    }
                    assert(id != name.id) by {
                        if id == name.id {
                            assert(es1.resps@[rid as int].syms@.take(i + 1)[i as int].name.id
                                == id);
                        }
                    }
                    assert(es_before.def_at(di as int, id) == es1.def_at(di as int, id));
                }
                assert forall|kk: int|
                    0 <= kk < es.dylibs@[di as int].entries@.len() implies es.entry_state_ok(
                    di as int,
                    #[trigger] es.dylibs@[di as int].entries@[kk],
                ) by {
                    let en = es.dylibs@[di as int].entries@[kk];
                    if kk < ent0.len() && en == ent0[kk] {
                        assert(es_before.entry_state_ok(di as int, en));
                    }
                }
            }
            i = i + 1;
        }
        proof {
            assert(es1.resps@[rid as int].syms@.take(n as int) == es1.resps@[rid as int].syms@);
        }
        let ghost es2 = *es;
        es.resps[rid].live = false;
        proof {
            assert(es.dylibs == es2.dylibs);
            assert forall|k: int|
                0 <= k < es1.resps@[rid as int].syms@.len() implies es.def_at(
                di as int,
                (#[trigger] es1.resps@[rid as int].syms@[k]).name.id,
            ) == Some(
                DefEntry {
                    state: DefState::Emitted {
                        symbol: es1.def_at(
                            di as int,
                            es1.resps@[rid as int].syms@[k].name.id,
                        )->Some_0.state->Resolved_symbol,
                    },
                    ..es1.def_at(di as int, es1.resps@[rid as int].syms@[k].name.id)->Some_0
                },
            ) by {
                assert(es2.def_at(di as int, es1.resps@[rid as int].syms@[k].name.id) == Some(
                    DefEntry {
                        state: DefState::Emitted {
                            symbol: es1.def_at(
                                di as int,
                                es1.resps@[rid as int].syms@[k].name.id,
                            )->Some_0.state->Resolved_symbol,
                        },
                        ..es1.def_at(di as int, es1.resps@[rid as int].syms@[k].name.id)->Some_0
                    },
                ));
            }
            assert forall|id: usize|
                #![trigger es.def_at(di as int, id)]
                !contains_sym(es1.resps@[rid as int].syms@, id) implies es.def_at(di as int, id)
                == es1.def_at(di as int, id) by {
                assert(es2.def_at(di as int, id) == es1.def_at(di as int, id));
            }
            // nothing points at this responsibility any more: its governed
            // symbols are all emitted
            assert forall|dj: int| 0 <= dj < es.dylibs@.len() implies es.dylib_wf(dj) by {
                assert(es1.dylib_wf(dj));
                assert forall|kk: int|
                    0 <= kk < es.dylibs@[dj].entries@.len() implies es.entry_state_ok(
                    dj,
                    #[trigger] es.dylibs@[dj].entries@[kk],
                ) by {
                    let en = es.dylibs@[dj].entries@[kk];
                    if dj == di {
                        assert(es2.entry_state_ok(di as int, en));
                        match en.state {
                            DefState::Materializing { resp } => {
                                if resp == rid {
                                    assert(contains_sym(es1.resps@[rid as int].syms@, en.name.id));
                                    let m = choose|m: int|
                                        0 <= m < es1.resps@[rid as int].syms@.len()
                                            && es1.resps@[rid as int].syms@[m].name.id
                                            == en.name.id;
                                    lemma_idx_unique(es.dylibs@[di as int].entries@, kk);
                                    assert(es.def_at(
                                        di as int,
                                        (es1.resps@[rid as int].syms@[m]).name.id,
                                    ) == Some(en));
                                    assert(false);
                                } else {
                                    assert(es.resp_owns(dj, resp, en.name.id));
                                }
                            },
                            DefState::Resolved { resp, symbol } => {
                                if resp == rid {
                                    assert(contains_sym(es1.resps@[rid as int].syms@, en.name.id));
                                    let m = choose|m: int|
                                        0 <= m < es1.resps@[rid as int].syms@.len()
                                            && es1.resps@[rid as int].syms@[m].name.id
                                            == en.name.id;
                                    lemma_idx_unique(es.dylibs@[di as int].entries@, kk);
                                    assert(es.def_at(
                                        di as int,
                                        (es1.resps@[rid as int].syms@[m]).name.id,
                                    ) == Some(en));
                                    assert(false);
                                } else {
                                    assert(es.resp_owns(dj, resp, en.name.id));
                                }
                            },
                            _ => {},
                        }
                    } else {
                        assert(en == es1.dylibs@[dj].entries@[kk]);
                        assert(es1.entry_state_ok(dj, en));
                        match en.state {
                            DefState::Materializing { resp } => {
                                assert(es1.resp_owns(dj, resp, en.name.id));
                                assert(es.resp_owns(dj, resp, en.name.id));
                            },
                            DefState::Resolved { resp, symbol } => {
                                assert(es1.resp_owns(dj, resp, en.name.id));
                                assert(es.resp_owns(dj, resp, en.name.id));
                            },
                            _ => {},
                        }
                    }
                }
            }
            assert forall|s: crate::deps::SymRef| #[trigger] es.sym_failed(s) == es1.sym_failed(
                s,
            ) by {
                self.lemma_sym_frame_emit(es1, *es, di as int, rid, s);
            }
            assert forall|s: crate::deps::SymRef| #[trigger] es.sym_unemitted(s)
                implies es1.sym_unemitted(s) by {
                self.lemma_sym_frame_emit(es1, *es, di as int, rid, s);
            }
            lemma_closure_preserved(es1, *es);
            assert(es.wf());
        }
        Ok(())
    }

    /// How one symbol reads after the emission commit: either untouched, or
    /// moved from resolved to emitted — in both cases its failedness is
    /// unchanged and it did not become pending.
    proof fn lemma_sym_frame_emit(
        self,
        es1: ExecutionSession,
        es2: ExecutionSession,
        di: int,
        rid: usize,
        s: crate::deps::SymRef,
    )
        requires
            rid == self.id,
            es2.deps == es1.deps,
            es2.dylibs@.len() == es1.dylibs@.len(),
            forall|k: int| 0 <= k < es1.dylibs@.len() && k != di ==> es2.dylibs@[k] == es1.dylibs@[k],
            forall|k: int|
                0 <= k < es1.resps@[rid as int].syms@.len() ==> (match es1.def_at(
                    di,
                    (#[trigger] es1.resps@[rid as int].syms@[k]).name.id,
                ) {
                    Some(e) => e.state is Resolved,
                    None => false,
                }),
            forall|k: int|
                0 <= k < es1.resps@[rid as int].syms@.len() ==> es2.def_at(
                    di,
                    (#[trigger] es1.resps@[rid as int].syms@[k]).name.id,
                ) == Some(
                    DefEntry {
                        state: DefState::Emitted {
                            symbol: es1.def_at(
                                di,
                                es1.resps@[rid as int].syms@[k].name.id,
                            )->Some_0.state->Resolved_symbol,
                        },
                        ..es1.def_at(di, es1.resps@[rid as int].syms@[k].name.id)->Some_0
                    },
                ),
            forall|id: usize|
                #![trigger es2.def_at(di, id)]
                !contains_sym(es1.resps@[rid as int].syms@, id) ==> es2.def_at(di, id)
                    == es1.def_at(di, id),
        ensures
            es2.sym_failed(s) == es1.sym_failed(s),
            es2.sym_unemitted(s) ==> es1.sym_unemitted(s),
    {
        if s.dylib == di {
            if contains_sym(es1.resps@[rid as int].syms@, s.sym) {
                let m = choose|m: int|
                    0 <= m < es1.resps@[rid as int].syms@.len() && es1.resps@[rid as
                    int].syms@[m].name.id == s.sym;
                assert(es2.def_at(di, (es1.resps@[rid as int].syms@[m]).name.id) == Some(
                    DefEntry {
                        state: DefState::Emitted {
                            symbol: es1.def_at(
                                di,
                                es1.resps@[rid as int].syms@[m].name.id,
                            )->Some_0.state->Resolved_symbol,
                        },
                        ..es1.def_at(di, es1.resps@[rid as int].syms@[m].name.id)->Some_0
                    },
                ));
            } else {
                assert(es2.def_at(di, s.sym) == es1.def_at(di, s.sym));
            }
        } else {
            if 0 <= s.dylib < es1.dylibs@.len() {
                assert(es2.dylibs@[s.dylib as int] == es1.dylibs@[s.dylib as int]);
            }
        }
    }
}


/// Some recorded edge leads from `x` into the collected set `f`.
pub open spec fn src_into(edges: Seq<crate::deps::DepEdge>, f: Seq<SymRef>, x: SymRef) -> bool {
    exists|j: int|
        0 <= j < edges.len() && (#[trigger] edges[j]).src == x && f.contains(edges[j].dst)
}

/// Growing the collected set preserves `src_into`.
proof fn lemma_src_into_mono(
    edges: Seq<crate::deps::DepEdge>,
    f1: Seq<SymRef>,
    f2: Seq<SymRef>,
    x: SymRef,
)
    requires
        src_into(edges, f1, x),
        f1.len() <= f2.len(),
        forall|k: int| 0 <= k < f1.len() ==> f2[k] == f1[k],
    ensures
        src_into(edges, f2, x),
{
    let j = choose|j: int|
        0 <= j < edges.len() && (#[trigger] edges[j]).src == x && f1.contains(edges[j].dst);
    let m = choose|m: int| 0 <= m < f1.len() && f1[m] == edges[j].dst;
    assert(f2[m] == edges[j].dst);
    assert(f2.contains(edges[j].dst));
}

/// The shape of the session after the marking pass of a failure: the
/// namespaces are unchanged except that exactly the collected symbols —
/// all of which could still fail — now read as failed.
pub open spec fn failed_mapped(
    es0: ExecutionSession,
    es1: ExecutionSession,
    fs: Seq<SymRef>,
) -> bool {
    &&& es1.dylibs@.len() == es0.dylibs@.len()
    &&& forall|dj: int|
        0 <= dj < es0.dylibs@.len() ==> (#[trigger] es1.dylibs@[dj]).entries@.len()
            == es0.dylibs@[dj].entries@.len()
    &&& forall|dj: int, kk: int|
        0 <= dj < es0.dylibs@.len() && 0 <= kk < es0.dylibs@[dj].entries@.len()
            ==> same_but_state(#[trigger] es1.dylibs@[dj].entries@[kk], es0.dylibs@[dj].entries@[kk])
    &&& forall|dj: usize, kk: int|
        dj < es0.dylibs@.len() && 0 <= kk < es0.dylibs@[dj as int].entries@.len()
            ==> (#[trigger] es1.dylibs@[dj as int].entries@[kk]).state == (if fs.contains(
            SymRef { dylib: dj, sym: es0.dylibs@[dj as int].entries@[kk].name.id },
        ) {
            DefState::Failed
        } else {
            es0.dylibs@[dj as int].entries@[kk].state
        })
    &&& forall|dj: int|
        0 <= dj < es0.dylibs@.len() ==> distinct_ids((#[trigger] es0.dylibs@[dj]).entries@)
    &&& forall|k: int| 0 <= k < fs.len() ==> es0.sym_unemitted(#[trigger] fs[k])
}

/// How one symbol reads after the marking pass.
proof fn fail_sym_mapping(es0: ExecutionSession, es1: ExecutionSession, fs: Seq<SymRef>, s: SymRef)
    requires
        failed_mapped(es0, es1, fs),
    ensures
        es0.def_at(s.dylib as int, s.sym) is None ==> es1.def_at(s.dylib as int, s.sym) is None,
        es0.def_at(s.dylib as int, s.sym) is Some && fs.contains(s) ==> es1.def_at(
            s.dylib as int,
            s.sym,
        ) == Some(
            DefEntry { state: DefState::Failed, ..es0.def_at(s.dylib as int, s.sym)->Some_0 },
        ) && unemitted(es0.def_at(s.dylib as int, s.sym)->Some_0.state),
        es0.def_at(s.dylib as int, s.sym) is Some && !fs.contains(s) ==> es1.def_at(
            s.dylib as int,
            s.sym,
        ) == es0.def_at(s.dylib as int, s.sym),
{
    let dj = s.dylib as int;
    if 0 <= dj < es0.dylibs@.len() {
        lemma_def_at_same_names(es0.dylibs@[dj].entries@, es1.dylibs@[dj].entries@);
        if has_def(es0.dylibs@[dj].entries@, s.sym) {
            let kx = crate::session::idx_of(es0.dylibs@[dj].entries@, s.sym);
            assert(0 <= kx < es0.dylibs@[dj].entries@.len() && es0.dylibs@[dj].entries@[kx].name.id
                == s.sym);
            assert(same_but_state(es1.dylibs@[dj].entries@[kx], es0.dylibs@[dj].entries@[kx]));
            assert((SymRef { dylib: dj as usize, sym: es0.dylibs@[dj].entries@[kx].name.id })
                == s);
            assert(es1.def_at(dj, s.sym) == Some(es1.dylibs@[dj].entries@[kx]));
            if fs.contains(s) {
                let m = choose|m: int| 0 <= m < fs.len() && fs[m] == s;
                assert(es0.sym_unemitted(fs[m]));
            }
        }
    }
}

/// A collected symbol reads as failed afterwards.
proof fn fail_sym_in_set(es0: ExecutionSession, es1: ExecutionSession, fs: Seq<SymRef>, s: SymRef)
    requires
        failed_mapped(es0, es1, fs),
        fs.contains(s),
    ensures
        es1.sym_failed(s),
        es0.sym_unemitted(s),
{
    let m = choose|m: int| 0 <= m < fs.len() && fs[m] == s;
    assert(es0.sym_unemitted(fs[m]));
    fail_sym_mapping(es0, es1, fs, s);
}

/// A symbol that reads as failed afterwards but not before was collected.
proof fn fail_sym_new(es0: ExecutionSession, es1: ExecutionSession, fs: Seq<SymRef>, s: SymRef)
    requires
        failed_mapped(es0, es1, fs),
        es1.sym_failed(s),
        !es0.sym_failed(s),
    ensures
        fs.contains(s),
        es0.sym_unemitted(s),
{
    fail_sym_mapping(es0, es1, fs, s);
    if !fs.contains(s) {
        assert(es1.def_at(s.dylib as int, s.sym) == es0.def_at(s.dylib as int, s.sym));
    }
    fail_sym_in_set(es0, es1, fs, s);
}

/// A symbol that can still fail afterwards could before, and was not
/// collected.
proof fn fail_sym_unemitted(
    es0: ExecutionSession,
    es1: ExecutionSession,
    fs: Seq<SymRef>,
    s: SymRef,
)
    requires
        failed_mapped(es0, es1, fs),
        es1.sym_unemitted(s),
    ensures
        es0.sym_unemitted(s),
        !fs.contains(s),
{
    fail_sym_mapping(es0, es1, fs, s);
    if fs.contains(s) {
        assert(es1.def_at(s.dylib as int, s.sym)->Some_0.state is Failed);
    }
}

/// Marks as failed every symbol of `seed` together with every symbol that
/// transitively depends on one of them, computing the propagation as a
/// fixpoint over the recorded dependence edges.  Nothing else changes: the
/// failed set is exactly the closure of the seed among symbols that could
/// still fail.
#[verifier::loop_isolation(false)]
pub(crate) fn fail_symbols(es: &mut ExecutionSession, seed: Vec<SymRef>)
    requires
        old(es).wf(),
        seed@.no_duplicates(),
        forall|k: int| 0 <= k < seed@.len() ==> old(es).sym_unemitted(#[trigger] seed@[k]),
    ensures
        final(es).wf(),
        final(es).pool == old(es).pool,
        final(es).trackers == old(es).trackers,
        final(es).units == old(es).units,
        final(es).resps == old(es).resps,
        final(es).deps == old(es).deps,
        final(es).dylibs@.len() == old(es).dylibs@.len(),
        forall|dj: int|
            0 <= dj < old(es).dylibs@.len() ==> (#[trigger] final(es).dylibs@[dj]).name == old(
                es,
            ).dylibs@[dj].name && final(es).dylibs@[dj].bare == old(es).dylibs@[dj].bare
                && final(es).dylibs@[dj].default_tracker == old(es).dylibs@[dj].default_tracker
                && final(es).dylibs@[dj].entries@.len() == old(es).dylibs@[dj].entries@.len(),
        forall|dj: int, kk: int|
            0 <= dj < old(es).dylibs@.len() && 0 <= kk < old(es).dylibs@[dj].entries@.len()
                ==> same_but_state(
                #[trigger] final(es).dylibs@[dj].entries@[kk],
                old(es).dylibs@[dj].entries@[kk],
            ),
        forall|s: SymRef|
            #![trigger final(es).def_at(s.dylib as int, s.sym)]
            match old(es).def_at(s.dylib as int, s.sym) {
                None => final(es).def_at(s.dylib as int, s.sym) is None,
                Some(e) => final(es).def_at(s.dylib as int, s.sym) == Some(e) || (unemitted(
                    e.state,
                ) && final(es).def_at(s.dylib as int, s.sym) == Some(
                    DefEntry { state: DefState::Failed, ..e },
                )),
            },
        forall|k: int| 0 <= k < seed@.len() ==> final(es).sym_failed(#[trigger] seed@[k]),
        forall|s: SymRef|
            #[trigger] final(es).sym_failed(s) && !old(es).sym_failed(s) ==> old(es).sym_unemitted(
                s,
            ) && (seed@.contains(s) || exists|j: int|
                0 <= j < old(es).deps@.len() && (#[trigger] old(es).deps@[j]).src == s
                    && final(es).sym_failed(old(es).deps@[j].dst)),
{
    let ghost es0 = *es;
    let nd = es.deps.len();
    let mut f: Vec<SymRef> = seed;
    let mut changed: bool = true;
    while changed
        invariant
            *es == es0,
            nd == es0.deps@.len(),
            f@.no_duplicates(),
            f@.len() >= seed@.len(),
            forall|k: int| 0 <= k < seed@.len() ==> f@[k] == seed@[k],
            forall|k: int| 0 <= k < f@.len() ==> es0.sym_unemitted(#[trigger] f@[k]),
            forall|k: int|
                seed@.len() <= k < f@.len() ==> src_into(es0.deps@, f@, #[trigger] f@[k]),
            f@.len() <= seed@.len() + es0.deps@.len(),
            !changed ==> forall|j: int|
                0 <= j < es0.deps@.len() && f@.contains((#[trigger] es0.deps@[j]).dst)
                    && es0.sym_unemitted(es0.deps@[j].src) ==> f@.contains(es0.deps@[j].src),
        decreases seed@.len() + es0.deps@.len() + 1 - f@.len(), (if changed {
            1int
        } else {
            0int
        }),
    {
        changed = false;
        let ghost f_entry = f@;
        let mut j: usize = 0;
        while j < nd
            invariant
                j <= nd,
                f@.no_duplicates(),
                f@.len() >= seed@.len(),
                forall|k: int| 0 <= k < seed@.len() ==> f@[k] == seed@[k],
                forall|k: int| 0 <= k < f@.len() ==> es0.sym_unemitted(#[trigger] f@[k]),
                forall|k: int|
                    seed@.len() <= k < f@.len() ==> src_into(es0.deps@, f@, #[trigger] f@[k]),
                f@.len() <= seed@.len() + es0.deps@.len(),
                f_entry.len() <= f@.len(),
                forall|k: int| 0 <= k < f_entry.len() ==> f@[k] == f_entry[k],
                !changed ==> f@ == f_entry,
                changed ==> f_entry.len() < f@.len(),
                !changed ==> forall|jj: int|
                    0 <= jj < j && f@.contains((#[trigger] es0.deps@[jj]).dst)
                        && es0.sym_unemitted(es0.deps@[jj].src) ==> f@.contains(es0.deps@[jj].src),
            decreases nd - j,
        {
            let e = es.deps[j];
            if sym_vec_contains(&f, e.dst) && !sym_vec_contains(&f, e.src) {
                // would this source still be able to fail?
                let un: bool = if e.src.dylib < es.dylibs.len() {
                    proof {
                        assert(es.dylib_wf(e.src.dylib as int));
                    }
                    match find_idx(&es.dylibs[e.src.dylib].entries, e.src.sym) {
                        Some(k) => {
                            proof {
                                lemma_idx_unique(
                                    es.dylibs@[e.src.dylib as int].entries@,
                                    k as int,
                                );
                            }
                            match es.dylibs[e.src.dylib].entries[k].state {
                                DefState::Claimed { unit } => true,
                                DefState::Materializing { resp } => true,
                                DefState::Resolved { resp, symbol } => true,
                                _ => false,
                            }
                        },
                        None => false,
                    }
                } else {
                    false
                };
                proof {
                    assert(un == es0.sym_unemitted(e.src));
                }
                if un {
                    let ghost fprev = f@;
                    f.push(e.src);
                    changed = true;
                    proof {
                        assert forall|a: int, b: int|
                            0 <= a < f@.len() && 0 <= b < f@.len() && a != b implies #[trigger] f@[a]
                            != #[trigger] f@[b] by {
                            if a < fprev.len() && b < fprev.len() {
                                assert(fprev[a] != fprev[b]);
                            } else if b == fprev.len() {
                                assert(!fprev.contains(e.src));
                                assert(f@[a] == fprev[a]);
                            } else {
                                assert(!fprev.contains(e.src));
                                assert(f@[b] == fprev[b]);
                            }
                        }
                        assert(es0.deps@[j as int].src == e.src && es0.deps@[j as int].dst
                            == e.dst);
                        assert forall|k: int|
                            seed@.len() <= k < f@.len() implies src_into(
                            es0.deps@,
                            f@,
                            #[trigger] f@[k],
                        ) by {
                            if k < fprev.len() {
                                assert(src_into(es0.deps@, fprev, fprev[k]));
                                lemma_src_into_mono(es0.deps@, fprev, f@, fprev[k]);
                                assert(f@[k] == fprev[k]);
                            } else {
                                assert(f@[k] == e.src);
                                let m = choose|m: int| 0 <= m < fprev.len() && fprev[m] == e.dst;
                                assert(f@[m] == e.dst);
                                assert(f@.contains(es0.deps@[j as int].dst));
                            }
                        }
                        assert forall|k: int|
                            seed@.len() <= k < f@.len() implies exists|jj: int|
                            0 <= jj < es0.deps@.len() && (#[trigger] es0.deps@[jj]).src
                                == #[trigger] f@[k] by {
                            assert(src_into(es0.deps@, f@, f@[k]));
                            let jj = choose|jj: int|
                                0 <= jj < es0.deps@.len() && (#[trigger] es0.deps@[jj]).src
                                    == f@[k] && f@.contains(es0.deps@[jj].dst);
                        }
                        lemma_fail_set_bound(f@, seed@, es0.deps@);
                    }
                }
            }
            j = j + 1;
        }
    }
    // every collected symbol is retracted as failed
    let ghost fs = f@;
    let nf = f.len();
    let mut i: usize = 0;
    while i < nf
        invariant
            i <= nf,
            nf == fs.len(),
            f@ == fs,
            es.pool == es0.pool,
            es.trackers == es0.trackers,
            es.units == es0.units,
            es.resps == es0.resps,
            es.deps == es0.deps,
            es.dylibs@.len() == es0.dylibs@.len(),
            forall|dj: int|
                0 <= dj < es.dylibs@.len() ==> (#[trigger] es.dylibs@[dj]).name
                    == es0.dylibs@[dj].name && es.dylibs@[dj].bare == es0.dylibs@[dj].bare
                    && es.dylibs@[dj].default_tracker == es0.dylibs@[dj].default_tracker
                    && es.dylibs@[dj].entries@.len() == es0.dylibs@[dj].entries@.len(),
            forall|dj: int, kk: int|
                0 <= dj < es.dylibs@.len() && 0 <= kk < es.dylibs@[dj].entries@.len()
                    ==> same_but_state(
                    #[trigger] es.dylibs@[dj].entries@[kk],
                    es0.dylibs@[dj].entries@[kk],
                ),
            forall|dj: usize, kk: int|
                dj < es.dylibs@.len() && 0 <= kk < es.dylibs@[dj as int].entries@.len()
                    ==> (#[trigger] es.dylibs@[dj as int].entries@[kk]).state == (if fs.take(
                    i as int,
                ).contains(
                    SymRef { dylib: dj, sym: es0.dylibs@[dj as int].entries@[kk].name.id },
                ) {
                    DefState::Failed
                } else {
                    es0.dylibs@[dj as int].entries@[kk].state
                }),
        decreases nf - i,
    {
        let sref = f[i];
        proof {
            assert(es0.sym_unemitted(fs[i as int]));
            assert(sref.dylib < es.dylibs@.len());
            assert(es0.dylib_wf(sref.dylib as int));
            lemma_def_at_same_names(
                es0.dylibs@[sref.dylib as int].entries@,
                es.dylibs@[sref.dylib as int].entries@,
            );
        }
        let ghost ent0 = es.dylibs@[sref.dylib as int].entries@;
        let k: usize = match find_idx(&es.dylibs[sref.dylib].entries, sref.sym) {
            Some(k) => k,
            None => {
                proof {
                    assert(has_def(es0.dylibs@[sref.dylib as int].entries@, sref.sym));
                    assert(false);
                }
                0
            },
        };
        let e = es.dylibs[sref.dylib].entries[k];
        let e2 = DefEntry { state: DefState::Failed, ..e };
        es.dylibs[sref.dylib].entries.set(k, e2);
        proof {
            assert(fs.take(i + 1) == fs.take(i as int).push(fs[i as int]));
            assert(ent0[k as int].name.id == sref.sym);
            assert forall|dj: usize, kk: int|
                dj < es.dylibs@.len() && 0 <= kk < es.dylibs@[dj as int].entries@.len()
                    implies (#[trigger] es.dylibs@[dj as int].entries@[kk]).state == (if fs.take(
                i + 1,
            ).contains(
                SymRef { dylib: dj, sym: es0.dylibs@[dj as int].entries@[kk].name.id },
            ) {
                DefState::Failed
            } else {
                es0.dylibs@[dj as int].entries@[kk].state
            }) by {
                let sr = SymRef { dylib: dj, sym: es0.dylibs@[dj as int].entries@[kk].name.id };
                assert(fs.take(i + 1).contains(sr) == (fs.take(i as int).contains(sr) || sr
                    == fs[i as int])) by {
                    if fs.take(i + 1).contains(sr) {
                        let m = choose|m: int|
                            0 <= m < fs.take(i + 1).len() && #[trigger] fs.take(i + 1)[m] == sr;
                        if m < i {
                            assert(fs.take(i as int)[m] == sr);
                        }
                    }
                    if fs.take(i as int).contains(sr) {
                        let m = choose|m: int|
                            0 <= m < fs.take(i as int).len() && #[trigger] fs.take(i as int)[m]
                                == sr;
                        assert(fs.take(i + 1)[m] == sr);
                    }
                    if sr == fs[i as int] {
                        assert(fs.take(i + 1)[i as int] == sr);
                    }
                }
                if dj == sref.dylib && kk == k {
                    assert(sr == fs[i as int]);
                } else if dj == sref.dylib {
                    assert(es0.dylib_wf(dj as int));
                    assert(es0.dylibs@[dj as int].entries@[kk].name.id != sref.sym);
                    assert(sr != fs[i as int]);
                } else {
                    assert(sr != fs[i as int]);
                }
            }
        }
        i = i + 1;
    }
    proof {
        assert(fs.take(nf as int) == fs);
        assert(failed_mapped(es0, *es, fs)) by {
            assert forall|dj: int| 0 <= dj < es0.dylibs@.len() implies distinct_ids(
                (#[trigger] es0.dylibs@[dj]).entries@,
            ) by {
                assert(es0.dylib_wf(dj));
            }
        }
        // the per-symbol mapping
        assert forall|s: SymRef|
            #![trigger es.def_at(s.dylib as int, s.sym)]
            match es0.def_at(s.dylib as int, s.sym) {
                None => es.def_at(s.dylib as int, s.sym) is None,
                Some(e) => es.def_at(s.dylib as int, s.sym) == Some(e) || (unemitted(e.state)
                    && es.def_at(s.dylib as int, s.sym) == Some(
                    DefEntry { state: DefState::Failed, ..e },
                )),
            } by {
            fail_sym_mapping(es0, *es, fs, s);
        }
        // every collected symbol reads as failed
        assert forall|k: int| 0 <= k < fs.len() implies es.sym_failed(#[trigger] fs[k]) by {
            fail_sym_in_set(es0, *es, fs, fs[k]);
        }
        assert forall|k: int| 0 <= k < seed@.len() implies es.sym_failed(#[trigger] seed@[k]) by {
            assert(fs[k] == seed@[k]);
            assert(es.sym_failed(fs[k]));
        }
        // a symbol failed by this call was able to fail and is seed or
        // depends on a failed one
        assert forall|s: SymRef| #[trigger] es.sym_failed(s) && !es0.sym_failed(s) implies
            es0.sym_unemitted(s) && (seed@.contains(s) || exists|j: int|
                0 <= j < es0.deps@.len() && (#[trigger] es0.deps@[j]).src == s && es.sym_failed(
                    es0.deps@[j].dst,
                )) by {
            fail_sym_new(es0, *es, fs, s);
            let m = choose|m: int| 0 <= m < fs.len() && fs[m] == s;
            if m < seed@.len() {
                assert(seed@[m] == s);
                assert(seed@.contains(s));
            } else {
                assert(src_into(es0.deps@, fs, fs[m]));
                let jj = choose|jj: int|
                    0 <= jj < es0.deps@.len() && (#[trigger] es0.deps@[jj]).src == fs[m]
                        && fs.contains(es0.deps@[jj].dst);
                fail_sym_in_set(es0, *es, fs, es0.deps@[jj].dst);
                assert(es.sym_failed(es0.deps@[jj].dst));
            }
        }
        // the session invariant
        assert forall|dj: int| 0 <= dj < es.dylibs@.len() implies es.dylib_wf(dj) by {
            assert(es0.dylib_wf(dj));
            lemma_def_at_same_names(es0.dylibs@[dj].entries@, es.dylibs@[dj].entries@);
            assert forall|kk: int|
                0 <= kk < es.dylibs@[dj].entries@.len() implies es.entry_state_ok(
                dj,
                #[trigger] es.dylibs@[dj].entries@[kk],
            ) by {
                let en = es.dylibs@[dj].entries@[kk];
                let en0 = es0.dylibs@[dj].entries@[kk];
                assert(es0.entry_state_ok(dj, en0));
                if en.state == en0.state {
                    match en.state {
                        DefState::Materializing { resp } => {
                            assert(es0.resp_owns(dj, resp, en0.name.id));
                        },
                        DefState::Resolved { resp, symbol } => {
                            assert(es0.resp_owns(dj, resp, en0.name.id));
                        },
                        _ => {},
                    }
                }
            }
        }
        assert forall|i2: int| 0 <= i2 < es.deps@.len() implies !(es.sym_failed(
            (#[trigger] es.deps@[i2]).dst,
        ) && es.sym_unemitted(es.deps@[i2].src)) by {
            let a = es.deps@[i2].src;
            let b = es.deps@[i2].dst;
            assert(es0.deps@[i2].src == a && es0.deps@[i2].dst == b);
            if es.sym_failed(b) && es.sym_unemitted(a) {
                fail_sym_unemitted(es0, *es, fs, a);
                if es0.sym_failed(b) {
                    assert(!(es0.sym_failed(es0.deps@[i2].dst) && es0.sym_unemitted(
                        es0.deps@[i2].src,
                    )));
                } else {
                    fail_sym_new(es0, *es, fs, b);
                    assert(fs.contains(b));
                    assert(fs.contains(a));
                    fail_sym_in_set(es0, *es, fs, a);
                }
            }
        }
        assert(es.wf());
    }
}

/// The definition state a `replace` gives the `k`-th declared symbol:
/// claimed by the new unit for a custom unit, emitted for absolute symbols.
pub open spec fn replaced_state(unit: MaterializationUnit, uidx: usize, k: int) -> DefState {
    match unit.kind {
        UnitKind::Custom { .. } => DefState::Claimed { unit: uidx },
        UnitKind::Absolute { symbols } => DefState::Emitted { symbol: symbols.pairs@[k].symbol },
    }
}

/// No name appears twice.
pub open spec fn distinct_names(names: Seq<SymbolStringPoolEntry>) -> bool {
    forall|k: int, l: int|
        0 <= k < names.len() && 0 <= l < names.len() && k != l ==> names[k].id != names[l].id
}

/// The name list holds this identity.
pub open spec fn names_contain(names: Seq<SymbolStringPoolEntry>, id: usize) -> bool {
    exists|k: int| 0 <= k < names.len() && names[k].id == id
}

/// Whether `v` names `id`, by linear scan.
pub(crate) fn name_vec_contains(v: &Vec<SymbolStringPoolEntry>, id: usize) -> (r: bool)
    ensures
        r == names_contain(v@, id),
{
    let mut i: usize = 0;
    while i < v.len()
        invariant
            i <= v@.len(),
            forall|k: int| 0 <= k < i ==> v@[k].id != id,
        decreases v@.len() - i,
    {
        if v[i].id == id {
            return true;
        }
        i = i + 1;
    }
    false
}

impl MaterializationResponsibility {
    /// Fails this materialization: irrevocably marks every symbol still
    /// pending or resolved under this responsibility as failed, removes them
    /// from the reach of lookups, propagates the failure to every symbol
    /// transitively depending on one of them — across namespaces — and
    /// consumes the responsibility.  Queries on the failed names observe
    /// failure rather than hanging.
    #[verifier::loop_isolation(false)]
    pub fn fail_materialization(self, es: &mut ExecutionSession)
        requires
            old(es).wf(),
            self.live_in(*old(es)),
        ensures
            final(es).wf(),
            final(es).pool == old(es).pool,
            final(es).trackers == old(es).trackers,
            final(es).units == old(es).units,
            final(es).deps == old(es).deps,
            final(es).dylibs@.len() == old(es).dylibs@.len(),
            final(es).resps@.len() == old(es).resps@.len(),
            forall|k: int|
                0 <= k < old(es).resps@.len() && k != self.id ==> final(es).resps@[k] == old(
                    es,
                ).resps@[k],
            !final(es).resps@[self.id as int].live,
            final(es).resps@[self.id as int].dylib == old(es).resps@[self.id as int].dylib,
            final(es).resps@[self.id as int].syms == old(es).resps@[self.id as int].syms,
            // every symbol still governed by this responsibility is failed
            forall|s: SymRef| self.owns_unemitted(*old(es), s) ==> final(es).sym_failed(s),
            // per-symbol mapping: unchanged, or pending/resolved turned failed
            forall|s: SymRef|
                #![trigger final(es).def_at(s.dylib as int, s.sym)]
                match old(es).def_at(s.dylib as int, s.sym) {
                    None => final(es).def_at(s.dylib as int, s.sym) is None,
                    Some(e) => final(es).def_at(s.dylib as int, s.sym) == Some(e) || (unemitted(
                        e.state,
                    ) && final(es).def_at(s.dylib as int, s.sym) == Some(
                        DefEntry { state: DefState::Failed, ..e },
                    )),
                },
            // and nothing fails without a reason
            forall|s: SymRef|
                #[trigger] final(es).sym_failed(s) && !old(es).sym_failed(s) ==> old(
                    es,
                ).sym_unemitted(s) && (self.owns_unemitted(*old(es), s) || exists|j: int|
                    0 <= j < old(es).deps@.len() && (#[trigger] old(es).deps@[j]).src == s
                        && final(es).sym_failed(old(es).deps@[j].dst)),
    {
        let rid = self.id;
        let di = es.resps[rid].dylib;
        let ghost es0 = *es;
        proof {
            assert(es0.resps@[rid as int].live);
            assert(di < es.dylibs@.len());
            assert(es.dylib_wf(di as int));
        }
        let mut seed: Vec<SymRef> = Vec::new();
        let n = es.dylibs[di].entries.len();
        let mut i: usize = 0;
        while i < n
            invariant
                i <= n,
                seed@.no_duplicates(),
                forall|k: int|
                    0 <= k < seed@.len() ==> (#[trigger] seed@[k]).dylib == di
                        && self.owns_unemitted(es0, seed@[k]) && es0.sym_unemitted(seed@[k]),
                forall|k: int|
                    0 <= k < seed@.len() ==> exists|kk: int|
                        0 <= kk < i && (#[trigger] es0.dylibs@[di as int].entries@[kk]).name.id
                            == (#[trigger] seed@[k]).sym,
                forall|kk: int|
                    0 <= kk < i && (match es0.dylibs@[di as int].entries@[kk].state {
                        DefState::Materializing { resp } => resp == rid,
                        DefState::Resolved { resp, symbol } => resp == rid,
                        _ => false,
                    }) ==> seed@.contains(
                        SymRef {
                            dylib: di,
                            sym: (#[trigger] es0.dylibs@[di as int].entries@[kk]).name.id,
                        },
                    ),
            decreases n - i,
        {
            let e = es.dylibs[di].entries[i];
            let owned: bool = match e.state {
                DefState::Materializing { resp } => resp == rid,
                DefState::Resolved { resp, symbol } => resp == rid,
                _ => false,
            };
            if owned {
                let ghost seed0 = seed@;
                let sr = SymRef { dylib: di, sym: e.name.id };
                proof {
                    lemma_idx_unique(es0.dylibs@[di as int].entries@, i as int);
                    assert(es0.def_at(di as int, e.name.id) == Some(e));
                    assert(!seed0.contains(sr)) by {
                        if seed0.contains(sr) {
                            let m = choose|m: int| 0 <= m < seed0.len() && seed0[m] == sr;
                            let kk = choose|kk: int|
                                0 <= kk < i && (#[trigger] es0.dylibs@[di as
                                int].entries@[kk]).name.id == seed0[m].sym;
                            assert(es0.dylibs@[di as int].entries@[kk].name.id == e.name.id);
                        }
                    }
                }
                seed.push(sr);
                proof {
                    assert forall|a: int, b: int|
                        0 <= a < seed@.len() && 0 <= b < seed@.len() && a != b
                            implies #[trigger] seed@[a] != #[trigger] seed@[b] by {
                        if a < seed0.len() && b < seed0.len() {
                            assert(seed0[a] != seed0[b]);
                        } else if b == seed0.len() {
                            assert(seed@[a] == seed0[a]);
                        } else {
                            assert(seed@[b] == seed0[b]);
                        }
                    }
                    assert forall|kk: int|
                        0 <= kk < i + 1 && (match es0.dylibs@[di as int].entries@[kk].state {
                            DefState::Materializing { resp } => resp == rid,
                            DefState::Resolved { resp, symbol } => resp == rid,
                            _ => false,
                        }) implies seed@.contains(
                        SymRef {
                            dylib: di,
                            sym: (#[trigger] es0.dylibs@[di as int].entries@[kk]).name.id,
                        },
                    ) by {
                        if kk < i {
                            let srk = SymRef {
                                dylib: di,
                                sym: es0.dylibs@[di as int].entries@[kk].name.id,
                            };
                            assert(seed0.contains(srk));
                            let m = choose|m: int| 0 <= m < seed0.len() && seed0[m] == srk;
                            assert(seed@[m] == srk);
                        } else {
                            assert(seed@[seed@.len() - 1] == sr);
                        }
                    }
                }
            }
            i = i + 1;
        }
        proof {
            assert forall|s: SymRef| self.owns_unemitted(es0, s) implies seed@.contains(s) by {
                assert(s.dylib == di);
                assert(has_def(es0.dylibs@[di as int].entries@, s.sym));
                let kx = crate::session::idx_of(es0.dylibs@[di as int].entries@, s.sym);
                assert(0 <= kx < n && es0.dylibs@[di as int].entries@[kx].name.id == s.sym);
                assert(seed@.contains(
                    SymRef { dylib: di, sym: es0.dylibs@[di as int].entries@[kx].name.id },
                ));
            }
        }
        fail_symbols(es, seed);
        let ghost es_mid = *es;
        es.resps[rid].live = false;
        proof {
            assert(es.dylibs == es_mid.dylibs);
            assert forall|s: SymRef|
                #![trigger es.def_at(s.dylib as int, s.sym)]
                es.def_at(s.dylib as int, s.sym) == es_mid.def_at(s.dylib as int, s.sym) by {}
            // the invariant: nothing points at the dead responsibility
            assert forall|dj: int| 0 <= dj < es.dylibs@.len() implies es.dylib_wf(dj) by {
                assert(es_mid.dylib_wf(dj));
                assert forall|kk: int|
                    0 <= kk < es.dylibs@[dj].entries@.len() implies es.entry_state_ok(
                    dj,
                    #[trigger] es.dylibs@[dj].entries@[kk],
                ) by {
                    let en = es.dylibs@[dj].entries@[kk];
                    assert(es_mid.entry_state_ok(dj, en));
                    match en.state {
                        DefState::Materializing { resp } => {
                            if resp == rid {
                                assert(es_mid.resp_owns(dj, rid, en.name.id));
                                assert(dj == di);
                                lemma_idx_unique(es_mid.dylibs@[dj].entries@, kk);
                                assert(es_mid.def_at(dj, en.name.id) == Some(en));
                                let sr = SymRef { dylib: di, sym: en.name.id };
                                assert(match es0.def_at(sr.dylib as int, sr.sym) {
                                    None => es_mid.def_at(sr.dylib as int, sr.sym) is None,
                                    Some(e) => es_mid.def_at(sr.dylib as int, sr.sym) == Some(e)
                                        || (unemitted(e.state) && es_mid.def_at(
                                        sr.dylib as int,
                                        sr.sym,
                                    ) == Some(DefEntry { state: DefState::Failed, ..e })),
                                });
                                assert(es0.def_at(di as int, en.name.id) == Some(en));
                                assert(self.owns_unemitted(es0, sr));
                                assert(seed@.contains(sr));
                                let m = choose|m: int| 0 <= m < seed@.len() && seed@[m] == sr;
                                assert(es_mid.sym_failed(seed@[m]));
                                assert(false);
                            } else {
                                assert(es_mid.resp_owns(dj, resp, en.name.id));
                                assert(es.resp_owns(dj, resp, en.name.id));
                            }
                        },
                        DefState::Resolved { resp, symbol } => {
                            if resp == rid {
                                assert(es_mid.resp_owns(dj, rid, en.name.id));
                                assert(dj == di);
                                lemma_idx_unique(es_mid.dylibs@[dj].entries@, kk);
                                assert(es_mid.def_at(dj, en.name.id) == Some(en));
                                let sr = SymRef { dylib: di, sym: en.name.id };
                                assert(match es0.def_at(sr.dylib as int, sr.sym) {
                                    None => es_mid.def_at(sr.dylib as int, sr.sym) is None,
                                    Some(e) => es_mid.def_at(sr.dylib as int, sr.sym) == Some(e)
                                        || (unemitted(e.state) && es_mid.def_at(
                                        sr.dylib as int,
                                        sr.sym,
                                    ) == Some(DefEntry { state: DefState::Failed, ..e })),
                                });
                                assert(es0.def_at(di as int, en.name.id) == Some(en));
                                assert(self.owns_unemitted(es0, sr));
                                assert(seed@.contains(sr));
                                let m = choose|m: int| 0 <= m < seed@.len() && seed@[m] == sr;
                                assert(es_mid.sym_failed(seed@[m]));
                                assert(false);
                            } else {
                                assert(es_mid.resp_owns(dj, resp, en.name.id));
                                assert(es.resp_owns(dj, resp, en.name.id));
                            }
                        },
                        DefState::Claimed { unit } => {},
                        _ => {},
                    }
                }
            }
            assert forall|s: SymRef| #[trigger] es.sym_failed(s) == es_mid.sym_failed(s) by {
                assert(es.def_at(s.dylib as int, s.sym) == es_mid.def_at(s.dylib as int, s.sym));
            }
            assert forall|s: SymRef| #[trigger] es.sym_unemitted(s) implies es_mid.sym_unemitted(
                s,
            ) by {
                assert(es.def_at(s.dylib as int, s.sym) == es_mid.def_at(s.dylib as int, s.sym));
            }
            lemma_closure_preserved(es_mid, *es);
            assert(es.wf());
            // lift the per-symbol facts to the final state
            assert forall|s: SymRef| self.owns_unemitted(es0, s) implies es.sym_failed(s) by {
                assert(seed@.contains(s));
                let m = choose|m: int| 0 <= m < seed@.len() && seed@[m] == s;
                assert(es_mid.sym_failed(seed@[m]));
            }
            assert forall|s: SymRef|
                #[trigger] es.sym_failed(s) && !es0.sym_failed(s) implies es0.sym_unemitted(s) && (
            self.owns_unemitted(es0, s) || exists|j: int|
                0 <= j < es0.deps@.len() && (#[trigger] es0.deps@[j]).src == s && es.sym_failed(
                    es0.deps@[j].dst,
                )) by {
                assert(es_mid.sym_failed(s) && !es0.sym_failed(s));
                if !seed@.contains(s) {
                    let j = choose|j: int|
                        0 <= j < es0.deps@.len() && (#[trigger] es0.deps@[j]).src == s
                            && es_mid.sym_failed(es0.deps@[j].dst);
                    assert(es.sym_failed(es0.deps@[j].dst));
                } else {
                    let m = choose|m: int| 0 <= m < seed@.len() && seed@[m] == s;
                    assert(self.owns_unemitted(es0, seed@[m]));
                }
            }
        }
    }
}


impl MaterializationResponsibility {
    /// Splits off ownership of exactly the named symbols into a fresh
    /// responsibility; each must currently be pending under this one, which
    /// keeps governing the remainder.  Ownership moves — it is never
    /// duplicated: afterwards this responsibility no longer lists the named
    /// symbols and rejects operations on them.
    #[verifier::loop_isolation(false)]
    pub fn delegate(&self, es: &mut ExecutionSession, symbols: Vec<SymbolStringPoolEntry>) -> (r:
        Result<MaterializationResponsibility, OrcError>)
        requires
            old(es).wf(),
            self.live_in(*old(es)),
            distinct_names(symbols@),
        ensures
            final(es).wf(),
            final(es).pool == old(es).pool,
            final(es).trackers == old(es).trackers,
            final(es).units == old(es).units,
            final(es).deps == old(es).deps,
            final(es).dylibs@.len() == old(es).dylibs@.len(),
            forall|k: int|
                0 <= k < old(es).dylibs@.len() && k != self.dylib_of(*old(es))
                    ==> final(es).dylibs@[k] == old(es).dylibs@[k],
            match r {
                Ok(mr) => {
                    &&& forall|k: int|
                        0 <= k < symbols@.len() ==> (match old(es).def_at(
                            self.dylib_of(*old(es)),
                            (#[trigger] symbols@[k]).id,
                        ) {
                            Some(e) => e.state == (DefState::Materializing { resp: self.id }),
                            None => false,
                        })
                    &&& mr.id == old(es).resps@.len()
                    &&& final(es).resps@.len() == old(es).resps@.len() + 1
                    &&& forall|k: int|
                        0 <= k < old(es).resps@.len() && k != self.id ==> final(es).resps@[k]
                            == old(es).resps@[k]
                    &&& final(es).resps@[self.id as int].live
                    &&& final(es).resps@[self.id as int].dylib == old(es).resps@[self.id as
                        int].dylib
                    &&& final(es).resps@[self.id as int].init == old(es).resps@[self.id as
                        int].init
                    // the named symbols left this responsibility ...
                    &&& forall|id: usize|
                        #![trigger contains_sym(final(es).resps@[self.id as int].syms@, id)]
                        contains_sym(final(es).resps@[self.id as int].syms@, id) <==> (
                        contains_sym(old(es).resps@[self.id as int].syms@, id) && !names_contain(
                            symbols@,
                            id,
                        ))
                    // ... and are now governed, pending, by the new one, whose
                    // listing is exactly the requested names with the
                    // definitions' flags
                    &&& final(es).resps@[mr.id as int].live
                    &&& final(es).resps@[mr.id as int].dylib == old(es).resps@[self.id as
                        int].dylib
                    &&& final(es).resps@[mr.id as int].syms@.len() == symbols@.len()
                    &&& forall|k: int|
                        0 <= k < symbols@.len() ==> (#[trigger] final(es).resps@[mr.id as
                        int].syms@[k]).name == symbols@[k] && final(es).resps@[mr.id as
                        int].syms@[k].flags == old(es).def_at(
                            self.dylib_of(*old(es)),
                            symbols@[k].id,
                        )->Some_0.flags
                    &&& forall|id: usize|
                        #![trigger contains_sym(final(es).resps@[mr.id as int].syms@, id)]
                        contains_sym(final(es).resps@[mr.id as int].syms@, id) <==> names_contain(
                            symbols@,
                            id,
                        )
                    &&& forall|k: int|
                        0 <= k < symbols@.len() ==> final(es).def_at(
                            self.dylib_of(*old(es)),
                            (#[trigger] symbols@[k]).id,
                        ) == Some(
                            DefEntry {
                                state: DefState::Materializing { resp: mr.id },
                                ..old(es).def_at(self.dylib_of(*old(es)), symbols@[k].id)->Some_0
                            },
                        )
                    &&& forall|id: usize|
                        #![trigger final(es).def_at(self.dylib_of(*old(es)), id)]
                        !names_contain(symbols@, id) ==> final(es).def_at(
                            self.dylib_of(*old(es)),
                            id,
                        ) == old(es).def_at(self.dylib_of(*old(es)), id)
                },
                Err(e) => {
                    &&& e == OrcError::UnknownSymbol
                    &&& *final(es) == *old(es)
                    &&& !(forall|k: int|
                        0 <= k < symbols@.len() ==> (match old(es).def_at(
                            self.dylib_of(*old(es)),
                            (#[trigger] symbols@[k]).id,
                        ) {
                            Some(e) => e.state == (DefState::Materializing { resp: self.id }),
                            None => false,
                        }))
                },
            },
    {
        let rid = self.id;
        let di = es.resps[rid].dylib;
        proof {
            assert(old(es).resps@[rid as int].live);
            assert(di < es.dylibs@.len());
            assert(es.dylib_wf(di as int));
        }
        let n = symbols.len();
        let mut i: usize = 0;
        while i < n
            invariant
                i <= n,
                forall|k: int|
                    0 <= k < i ==> (match es.def_at(di as int, (#[trigger] symbols@[k]).id) {
                        Some(e) => e.state == (DefState::Materializing { resp: rid }),
                        None => false,
                    }),
            decreases n - i,
        {
            let name = symbols[i];
            let okk: bool = match find_idx(&es.dylibs[di].entries, name.id) {
                Some(k) => {
                    proof {
                        lemma_idx_unique(es.dylibs@[di as int].entries@, k as int);
                    }
                    match es.dylibs[di].entries[k].state {
                        DefState::Materializing { resp } => resp == rid,
                        _ => false,
                    }
                },
                None => false,
            };
            if !okk {
                return Err(OrcError::UnknownSymbol);
            }
            i = i + 1;
        }
        let rid2 = self.resp_count(es);
        let ghost es1 = *es;
        // repoint the named entries and collect their flags
        let mut new_syms: Vec<SymbolFlagsMapPair> = Vec::new();
        let mut i: usize = 0;
        while i < n
            invariant
                i <= n,
                rid2 == es1.resps@.len(),
                es.pool == es1.pool,
                es.trackers == es1.trackers,
                es.units == es1.units,
                es.resps == es1.resps,
                es.deps == es1.deps,
                es.dylibs@.len() == es1.dylibs@.len(),
                forall|k: int|
                    0 <= k < es.dylibs@.len() && k != di ==> es.dylibs@[k] == es1.dylibs@[k],
                es.dylibs@[di as int].name == es1.dylibs@[di as int].name,
                es.dylibs@[di as int].bare == es1.dylibs@[di as int].bare,
                es.dylibs@[di as int].default_tracker == es1.dylibs@[di as int].default_tracker,
                distinct_ids(es.dylibs@[di as int].entries@),
                forall|k: int|
                    0 <= k < i ==> es.def_at(di as int, (#[trigger] symbols@[k]).id) == Some(
                        DefEntry {
                            state: DefState::Materializing { resp: rid2 },
                            ..es1.def_at(di as int, symbols@[k].id)->Some_0
                        },
                    ),
                forall|id: usize|
                    #![trigger es.def_at(di as int, id)]
                    !names_contain(symbols@.take(i as int), id) ==> es.def_at(di as int, id)
                        == es1.def_at(di as int, id),
                new_syms@.len() == i,
                forall|k: int|
                    0 <= k < i ==> (#[trigger] new_syms@[k]).name == symbols@[k]
                        && new_syms@[k].flags == es1.def_at(
                        di as int,
                        symbols@[k].id,
                    )->Some_0.flags,
                forall|id: usize|
                    #![trigger contains_sym(new_syms@, id)]
                    contains_sym(new_syms@, id) <==> names_contain(symbols@.take(i as int), id),
            decreases n - i,
        {
            let name = symbols[i];
            let ghost ent0 = es.dylibs@[di as int].entries@;
            let ghost es_before = *es;
            let ghost ns0 = new_syms@;
            proof {
                assert(!names_contain(symbols@.take(i as int), name.id)) by {
                    if names_contain(symbols@.take(i as int), name.id) {
                        let k = choose|k: int|
                            0 <= k < i && symbols@.take(i as int)[k].id == name.id;
                        assert(symbols@[k].id == symbols@[i as int].id);
                    }
                }
                assert(es.def_at(di as int, name.id) == es1.def_at(di as int, name.id));
            }
            let k: usize = match find_idx(&es.dylibs[di].entries, name.id) {
                Some(k) => k,
                None => {
                    proof {
                        assert(false);
                    }
                    0
                },
            };
            proof {
                lemma_idx_unique(es.dylibs@[di as int].entries@, k as int);
            }
            let e = es.dylibs[di].entries[k];
            let e2 = DefEntry { state: DefState::Materializing { resp: rid2 }, ..e };
            es.dylibs[di].entries.set(k, e2);
            new_syms.push(SymbolFlagsMapPair { name: e.name, flags: e.flags });
            proof {
                assert(es_before.def_at(di as int, name.id) == Some(e));
                assert(e.name == name);
                assert(new_syms@[i as int].name == symbols@[i as int] && new_syms@[i as
                    int].flags == es1.def_at(di as int, symbols@[i as int].id)->Some_0.flags);
                lemma_update_entry(ent0, k as int, e2);
                assert(symbols@.take(i + 1) == symbols@.take(i as int).push(symbols@[i as int]));
                assert forall|kk: int|
                    0 <= kk < i + 1 implies es.def_at(di as int, (#[trigger] symbols@[kk]).id)
                    == Some(
                    DefEntry {
                        state: DefState::Materializing { resp: rid2 },
                        ..es1.def_at(di as int, symbols@[kk].id)->Some_0
                    },
                ) by {
                    if kk < i {
                        assert(symbols@[kk].id != name.id);
                        assert(es_before.def_at(di as int, symbols@[kk].id) == Some(
                            DefEntry {
                                state: DefState::Materializing { resp: rid2 },
                                ..es1.def_at(di as int, symbols@[kk].id)->Some_0
                            },
                        ));
                    }
                }
                assert forall|id: usize|
                    #![trigger es.def_at(di as int, id)]
                    !names_contain(symbols@.take(i + 1), id) implies es.def_at(di as int, id)
                    == es1.def_at(di as int, id) by {
                    assert(!names_contain(symbols@.take(i as int), id)) by {
                        if names_contain(symbols@.take(i as int), id) {
                            let m = choose|m: int|
                                0 <= m < i && symbols@.take(i as int)[m].id == id;
                            assert(symbols@.take(i + 1)[m].id == id);
                        }
                    }
                    assert(id != name.id) by {
                        if id == name.id {
                            assert(symbols@.take(i + 1)[i as int].id == id);
                        }
                    }
                    assert(es_before.def_at(di as int, id) == es1.def_at(di as int, id));
                }
                assert forall|id: usize|
                    #![trigger contains_sym(new_syms@, id)]
                    contains_sym(new_syms@, id) <==> names_contain(symbols@.take(i + 1), id) by {
                    if contains_sym(new_syms@, id) {
                        let m = choose|m: int|
                            0 <= m < new_syms@.len() && new_syms@[m].name.id == id;
                        if m < ns0.len() {
                            assert(contains_sym(ns0, id));
                            let mm = choose|mm: int|
                                0 <= mm < i && symbols@.take(i as int)[mm].id == id;
                            assert(symbols@.take(i + 1)[mm].id == id);
                        } else {
                            assert(new_syms@[m].name.id == name.id);
                            assert(symbols@.take(i + 1)[i as int].id == id);
                        }
                    }
                    if names_contain(symbols@.take(i + 1), id) {
                        let m = choose|m: int|
                            0 <= m < symbols@.take(i + 1).len() && (#[trigger] symbols@.take(
                                i + 1,
                            )[m]).id == id;
                        if m < i {
                            assert(names_contain(symbols@.take(i as int), id));
                            assert(contains_sym(ns0, id));
                            let mm = choose|mm: int|
                                0 <= mm < ns0.len() && ns0[mm].name.id == id;
                            assert(new_syms@[mm].name.id == id);
                        } else {
                            assert(new_syms@[new_syms@.len() - 1].name.id == id);
                        }
                    }
                }
            }
            i = i + 1;
        }
        let ghost es_c = *es;
        proof {
            assert(symbols@.take(n as int) == symbols@);
        }
        // the remainder stays with this responsibility
        let mut kept: Vec<SymbolFlagsMapPair> = Vec::new();
        let ghost old_syms = es.resps@[rid as int].syms@;
        proof {
            assert(es1.resps@[rid as int].live);
            assert(distinct_sym_ids(old_syms));
        }
        let m_total = es.resps[rid].syms.len();
        let mut i: usize = 0;
        while i < m_total
            invariant
                i <= m_total,
                m_total == old_syms.len(),
                es.resps@[rid as int].syms@ == old_syms,
                rid < es.resps@.len(),
                distinct_sym_ids(old_syms),
                distinct_sym_ids(kept@),
                forall|id: usize|
                    #![trigger contains_sym(kept@, id)]
                    contains_sym(kept@, id) <==> (contains_sym(old_syms.take(i as int), id)
                        && !names_contain(symbols@, id)),
            decreases m_total - i,
        {
            let p = es.resps[rid].syms[i];
            let ghost kept0 = kept@;
            let drop_it = name_vec_contains(&symbols, p.name.id);
            if !drop_it {
                proof {
                    assert(!contains_sym(kept0, p.name.id)) by {
                        if contains_sym(kept0, p.name.id) {
                            let mm = choose|mm: int|
                                0 <= mm < old_syms.take(i as int).len() && (
                                #[trigger] old_syms.take(i as int)[mm]).name.id == p.name.id;
                            assert(old_syms[mm].name.id == old_syms[i as int].name.id);
                        }
                    }
                }
                kept.push(p);
                proof {
                    assert forall|a: int, b: int|
                        0 <= a < kept@.len() && 0 <= b < kept@.len() && a != b
                            implies (#[trigger] kept@[a]).name.id != (
                        #[trigger] kept@[b]).name.id by {
                        if a < kept0.len() && b < kept0.len() {
                            assert(kept0[a].name.id != kept0[b].name.id);
                        } else if b == kept0.len() {
                            assert(kept@[a] == kept0[a]);
                        } else {
                            assert(kept@[b] == kept0[b]);
                        }
                    }
                }
            }
            proof {
                assert(old_syms.take(i + 1) == old_syms.take(i as int).push(old_syms[i as int]));
                assert forall|id: usize|
                    #![trigger contains_sym(kept@, id)]
                    contains_sym(kept@, id) <==> (contains_sym(old_syms.take(i + 1), id)
                        && !names_contain(symbols@, id)) by {
                    if contains_sym(kept@, id) {
                        let m = choose|m: int| 0 <= m < kept@.len() && kept@[m].name.id == id;
                        if m < kept0.len() {
                            assert(contains_sym(kept0, id));
                            let mm = choose|mm: int|
                                0 <= mm < i && old_syms.take(i as int)[mm].name.id == id;
                            assert(old_syms.take(i + 1)[mm].name.id == id);
                        } else {
                            assert(kept@[m] == old_syms[i as int]);
                            assert(old_syms.take(i + 1)[i as int].name.id == id);
                        }
                    }
                    if contains_sym(old_syms.take(i + 1), id) && !names_contain(symbols@, id) {
                        let m = choose|m: int|
                            0 <= m < old_syms.take(i + 1).len() && (#[trigger] old_syms.take(
                                i + 1,
                            )[m]).name.id == id;
                        if m < i {
                            assert(contains_sym(old_syms.take(i as int), id));
                            assert(contains_sym(kept0, id));
                            let mm = choose|mm: int|
                                0 <= mm < kept0.len() && kept0[mm].name.id == id;
                            assert(kept@[mm].name.id == id);
                        } else {
                            assert(old_syms[i as int].name.id == id);
                            assert(!drop_it);
                            assert(kept@[kept@.len() - 1].name.id == id);
                        }
                    }
                }
            }
            i = i + 1;
        }
        proof {
            assert(old_syms.take(m_total as int) == old_syms);
        }
        let init = es.resps[rid].init;
        let dylib_idx = es.resps[rid].dylib;
        es.resps[rid].syms = kept;
        self.push_resp(es, RespRec { live: true, dylib: dylib_idx, init: None, syms: new_syms });
        let mr = MaterializationResponsibility { id: rid2 };
        proof {
            assert(es.dylibs == es_c.dylibs);
            assert forall|id: usize|
                #![trigger es.def_at(di as int, id)]
                !names_contain(symbols@, id) implies es.def_at(di as int, id) == es1.def_at(
                di as int,
                id,
            ) by {
                assert(es_c.def_at(di as int, id) == es1.def_at(di as int, id));
            }
            assert forall|k: int|
                0 <= k < symbols@.len() implies es.def_at(di as int, (#[trigger] symbols@[k]).id)
                == Some(
                DefEntry {
                    state: DefState::Materializing { resp: rid2 },
                    ..es1.def_at(di as int, symbols@[k].id)->Some_0
                },
            ) by {
                assert(es_c.def_at(di as int, symbols@[k].id) == Some(
                    DefEntry {
                        state: DefState::Materializing { resp: rid2 },
                        ..es1.def_at(di as int, symbols@[k].id)->Some_0
                    },
                ));
            }
            assert forall|dj: int| 0 <= dj < es.dylibs@.len() implies es.dylib_wf(dj) by {
                assert(es1.dylib_wf(dj));
                assert forall|kk: int|
                    0 <= kk < es.dylibs@[dj].entries@.len() implies es.entry_state_ok(
                    dj,
                    #[trigger] es.dylibs@[dj].entries@[kk],
                ) by {
                    let en = es.dylibs@[dj].entries@[kk];
                    if dj == di {
                        lemma_idx_unique(es.dylibs@[di as int].entries@, kk);
                        assert(es.def_at(di as int, en.name.id) == Some(en));
                        match en.state {
                            DefState::Materializing { resp } => {
                                if names_contain(symbols@, en.name.id) {
                                    let m = choose|m: int|
                                        0 <= m < symbols@.len() && symbols@[m].id == en.name.id;
                                    assert(es.def_at(di as int, (#[trigger] symbols@[m]).id)
                                        == Some(
                                        DefEntry {
                                            state: DefState::Materializing { resp: rid2 },
                                            ..es1.def_at(di as int, symbols@[m].id)->Some_0
                                        },
                                    ));
                                    assert(resp == rid2);
                                    assert(contains_sym(es.resps@[rid2 as int].syms@, en.name.id));
                                } else {
                                    assert(es.def_at(di as int, en.name.id) == es1.def_at(
                                        di as int,
                                        en.name.id,
                                    ));
                                    assert(es1.entry_state_ok(di as int, en));
                                    assert(es1.resp_owns(di as int, resp, en.name.id));
                                    if resp == rid {
                                        assert(contains_sym(old_syms, en.name.id));
                                        assert(contains_sym(
                                            es.resps@[rid as int].syms@,
                                            en.name.id,
                                        ));
                                    } else {
                                        assert(es.resps@[resp as int] == es1.resps@[resp as int]);
                                    }
                                }
                            },
                            DefState::Resolved { resp, symbol } => {
                                assert(!names_contain(symbols@, en.name.id)) by {
                                    if names_contain(symbols@, en.name.id) {
                                        let m = choose|m: int|
                                            0 <= m < symbols@.len() && symbols@[m].id
                                                == en.name.id;
                                        assert(es.def_at(di as int, (#[trigger] symbols@[m]).id)
                                            == Some(
                                            DefEntry {
                                                state: DefState::Materializing { resp: rid2 },
                                                ..es1.def_at(di as int, symbols@[m].id)->Some_0
                                            },
                                        ));
                                    }
                                }
                                assert(es.def_at(di as int, en.name.id) == es1.def_at(
                                    di as int,
                                    en.name.id,
                                ));
                                assert(es1.entry_state_ok(di as int, en));
                                assert(es1.resp_owns(di as int, resp, en.name.id));
                                if resp == rid {
                                    assert(contains_sym(old_syms, en.name.id));
                                    assert(contains_sym(es.resps@[rid as int].syms@, en.name.id));
                                } else {
                                    assert(es.resps@[resp as int] == es1.resps@[resp as int]);
                                }
                            },
                            DefState::Claimed { unit } => {
                                assert(unit < es.units@.len() && es.units@[unit as int].dylib
                                    == dj) by {
                                    if names_contain(symbols@, en.name.id) {
                                        let m = choose|m: int|
                                            0 <= m < symbols@.len() && symbols@[m].id
                                                == en.name.id;
                                        assert(es.def_at(di as int, (#[trigger] symbols@[m]).id)
                                            == Some(
                                            DefEntry {
                                                state: DefState::Materializing { resp: rid2 },
                                                ..es1.def_at(di as int, symbols@[m].id)->Some_0
                                            },
                                        ));
                                        assert(false);
                                    } else {
                                        assert(es.def_at(di as int, en.name.id) == es1.def_at(
                                            di as int,
                                            en.name.id,
                                        ));
                                        assert(es1.def_at(di as int, en.name.id) == Some(en));
                                        assert(es1.dylib_wf(di as int));
                                        assert(has_def(
                                            es1.dylibs@[di as int].entries@,
                                            en.name.id,
                                        ));
                                        let kx = crate::session::idx_of(
                                            es1.dylibs@[di as int].entries@,
                                            en.name.id,
                                        );
                                        assert(es1.entry_state_ok(
                                            di as int,
                                            es1.dylibs@[di as int].entries@[kx],
                                        ));
                                        assert(es1.dylibs@[di as int].entries@[kx] == en);
                                    }
                                }
                            },
                            _ => {},
                        }
                    } else {
                        assert(en == es1.dylibs@[dj].entries@[kk]);
                        assert(es1.entry_state_ok(dj, en));
                        match en.state {
                            DefState::Materializing { resp } => {
                                assert(es1.resp_owns(dj, resp, en.name.id));
                                assert(resp != rid && resp != rid2);
                                assert(es.resps@[resp as int] == es1.resps@[resp as int]);
                            },
                            DefState::Resolved { resp, symbol } => {
                                assert(es1.resp_owns(dj, resp, en.name.id));
                                assert(resp != rid && resp != rid2);
                                assert(es.resps@[resp as int] == es1.resps@[resp as int]);
                            },
                            _ => {},
                        }
                    }
                }
            }
            assert forall|s: SymRef| #[trigger] es.sym_failed(s) == es1.sym_failed(s) by {
                if s.dylib == di {
                    if names_contain(symbols@, s.sym) {
                        let m = choose|m: int| 0 <= m < symbols@.len() && symbols@[m].id == s.sym;
                        assert(es.def_at(di as int, (#[trigger] symbols@[m]).id) == Some(
                            DefEntry {
                                state: DefState::Materializing { resp: rid2 },
                                ..es1.def_at(di as int, symbols@[m].id)->Some_0
                            },
                        ));
                    } else {
                        assert(es.def_at(di as int, s.sym) == es1.def_at(di as int, s.sym));
                    }
                } else {
                    if 0 <= s.dylib < es.dylibs@.len() {
                        assert(es.dylibs@[s.dylib as int] == es1.dylibs@[s.dylib as int]);
                    }
                }
            }
            assert forall|s: SymRef| #[trigger] es.sym_unemitted(s) implies es1.sym_unemitted(
                s,
            ) by {
                if s.dylib == di {
                    if names_contain(symbols@, s.sym) {
                        let m = choose|m: int| 0 <= m < symbols@.len() && symbols@[m].id == s.sym;
                        assert(es.def_at(di as int, (#[trigger] symbols@[m]).id) == Some(
                            DefEntry {
                                state: DefState::Materializing { resp: rid2 },
                                ..es1.def_at(di as int, symbols@[m].id)->Some_0
                            },
                        ));
                        assert(es1.def_at(di as int, s.sym)->Some_0.state == (
                        DefState::Materializing { resp: rid }));
                    } else {
                        assert(es.def_at(di as int, s.sym) == es1.def_at(di as int, s.sym));
                    }
                } else {
                    if 0 <= s.dylib < es.dylibs@.len() {
                        assert(es.dylibs@[s.dylib as int] == es1.dylibs@[s.dylib as int]);
                    }
                }
            }
            assert forall|r2: int|
                0 <= r2 < es.resps@.len() && (#[trigger] es.resps@[r2]).live
                    implies distinct_sym_ids(es.resps@[r2].syms@) by {
                if r2 == rid as int {
                    assert(es.resps@[r2].syms@ == kept@);
                } else if r2 == rid2 as int {
                    assert(es.resps@[r2].syms@ == new_syms@);
                    assert forall|a: int, b: int|
                        0 <= a < new_syms@.len() && 0 <= b < new_syms@.len() && a != b
                            implies (#[trigger] new_syms@[a]).name.id != (
                        #[trigger] new_syms@[b]).name.id by {
                        assert(new_syms@[a].name == symbols@[a] && new_syms@[b].name
                            == symbols@[b]);
                    }
                } else {
                    assert(es.resps@[r2] == es1.resps@[r2]);
                }
            }
            lemma_closure_preserved(es1, *es);
            assert(es.wf());
        }
        Ok(mr)
    }

    /// The number of responsibility records.
    fn resp_count(&self, es: &ExecutionSession) -> (r: usize)
        ensures
            r == es.resps@.len(),
    {
        es.resps.len()
    }

    /// Appends a responsibility record.
    fn push_resp(&self, es: &mut ExecutionSession, rec: RespRec)
        ensures
            final(es).resps@ == old(es).resps@.push(rec),
            final(es).pool == old(es).pool,
            final(es).dylibs == old(es).dylibs,
            final(es).trackers == old(es).trackers,
            final(es).units == old(es).units,
            final(es).deps == old(es).deps,
    {
        es.resps.push(rec);
    }
}


impl MaterializationResponsibility {
    /// Hands every symbol the new unit declares — each of which must still be
    /// pending under this responsibility — over to that unit, which reclaims
    /// them through the normal define path: pending again for a custom unit,
    /// emitted at once for absolute symbols.  This responsibility stops
    /// governing them; later operations naming them are errors.  Dependence
    /// edges the old incarnation recorded from those symbols are discarded.
    #[verifier::loop_isolation(false)]
    #[verifier::rlimit(60)]
    pub fn replace(&self, es: &mut ExecutionSession, unit: MaterializationUnit) -> (r: Result<
        (),
        OrcError,
    >)
        requires
            old(es).wf(),
            self.live_in(*old(es)),
            decl_distinct(unit),
        ensures
            final(es).wf(),
            final(es).pool == old(es).pool,
            final(es).trackers == old(es).trackers,
            final(es).dylibs@.len() == old(es).dylibs@.len(),
            forall|k: int|
                0 <= k < old(es).dylibs@.len() && k != self.dylib_of(*old(es))
                    ==> final(es).dylibs@[k] == old(es).dylibs@[k],
            match r {
                Ok(()) => {
                    &&& forall|k: int|
                        0 <= k < decl_pairs(unit).len() ==> (match old(es).def_at(
                            self.dylib_of(*old(es)),
                            (#[trigger] decl_pairs(unit)[k]).name.id,
                        ) {
                            Some(e) => e.state == (DefState::Materializing { resp: self.id }),
                            None => false,
                        })
                    &&& forall|k: int|
                        0 <= k < decl_pairs(unit).len() ==> final(es).def_at(
                            self.dylib_of(*old(es)),
                            (#[trigger] decl_pairs(unit)[k]).name.id,
                        ) == Some(
                            DefEntry {
                                flags: decl_pairs(unit)[k].flags,
                                state: replaced_state(unit, old(es).units@.len() as usize, k),
                                ..old(es).def_at(
                                    self.dylib_of(*old(es)),
                                    decl_pairs(unit)[k].name.id,
                                )->Some_0
                            },
                        )
                    &&& forall|id: usize|
                        #![trigger final(es).def_at(self.dylib_of(*old(es)), id)]
                        !decl_contains(unit, id) ==> final(es).def_at(self.dylib_of(*old(es)), id)
                            == old(es).def_at(self.dylib_of(*old(es)), id)
                    &&& final(es).resps@.len() == old(es).resps@.len()
                    &&& forall|k: int|
                        0 <= k < old(es).resps@.len() && k != self.id ==> final(es).resps@[k]
                            == old(es).resps@[k]
                    &&& final(es).resps@[self.id as int].live
                    &&& final(es).resps@[self.id as int].dylib == old(es).resps@[self.id as
                        int].dylib
                    &&& final(es).resps@[self.id as int].init == old(es).resps@[self.id as
                        int].init
                    &&& forall|id: usize|
                        #![trigger contains_sym(final(es).resps@[self.id as int].syms@, id)]
                        contains_sym(final(es).resps@[self.id as int].syms@, id) <==> (
                        contains_sym(old(es).resps@[self.id as int].syms@, id) && !decl_contains(
                            unit,
                            id,
                        ))
                    &&& (unit.kind is Custom ==> final(es).units@.len() == old(es).units@.len() + 1
                        && (forall|k: int|
                        0 <= k < old(es).units@.len() ==> final(es).units@[k] == old(es).units@[k])
                        && final(es).units@[old(es).units@.len() as int].dylib == self.dylib_of(
                        *old(es),
                    ) && final(es).units@[old(es).units@.len() as int].unit_name@
                        == unit.unit_name@ && final(es).units@[old(es).units@.len() as int].init
                        == unit.kind->Custom_static_initializer)
                    &&& (unit.kind is Absolute ==> final(es).units == old(es).units)
                    &&& forall|a: SymRef, b: SymRef|
                        #[trigger] edge_in(final(es).deps@, a, b) <==> (edge_in(old(es).deps@, a, b)
                            && !(a.dylib == old(es).resps@[self.id as int].dylib && decl_contains(
                            unit,
                            a.sym,
                        )))
                },
                Err(e) => {
                    &&& e == OrcError::UnknownSymbol
                    &&& *final(es) == *old(es)
                    &&& !(forall|k: int|
                        0 <= k < decl_pairs(unit).len() ==> (match old(es).def_at(
                            self.dylib_of(*old(es)),
                            (#[trigger] decl_pairs(unit)[k]).name.id,
                        ) {
                            Some(e) => e.state == (DefState::Materializing { resp: self.id }),
                            None => false,
                        }))
                },
            },
    {
        let rid = self.id;
        let di = es.resps[rid].dylib;
        proof {
            assert(old(es).resps@[rid as int].live);
            assert(di < es.dylibs@.len());
            assert(es.dylib_wf(di as int));
        }
        let uidx = es.units.len();
        let ghost u0 = unit;
        let MaterializationUnit { unit_name, kind } = unit;
        // gather the declaration as plain vectors
        let mut names: Vec<SymbolStringPoolEntry> = Vec::new();
        let mut ids: Vec<usize> = Vec::new();
        let mut states: Vec<DefState> = Vec::new();
        let mut decl_flags: Vec<crate::symbol::SymbolFlags> = Vec::new();
        let is_custom: bool;
        let init_opt: Option<SymbolStringPoolEntry>;
        match kind {
            UnitKind::Custom { symbols, static_initializer } => {
                is_custom = true;
                init_opt = static_initializer;
                let mut i: usize = 0;
                while i < symbols.pairs.len()
                    invariant
                        i <= symbols.pairs@.len(),
                        names@.len() == i,
                        ids@.len() == i,
                        states@.len() == i,
                        decl_flags@.len() == i,
                        u0.kind is Custom,
                        decl_pairs(u0) == symbols.pairs@,
                        forall|k: int|
                            0 <= k < i ==> (#[trigger] names@[k]) == decl_pairs(u0)[k].name
                                && ids@[k] == decl_pairs(u0)[k].name.id && states@[k] == (
                            replaced_state(u0, uidx, k)) && decl_flags@[k] == decl_pairs(
                                u0,
                            )[k].flags,
                    decreases symbols.pairs@.len() - i,
                {
                    let p = symbols.pairs[i];
                    let ghost names0 = names@;
                    let ghost ids0 = ids@;
                    let ghost states0 = states@;
                    let ghost flags0 = decl_flags@;
                    names.push(p.name);
                    ids.push(p.name.id);
                    states.push(DefState::Claimed { unit: uidx });
                    decl_flags.push(p.flags);
                    proof {
                        assert(decl_pairs(u0)[i as int] == symbols.pairs@[i as int]);
                        assert(replaced_state(u0, uidx, i as int) == (DefState::Claimed {
                            unit: uidx,
                        }));
                        assert forall|k: int|
                            0 <= k < i + 1 implies (#[trigger] names@[k]) == decl_pairs(
                            u0,
                        )[k].name && ids@[k] == decl_pairs(u0)[k].name.id && states@[k] == (
                        replaced_state(u0, uidx, k)) && decl_flags@[k] == decl_pairs(
                            u0,
                        )[k].flags by {
                            if k < i {
                                assert(names@[k] == names0[k] && ids@[k] == ids0[k] && states@[k]
                                    == states0[k] && decl_flags@[k] == flags0[k]);
                                assert(names0[k] == decl_pairs(u0)[k].name);
                            } else {
                                assert(names@[k] == p.name && ids@[k] == p.name.id && states@[k]
                                    == (DefState::Claimed { unit: uidx }) && decl_flags@[k]
                                    == p.flags);
                            }
                        }
                    }
                    i = i + 1;
                }
            },
            UnitKind::Absolute { symbols } => {
                is_custom = false;
                init_opt = None;
                let mut i: usize = 0;
                while i < symbols.pairs.len()
                    invariant
                        i <= symbols.pairs@.len(),
                        names@.len() == i,
                        ids@.len() == i,
                        states@.len() == i,
                        decl_flags@.len() == i,
                        u0.kind is Absolute,
                        u0.kind->Absolute_symbols == symbols,
                        decl_pairs(u0).len() == symbols.pairs@.len(),
                        forall|k: int|
                            0 <= k < i ==> (#[trigger] names@[k]) == decl_pairs(u0)[k].name
                                && ids@[k] == decl_pairs(u0)[k].name.id && states@[k] == (
                            replaced_state(u0, uidx, k)) && decl_flags@[k] == decl_pairs(
                                u0,
                            )[k].flags,
                    decreases symbols.pairs@.len() - i,
                {
                    let p = symbols.pairs[i];
                    let ghost names0 = names@;
                    let ghost ids0 = ids@;
                    let ghost states0 = states@;
                    let ghost flags0 = decl_flags@;
                    names.push(p.name);
                    ids.push(p.name.id);
                    states.push(DefState::Emitted { symbol: p.symbol });
                    decl_flags.push(p.symbol.flags);
                    proof {
                        assert(decl_pairs(u0)[i as int] == (SymbolFlagsMapPair {
                            name: symbols.pairs@[i as int].name,
                            flags: symbols.pairs@[i as int].symbol.flags,
                        }));
                        assert(replaced_state(u0, uidx, i as int) == (DefState::Emitted {
                            symbol: symbols.pairs@[i as int].symbol,
                        }));
                        assert forall|k: int|
                            0 <= k < i + 1 implies (#[trigger] names@[k]) == decl_pairs(
                            u0,
                        )[k].name && ids@[k] == decl_pairs(u0)[k].name.id && states@[k] == (
                        replaced_state(u0, uidx, k)) && decl_flags@[k] == decl_pairs(
                            u0,
                        )[k].flags by {
                            if k < i {
                                assert(names@[k] == names0[k] && ids@[k] == ids0[k] && states@[k]
                                    == states0[k] && decl_flags@[k] == flags0[k]);
                                assert(names0[k] == decl_pairs(u0)[k].name);
                            } else {
                                assert(names@[k] == p.name && ids@[k] == p.name.id && states@[k]
                                    == (DefState::Emitted { symbol: p.symbol }) && decl_flags@[k]
                                    == p.symbol.flags);
                            }
                        }
                    }
                    i = i + 1;
                }
            },
        }
        let n = names.len();
        proof {
            assert(names@.len() == decl_pairs(u0).len());
            assert forall|x: usize| ids@.contains(x) <==> decl_contains(u0, x) by {
                if ids@.contains(x) {
                    let k = choose|k: int| 0 <= k < ids@.len() && ids@[k] == x;
                    assert(names@[k] == decl_pairs(u0)[k].name);
                    assert(decl_pairs(u0)[k].name.id == x);
                }
                if decl_contains(u0, x) {
                    let k = choose|k: int|
                        0 <= k < decl_pairs(u0).len() && decl_pairs(u0)[k].name.id == x;
                    assert(names@[k] == decl_pairs(u0)[k].name);
                    assert(ids@[k] == x);
                }
            }
        }
        // every declared name must still be pending under this token
        let mut i: usize = 0;
        while i < n
            invariant
                i <= n,
                forall|k: int|
                    0 <= k < i ==> (match es.def_at(di as int, (#[trigger] decl_pairs(
                        u0,
                    )[k]).name.id) {
                        Some(e) => e.state == (DefState::Materializing { resp: rid }),
                        None => false,
                    }),
            decreases n - i,
        {
            let name = names[i];
            let okk: bool = match find_idx(&es.dylibs[di].entries, name.id) {
                Some(k) => {
                    proof {
                        lemma_idx_unique(es.dylibs@[di as int].entries@, k as int);
                    }
                    match es.dylibs[di].entries[k].state {
                        DefState::Materializing { resp } => resp == rid,
                        _ => false,
                    }
                },
                None => false,
            };
            if !okk {
                return Err(OrcError::UnknownSymbol);
            }
            i = i + 1;
        }
        if is_custom {
            es.units.push(UnitRec { unit_name, dylib: di, init: init_opt });
        }
        let ghost es1 = *es;
        // reclaim the declared entries under the new unit
        let mut i: usize = 0;
        while i < n
            invariant
                i <= n,
                es.pool == es1.pool,
                es.trackers == es1.trackers,
                es.units == es1.units,
                es.resps == es1.resps,
                es.deps == es1.deps,
                es.dylibs@.len() == es1.dylibs@.len(),
                forall|k: int|
                    0 <= k < es.dylibs@.len() && k != di ==> es.dylibs@[k] == es1.dylibs@[k],
                es.dylibs@[di as int].name == es1.dylibs@[di as int].name,
                es.dylibs@[di as int].bare == es1.dylibs@[di as int].bare,
                es.dylibs@[di as int].default_tracker == es1.dylibs@[di as int].default_tracker,
                distinct_ids(es.dylibs@[di as int].entries@),
                forall|k: int|
                    0 <= k < i ==> es.def_at(di as int, (#[trigger] decl_pairs(u0)[k]).name.id)
                        == Some(
                        DefEntry {
                            flags: decl_pairs(u0)[k].flags,
                            state: replaced_state(u0, uidx, k),
                            ..es1.def_at(di as int, decl_pairs(u0)[k].name.id)->Some_0
                        },
                    ),
                forall|id: usize|
                    #![trigger es.def_at(di as int, id)]
                    !names_contain(names@.take(i as int), id) ==> es.def_at(di as int, id)
                        == es1.def_at(di as int, id),
            decreases n - i,
        {
            let name = names[i];
            let ghost ent0 = es.dylibs@[di as int].entries@;
            let ghost es_before = *es;
            proof {
                assert(!names_contain(names@.take(i as int), name.id)) by {
                    if names_contain(names@.take(i as int), name.id) {
                        let k = choose|k: int| 0 <= k < i && names@.take(i as int)[k].id == name.id;
                        assert(decl_pairs(u0)[k].name.id == decl_pairs(u0)[i as int].name.id);
                    }
                }
                assert(es.def_at(di as int, name.id) == es1.def_at(di as int, name.id));
            }
            let k: usize = match find_idx(&es.dylibs[di].entries, name.id) {
                Some(k) => k,
                None => {
                    proof {
                        assert(false);
                    }
                    0
                },
            };
            proof {
                lemma_idx_unique(es.dylibs@[di as int].entries@, k as int);
            }
            let e = es.dylibs[di].entries[k];
            let st = states[i];
            let fl = decl_flags[i];
            let e2 = DefEntry { flags: fl, state: st, ..e };
            es.dylibs[di].entries.set(k, e2);
            proof {
                lemma_update_entry(ent0, k as int, e2);
                assert(names@.take(i + 1) == names@.take(i as int).push(names@[i as int]));
                assert forall|kk: int|
                    0 <= kk < i + 1 implies es.def_at(
                    di as int,
                    (#[trigger] decl_pairs(u0)[kk]).name.id,
                ) == Some(
                    DefEntry {
                        flags: decl_pairs(u0)[kk].flags,
                        state: replaced_state(u0, uidx, kk),
                        ..es1.def_at(di as int, decl_pairs(u0)[kk].name.id)->Some_0
                    },
                ) by {
                    if kk < i {
                        assert(decl_pairs(u0)[kk].name.id != name.id);
                        assert(es_before.def_at(di as int, decl_pairs(u0)[kk].name.id) == Some(
                            DefEntry {
                                flags: decl_pairs(u0)[kk].flags,
                                state: replaced_state(u0, uidx, kk),
                                ..es1.def_at(di as int, decl_pairs(u0)[kk].name.id)->Some_0
                            },
                        ));
                    }
                }
                assert forall|id: usize|
                    #![trigger es.def_at(di as int, id)]
                    !names_contain(names@.take(i + 1), id) implies es.def_at(di as int, id)
                    == es1.def_at(di as int, id) by {
                    assert(!names_contain(names@.take(i as int), id)) by {
                        if names_contain(names@.take(i as int), id) {
                            let m = choose|m: int| 0 <= m < i && names@.take(i as int)[m].id == id;
                            assert(names@.take(i + 1)[m].id == id);
                        }
                    }
                    assert(id != name.id) by {
                        if id == name.id {
                            assert(names@.take(i + 1)[i as int].id == id);
                        }
                    }
                    assert(es_before.def_at(di as int, id) == es1.def_at(di as int, id));
                }
            }
            i = i + 1;
        }
        let ghost es_c = *es;
        proof {
            assert(names@.take(n as int) == names@);
            assert forall|id: usize| names_contain(names@, id) <==> decl_contains(u0, id) by {
                if names_contain(names@, id) {
                    let m = choose|m: int| 0 <= m < names@.len() && names@[m].id == id;
                    assert(names@[m] == decl_pairs(u0)[m].name);
                    assert(decl_pairs(u0)[m].name.id == id);
                }
                if decl_contains(u0, id) {
                    let m = choose|m: int|
                        0 <= m < decl_pairs(u0).len() && decl_pairs(u0)[m].name.id == id;
                    assert(names@[m] == decl_pairs(u0)[m].name);
                    assert(names@[m].id == id);
                }
            }
        }
        // the declared names leave this responsibility
        let mut kept: Vec<SymbolFlagsMapPair> = Vec::new();
        let ghost old_syms = es.resps@[rid as int].syms@;
        proof {
            assert(es1.resps@[rid as int].live);
            assert(distinct_sym_ids(old_syms));
        }
        let m_total = es.resps[rid].syms.len();
        let mut i: usize = 0;
        while i < m_total
            invariant
                i <= m_total,
                m_total == old_syms.len(),
                es.resps@[rid as int].syms@ == old_syms,
                rid < es.resps@.len(),
                distinct_sym_ids(old_syms),
                distinct_sym_ids(kept@),
                forall|id: usize|
                    #![trigger contains_sym(kept@, id)]
                    contains_sym(kept@, id) <==> (contains_sym(old_syms.take(i as int), id)
                        && !names_contain(names@, id)),
            decreases m_total - i,
        {
            let p = es.resps[rid].syms[i];
            let ghost kept0 = kept@;
            let drop_it = name_vec_contains(&names, p.name.id);
            if !drop_it {
                proof {
                    assert(!contains_sym(kept0, p.name.id)) by {
                        if contains_sym(kept0, p.name.id) {
                            let mm = choose|mm: int|
                                0 <= mm < old_syms.take(i as int).len() && (
                                #[trigger] old_syms.take(i as int)[mm]).name.id == p.name.id;
                            assert(old_syms[mm].name.id == old_syms[i as int].name.id);
                        }
                    }
                }
                kept.push(p);
                proof {
                    assert forall|a: int, b: int|
                        0 <= a < kept@.len() && 0 <= b < kept@.len() && a != b
                            implies (#[trigger] kept@[a]).name.id != (
                        #[trigger] kept@[b]).name.id by {
                        if a < kept0.len() && b < kept0.len() {
                            assert(kept0[a].name.id != kept0[b].name.id);
                        } else if b == kept0.len() {
                            assert(kept@[a] == kept0[a]);
                        } else {
                            assert(kept@[b] == kept0[b]);
                        }
                    }
                }
            }
            proof {
                assert(old_syms.take(i + 1) == old_syms.take(i as int).push(old_syms[i as int]));
                assert forall|id: usize|
                    #![trigger contains_sym(kept@, id)]
                    contains_sym(kept@, id) <==> (contains_sym(old_syms.take(i + 1), id)
                        && !names_contain(names@, id)) by {
                    if contains_sym(kept@, id) {
                        let m = choose|m: int| 0 <= m < kept@.len() && kept@[m].name.id == id;
                        if m < kept0.len() {
                            assert(contains_sym(kept0, id));
                            let mm = choose|mm: int|
                                0 <= mm < i && old_syms.take(i as int)[mm].name.id == id;
                            assert(old_syms.take(i + 1)[mm].name.id == id);
                        } else {
                            assert(kept@[m] == old_syms[i as int]);
                            assert(old_syms.take(i + 1)[i as int].name.id == id);
                        }
                    }
                    if contains_sym(old_syms.take(i + 1), id) && !names_contain(names@, id) {
                        let m = choose|m: int|
                            0 <= m < old_syms.take(i + 1).len() && (#[trigger] old_syms.take(
                                i + 1,
                            )[m]).name.id == id;
                        if m < i {
                            assert(contains_sym(old_syms.take(i as int), id));
                            assert(contains_sym(kept0, id));
                            let mm = choose|mm: int|
                                0 <= mm < kept0.len() && kept0[mm].name.id == id;
                            assert(kept@[mm].name.id == id);
                        } else {
                            assert(old_syms[i as int].name.id == id);
                            assert(!drop_it);
                            assert(kept@[kept@.len() - 1].name.id == id);
                        }
                    }
                }
            }
            i = i + 1;
        }
        proof {
            assert(old_syms.take(m_total as int) == old_syms);
        }
        es.resps[rid].syms = kept;
        // the old incarnation's recorded constraints die with it
        let newdeps = crate::session::filter_edges_not_from(&es.deps, di, &ids);
        let ghost es_d = *es;
        es.deps = newdeps;
        proof {
            assert(es.dylibs == es_c.dylibs);
            assert forall|id: usize|
                #![trigger es.def_at(di as int, id)]
                !decl_contains(u0, id) implies es.def_at(di as int, id) == es1.def_at(
                di as int,
                id,
            ) by {
                assert(!names_contain(names@, id));
                assert(es_c.def_at(di as int, id) == es1.def_at(di as int, id));
            }
            assert forall|k: int|
                0 <= k < decl_pairs(u0).len() implies es.def_at(
                di as int,
                (#[trigger] decl_pairs(u0)[k]).name.id,
            ) == Some(
                DefEntry {
                    flags: decl_pairs(u0)[k].flags,
                    state: replaced_state(u0, uidx, k),
                    ..es1.def_at(di as int, decl_pairs(u0)[k].name.id)->Some_0
                },
            ) by {
                assert(es_c.def_at(di as int, decl_pairs(u0)[k].name.id) == Some(
                    DefEntry {
                        flags: decl_pairs(u0)[k].flags,
                        state: replaced_state(u0, uidx, k),
                        ..es1.def_at(di as int, decl_pairs(u0)[k].name.id)->Some_0
                    },
                ));
            }
            // edges of the final state against the original ones
            assert forall|a: SymRef, b: SymRef| #[trigger] edge_in(es.deps@, a, b) <==> (edge_in(
                old(es).deps@,
                a,
                b,
            ) && !(a.dylib == di && decl_contains(u0, a.sym))) by {
                assert(edge_in(es.deps@, a, b) <==> (edge_in(es_d.deps@, a, b) && !(a.dylib == di
                    && ids@.contains(a.sym))));
            }
            // the session invariant
            assert forall|dj: int| 0 <= dj < es.dylibs@.len() implies es.dylib_wf(dj) by {
                assert(old(es).dylib_wf(dj));
                assert forall|kk: int|
                    0 <= kk < es.dylibs@[dj].entries@.len() implies es.entry_state_ok(
                    dj,
                    #[trigger] es.dylibs@[dj].entries@[kk],
                ) by {
                    let en = es.dylibs@[dj].entries@[kk];
                    if dj == di {
                        lemma_idx_unique(es.dylibs@[di as int].entries@, kk);
                        assert(es.def_at(di as int, en.name.id) == Some(en));
                        if decl_contains(u0, en.name.id) {
                            let m = choose|m: int|
                                0 <= m < decl_pairs(u0).len() && decl_pairs(u0)[m].name.id
                                    == en.name.id;
                            assert(es.def_at(di as int, (#[trigger] decl_pairs(u0)[m]).name.id)
                                == Some(
                                DefEntry {
                                    flags: decl_pairs(u0)[m].flags,
                                    state: replaced_state(u0, uidx, m),
                                    ..es1.def_at(di as int, decl_pairs(u0)[m].name.id)->Some_0
                                },
                            ));
                            match en.state {
                                DefState::Claimed { unit } => {
                                    assert(unit == uidx);
                                    assert(u0.kind is Custom);
                                    assert(uidx < es.units@.len() && es.units@[uidx as int].dylib
                                        == di);
                                },
                                _ => {},
                            }
                        } else {
                            assert(es.def_at(di as int, en.name.id) == es1.def_at(
                                di as int,
                                en.name.id,
                            ));
                            assert(es1.def_at(di as int, en.name.id) == Some(en));
                            assert(es1.dylib_wf(di as int)) by {
                                assert forall|k2: int|
                                    0 <= k2 < es1.dylibs@[di as int].entries@.len()
                                        implies es1.entry_state_ok(
                                    di as int,
                                    #[trigger] es1.dylibs@[di as int].entries@[k2],
                                ) by {
                                    assert(old(es).entry_state_ok(
                                        di as int,
                                        old(es).dylibs@[di as int].entries@[k2],
                                    ));
                                    let e1k = es1.dylibs@[di as int].entries@[k2];
                                    match e1k.state {
                                        DefState::Claimed { unit } => {
                                            assert(unit < old(es).units@.len());
                                            assert(es1.units@[unit as int] == old(es).units@[unit as int]);
                                        },
                                        _ => {},
                                    }
                                }
                            }
                            assert(has_def(es1.dylibs@[di as int].entries@, en.name.id));
                            let kx = crate::session::idx_of(
                                es1.dylibs@[di as int].entries@,
                                en.name.id,
                            );
                            assert(es1.entry_state_ok(di as int, es1.dylibs@[di as
                                int].entries@[kx]));
                            assert(es1.dylibs@[di as int].entries@[kx] == en);
                            match en.state {
                                DefState::Materializing { resp } => {
                                    assert(es1.resp_owns(di as int, resp, en.name.id));
                                    if resp == rid {
                                        assert(contains_sym(old_syms, en.name.id));
                                        assert(contains_sym(
                                            es.resps@[rid as int].syms@,
                                            en.name.id,
                                        ));
                                    } else {
                                        assert(es.resps@[resp as int] == es1.resps@[resp as int]);
                                    }
                                },
                                DefState::Resolved { resp, symbol } => {
                                    assert(es1.resp_owns(di as int, resp, en.name.id));
                                    if resp == rid {
                                        assert(contains_sym(old_syms, en.name.id));
                                        assert(contains_sym(
                                            es.resps@[rid as int].syms@,
                                            en.name.id,
                                        ));
                                    } else {
                                        assert(es.resps@[resp as int] == es1.resps@[resp as int]);
                                    }
                                },
                                _ => {},
                            }
                        }
                    } else {
                        assert(en == old(es).dylibs@[dj].entries@[kk]);
                        assert(old(es).entry_state_ok(dj, en));
                        match en.state {
                            DefState::Materializing { resp } => {
                                assert(old(es).resp_owns(dj, resp, en.name.id));
                                assert(resp != rid);
                                assert(es.resps@[resp as int] == old(es).resps@[resp as int]);
                            },
                            DefState::Resolved { resp, symbol } => {
                                assert(old(es).resp_owns(dj, resp, en.name.id));
                                assert(resp != rid);
                                assert(es.resps@[resp as int] == old(es).resps@[resp as int]);
                            },
                            DefState::Claimed { unit } => {
                                assert(unit < old(es).units@.len());
                                assert(es.units@[unit as int] == old(es).units@[unit as int]);
                            },
                            _ => {},
                        }
                    }
                }
            }
            assert forall|i2: int|
                0 <= i2 < es.deps@.len() implies (#[trigger] es.deps@[i2]).src.dylib
                    < es.dylibs@.len() && es.deps@[i2].dst.dylib < es.dylibs@.len() by {
                assert(es_d.deps@.contains(es.deps@[i2]));
                let j = choose|j: int| 0 <= j < es_d.deps@.len() && es_d.deps@[j] == es.deps@[i2];
                assert(old(es).deps@[j] == es.deps@[i2]);
            }
            assert(acyclic(es.deps@)) by {
                assert forall|a: SymRef, b: SymRef| #[trigger] edge_in(es.deps@, a, b) implies
                    edge_in(old(es).deps@, a, b) by {}
                lemma_acyclic_narrow(es.deps@, old(es).deps@);
            }
            assert forall|i2: int| 0 <= i2 < es.deps@.len() implies !(es.sym_failed(
                (#[trigger] es.deps@[i2]).dst,
            ) && es.sym_unemitted(es.deps@[i2].src)) by {
                let e = es.deps@[i2];
                assert(es_d.deps@.contains(e));
                let j = choose|j: int| 0 <= j < es_d.deps@.len() && es_d.deps@[j] == e;
                assert(old(es).deps@[j] == e);
                assert(!(old(es).sym_failed(e.dst) && old(es).sym_unemitted(e.src)));
                assert(!(e.src.dylib == di && ids@.contains(e.src.sym)));
                assert(es.sym_unemitted(e.src) == old(es).sym_unemitted(e.src)) by {
                    if e.src.dylib == di {
                        assert(!decl_contains(u0, e.src.sym));
                        assert(es.def_at(e.src.dylib as int, e.src.sym) == old(es).def_at(
                            e.src.dylib as int,
                            e.src.sym,
                        ));
                    } else {
                        assert(es.dylibs@[e.src.dylib as int] == old(es).dylibs@[e.src.dylib as
                            int]);
                    }
                }
                if e.dst.dylib == di && decl_contains(u0, e.dst.sym) {
                    let k = choose|k: int|
                        0 <= k < decl_pairs(u0).len() && decl_pairs(u0)[k].name.id == e.dst.sym;
                    assert(es.def_at(di as int, (#[trigger] decl_pairs(u0)[k]).name.id) == Some(
                        DefEntry {
                            flags: decl_pairs(u0)[k].flags,
                            state: replaced_state(u0, uidx, k),
                            ..es1.def_at(di as int, decl_pairs(u0)[k].name.id)->Some_0
                        },
                    ));
                    assert(!(replaced_state(u0, uidx, k) is Failed));
                    assert(!es.sym_failed(e.dst));
                } else {
                    assert(es.sym_failed(e.dst) == old(es).sym_failed(e.dst)) by {
                        if e.dst.dylib == di {
                            assert(es.def_at(e.dst.dylib as int, e.dst.sym) == old(es).def_at(
                                e.dst.dylib as int,
                                e.dst.sym,
                            ));
                        } else {
                            assert(es.dylibs@[e.dst.dylib as int] == old(es).dylibs@[e.dst.dylib as
                                int]);
                        }
                    }
                }
            }
            assert forall|r2: int|
                0 <= r2 < es.resps@.len() && (#[trigger] es.resps@[r2]).live
                    implies distinct_sym_ids(es.resps@[r2].syms@) by {
                if r2 == rid as int {
                    assert(es.resps@[r2].syms@ == kept@);
                } else {
                    assert(es.resps@[r2] == es1.resps@[r2]);
                }
            }
            assert(es.wf());
        }
        Ok(())
    }
}


/// The dependence request lists symbol `b` (of some namespace) as a target.
pub open spec fn dep_listed(pairs: Seq<crate::deps::DependenceMapPair>, b: SymRef) -> bool {
    exists|p: int, q: int|
        0 <= p < pairs.len() && 0 <= q < (#[trigger] pairs[p]).names@.len()
            && pairs[p].jit_dylib.id == b.dylib && (#[trigger] pairs[p].names@[q]).id == b.sym
}

/// A dependence target must currently be defined and not failed.
pub open spec fn dep_target_ok(es: ExecutionSession, b: SymRef) -> bool {
    es.occupied(b.dylib as int, b.sym)
}

/// Appends checked dependence edges: every target must be a live definition
/// and the grown graph must stay acyclic, else nothing changes.
#[verifier::loop_isolation(false)]
fn add_edges_checked(es: &mut ExecutionSession, new_edges: Vec<crate::deps::DepEdge>) -> (r:
    Result<(), OrcError>)
    requires
        old(es).wf(),
        forall|i: int|
            0 <= i < new_edges@.len() ==> old(es).sym_unemitted(
                (#[trigger] new_edges@[i]).src,
            ),
    ensures
        final(es).wf(),
        final(es).pool == old(es).pool,
        final(es).dylibs == old(es).dylibs,
        final(es).trackers == old(es).trackers,
        final(es).units == old(es).units,
        final(es).resps == old(es).resps,
        match r {
            Ok(()) => {
                &&& forall|i: int|
                    0 <= i < new_edges@.len() ==> dep_target_ok(
                        *old(es),
                        (#[trigger] new_edges@[i]).dst,
                    )
                &&& acyclic(old(es).deps@ + new_edges@)
                &&& final(es).deps@ == old(es).deps@ + new_edges@
            },
            Err(e) => {
                &&& *final(es) == *old(es)
                &&& (e == OrcError::UnknownSymbol || e == OrcError::DependencyCycle)
                &&& ((e == OrcError::UnknownSymbol) <==> !(forall|i: int|
                    0 <= i < new_edges@.len() ==> dep_target_ok(
                        *old(es),
                        (#[trigger] new_edges@[i]).dst,
                    )))
                &&& (e == OrcError::DependencyCycle ==> !acyclic(old(es).deps@ + new_edges@))
            },
        },
{
    let n = new_edges.len();
    let mut i: usize = 0;
    while i < n
        invariant
            i <= n,
            forall|k: int|
                0 <= k < i ==> dep_target_ok(*es, (#[trigger] new_edges@[k]).dst),
        decreases n - i,
    {
        let t = new_edges[i].dst;
        let okk: bool = if t.dylib < es.dylibs.len() {
            proof {
                assert(es.dylib_wf(t.dylib as int));
            }
            match find_idx(&es.dylibs[t.dylib].entries, t.sym) {
                Some(k) => {
                    proof {
                        lemma_idx_unique(es.dylibs@[t.dylib as int].entries@, k as int);
                    }
                    match es.dylibs[t.dylib].entries[k].state {
                        DefState::Failed => false,
                        DefState::Removed => false,
                        _ => true,
                    }
                },
                None => false,
            }
        } else {
            false
        };
        if !okk {
            return Err(OrcError::UnknownSymbol);
        }
        i = i + 1;
    }
    // the candidate graph: all current edges plus the new ones
    let mut cand: Vec<crate::deps::DepEdge> = Vec::new();
    let nd = es.deps.len();
    let mut i: usize = 0;
    while i < nd
        invariant
            i <= nd,
            nd == es.deps@.len(),
            cand@ == es.deps@.take(i as int),
        decreases nd - i,
    {
        cand.push(es.deps[i]);
        proof {
            assert(es.deps@.take(i + 1) == es.deps@.take(i as int).push(es.deps@[i as int]));
        }
        i = i + 1;
    }
    let mut i: usize = 0;
    while i < n
        invariant
            i <= n,
            cand@ == es.deps@ + new_edges@.take(i as int),
        decreases n - i,
    {
        cand.push(new_edges[i]);
        proof {
            assert(new_edges@.take(i + 1) == new_edges@.take(i as int).push(
                new_edges@[i as int],
            ));
            assert(es.deps@ + new_edges@.take(i + 1) == (es.deps@ + new_edges@.take(
                i as int,
            )).push(new_edges@[i as int]));
        }
        i = i + 1;
    }
    proof {
        assert(es.deps@.take(nd as int) == es.deps@);
        assert(new_edges@.take(n as int) == new_edges@);
        assert(cand@ == es.deps@ + new_edges@);
    }
    if !crate::deps::acyclic_exec(&cand) {
        return Err(OrcError::DependencyCycle);
    }
    let ghost es0 = *es;
    es.deps = cand;
    proof {
        assert forall|dj: int| 0 <= dj < es.dylibs@.len() implies es.dylib_wf(dj) by {
            assert(es0.dylib_wf(dj));
            assert forall|kk: int|
                0 <= kk < es.dylibs@[dj].entries@.len() implies es.entry_state_ok(
                dj,
                #[trigger] es.dylibs@[dj].entries@[kk],
            ) by {
                assert(es0.entry_state_ok(dj, es0.dylibs@[dj].entries@[kk]));
            }
        }
        assert forall|i2: int|
            0 <= i2 < es.deps@.len() implies (#[trigger] es.deps@[i2]).src.dylib
                < es.dylibs@.len() && es.deps@[i2].dst.dylib < es.dylibs@.len() by {
            if i2 < es0.deps@.len() {
                assert(es.deps@[i2] == es0.deps@[i2]);
            } else {
                let k = i2 - es0.deps@.len();
                assert(es.deps@[i2] == new_edges@[k]);
                assert(es0.sym_unemitted(new_edges@[k].src));
                assert(dep_target_ok(es0, new_edges@[k].dst));
            }
        }
        assert forall|i2: int| 0 <= i2 < es.deps@.len() implies !(es.sym_failed(
            (#[trigger] es.deps@[i2]).dst,
        ) && es.sym_unemitted(es.deps@[i2].src)) by {
            if i2 < es0.deps@.len() {
                assert(es.deps@[i2] == es0.deps@[i2]);
                assert(!(es0.sym_failed(es0.deps@[i2].dst) && es0.sym_unemitted(
                    es0.deps@[i2].src,
                )));
            } else {
                let k = i2 - es0.deps@.len();
                assert(es.deps@[i2] == new_edges@[k]);
                assert(dep_target_ok(es0, new_edges@[k].dst));
                assert(!es.sym_failed(new_edges@[k].dst));
            }
        }
        assert(es.wf());
    }
    Ok(())
}

impl MaterializationResponsibility {
    /// Records that the named symbol of this responsibility must wait on the
    /// given namespaces' symbols: it cannot be considered safely emitted
    /// until they are, and it fails if any of them fails.  The symbol must be
    /// governed by this responsibility and every target must be a live
    /// definition; a request that would make the dependence graph cyclic is
    /// rejected outright.
    #[verifier::loop_isolation(false)]
    pub fn add_dependencies(
        &self,
        es: &mut ExecutionSession,
        name: SymbolStringPoolEntry,
        dependencies: DependenceMapPairs,
    ) -> (r: Result<(), OrcError>)
        requires
            old(es).wf(),
            self.live_in(*old(es)),
        ensures
            final(es).wf(),
            final(es).pool == old(es).pool,
            final(es).dylibs == old(es).dylibs,
            final(es).trackers == old(es).trackers,
            final(es).units == old(es).units,
            final(es).resps == old(es).resps,
            match r {
                Ok(()) => {
                    &&& self.governs(*old(es), name.id)
                    &&& forall|b: SymRef|
                        dep_listed(dependencies.pairs@, b) ==> dep_target_ok(*old(es), b)
                    &&& acyclic(final(es).deps@)
                    &&& forall|a: SymRef, b: SymRef|
                        #[trigger] edge_in(final(es).deps@, a, b) <==> (edge_in(
                            old(es).deps@,
                            a,
                            b,
                        ) || (a == (SymRef {
                            dylib: old(es).resps@[self.id as int].dylib,
                            sym: name.id,
                        }) && dep_listed(dependencies.pairs@, b)))
                },
                Err(e) => {
                    &&& *final(es) == *old(es)
                    &&& (e == OrcError::UnknownSymbol || e == OrcError::DependencyCycle)
                    // unknown-symbol exactly when the name is not governed
                    // here or some listed target is not a live definition
                    &&& ((e == OrcError::UnknownSymbol) <==> !(self.governs(*old(es), name.id)
                        && forall|b: SymRef|
                        dep_listed(dependencies.pairs@, b) ==> dep_target_ok(*old(es), b)))
                    // dependency-cycle only when the grown graph — however it
                    // is laid out — would really be cyclic
                    &&& (e == OrcError::DependencyCycle ==> self.governs(*old(es), name.id)
                        && (forall|b: SymRef|
                        dep_listed(dependencies.pairs@, b) ==> dep_target_ok(*old(es), b))
                        && (forall|cand: Seq<crate::deps::DepEdge>|
                        #![trigger acyclic(cand)]
                        (forall|a: SymRef, b: SymRef|
                            #[trigger] edge_in(cand, a, b) <==> (edge_in(old(es).deps@, a, b) || (
                            a == (SymRef {
                                dylib: old(es).resps@[self.id as int].dylib,
                                sym: name.id,
                            }) && dep_listed(dependencies.pairs@, b)))) ==> !acyclic(cand)))
                },
            },
    {
        let rid = self.id;
        let di = es.resps[rid].dylib;
        proof {
            assert(old(es).resps@[rid as int].live);
            assert(di < es.dylibs@.len());
            assert(es.dylib_wf(di as int));
        }
        // the named symbol must still be governed here
        let okk: bool = match find_idx(&es.dylibs[di].entries, name.id) {
            Some(k) => {
                proof {
                    lemma_idx_unique(es.dylibs@[di as int].entries@, k as int);
                }
                match es.dylibs[di].entries[k].state {
                    DefState::Materializing { resp } => resp == rid,
                    DefState::Resolved { resp, symbol } => resp == rid,
                    _ => false,
                }
            },
            None => false,
        };
        if !okk {
            proof {
                assert(!self.governs(*old(es), name.id));
            }
            return Err(OrcError::UnknownSymbol);
        }
        proof {
            assert(self.governs(*old(es), name.id));
        }
        let src = SymRef { dylib: di, sym: name.id };
        let mut new_edges: Vec<crate::deps::DepEdge> = Vec::new();
        let np = dependencies.pairs.len();
        let mut p: usize = 0;
        while p < np
            invariant
                np == dependencies.pairs@.len(),
                p <= np,
                forall|i: int|
                    0 <= i < new_edges@.len() ==> (#[trigger] new_edges@[i]).src == src
                        && dep_listed(dependencies.pairs@, new_edges@[i].dst),
                forall|p2: int, q2: int|
                    0 <= p2 < p && 0 <= q2 < (#[trigger] dependencies.pairs@[p2]).names@.len()
                        ==> edge_in_vec(
                        new_edges@,
                        src,
                        SymRef {
                            dylib: dependencies.pairs@[p2].jit_dylib.id,
                            sym: (#[trigger] dependencies.pairs@[p2].names@[q2]).id,
                        },
                    ),
            decreases np - p,
        {
            let dd = dependencies.pairs[p].jit_dylib.id;
            let nq = dependencies.pairs[p].names.len();
            let mut q: usize = 0;
            while q < nq
                invariant
                    np == dependencies.pairs@.len(),
                    p < np,
                    nq == dependencies.pairs@[p as int].names@.len(),
                    dd == dependencies.pairs@[p as int].jit_dylib.id,
                    q <= nq,
                    forall|i: int|
                        0 <= i < new_edges@.len() ==> (#[trigger] new_edges@[i]).src == src
                            && dep_listed(dependencies.pairs@, new_edges@[i].dst),
                    forall|p2: int, q2: int|
                        0 <= p2 < p && 0 <= q2 < (#[trigger] dependencies.pairs@[p2]).names@.len()
                            ==> edge_in_vec(
                            new_edges@,
                            src,
                            SymRef {
                                dylib: dependencies.pairs@[p2].jit_dylib.id,
                                sym: (#[trigger] dependencies.pairs@[p2].names@[q2]).id,
                            },
                        ),
                    forall|q2: int|
                        0 <= q2 < q ==> edge_in_vec(
                            new_edges@,
                            src,
                            SymRef {
                                dylib: dd,
                                sym: (#[trigger] dependencies.pairs@[p as int].names@[q2]).id,
                            },
                        ),
                decreases nq - q,
            {
                let nm = dependencies.pairs[p].names[q];
                let ghost ne0 = new_edges@;
                new_edges.push(
                    crate::deps::DepEdge { src, dst: SymRef { dylib: dd, sym: nm.id } },
                );
                proof {
                    assert forall|i: int|
                        0 <= i < new_edges@.len() implies (#[trigger] new_edges@[i]).src == src
                        && dep_listed(dependencies.pairs@, new_edges@[i].dst) by {
                        if i < ne0.len() {
                            assert(new_edges@[i] == ne0[i]);
                        } else {
                            assert(new_edges@[i].dst == (SymRef { dylib: dd, sym: nm.id }));
                            assert(0 <= p < dependencies.pairs@.len() && 0 <= q
                                < dependencies.pairs@[p as int].names@.len()
                                && dependencies.pairs@[p as int].jit_dylib.id == dd && (
                            dependencies.pairs@[p as int].names@[q as int]).id == nm.id);
                        }
                    }
                    assert forall|q2: int|
                        0 <= q2 < q + 1 implies edge_in_vec(
                        new_edges@,
                        src,
                        SymRef {
                            dylib: dd,
                            sym: (#[trigger] dependencies.pairs@[p as int].names@[q2]).id,
                        },
                    ) by {
                        if q2 < q {
                            lemma_edge_in_vec_mono(
                                ne0,
                                new_edges@,
                                src,
                                SymRef {
                                    dylib: dd,
                                    sym: dependencies.pairs@[p as int].names@[q2].id,
                                },
                            );
                        } else {
                            assert(new_edges@[new_edges@.len() - 1] == (crate::deps::DepEdge {
                                src,
                                dst: SymRef { dylib: dd, sym: nm.id },
                            }));
                        }
                    }
                    assert forall|p2: int, q2: int|
                        0 <= p2 < p && 0 <= q2 < (#[trigger] dependencies.pairs@[p2]).names@.len()
                            implies edge_in_vec(
                        new_edges@,
                        src,
                        SymRef {
                            dylib: dependencies.pairs@[p2].jit_dylib.id,
                            sym: (#[trigger] dependencies.pairs@[p2].names@[q2]).id,
                        },
                    ) by {
                        lemma_edge_in_vec_mono(
                            ne0,
                            new_edges@,
                            src,
                            SymRef {
                                dylib: dependencies.pairs@[p2].jit_dylib.id,
                                sym: dependencies.pairs@[p2].names@[q2].id,
                            },
                        );
                    }
                }
                q = q + 1;
            }
            p = p + 1;
        }
        proof {
            assert(es.sym_unemitted(src));
            assert forall|i: int|
                0 <= i < new_edges@.len() implies es.sym_unemitted(
                (#[trigger] new_edges@[i]).src,
            ) by {}
        }
        let ghost cat = es.deps@ + new_edges@;
        proof {
            // the grown graph, characterized over the request
            assert forall|a: SymRef, b: SymRef| #[trigger] edge_in(cat, a, b) <==> (edge_in(
                es.deps@,
                a,
                b,
            ) || (a == src && dep_listed(dependencies.pairs@, b))) by {
                if edge_in(cat, a, b) {
                    let i = choose|i: int|
                        0 <= i < cat.len() && cat[i].src == a && cat[i].dst == b;
                    if i < es.deps@.len() {
                        assert(cat[i] == es.deps@[i]);
                        assert(edge_in(es.deps@, a, b));
                    } else {
                        let k = i - es.deps@.len();
                        assert(cat[i] == new_edges@[k]);
                    }
                }
                if edge_in(es.deps@, a, b) {
                    let i = choose|i: int|
                        0 <= i < es.deps@.len() && es.deps@[i].src == a && es.deps@[i].dst == b;
                    assert(cat[i] == es.deps@[i]);
                    assert(edge_in(cat, a, b));
                }
                if a == src && dep_listed(dependencies.pairs@, b) {
                    let (p2, q2): (int, int) = choose|p2: int, q2: int|
                        0 <= p2 < dependencies.pairs@.len() && 0 <= q2 < (
                        #[trigger] dependencies.pairs@[p2]).names@.len()
                            && dependencies.pairs@[p2].jit_dylib.id == b.dylib && (
                        #[trigger] dependencies.pairs@[p2].names@[q2]).id == b.sym;
                    assert(edge_in_vec(
                        new_edges@,
                        src,
                        SymRef {
                            dylib: dependencies.pairs@[p2].jit_dylib.id,
                            sym: dependencies.pairs@[p2].names@[q2].id,
                        },
                    ));
                    let i = choose|i: int|
                        0 <= i < new_edges@.len() && (#[trigger] new_edges@[i]).src == src
                            && new_edges@[i].dst == b;
                    assert(cat[es.deps@.len() + i] == new_edges@[i]);
                    assert(edge_in(cat, a, b));
                }
            }
            // a bad target among the built edges is a bad listed target, and
            // conversely
            assert((forall|i: int|
                0 <= i < new_edges@.len() ==> dep_target_ok(
                    *es,
                    (#[trigger] new_edges@[i]).dst,
                )) <==> (forall|b: SymRef|
                dep_listed(dependencies.pairs@, b) ==> dep_target_ok(*es, b))) by {
                if forall|i: int|
                    0 <= i < new_edges@.len() ==> dep_target_ok(
                        *es,
                        (#[trigger] new_edges@[i]).dst,
                    ) {
                    assert forall|b: SymRef|
                        dep_listed(dependencies.pairs@, b) implies dep_target_ok(*es, b) by {
                        let (p2, q2): (int, int) = choose|p2: int, q2: int|
                            0 <= p2 < dependencies.pairs@.len() && 0 <= q2 < (
                            #[trigger] dependencies.pairs@[p2]).names@.len()
                                && dependencies.pairs@[p2].jit_dylib.id == b.dylib && (
                            #[trigger] dependencies.pairs@[p2].names@[q2]).id == b.sym;
                        assert(edge_in_vec(
                            new_edges@,
                            src,
                            SymRef {
                                dylib: dependencies.pairs@[p2].jit_dylib.id,
                                sym: dependencies.pairs@[p2].names@[q2].id,
                            },
                        ));
                        let i = choose|i: int|
                            0 <= i < new_edges@.len() && (#[trigger] new_edges@[i]).src == src
                                && new_edges@[i].dst == b;
                        assert(dep_target_ok(*es, new_edges@[i].dst));
                    }
                } else {
                    let i = choose|i: int|
                        0 <= i < new_edges@.len() && !dep_target_ok(
                            *es,
                            (#[trigger] new_edges@[i]).dst,
                        );
                    assert(dep_listed(dependencies.pairs@, new_edges@[i].dst));
                }
            }
        }
        let result = add_edges_checked(es, new_edges);
        match result {
            Ok(()) => {
                proof {
                    assert(es.deps@ == cat);
                    assert forall|b: SymRef|
                        dep_listed(dependencies.pairs@, b) implies dep_target_ok(*old(es), b) by {
                        let (p2, q2): (int, int) = choose|p2: int, q2: int|
                            0 <= p2 < dependencies.pairs@.len() && 0 <= q2 < (
                            #[trigger] dependencies.pairs@[p2]).names@.len()
                                && dependencies.pairs@[p2].jit_dylib.id == b.dylib && (
                            #[trigger] dependencies.pairs@[p2].names@[q2]).id == b.sym;
                        assert(edge_in_vec(
                            new_edges@,
                            src,
                            SymRef {
                                dylib: dependencies.pairs@[p2].jit_dylib.id,
                                sym: dependencies.pairs@[p2].names@[q2].id,
                            },
                        ));
                        let i = choose|i: int|
                            0 <= i < new_edges@.len() && (#[trigger] new_edges@[i]).src == src
                                && new_edges@[i].dst == b;
                        assert(dep_target_ok(*old(es), new_edges@[i].dst));
                    }
                    assert(acyclic(es.deps@));
                }
                Ok(())
            },
            Err(e) => {
                proof {
                    if e == OrcError::UnknownSymbol {
                        let i = choose|i: int|
                            0 <= i < new_edges@.len() && !dep_target_ok(
                                *old(es),
                                (#[trigger] new_edges@[i]).dst,
                            );
                        assert(dep_listed(dependencies.pairs@, new_edges@[i].dst));
                    } else {
                        assert(forall|i: int|
                            0 <= i < new_edges@.len() ==> dep_target_ok(
                                *old(es),
                                (#[trigger] new_edges@[i]).dst,
                            ));
                        assert(forall|b: SymRef|
                            dep_listed(dependencies.pairs@, b) ==> dep_target_ok(*old(es), b));
                        assert(!acyclic(cat));
                        assert forall|cand: Seq<crate::deps::DepEdge>|
                            #![trigger acyclic(cand)]
                            (forall|a: SymRef, b: SymRef|
                                #[trigger] edge_in(cand, a, b) <==> (edge_in(
                                    old(es).deps@,
                                    a,
                                    b,
                                ) || (a == src && dep_listed(dependencies.pairs@, b))))
                                implies !acyclic(cand) by {
                            assert forall|a: SymRef, b: SymRef| #[trigger] edge_in(cand, a, b)
                                <==> edge_in(cat, a, b) by {
                                assert(edge_in(cat, a, b) <==> (edge_in(old(es).deps@, a, b) || (
                                a == src && dep_listed(dependencies.pairs@, b))));
                            }
                            crate::deps::lemma_acyclic_same_edges(cand, cat);
                        }
                    }
                }
                Err(e)
            },
        }
    }

    /// Records the given dependencies for every symbol this responsibility
    /// still has pending or resolved, with the same checks as
    /// `add_dependencies`.
    #[verifier::loop_isolation(false)]
    pub fn add_dependencies_for_all(
        &self,
        es: &mut ExecutionSession,
        dependencies: DependenceMapPairs,
    ) -> (r: Result<(), OrcError>)
        requires
            old(es).wf(),
            self.live_in(*old(es)),
        ensures
            final(es).wf(),
            final(es).pool == old(es).pool,
            final(es).dylibs == old(es).dylibs,
            final(es).trackers == old(es).trackers,
            final(es).units == old(es).units,
            final(es).resps == old(es).resps,
            match r {
                Ok(()) => {
                    &&& forall|b: SymRef|
                        dep_listed(dependencies.pairs@, b) && (exists|s: SymRef|
                            self.owns_unemitted(*old(es), s)) ==> dep_target_ok(*old(es), b)
                    &&& acyclic(final(es).deps@)
                    &&& forall|a: SymRef, b: SymRef|
                        #[trigger] edge_in(final(es).deps@, a, b) <==> (edge_in(
                            old(es).deps@,
                            a,
                            b,
                        ) || (self.owns_unemitted(*old(es), a) && dep_listed(
                            dependencies.pairs@,
                            b,
                        )))
                },
                Err(e) => {
                    &&& *final(es) == *old(es)
                    &&& (e == OrcError::UnknownSymbol || e == OrcError::DependencyCycle)
                    // unknown-symbol exactly when some governed symbol exists
                    // and a listed target is not a live definition
                    &&& ((e == OrcError::UnknownSymbol) <==> ((exists|s: SymRef|
                        self.owns_unemitted(*old(es), s)) && !(forall|b: SymRef|
                        dep_listed(dependencies.pairs@, b) ==> dep_target_ok(*old(es), b))))
                    // dependency-cycle only when the grown graph — however it
                    // is laid out — would really be cyclic
                    &&& (e == OrcError::DependencyCycle ==> (forall|
                        cand: Seq<crate::deps::DepEdge>,
                    |
                        #![trigger acyclic(cand)]
                        (forall|a: SymRef, b: SymRef|
                            #[trigger] edge_in(cand, a, b) <==> (edge_in(old(es).deps@, a, b) || (
                            self.owns_unemitted(*old(es), a) && dep_listed(
                                dependencies.pairs@,
                                b,
                            )))) ==> !acyclic(cand)))
                },
            },
    {
        let rid = self.id;
        let di = es.resps[rid].dylib;
        proof {
            assert(old(es).resps@[rid as int].live);
            assert(di < es.dylibs@.len());
            assert(es.dylib_wf(di as int));
        }
        let ghost es0 = *es;
        // the sources: every governed symbol that is still pending or resolved
        let mut srcs: Vec<SymRef> = Vec::new();
        let nsy = es.dylibs[di].entries.len();
        let mut i: usize = 0;
        while i < nsy
            invariant
                i <= nsy,
                *es == es0,
                nsy == es0.dylibs@[di as int].entries@.len(),
                forall|k: int|
                    0 <= k < srcs@.len() ==> self.owns_unemitted(es0, #[trigger] srcs@[k]),
                forall|kk: int|
                    0 <= kk < i && (match es0.dylibs@[di as int].entries@[kk].state {
                        DefState::Materializing { resp } => resp == rid,
                        DefState::Resolved { resp, symbol } => resp == rid,
                        _ => false,
                    }) ==> srcs@.contains(
                        SymRef {
                            dylib: di,
                            sym: (#[trigger] es0.dylibs@[di as int].entries@[kk]).name.id,
                        },
                    ),
            decreases nsy - i,
        {
            let e = es.dylibs[di].entries[i];
            let owned: bool = match e.state {
                DefState::Materializing { resp } => resp == rid,
                DefState::Resolved { resp, symbol } => resp == rid,
                _ => false,
            };
            if owned {
                let ghost srcs0 = srcs@;
                proof {
                    lemma_idx_unique(es0.dylibs@[di as int].entries@, i as int);
                    assert(es0.def_at(di as int, e.name.id) == Some(e));
                }
                srcs.push(SymRef { dylib: di, sym: e.name.id });
                proof {
                    assert forall|kk: int|
                        0 <= kk < i + 1 && (match es0.dylibs@[di as int].entries@[kk].state {
                            DefState::Materializing { resp } => resp == rid,
                            DefState::Resolved { resp, symbol } => resp == rid,
                            _ => false,
                        }) implies srcs@.contains(
                        SymRef {
                            dylib: di,
                            sym: (#[trigger] es0.dylibs@[di as int].entries@[kk]).name.id,
                        },
                    ) by {
                        if kk < i {
                            let srk = SymRef {
                                dylib: di,
                                sym: es0.dylibs@[di as int].entries@[kk].name.id,
                            };
                            assert(srcs0.contains(srk));
                            let m = choose|m: int| 0 <= m < srcs0.len() && srcs0[m] == srk;
                            assert(srcs@[m] == srk);
                        } else {
                            assert(srcs@[srcs@.len() - 1] == (SymRef {
                                dylib: di,
                                sym: e.name.id,
                            }));
                        }
                    }
                }
            }
            i = i + 1;
        }
        proof {
            assert forall|s: SymRef| self.owns_unemitted(es0, s) implies srcs@.contains(s) by {
                assert(s.dylib == di);
                assert(has_def(es0.dylibs@[di as int].entries@, s.sym));
                let kx = crate::session::idx_of(es0.dylibs@[di as int].entries@, s.sym);
                assert(srcs@.contains(
                    SymRef { dylib: di, sym: es0.dylibs@[di as int].entries@[kx].name.id },
                ));
            }
        }
        // the edges: every source against every listed target
        let mut new_edges: Vec<crate::deps::DepEdge> = Vec::new();
        let ns = srcs.len();
        let mut si: usize = 0;
        while si < ns
            invariant
                si <= ns,
                ns == srcs@.len(),
                *es == es0,
                forall|k: int|
                    0 <= k < srcs@.len() ==> self.owns_unemitted(es0, #[trigger] srcs@[k]),
                forall|i2: int|
                    0 <= i2 < new_edges@.len() ==> self.owns_unemitted(
                        es0,
                        (#[trigger] new_edges@[i2]).src,
                    ) && dep_listed(dependencies.pairs@, new_edges@[i2].dst),
                forall|k: int, p2: int, q2: int|
                    0 <= k < si && 0 <= p2 < dependencies.pairs@.len() && 0 <= q2 < (
                    #[trigger] dependencies.pairs@[p2]).names@.len() ==> edge_in_vec(
                        new_edges@,
                        #[trigger] srcs@[k],
                        SymRef {
                            dylib: dependencies.pairs@[p2].jit_dylib.id,
                            sym: (#[trigger] dependencies.pairs@[p2].names@[q2]).id,
                        },
                    ),
            decreases ns - si,
        {
            let src = srcs[si];
            let np = dependencies.pairs.len();
            let mut p: usize = 0;
            while p < np
                invariant
                    np == dependencies.pairs@.len(),
                    p <= np,
                    si < ns,
                    ns == srcs@.len(),
                    src == srcs@[si as int],
                    *es == es0,
                    forall|k: int|
                        0 <= k < srcs@.len() ==> self.owns_unemitted(es0, #[trigger] srcs@[k]),
                    forall|i2: int|
                        0 <= i2 < new_edges@.len() ==> self.owns_unemitted(
                            es0,
                            (#[trigger] new_edges@[i2]).src,
                        ) && dep_listed(dependencies.pairs@, new_edges@[i2].dst),
                    forall|k: int, p2: int, q2: int|
                        0 <= k < si && 0 <= p2 < dependencies.pairs@.len() && 0 <= q2 < (
                        #[trigger] dependencies.pairs@[p2]).names@.len() ==> edge_in_vec(
                            new_edges@,
                            #[trigger] srcs@[k],
                            SymRef {
                                dylib: dependencies.pairs@[p2].jit_dylib.id,
                                sym: (#[trigger] dependencies.pairs@[p2].names@[q2]).id,
                            },
                        ),
                    forall|p2: int, q2: int|
                        0 <= p2 < p && 0 <= q2 < (#[trigger] dependencies.pairs@[p2]).names@.len()
                            ==> edge_in_vec(
                            new_edges@,
                            src,
                            SymRef {
                                dylib: dependencies.pairs@[p2].jit_dylib.id,
                                sym: (#[trigger] dependencies.pairs@[p2].names@[q2]).id,
                            },
                        ),
                decreases np - p,
            {
                let dd = dependencies.pairs[p].jit_dylib.id;
                let nq = dependencies.pairs[p].names.len();
                let mut q: usize = 0;
                while q < nq
                    invariant
                        np == dependencies.pairs@.len(),
                        p < np,
                        nq == dependencies.pairs@[p as int].names@.len(),
                        dd == dependencies.pairs@[p as int].jit_dylib.id,
                        q <= nq,
                        si < ns,
                        ns == srcs@.len(),
                        src == srcs@[si as int],
                        *es == es0,
                        forall|k: int|
                            0 <= k < srcs@.len() ==> self.owns_unemitted(
                                es0,
                                #[trigger] srcs@[k],
                            ),
                        forall|i2: int|
                            0 <= i2 < new_edges@.len() ==> self.owns_unemitted(
                                es0,
                                (#[trigger] new_edges@[i2]).src,
                            ) && dep_listed(dependencies.pairs@, new_edges@[i2].dst),
                        forall|k: int, p2: int, q2: int|
                            0 <= k < si && 0 <= p2 < dependencies.pairs@.len() && 0 <= q2 < (
                            #[trigger] dependencies.pairs@[p2]).names@.len() ==> edge_in_vec(
                                new_edges@,
                                #[trigger] srcs@[k],
                                SymRef {
                                    dylib: dependencies.pairs@[p2].jit_dylib.id,
                                    sym: (#[trigger] dependencies.pairs@[p2].names@[q2]).id,
                                },
                            ),
                        forall|p2: int, q2: int|
                            0 <= p2 < p && 0 <= q2 < (
                            #[trigger] dependencies.pairs@[p2]).names@.len() ==> edge_in_vec(
                                new_edges@,
                                src,
                                SymRef {
                                    dylib: dependencies.pairs@[p2].jit_dylib.id,
                                    sym: (#[trigger] dependencies.pairs@[p2].names@[q2]).id,
                                },
                            ),
                        forall|q2: int|
                            0 <= q2 < q ==> edge_in_vec(
                                new_edges@,
                                src,
                                SymRef {
                                    dylib: dd,
                                    sym: (#[trigger] dependencies.pairs@[p as
                                    int].names@[q2]).id,
                                },
                            ),
                    decreases nq - q,
                {
                    let nm = dependencies.pairs[p].names[q];
                    let ghost ne0 = new_edges@;
                    new_edges.push(
                        crate::deps::DepEdge { src, dst: SymRef { dylib: dd, sym: nm.id } },
                    );
                    proof {
                        lemma_edge_push_frame(ne0, new_edges@);
                        assert(new_edges@[new_edges@.len() - 1] == (crate::deps::DepEdge {
                            src,
                            dst: SymRef { dylib: dd, sym: nm.id },
                        }));
                        assert(self.owns_unemitted(es0, src));
                        assert(0 <= p < dependencies.pairs@.len() && 0 <= q
                            < dependencies.pairs@[p as int].names@.len()
                            && dependencies.pairs@[p as int].jit_dylib.id == dd && (
                        dependencies.pairs@[p as int].names@[q as int]).id == nm.id);
                        assert forall|i2: int|
                            0 <= i2 < new_edges@.len() implies self.owns_unemitted(
                            es0,
                            (#[trigger] new_edges@[i2]).src,
                        ) && dep_listed(dependencies.pairs@, new_edges@[i2].dst) by {
                            if i2 < ne0.len() {
                                assert(new_edges@[i2] == ne0[i2]);
                            }
                        }
                    }
                    q = q + 1;
                }
                p = p + 1;
            }
            proof {
                assert forall|k: int, p2: int, q2: int|
                    0 <= k < si + 1 && 0 <= p2 < dependencies.pairs@.len() && 0 <= q2 < (
                    #[trigger] dependencies.pairs@[p2]).names@.len() implies edge_in_vec(
                    new_edges@,
                    #[trigger] srcs@[k],
                    SymRef {
                        dylib: dependencies.pairs@[p2].jit_dylib.id,
                        sym: (#[trigger] dependencies.pairs@[p2].names@[q2]).id,
                    },
                ) by {}
            }
            si = si + 1;
        }
        proof {
            assert forall|i2: int|
                0 <= i2 < new_edges@.len() implies es.sym_unemitted(
                (#[trigger] new_edges@[i2]).src,
            ) by {
                assert(self.owns_unemitted(es0, new_edges@[i2].src));
            }
        }
        let ghost cat = es.deps@ + new_edges@;
        proof {
            // the grown graph, characterized over the request
            assert forall|a: SymRef, b: SymRef| #[trigger] edge_in(cat, a, b) <==> (edge_in(
                es.deps@,
                a,
                b,
            ) || (self.owns_unemitted(es0, a) && dep_listed(dependencies.pairs@, b))) by {
                if edge_in(cat, a, b) {
                    let i2 = choose|i2: int|
                        0 <= i2 < cat.len() && cat[i2].src == a && cat[i2].dst == b;
                    if i2 < es.deps@.len() {
                        assert(cat[i2] == es.deps@[i2]);
                        assert(edge_in(es.deps@, a, b));
                    } else {
                        let k2 = i2 - es.deps@.len();
                        assert(cat[i2] == new_edges@[k2]);
                    }
                }
                if edge_in(es.deps@, a, b) {
                    let i2 = choose|i2: int|
                        0 <= i2 < es.deps@.len() && es.deps@[i2].src == a && es.deps@[i2].dst
                            == b;
                    assert(cat[i2] == es.deps@[i2]);
                    assert(edge_in(cat, a, b));
                }
                if self.owns_unemitted(es0, a) && dep_listed(dependencies.pairs@, b) {
                    assert(srcs@.contains(a));
                    let k = choose|k: int| 0 <= k < srcs@.len() && srcs@[k] == a;
                    let (p2, q2): (int, int) = choose|p2: int, q2: int|
                        0 <= p2 < dependencies.pairs@.len() && 0 <= q2 < (
                        #[trigger] dependencies.pairs@[p2]).names@.len()
                            && dependencies.pairs@[p2].jit_dylib.id == b.dylib && (
                        #[trigger] dependencies.pairs@[p2].names@[q2]).id == b.sym;
                    assert(edge_in_vec(
                        new_edges@,
                        srcs@[k],
                        SymRef {
                            dylib: dependencies.pairs@[p2].jit_dylib.id,
                            sym: dependencies.pairs@[p2].names@[q2].id,
                        },
                    ));
                    let i2 = choose|i2: int|
                        0 <= i2 < new_edges@.len() && (#[trigger] new_edges@[i2]).src == a
                            && new_edges@[i2].dst == b;
                    assert(cat[es.deps@.len() + i2] == new_edges@[i2]);
                    assert(edge_in(cat, a, b));
                }
            }
            // a bad target among the built edges is a bad listed target of
            // some governed symbol, and conversely
            assert((forall|i2: int|
                0 <= i2 < new_edges@.len() ==> dep_target_ok(
                    *es,
                    (#[trigger] new_edges@[i2]).dst,
                )) <==> !((exists|s: SymRef| self.owns_unemitted(es0, s)) && !(forall|b: SymRef|
                dep_listed(dependencies.pairs@, b) ==> dep_target_ok(*es, b)))) by {
                if (exists|s: SymRef| self.owns_unemitted(es0, s)) && !(forall|b: SymRef|
                    dep_listed(dependencies.pairs@, b) ==> dep_target_ok(*es, b)) {
                    let s = choose|s: SymRef| self.owns_unemitted(es0, s);
                    assert(srcs@.contains(s));
                    let k = choose|k: int| 0 <= k < srcs@.len() && srcs@[k] == s;
                    let b = choose|b: SymRef|
                        dep_listed(dependencies.pairs@, b) && !dep_target_ok(*es, b);
                    let (p2, q2): (int, int) = choose|p2: int, q2: int|
                        0 <= p2 < dependencies.pairs@.len() && 0 <= q2 < (
                        #[trigger] dependencies.pairs@[p2]).names@.len()
                            && dependencies.pairs@[p2].jit_dylib.id == b.dylib && (
                        #[trigger] dependencies.pairs@[p2].names@[q2]).id == b.sym;
                    assert(edge_in_vec(
                        new_edges@,
                        srcs@[k],
                        SymRef {
                            dylib: dependencies.pairs@[p2].jit_dylib.id,
                            sym: dependencies.pairs@[p2].names@[q2].id,
                        },
                    ));
                    let i2 = choose|i2: int|
                        0 <= i2 < new_edges@.len() && (#[trigger] new_edges@[i2]).src == srcs@[k]
                            && new_edges@[i2].dst == b;
                } else {
                    assert forall|i2: int|
                        0 <= i2 < new_edges@.len() implies dep_target_ok(
                        *es,
                        (#[trigger] new_edges@[i2]).dst,
                    ) by {
                        assert(self.owns_unemitted(es0, new_edges@[i2].src));
                        assert(dep_listed(dependencies.pairs@, new_edges@[i2].dst));
                    }
                }
            }
        }
        let result = add_edges_checked(es, new_edges);
        match result {
            Ok(()) => {
                proof {
                    assert(es.deps@ == cat);
                    assert forall|b: SymRef|
                        dep_listed(dependencies.pairs@, b) && (exists|s: SymRef|
                            self.owns_unemitted(es0, s)) implies dep_target_ok(*old(es), b) by {
                        let s = choose|s: SymRef| self.owns_unemitted(es0, s);
                        assert(srcs@.contains(s));
                        let k = choose|k: int| 0 <= k < srcs@.len() && srcs@[k] == s;
                        let (p2, q2): (int, int) = choose|p2: int, q2: int|
                            0 <= p2 < dependencies.pairs@.len() && 0 <= q2 < (
                            #[trigger] dependencies.pairs@[p2]).names@.len()
                                && dependencies.pairs@[p2].jit_dylib.id == b.dylib && (
                            #[trigger] dependencies.pairs@[p2].names@[q2]).id == b.sym;
                        assert(edge_in_vec(
                            new_edges@,
                            srcs@[k],
                            SymRef {
                                dylib: dependencies.pairs@[p2].jit_dylib.id,
                                sym: dependencies.pairs@[p2].names@[q2].id,
                            },
                        ));
                        let i2 = choose|i2: int|
                            0 <= i2 < new_edges@.len() && (#[trigger] new_edges@[i2]).src
                                == srcs@[k] && new_edges@[i2].dst == b;
                        assert(dep_target_ok(*old(es), new_edges@[i2].dst));
                    }
                }
                Ok(())
            },
            Err(e) => {
                proof {
                    if e == OrcError::DependencyCycle {
                        assert(!acyclic(cat));
                        assert forall|cand: Seq<crate::deps::DepEdge>|
                            #![trigger acyclic(cand)]
                            (forall|a: SymRef, b: SymRef|
                                #[trigger] edge_in(cand, a, b) <==> (edge_in(
                                    old(es).deps@,
                                    a,
                                    b,
                                ) || (self.owns_unemitted(es0, a) && dep_listed(
                                    dependencies.pairs@,
                                    b,
                                )))) implies !acyclic(cand) by {
                            assert forall|a: SymRef, b: SymRef| #[trigger] edge_in(cand, a, b)
                                <==> edge_in(cat, a, b) by {
                                assert(edge_in(cat, a, b) <==> (edge_in(old(es).deps@, a, b) || (
                                self.owns_unemitted(es0, a) && dep_listed(
                                    dependencies.pairs@,
                                    b,
                                ))));
                            }
                            crate::deps::lemma_acyclic_same_edges(cand, cat);
                        }
                    }
                }
                Err(e)
            },
        }
    }
}

/// Some edge of the list goes from `a` to `b`.
pub open spec fn edge_in_vec(edges: Seq<crate::deps::DepEdge>, a: SymRef, b: SymRef) -> bool {
    exists|i: int| 0 <= i < edges.len() && (#[trigger] edges[i]).src == a && edges[i].dst == b
}

/// Pushing an edge keeps every recorded connection.
proof fn lemma_edge_push_frame(e0: Seq<crate::deps::DepEdge>, e1: Seq<crate::deps::DepEdge>)
    requires
        e1.len() == e0.len() + 1,
        forall|i: int| 0 <= i < e0.len() ==> e1[i] == e0[i],
    ensures
        forall|a: SymRef, b: SymRef| #[trigger] edge_in_vec(e0, a, b) ==> edge_in_vec(e1, a, b),
{
    assert forall|a: SymRef, b: SymRef| #[trigger] edge_in_vec(e0, a, b) implies edge_in_vec(
        e1,
        a,
        b,
    ) by {
        let i = choose|i: int| 0 <= i < e0.len() && (#[trigger] e0[i]).src == a && e0[i].dst == b;
        assert(e1[i] == e0[i]);
    }
}

/// Growing the edge list keeps every recorded connection.
proof fn lemma_edge_in_vec_mono(
    e0: Seq<crate::deps::DepEdge>,
    e1: Seq<crate::deps::DepEdge>,
    a: SymRef,
    b: SymRef,
)
    requires
        edge_in_vec(e0, a, b),
        e0.len() <= e1.len(),
        forall|i: int| 0 <= i < e0.len() ==> e1[i] == e0[i],
    ensures
        edge_in_vec(e1, a, b),
{
    let i = choose|i: int| 0 <= i < e0.len() && (#[trigger] e0[i]).src == a && e0[i].dst == b;
    assert(e1[i] == e0[i]);
}


impl MaterializationResponsibility {
    /// Claims additional, not-previously-defined symbols as pending under
    /// this same responsibility — for materializations that turn out to
    /// produce more definitions than were asked for.  Fails without mutating
    /// anything if any new name is already occupied in the namespace or
    /// appears twice in the request.
    #[verifier::loop_isolation(false)]
    pub fn define_materializing(&self, es: &mut ExecutionSession, pairs: SymbolFlagsMapPairs) -> (r:
        Result<(), OrcError>)
        requires
            old(es).wf(),
            self.live_in(*old(es)),
        ensures
            final(es).wf(),
            final(es).pool == old(es).pool,
            final(es).trackers == old(es).trackers,
            final(es).units == old(es).units,
            final(es).dylibs@.len() == old(es).dylibs@.len(),
            forall|k: int|
                0 <= k < old(es).dylibs@.len() && k != self.dylib_of(*old(es))
                    ==> final(es).dylibs@[k] == old(es).dylibs@[k],
            match r {
                Ok(()) => {
                    &&& distinct_sym_ids(pairs.pairs@)
                    &&& forall|k: int|
                        0 <= k < pairs.pairs@.len() ==> !old(es).occupied(
                            self.dylib_of(*old(es)),
                            (#[trigger] pairs.pairs@[k]).name.id,
                        )
                    &&& forall|k: int|
                        0 <= k < pairs.pairs@.len() ==> final(es).def_at(
                            self.dylib_of(*old(es)),
                            (#[trigger] pairs.pairs@[k]).name.id,
                        ) == Some(
                            DefEntry {
                                name: pairs.pairs@[k].name,
                                flags: pairs.pairs@[k].flags,
                                state: DefState::Materializing { resp: self.id },
                                tracker: old(es).dylibs@[self.dylib_of(
                                    *old(es),
                                )].default_tracker,
                                requested: false,
                            },
                        )
                    &&& forall|id: usize|
                        #![trigger final(es).def_at(self.dylib_of(*old(es)), id)]
                        !contains_sym(pairs.pairs@, id) ==> final(es).def_at(
                            self.dylib_of(*old(es)),
                            id,
                        ) == old(es).def_at(self.dylib_of(*old(es)), id)
                    &&& final(es).resps@.len() == old(es).resps@.len()
                    &&& forall|k: int|
                        0 <= k < old(es).resps@.len() && k != self.id ==> final(es).resps@[k]
                            == old(es).resps@[k]
                    &&& final(es).resps@[self.id as int].live
                    &&& final(es).resps@[self.id as int].dylib == old(es).resps@[self.id as
                        int].dylib
                    &&& final(es).resps@[self.id as int].init == old(es).resps@[self.id as
                        int].init
                    // the listing now covers the old names and the new ones;
                    // each new pair is listed as given, and every old listing
                    // whose name was not reclaimed survives unchanged
                    &&& forall|id: usize|
                        #![trigger contains_sym(final(es).resps@[self.id as int].syms@, id)]
                        contains_sym(final(es).resps@[self.id as int].syms@, id) <==> (
                        contains_sym(old(es).resps@[self.id as int].syms@, id) || contains_sym(
                            pairs.pairs@,
                            id,
                        ))
                    &&& forall|k: int|
                        0 <= k < pairs.pairs@.len() ==> final(es).resps@[self.id as
                        int].syms@.contains(#[trigger] pairs.pairs@[k])
                    &&& forall|m0: int|
                        0 <= m0 < old(es).resps@[self.id as int].syms@.len() && !contains_sym(
                            pairs.pairs@,
                            (#[trigger] old(es).resps@[self.id as int].syms@[m0]).name.id,
                        ) ==> final(es).resps@[self.id as int].syms@.contains(
                            old(es).resps@[self.id as int].syms@[m0],
                        )
                    &&& forall|a: SymRef, b: SymRef|
                        #[trigger] edge_in(final(es).deps@, a, b) <==> (edge_in(old(es).deps@, a, b)
                            && !(a.dylib == old(es).resps@[self.id as int].dylib && contains_sym(
                            pairs.pairs@,
                            a.sym,
                        )))
                },
                Err(e) => {
                    &&& e == OrcError::DuplicateDefinition
                    &&& *final(es) == *old(es)
                    &&& !(distinct_sym_ids(pairs.pairs@) && forall|k: int|
                        0 <= k < pairs.pairs@.len() ==> !old(es).occupied(
                            self.dylib_of(*old(es)),
                            (#[trigger] pairs.pairs@[k]).name.id,
                        ))
                },
            },
    {
        let rid = self.id;
        let di = es.resps[rid].dylib;
        proof {
            assert(old(es).resps@[rid as int].live);
            assert(di < es.dylibs@.len());
            assert(es.dylib_wf(di as int));
        }
        let dt = es.dylibs[di].default_tracker;
        let n = pairs.pairs.len();
        let mut ids: Vec<usize> = Vec::new();
        let mut i: usize = 0;
        while i < n
            invariant
                i <= n,
                n == pairs.pairs@.len(),
                ids@.len() == i,
                forall|k: int| 0 <= k < i ==> ids@[k] == (#[trigger] pairs.pairs@[k]).name.id,
            decreases n - i,
        {
            ids.push(pairs.pairs[i].name.id);
            i = i + 1;
        }
        proof {
            assert forall|x: usize| ids@.contains(x) <==> contains_sym(pairs.pairs@, x) by {
                if ids@.contains(x) {
                    let k = choose|k: int| 0 <= k < ids@.len() && ids@[k] == x;
                    assert(pairs.pairs@[k].name.id == x);
                }
                if contains_sym(pairs.pairs@, x) {
                    let k = choose|k: int|
                        0 <= k < pairs.pairs@.len() && pairs.pairs@[k].name.id == x;
                    assert(ids@[k] == x);
                }
            }
        }
        // refuse occupied or repeated names
        let mut i: usize = 0;
        while i < n
            invariant
                i <= n,
                n == pairs.pairs@.len(),
                forall|k: int|
                    0 <= k < i ==> !es.occupied(di as int, (#[trigger] pairs.pairs@[k]).name.id),
                forall|k: int, l: int|
                    0 <= k < l < i ==> pairs.pairs@[k].name.id != pairs.pairs@[l].name.id,
            decreases n - i,
        {
            match find_idx(&es.dylibs[di].entries, pairs.pairs[i].name.id) {
                Some(k) => {
                    proof {
                        lemma_idx_unique(es.dylibs@[di as int].entries@, k as int);
                    }
                    let occ: bool = match es.dylibs[di].entries[k].state {
                        DefState::Failed => false,
                        DefState::Removed => false,
                        _ => true,
                    };
                    if occ {
                        proof {
                            assert(es.occupied(di as int, pairs.pairs@[i as int].name.id));
                        }
                        return Err(OrcError::DuplicateDefinition);
                    }
                },
                None => {},
            }
            let mut j: usize = 0;
            while j < i
                invariant
                    j <= i,
                    i < n,
                    n == pairs.pairs@.len(),
                    forall|k: int|
                        0 <= k < j ==> pairs.pairs@[k].name.id != pairs.pairs@[i as int].name.id,
                decreases i - j,
            {
                if pairs.pairs[j].name.id == pairs.pairs[i].name.id {
                    proof {
                        assert(!distinct_sym_ids(pairs.pairs@));
                    }
                    return Err(OrcError::DuplicateDefinition);
                }
                j = j + 1;
            }
            i = i + 1;
        }
        let ghost es1 = *es;
        // install the new entries, pending under this responsibility
        let mut i: usize = 0;
        while i < n
            invariant
                i <= n,
                n == pairs.pairs@.len(),
                es.pool == es1.pool,
                es.trackers == es1.trackers,
                es.units == es1.units,
                es.resps == es1.resps,
                es.deps == es1.deps,
                es.dylibs@.len() == es1.dylibs@.len(),
                forall|k: int|
                    0 <= k < es.dylibs@.len() && k != di ==> es.dylibs@[k] == es1.dylibs@[k],
                es.dylibs@[di as int].name == es1.dylibs@[di as int].name,
                es.dylibs@[di as int].bare == es1.dylibs@[di as int].bare,
                es.dylibs@[di as int].default_tracker == es1.dylibs@[di as int].default_tracker,
                distinct_ids(es.dylibs@[di as int].entries@),
                forall|k: int|
                    0 <= k < i ==> es.def_at(di as int, (#[trigger] pairs.pairs@[k]).name.id)
                        == Some(
                        DefEntry {
                            name: pairs.pairs@[k].name,
                            flags: pairs.pairs@[k].flags,
                            state: DefState::Materializing { resp: rid },
                            tracker: dt,
                            requested: false,
                        },
                    ),
                forall|id: usize|
                    #![trigger es.def_at(di as int, id)]
                    !contains_sym(pairs.pairs@.take(i as int), id) ==> es.def_at(di as int, id)
                        == es1.def_at(di as int, id),
            decreases n - i,
        {
            let p = pairs.pairs[i];
            let ghost ent0 = es.dylibs@[di as int].entries@;
            let ghost es_before = *es;
            proof {
                assert(!contains_sym(pairs.pairs@.take(i as int), p.name.id)) by {
                    if contains_sym(pairs.pairs@.take(i as int), p.name.id) {
                        let k = choose|k: int|
                            0 <= k < i && pairs.pairs@.take(i as int)[k].name.id == p.name.id;
                        assert(pairs.pairs@[k].name.id == pairs.pairs@[i as int].name.id);
                    }
                }
                assert(es.def_at(di as int, p.name.id) == es1.def_at(di as int, p.name.id));
            }
            let e2 = DefEntry {
                name: p.name,
                flags: p.flags,
                state: DefState::Materializing { resp: rid },
                tracker: dt,
                requested: false,
            };
            match find_idx(&es.dylibs[di].entries, p.name.id) {
                Some(k) => {
                    es.dylibs[di].entries.set(k, e2);
                    proof {
                        lemma_update_entry(ent0, k as int, e2);
                    }
                },
                None => {
                    es.dylibs[di].entries.push(e2);
                    proof {
                        lemma_push_entry(ent0, e2);
                    }
                },
            }
            proof {
                assert(pairs.pairs@.take(i + 1) == pairs.pairs@.take(i as int).push(
                    pairs.pairs@[i as int],
                ));
                assert forall|kk: int|
                    0 <= kk < i + 1 implies es.def_at(
                    di as int,
                    (#[trigger] pairs.pairs@[kk]).name.id,
                ) == Some(
                    DefEntry {
                        name: pairs.pairs@[kk].name,
                        flags: pairs.pairs@[kk].flags,
                        state: DefState::Materializing { resp: rid },
                        tracker: dt,
                        requested: false,
                    },
                ) by {
                    if kk < i {
                        assert(pairs.pairs@[kk].name.id != p.name.id);
                        assert(es_before.def_at(di as int, pairs.pairs@[kk].name.id) == Some(
                            DefEntry {
                                name: pairs.pairs@[kk].name,
                                flags: pairs.pairs@[kk].flags,
                                state: DefState::Materializing { resp: rid },
                                tracker: dt,
                                requested: false,
                            },
                        ));
                    }
                }
                assert forall|id: usize|
                    #![trigger es.def_at(di as int, id)]
                    !contains_sym(pairs.pairs@.take(i + 1), id) implies es.def_at(di as int, id)
                    == es1.def_at(di as int, id) by {
                    assert(!contains_sym(pairs.pairs@.take(i as int), id)) by {
                        if contains_sym(pairs.pairs@.take(i as int), id) {
                            let m = choose|m: int|
                                0 <= m < i && pairs.pairs@.take(i as int)[m].name.id == id;
                            assert(pairs.pairs@.take(i + 1)[m].name.id == id);
                        }
                    }
                    assert(id != p.name.id) by {
                        if id == p.name.id {
                            assert(pairs.pairs@.take(i + 1)[i as int].name.id == id);
                        }
                    }
                    assert(es_before.def_at(di as int, id) == es1.def_at(di as int, id));
                }
            }
            i = i + 1;
        }
        let ghost es_c = *es;
        proof {
            assert(pairs.pairs@.take(n as int) == pairs.pairs@);
        }
        // the responsibility now also governs the new names; a stale listing
        // of a reclaimed name (one whose earlier definition failed or was
        // retracted) is superseded by the fresh claim
        let ghost old_syms = es.resps@[rid as int].syms@;
        proof {
            assert(es1.resps@[rid as int].live);
            assert(distinct_sym_ids(old_syms));
        }
        let mut new_list: Vec<SymbolFlagsMapPair> = Vec::new();
        let m_total = es.resps[rid].syms.len();
        let mut i: usize = 0;
        while i < m_total
            invariant
                i <= m_total,
                m_total == old_syms.len(),
                es.resps@[rid as int].syms@ == old_syms,
                rid < es.resps@.len(),
                distinct_sym_ids(old_syms),
                distinct_sym_ids(new_list@),
                forall|id: usize|
                    #![trigger contains_sym(new_list@, id)]
                    contains_sym(new_list@, id) <==> (contains_sym(old_syms.take(i as int), id)
                        && !ids@.contains(id)),
                forall|m0: int|
                    0 <= m0 < i && !ids@.contains((#[trigger] old_syms[m0]).name.id)
                        ==> new_list@.contains(old_syms[m0]),
            decreases m_total - i,
        {
            let p = es.resps[rid].syms[i];
            let ghost k0 = new_list@;
            let drop_it = crate::session::usize_vec_contains(&ids, p.name.id);
            if !drop_it {
                proof {
                    assert(!contains_sym(k0, p.name.id)) by {
                        if contains_sym(k0, p.name.id) {
                            let mm = choose|mm: int|
                                0 <= mm < old_syms.take(i as int).len() && (
                                #[trigger] old_syms.take(i as int)[mm]).name.id == p.name.id;
                            assert(old_syms[mm].name.id == old_syms[i as int].name.id);
                        }
                    }
                }
                new_list.push(p);
                proof {
                    assert forall|a: int, b: int|
                        0 <= a < new_list@.len() && 0 <= b < new_list@.len() && a != b
                            implies (#[trigger] new_list@[a]).name.id != (
                        #[trigger] new_list@[b]).name.id by {
                        if a < k0.len() && b < k0.len() {
                            assert(k0[a].name.id != k0[b].name.id);
                        } else if b == k0.len() {
                            assert(new_list@[a] == k0[a]);
                        } else {
                            assert(new_list@[b] == k0[b]);
                        }
                    }
                }
            }
            proof {
                assert(old_syms.take(i + 1) == old_syms.take(i as int).push(old_syms[i as int]));
                assert forall|id: usize|
                    #![trigger contains_sym(new_list@, id)]
                    contains_sym(new_list@, id) <==> (contains_sym(old_syms.take(i + 1), id)
                        && !ids@.contains(id)) by {
                    if contains_sym(new_list@, id) {
                        let m = choose|m: int|
                            0 <= m < new_list@.len() && new_list@[m].name.id == id;
                        if m < k0.len() {
                            assert(contains_sym(k0, id));
                            let mm = choose|mm: int|
                                0 <= mm < i && old_syms.take(i as int)[mm].name.id == id;
                            assert(old_syms.take(i + 1)[mm].name.id == id);
                        } else {
                            assert(new_list@[m] == old_syms[i as int]);
                            assert(old_syms.take(i + 1)[i as int].name.id == id);
                        }
                    }
                    if contains_sym(old_syms.take(i + 1), id) && !ids@.contains(id) {
                        let m = choose|m: int|
                            0 <= m < old_syms.take(i + 1).len() && (#[trigger] old_syms.take(
                                i + 1,
                            )[m]).name.id == id;
                        if m < i {
                            assert(contains_sym(old_syms.take(i as int), id));
                            assert(contains_sym(k0, id));
                            let mm = choose|mm: int| 0 <= mm < k0.len() && k0[mm].name.id == id;
                            assert(new_list@[mm].name.id == id);
                        } else {
                            assert(old_syms[i as int].name.id == id);
                            assert(!drop_it);
                            assert(new_list@[new_list@.len() - 1].name.id == id);
                        }
                    }
                }
                assert forall|m0: int|
                    0 <= m0 < i + 1 && !ids@.contains((#[trigger] old_syms[m0]).name.id)
                        implies new_list@.contains(old_syms[m0]) by {
                    if m0 < i {
                        assert(k0.contains(old_syms[m0]));
                        let mm = choose|mm: int| 0 <= mm < k0.len() && k0[mm] == old_syms[m0];
                        assert(new_list@[mm] == old_syms[m0]);
                    } else {
                        assert(new_list@[new_list@.len() - 1] == old_syms[m0]);
                    }
                }
            }
            i = i + 1;
        }
        let ghost keptg = new_list@;
        proof {
            assert(old_syms.take(m_total as int) == old_syms);
        }
        let mut i: usize = 0;
        while i < n
            invariant
                i <= n,
                n == pairs.pairs@.len(),
                new_list@ == keptg + pairs.pairs@.take(i as int),
            decreases n - i,
        {
            let p = pairs.pairs[i];
            new_list.push(p);
            proof {
                assert(pairs.pairs@.take(i + 1) == pairs.pairs@.take(i as int).push(
                    pairs.pairs@[i as int],
                ));
                assert(keptg + pairs.pairs@.take(i + 1) == (keptg + pairs.pairs@.take(
                    i as int,
                )).push(pairs.pairs@[i as int]));
            }
            i = i + 1;
        }
        proof {
            assert(pairs.pairs@.take(n as int) == pairs.pairs@);
            assert(new_list@ == keptg + pairs.pairs@);
        }
        es.resps[rid].syms = new_list;
        // constraints recorded by earlier incarnations of these names die
        let newdeps = crate::session::filter_edges_not_from(&es.deps, di, &ids);
        let ghost es_d = *es;
        es.deps = newdeps;
        proof {
            assert(es.resps@[rid as int].syms@ == keptg + pairs.pairs@);
            assert(es.dylibs == es_c.dylibs);
            // the three listing facts of the contract
            assert forall|id: usize|
                #![trigger contains_sym(es.resps@[rid as int].syms@, id)]
                contains_sym(es.resps@[rid as int].syms@, id) <==> (contains_sym(old_syms, id)
                    || contains_sym(pairs.pairs@, id)) by {
                let fin = es.resps@[rid as int].syms@;
                if contains_sym(fin, id) {
                    let m = choose|m: int| 0 <= m < fin.len() && fin[m].name.id == id;
                    if m < keptg.len() {
                        assert(keptg[m].name.id == id);
                        assert(contains_sym(keptg, id));
                        assert(contains_sym(old_syms, id));
                    } else {
                        assert(pairs.pairs@[m - keptg.len()].name.id == id);
                        assert(contains_sym(pairs.pairs@, id));
                    }
                }
                if contains_sym(old_syms, id) && !contains_sym(pairs.pairs@, id) {
                    assert(!ids@.contains(id));
                    assert(contains_sym(keptg, id));
                    let m = choose|m: int| 0 <= m < keptg.len() && keptg[m].name.id == id;
                    assert(fin[m].name.id == id);
                }
                if contains_sym(pairs.pairs@, id) {
                    let m = choose|m: int|
                        0 <= m < pairs.pairs@.len() && pairs.pairs@[m].name.id == id;
                    assert(fin[keptg.len() + m].name.id == id);
                }
            }
            assert forall|k: int|
                0 <= k < pairs.pairs@.len() implies es.resps@[rid as int].syms@.contains(
                #[trigger] pairs.pairs@[k],
            ) by {
                assert(es.resps@[rid as int].syms@[keptg.len() + k] == pairs.pairs@[k]);
            }
            assert forall|m0: int|
                0 <= m0 < old_syms.len() && !contains_sym(
                    pairs.pairs@,
                    (#[trigger] old_syms[m0]).name.id,
                ) implies es.resps@[rid as int].syms@.contains(old_syms[m0]) by {
                assert(!ids@.contains(old_syms[m0].name.id));
                assert(keptg.contains(old_syms[m0]));
                let mm = choose|mm: int| 0 <= mm < keptg.len() && keptg[mm] == old_syms[m0];
                assert(es.resps@[rid as int].syms@[mm] == old_syms[m0]);
            }
            assert forall|id: usize|
                #![trigger es.def_at(di as int, id)]
                !contains_sym(pairs.pairs@, id) implies es.def_at(di as int, id) == es1.def_at(
                di as int,
                id,
            ) by {
                assert(es_c.def_at(di as int, id) == es1.def_at(di as int, id));
            }
            assert forall|k: int|
                0 <= k < pairs.pairs@.len() implies es.def_at(
                di as int,
                (#[trigger] pairs.pairs@[k]).name.id,
            ) == Some(
                DefEntry {
                    name: pairs.pairs@[k].name,
                    flags: pairs.pairs@[k].flags,
                    state: DefState::Materializing { resp: rid },
                    tracker: dt,
                    requested: false,
                },
            ) by {
                assert(es_c.def_at(di as int, pairs.pairs@[k].name.id) == Some(
                    DefEntry {
                        name: pairs.pairs@[k].name,
                        flags: pairs.pairs@[k].flags,
                        state: DefState::Materializing { resp: rid },
                        tracker: dt,
                        requested: false,
                    },
                ));
            }
            assert forall|a: SymRef, b: SymRef| #[trigger] edge_in(es.deps@, a, b) <==> (edge_in(
                old(es).deps@,
                a,
                b,
            ) && !(a.dylib == di && contains_sym(pairs.pairs@, a.sym))) by {
                assert(edge_in(es.deps@, a, b) <==> (edge_in(es_d.deps@, a, b) && !(a.dylib == di
                    && ids@.contains(a.sym))));
            }
            // the session invariant
            assert forall|dj: int| 0 <= dj < es.dylibs@.len() implies es.dylib_wf(dj) by {
                assert(old(es).dylib_wf(dj));
                assert forall|kk: int|
                    0 <= kk < es.dylibs@[dj].entries@.len() implies es.entry_state_ok(
                    dj,
                    #[trigger] es.dylibs@[dj].entries@[kk],
                ) by {
                    let en = es.dylibs@[dj].entries@[kk];
                    if dj == di {
                        lemma_idx_unique(es.dylibs@[di as int].entries@, kk);
                        assert(es.def_at(di as int, en.name.id) == Some(en));
                        if contains_sym(pairs.pairs@, en.name.id) {
                            let m = choose|m: int|
                                0 <= m < pairs.pairs@.len() && pairs.pairs@[m].name.id
                                    == en.name.id;
                            assert(es.def_at(di as int, (#[trigger] pairs.pairs@[m]).name.id)
                                == Some(
                                DefEntry {
                                    name: pairs.pairs@[m].name,
                                    flags: pairs.pairs@[m].flags,
                                    state: DefState::Materializing { resp: rid },
                                    tracker: dt,
                                    requested: false,
                                },
                            ));
                            assert(en.state == (DefState::Materializing { resp: rid }));
                            assert(contains_sym(es.resps@[rid as int].syms@, en.name.id)) by {
                                assert((keptg + pairs.pairs@)[keptg.len() + m].name.id
                                    == en.name.id);
                            }
                        } else {
                            assert(es.def_at(di as int, en.name.id) == es1.def_at(
                                di as int,
                                en.name.id,
                            ));
                            assert(es1.def_at(di as int, en.name.id) == Some(en));
                            assert(es1.dylib_wf(di as int));
                            assert(has_def(es1.dylibs@[di as int].entries@, en.name.id));
                            let kx = crate::session::idx_of(
                                es1.dylibs@[di as int].entries@,
                                en.name.id,
                            );
                            assert(es1.entry_state_ok(di as int, es1.dylibs@[di as
                                int].entries@[kx]));
                            assert(es1.dylibs@[di as int].entries@[kx] == en);
                            match en.state {
                                DefState::Materializing { resp } => {
                                    assert(es1.resp_owns(di as int, resp, en.name.id));
                                    if resp == rid {
                                        assert(contains_sym(old_syms, en.name.id));
                                        assert(!contains_sym(pairs.pairs@, en.name.id));
                                        assert(!ids@.contains(en.name.id));
                                        assert(contains_sym(keptg, en.name.id));
                                        let m2 = choose|m2: int|
                                            0 <= m2 < keptg.len() && keptg[m2].name.id
                                                == en.name.id;
                                        assert((keptg + pairs.pairs@)[m2].name.id == en.name.id);
                                        assert(contains_sym(
                                            es.resps@[rid as int].syms@,
                                            en.name.id,
                                        ));
                                    } else {
                                        assert(es.resps@[resp as int] == es1.resps@[resp as int]);
                                    }
                                },
                                DefState::Resolved { resp, symbol } => {
                                    assert(es1.resp_owns(di as int, resp, en.name.id));
                                    if resp == rid {
                                        assert(contains_sym(old_syms, en.name.id));
                                        assert(!contains_sym(pairs.pairs@, en.name.id));
                                        assert(!ids@.contains(en.name.id));
                                        assert(contains_sym(keptg, en.name.id));
                                        let m2 = choose|m2: int|
                                            0 <= m2 < keptg.len() && keptg[m2].name.id
                                                == en.name.id;
                                        assert((keptg + pairs.pairs@)[m2].name.id == en.name.id);
                                        assert(contains_sym(
                                            es.resps@[rid as int].syms@,
                                            en.name.id,
                                        ));
                                    } else {
                                        assert(es.resps@[resp as int] == es1.resps@[resp as int]);
                                    }
                                },
                                _ => {},
                            }
                        }
                    } else {
                        assert(en == old(es).dylibs@[dj].entries@[kk]);
                        assert(old(es).entry_state_ok(dj, en));
                        match en.state {
                            DefState::Materializing { resp } => {
                                assert(old(es).resp_owns(dj, resp, en.name.id));
                                assert(resp != rid);
                                assert(es.resps@[resp as int] == old(es).resps@[resp as int]);
                            },
                            DefState::Resolved { resp, symbol } => {
                                assert(old(es).resp_owns(dj, resp, en.name.id));
                                assert(resp != rid);
                                assert(es.resps@[resp as int] == old(es).resps@[resp as int]);
                            },
                            _ => {},
                        }
                    }
                }
            }
            assert forall|i2: int|
                0 <= i2 < es.deps@.len() implies (#[trigger] es.deps@[i2]).src.dylib
                    < es.dylibs@.len() && es.deps@[i2].dst.dylib < es.dylibs@.len() by {
                assert(es_d.deps@.contains(es.deps@[i2]));
                let j = choose|j: int| 0 <= j < es_d.deps@.len() && es_d.deps@[j] == es.deps@[i2];
                assert(old(es).deps@[j] == es.deps@[i2]);
            }
            assert(acyclic(es.deps@)) by {
                assert forall|a: SymRef, b: SymRef| #[trigger] edge_in(es.deps@, a, b) implies
                    edge_in(old(es).deps@, a, b) by {}
                lemma_acyclic_narrow(es.deps@, old(es).deps@);
            }
            assert forall|i2: int| 0 <= i2 < es.deps@.len() implies !(es.sym_failed(
                (#[trigger] es.deps@[i2]).dst,
            ) && es.sym_unemitted(es.deps@[i2].src)) by {
                let e = es.deps@[i2];
                assert(es_d.deps@.contains(e));
                let j = choose|j: int| 0 <= j < es_d.deps@.len() && es_d.deps@[j] == e;
                assert(old(es).deps@[j] == e);
                assert(!(old(es).sym_failed(e.dst) && old(es).sym_unemitted(e.src)));
                assert(!(e.src.dylib == di && ids@.contains(e.src.sym)));
                assert(es.sym_unemitted(e.src) == old(es).sym_unemitted(e.src)) by {
                    if e.src.dylib == di {
                        assert(!contains_sym(pairs.pairs@, e.src.sym));
                        assert(es.def_at(e.src.dylib as int, e.src.sym) == old(es).def_at(
                            e.src.dylib as int,
                            e.src.sym,
                        ));
                    } else {
                        assert(es.dylibs@[e.src.dylib as int] == old(es).dylibs@[e.src.dylib as
                            int]);
                    }
                }
                if e.dst.dylib == di && contains_sym(pairs.pairs@, e.dst.sym) {
                    let k = choose|k: int|
                        0 <= k < pairs.pairs@.len() && pairs.pairs@[k].name.id == e.dst.sym;
                    assert(es.def_at(di as int, (#[trigger] pairs.pairs@[k]).name.id) == Some(
                        DefEntry {
                            name: pairs.pairs@[k].name,
                            flags: pairs.pairs@[k].flags,
                            state: DefState::Materializing { resp: rid },
                            tracker: dt,
                            requested: false,
                        },
                    ));
                    assert(!es.sym_failed(e.dst));
                } else {
                    assert(es.sym_failed(e.dst) == old(es).sym_failed(e.dst)) by {
                        if e.dst.dylib == di {
                            assert(es.def_at(e.dst.dylib as int, e.dst.sym) == old(es).def_at(
                                e.dst.dylib as int,
                                e.dst.sym,
                            ));
                        } else {
                            assert(es.dylibs@[e.dst.dylib as int] == old(es).dylibs@[e.dst.dylib as
                                int]);
                        }
                    }
                }
            }
            assert forall|r2: int|
                0 <= r2 < es.resps@.len() && es.resps@[r2].live implies es.resps@[r2].dylib
                < es.dylibs@.len() by {
                if r2 != rid {
                    assert(es.resps@[r2] == old(es).resps@[r2]);
                } else {
                    assert(es.resps@[rid as int].dylib == old(es).resps@[rid as int].dylib);
                }
            }
            assert forall|r2: int|
                0 <= r2 < es.resps@.len() && (#[trigger] es.resps@[r2]).live
                    implies distinct_sym_ids(es.resps@[r2].syms@) by {
                if r2 == rid as int {
                    assert(es.resps@[r2].syms@ == keptg + pairs.pairs@);
                    assert forall|a: int, b: int|
                        0 <= a < (keptg + pairs.pairs@).len() && 0 <= b < (keptg
                            + pairs.pairs@).len() && a != b implies ((keptg
                        + pairs.pairs@)[a]).name.id != ((keptg + pairs.pairs@)[b]).name.id by {
                        if a < keptg.len() && b < keptg.len() {
                            assert(keptg[a].name.id != keptg[b].name.id);
                        } else if keptg.len() <= a && keptg.len() <= b {
                            assert(pairs.pairs@[a - keptg.len()].name.id
                                != pairs.pairs@[b - keptg.len()].name.id);
                        } else if a < keptg.len() {
                            assert(contains_sym(keptg, keptg[a].name.id));
                            assert(!ids@.contains(keptg[a].name.id));
                            assert(ids@[b - keptg.len()] == pairs.pairs@[b
                                - keptg.len()].name.id);
                        } else {
                            assert(contains_sym(keptg, keptg[b].name.id));
                            assert(!ids@.contains(keptg[b].name.id));
                            assert(ids@[a - keptg.len()] == pairs.pairs@[a
                                - keptg.len()].name.id);
                        }
                    }
                } else {
                    assert(es.resps@[r2] == es1.resps@[r2]);
                }
            }
            assert(es.wf());
        }
        Ok(())
    }
}

} // verus!
