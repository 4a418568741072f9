//! Materialization units: immutable declarations of symbols that will
//! eventually be defined, and the materializer capability that produces them.

use vstd::prelude::*;

use crate::pool::SymbolStringPoolEntry;
use crate::responsibility::MaterializationResponsibility;
use crate::session::{contains_sym, has_def, DefEntry, DefState, ExecutionSession, JITDylib};
use crate::symbol::{SymbolFlagsMapPair, SymbolFlagsMapPairs, SymbolMapPairs};

verus! {

/// What a materialization unit promises.
#[derive(Debug)]
pub enum UnitKind {
    /// Symbols a materializer will produce on demand; they are claimed as
    /// pending by `define`.
    Custom {
        symbols: SymbolFlagsMapPairs,
        static_initializer: Option<SymbolStringPoolEntry>,
    },
    /// Already-evaluated definitions; `define` makes them visible at once.
    Absolute {
        symbols: SymbolMapPairs,
    },
}

/// An immutable declaration: these symbols, with these flags, will eventually
/// be defined.  Handing the unit to `define` consumes it; ownership of the
/// promise passes to the namespace.
#[derive(Debug)]
pub struct MaterializationUnit {
    pub unit_name: String,
    pub kind: UnitKind,
}

/// The names and flags a unit declares, in declaration order.
pub open spec fn decl_pairs(unit: MaterializationUnit) -> Seq<SymbolFlagsMapPair> {
    match unit.kind {
        UnitKind::Custom { symbols, .. } => symbols.pairs@,
        UnitKind::Absolute { symbols } => symbols.pairs@.map_values(
            |p: crate::symbol::SymbolMapPair|
                SymbolFlagsMapPair { name: p.name, flags: p.symbol.flags },
        ),
    }
}

/// The unit declares this interned name.
pub open spec fn decl_contains(unit: MaterializationUnit, id: usize) -> bool {
    exists|k: int| 0 <= k < decl_pairs(unit).len() && decl_pairs(unit)[k].name.id == id
}

/// The unit declares every name at most once.
pub open spec fn decl_distinct(unit: MaterializationUnit) -> bool {
    forall|k: int, l: int|
        0 <= k < decl_pairs(unit).len() && 0 <= l < decl_pairs(unit).len() && k != l
            ==> decl_pairs(unit)[k].name.id != decl_pairs(unit)[l].name.id
}

impl MaterializationUnit {
    /// Declares `symbols` under a human-readable unit name, with an optional
    /// static-initializer symbol.
    pub fn create(
        name: &str,
        symbols: SymbolFlagsMapPairs,
        static_initializer: Option<SymbolStringPoolEntry>,
    ) -> (r: Self)
        ensures
            r.unit_name@ == name@,
            r.kind == (UnitKind::Custom { symbols, static_initializer }),
    {
        MaterializationUnit {
            unit_name: name.to_owned(),
            kind: UnitKind::Custom { symbols, static_initializer },
        }
    }

    /// Wraps already-evaluated definitions; defining the unit emits them
    /// immediately, with no materializer involved.
    pub fn from_absolute_symbols(symbols: SymbolMapPairs) -> (r: Self)
        ensures
            r.kind == (UnitKind::Absolute { symbols }),
    {
        MaterializationUnit {
            unit_name: "absolute-symbols".to_owned(),
            kind: UnitKind::Absolute { symbols },
        }
    }
}

/// The capability a unit's author supplies.  The library stores no
/// materializer object: the external task dispatcher holds it, invokes
/// `materialize` exactly once with the fresh responsibility obtained from
/// `start_materialization`, and is likewise the one to deliver `discard`
/// when a declared symbol is claimed by a competing unit before
/// materialization begins — no path through the library calls either
/// method.
pub trait Materializer {
    fn materialize(
        &mut self,
        session: &mut ExecutionSession,
        responsibility: MaterializationResponsibility,
    );

    fn discard(&mut self, jit_dylib: &JITDylib, symbol: &SymbolStringPoolEntry);
}


/// The object-emission layer of the session: the component that accepts a
/// responsibility together with a compiled artifact — the evaluated
/// addresses of its symbols — and finishes the materialization on the
/// core's behalf.
#[derive(Debug)]
pub struct ObjectLayer {}

impl ObjectLayer {
    pub fn new() -> (r: ObjectLayer) {
        ObjectLayer {  }
    }

    /// Resolves every symbol of the artifact under the responsibility, then
    /// declares emission complete.  On success the responsibility is
    /// consumed and the artifact's definitions are visible to lookups.  If
    /// the artifact names a symbol outside the responsibility nothing
    /// changes; if it leaves some governed symbol unresolved the resolutions
    /// are recorded but emission fails — either way the token is handed back
    /// with the error.
    pub fn emit(
        &self,
        es: &mut ExecutionSession,
        materialization_responsibility: MaterializationResponsibility,
        artifact: SymbolMapPairs,
    ) -> (r: Result<(), (MaterializationResponsibility, crate::error::OrcError)>)
        requires
            old(es).wf(),
            materialization_responsibility.live_in(*old(es)),
            crate::responsibility::distinct_map_ids(artifact.pairs@),
        ensures
            final(es).wf(),
            final(es).pool == old(es).pool,
            final(es).trackers == old(es).trackers,
            final(es).units == old(es).units,
            final(es).deps == old(es).deps,
            match r {
                Ok(()) => {
                    &&& materialization_responsibility.all_pending(*old(es), artifact.pairs@)
                    &&& !final(es).resps@[materialization_responsibility.id as int].live
                    &&& forall|k: int|
                        0 <= k < artifact.pairs@.len() ==> final(es).def_at(
                            materialization_responsibility.dylib_of(*old(es)),
                            (#[trigger] artifact.pairs@[k]).name.id,
                        ) == Some(
                            DefEntry {
                                state: DefState::Emitted { symbol: artifact.pairs@[k].symbol },
                                ..old(es).def_at(
                                    materialization_responsibility.dylib_of(*old(es)),
                                    artifact.pairs@[k].name.id,
                                )->Some_0
                            },
                        )
                },
                Err((mr, e)) => {
                    &&& mr.id == materialization_responsibility.id
                    &&& mr.live_in(*final(es))
                    &&& final(es).resps == old(es).resps
                    &&& (e == crate::error::OrcError::UnknownSymbol || e
                        == crate::error::OrcError::PrematureEmission)
                    // unknown-symbol exactly when the artifact names a symbol
                    // that is not pending under the token; nothing changes
                    &&& ((e == crate::error::OrcError::UnknownSymbol)
                        <==> !materialization_responsibility.all_pending(
                        *old(es),
                        artifact.pairs@,
                    ))
                    &&& (e == crate::error::OrcError::UnknownSymbol ==> *final(es) == *old(es))
                    // premature-emission only when the artifact was in order
                    // but left some governed symbol unresolved: the
                    // resolutions are recorded, emission is refused
                    &&& (e == crate::error::OrcError::PrematureEmission ==> {
                        &&& materialization_responsibility.all_pending(
                            *old(es),
                            artifact.pairs@,
                        )
                        &&& !materialization_responsibility.all_resolved(*final(es))
                        &&& forall|k: int|
                            0 <= k < artifact.pairs@.len() ==> final(es).def_at(
                                materialization_responsibility.dylib_of(*old(es)),
                                (#[trigger] artifact.pairs@[k]).name.id,
                            ) == Some(
                                DefEntry {
                                    state: DefState::Resolved {
                                        resp: materialization_responsibility.id,
                                        symbol: artifact.pairs@[k].symbol,
                                    },
                                    ..old(es).def_at(
                                        materialization_responsibility.dylib_of(*old(es)),
                                        artifact.pairs@[k].name.id,
                                    )->Some_0
                                },
                            )
                        &&& forall|id: usize|
                            #![trigger final(es).def_at(materialization_responsibility.dylib_of(*old(es)), id)]
                            !crate::responsibility::map_contains(artifact.pairs@, id)
                                ==> final(es).def_at(
                                materialization_responsibility.dylib_of(*old(es)),
                                id,
                            ) == old(es).def_at(
                                materialization_responsibility.dylib_of(*old(es)),
                                id,
                            )
                        &&& forall|k: int|
                            0 <= k < old(es).dylibs@.len() && k
                                != materialization_responsibility.dylib_of(*old(es))
                                ==> final(es).dylibs@[k] == old(es).dylibs@[k]
                    })
                },
            },
    {
        let ghost es0 = *es;
        let ghost rid = materialization_responsibility.id;
        let ghost di = materialization_responsibility.dylib_of(es0);
        match materialization_responsibility.notify_resolved(es, artifact) {
            Err(e) => Err((materialization_responsibility, e)),
            Ok(()) => {
                let ghost es_mid = *es;
                let result = materialization_responsibility.notify_emitted(es);
                match result {
                    Err((mr, e)) => Err((mr, e)),
                    Ok(()) => {
                        proof {
                            assert forall|k: int|
                                0 <= k < artifact.pairs@.len() implies es.def_at(
                                di,
                                (#[trigger] artifact.pairs@[k]).name.id,
                            ) == Some(
                                DefEntry {
                                    state: DefState::Emitted {
                                        symbol: artifact.pairs@[k].symbol,
                                    },
                                    ..es0.def_at(di, artifact.pairs@[k].name.id)->Some_0
                                },
                            ) by {
                                let id = artifact.pairs@[k].name.id;
                                let e0 = es0.def_at(di, id)->Some_0;
                                assert(e0.state == (DefState::Materializing { resp: rid }));
                                assert(es_mid.def_at(di, id) == Some(
                                    DefEntry {
                                        state: DefState::Resolved {
                                            resp: rid,
                                            symbol: artifact.pairs@[k].symbol,
                                        },
                                        ..e0
                                    },
                                ));
                                // the entry is governed, so emission covered it
                                assert(es0.dylib_wf(di));
                                assert(has_def(es0.dylibs@[di].entries@, id));
                                let kx = crate::session::idx_of(es0.dylibs@[di].entries@, id);
                                assert(es0.entry_state_ok(di, es0.dylibs@[di].entries@[kx]));
                                assert(es0.resp_owns(di, rid, id));
                                assert(contains_sym(es0.resps@[rid as int].syms@, id));
                                let m = choose|m: int|
                                    0 <= m < es0.resps@[rid as int].syms@.len()
                                        && es0.resps@[rid as int].syms@[m].name.id == id;
                                assert(es_mid.resps@[rid as int].syms@ == es0.resps@[rid as
                                    int].syms@);
                                assert(es.def_at(
                                    di,
                                    (es_mid.resps@[rid as int].syms@[m]).name.id,
                                ) == Some(
                                    DefEntry {
                                        state: DefState::Emitted {
                                            symbol: es_mid.def_at(
                                                di,
                                                es_mid.resps@[rid as int].syms@[m].name.id,
                                            )->Some_0.state->Resolved_symbol,
                                        },
                                        ..es_mid.def_at(
                                            di,
                                            es_mid.resps@[rid as int].syms@[m].name.id,
                                        )->Some_0
                                    },
                                ));
                            }
                        }
                        Ok(())
                    },
                }
            },
        }
    }
}

} // verus!
