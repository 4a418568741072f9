//! The execution session: the process-wide registry that owns the string
//! pool, the namespaces, the resource trackers, the stored units, the live
//! responsibilities and the dependence graph.

use vstd::prelude::*;

use crate::deps::{acyclic, edge_in, lemma_acyclic_narrow, DepEdge, SymRef};
use crate::error::OrcError;
use crate::pool::{bumped, SymbolStringPool, SymbolStringPoolEntry};
use crate::symbol::{EvaluatedSymbol, SymbolFlags, SymbolFlagsMapPair};
use crate::unit::{decl_contains, decl_distinct, decl_pairs, MaterializationUnit, UnitKind};

verus! {

/// A handle naming one namespace of the session.
#[derive(Clone, Copy, Debug, PartialEq, Eq, Structural)]
pub struct JITDylib {
    pub id: usize,
}

/// The definition state of one symbol in one namespace.
#[derive(Clone, Copy, Debug, PartialEq, Eq, Structural)]
pub enum DefState {
    /// Promised by a stored materialization unit; materialization has not
    /// been dispatched yet.  The symbol counts as pending.
    Claimed { unit: usize },
    /// Pending under a live responsibility.
    Materializing { resp: usize },
    /// Address known, not yet emitted; still governed by its responsibility.
    Resolved { resp: usize, symbol: EvaluatedSymbol },
    /// Fully available to lookups.
    Emitted { symbol: EvaluatedSymbol },
    /// A failure reached this symbol; lookups report failure, and only a
    /// fresh `define` can reuse the name.
    Failed,
    /// Retracted by its resource tracker or by `clear`; the name is free
    /// again and lookups treat it as absent.
    Removed,
}

/// One symbol binding of a namespace.
#[derive(Clone, Copy, Debug)]
pub struct DefEntry {
    pub name: SymbolStringPoolEntry,
    pub flags: SymbolFlags,
    pub state: DefState,
    pub tracker: usize,
    pub requested: bool,
}

/// A named, mutable namespace of symbol bindings.
#[derive(Debug)]
pub struct JITDylibState {
    pub name: String,
    pub bare: bool,
    pub entries: Vec<DefEntry>,
    pub default_tracker: usize,
}

/// One resource tracker.  Every definition is owned by exactly one tracker;
/// the namespace's default tracker owns whatever was not assigned elsewhere.
#[derive(Clone, Copy, Debug)]
pub struct TrackerRec {
    pub dylib: usize,
    pub live: bool,
    pub is_default: bool,
}

/// A stored materialization unit whose symbols are claimed but whose
/// materialization has not been dispatched yet.
#[derive(Debug)]
pub struct UnitRec {
    pub unit_name: String,
    pub dylib: usize,
    pub init: Option<SymbolStringPoolEntry>,
}

/// The session-side record of one responsibility token.
#[derive(Debug)]
pub struct RespRec {
    pub live: bool,
    pub dylib: usize,
    pub init: Option<SymbolStringPoolEntry>,
    pub syms: Vec<SymbolFlagsMapPair>,
}

/// What a lookup observes for one name.
#[derive(Clone, Copy, Debug, PartialEq, Eq, Structural)]
pub enum LookupResult {
    /// No definition; absence is not an error.
    NotFound,
    /// Claimed or in flight: a blocking client would suspend until the
    /// symbol is emitted or failed.
    Pending,
    /// Fully available.
    Emitted { symbol: EvaluatedSymbol },
    /// The symbol failed; querying it reports failure rather than hanging.
    Failed,
}

/// No two entries bind the same interned name.
pub open spec fn distinct_ids(entries: Seq<DefEntry>) -> bool {
    forall|i: int, j: int|
        0 <= i < entries.len() && 0 <= j < entries.len() && i != j ==> entries[i].name.id
            != entries[j].name.id
}

/// Some entry binds this name.
pub open spec fn has_def(entries: Seq<DefEntry>, id: usize) -> bool {
    exists|i: int| 0 <= i < entries.len() && entries[i].name.id == id
}

/// The index of the entry binding this name (unique when ids are distinct).
pub open spec fn idx_of(entries: Seq<DefEntry>, id: usize) -> int {
    choose|i: int| 0 <= i < entries.len() && entries[i].name.id == id
}

/// The entry binding this name.
pub open spec fn def_of(entries: Seq<DefEntry>, id: usize) -> DefEntry {
    entries[idx_of(entries, id)]
}

/// A responsibility's symbol list holds this name.
pub open spec fn contains_sym(syms: Seq<SymbolFlagsMapPair>, id: usize) -> bool {
    exists|k: int| 0 <= k < syms.len() && syms[k].name.id == id
}

/// A symbol listing names every symbol at most once.
pub open spec fn distinct_sym_ids(syms: Seq<SymbolFlagsMapPair>) -> bool {
    forall|k: int, l: int|
        0 <= k < syms.len() && 0 <= l < syms.len() && k != l ==> syms[k].name.id != syms[l].name.id
}

/// A definition in this state can still fail: it has not been emitted and
/// not yet been retracted.
pub open spec fn unemitted(s: DefState) -> bool {
    s is Claimed || s is Materializing || s is Resolved
}

/// Two entries that agree on everything but their definition state.
pub open spec fn same_but_state(a: DefEntry, b: DefEntry) -> bool {
    a.name == b.name && a.flags == b.flags && a.tracker == b.tracker && a.requested == b.requested
}

pub proof fn lemma_idx_unique(entries: Seq<DefEntry>, i: int)
    requires
        distinct_ids(entries),
        0 <= i < entries.len(),
    ensures
        has_def(entries, entries[i].name.id),
        idx_of(entries, entries[i].name.id) == i,
        def_of(entries, entries[i].name.id) == entries[i],
{
    assert(has_def(entries, entries[i].name.id));
    let j = idx_of(entries, entries[i].name.id);
    assert(0 <= j < entries.len() && entries[j].name.id == entries[i].name.id);
}

pub proof fn lemma_update_entry(entries: Seq<DefEntry>, i: int, e: DefEntry)
    requires
        distinct_ids(entries),
        0 <= i < entries.len(),
        e.name.id == entries[i].name.id,
    ensures
        distinct_ids(entries.update(i, e)),
        has_def(entries.update(i, e), e.name.id),
        def_of(entries.update(i, e), e.name.id) == e,
        forall|id: usize|
            id != e.name.id ==> #[trigger] has_def(entries.update(i, e), id) == has_def(
                entries,
                id,
            ) && (has_def(entries, id) ==> def_of(entries.update(i, e), id) == def_of(entries, id)),
{
    let u = entries.update(i, e);
    lemma_idx_unique(u, i);
    assert forall|id: usize| id != e.name.id implies #[trigger] has_def(u, id) == has_def(
        entries,
        id,
    ) && (has_def(entries, id) ==> def_of(u, id) == def_of(entries, id)) by {
        if has_def(entries, id) {
            let j = idx_of(entries, id);
            assert(u[j].name.id == id);
            assert(has_def(u, id));
            lemma_idx_unique(u, j);
        }
        if has_def(u, id) {
            let j = idx_of(u, id);
            assert(entries[j].name.id == id);
            assert(has_def(entries, id));
        }
    }
}

pub proof fn lemma_push_entry(entries: Seq<DefEntry>, e: DefEntry)
    requires
        distinct_ids(entries),
        !has_def(entries, e.name.id),
    ensures
        distinct_ids(entries.push(e)),
        has_def(entries.push(e), e.name.id),
        def_of(entries.push(e), e.name.id) == e,
        forall|id: usize|
            id != e.name.id ==> #[trigger] has_def(entries.push(e), id) == has_def(entries, id) && (
            has_def(entries, id) ==> def_of(entries.push(e), id) == def_of(entries, id)),
{
    let u = entries.push(e);
    assert forall|i: int, j: int|
        0 <= i < u.len() && 0 <= j < u.len() && i != j implies u[i].name.id != u[j].name.id by {
        if i < entries.len() && j < entries.len() {
        } else if j == entries.len() {
            assert(entries[i].name.id != e.name.id) by {
                if entries[i].name.id == e.name.id {
                    assert(has_def(entries, e.name.id));
                }
            }
        } else {
            assert(entries[j].name.id != e.name.id) by {
                if entries[j].name.id == e.name.id {
                    assert(has_def(entries, e.name.id));
                }
            }
        }
    }
    lemma_idx_unique(u, entries.len() as int);
    assert forall|id: usize| id != e.name.id implies #[trigger] has_def(u, id) == has_def(
        entries,
        id,
    ) && (has_def(entries, id) ==> def_of(u, id) == def_of(entries, id)) by {
        if has_def(entries, id) {
            let j = idx_of(entries, id);
            assert(u[j].name.id == id);
            lemma_idx_unique(u, j);
        }
        if has_def(u, id) {
            let j = idx_of(u, id);
            assert(j < entries.len());
            assert(has_def(entries, id));
        }
    }
}

/// Two entry lists binding the same names at the same positions resolve
/// every name identically.
pub proof fn lemma_def_at_same_names(e0: Seq<DefEntry>, e1: Seq<DefEntry>)
    requires
        distinct_ids(e0),
        e1.len() == e0.len(),
        forall|k: int| 0 <= k < e0.len() ==> (#[trigger] e1[k]).name == e0[k].name,
    ensures
        distinct_ids(e1),
        forall|id: usize| #[trigger] has_def(e1, id) == has_def(e0, id),
        forall|id: usize|
            has_def(e0, id) ==> #[trigger] idx_of(e1, id) == idx_of(e0, id) && 0 <= idx_of(
                e0,
                id,
            ) < e0.len() && e0[idx_of(e0, id)].name.id == id,
{
    assert forall|id: usize| #[trigger] has_def(e1, id) == has_def(e0, id) by {
        if has_def(e0, id) {
            let k = idx_of(e0, id);
            assert(e1[k].name.id == id);
            assert(has_def(e1, id));
        }
        if has_def(e1, id) {
            let k = choose|k: int| 0 <= k < e1.len() && e1[k].name.id == id;
            assert(e0[k].name.id == id);
            assert(has_def(e0, id));
        }
    }
    assert forall|id: usize| has_def(e0, id) implies #[trigger] idx_of(e1, id) == idx_of(e0, id)
        && 0 <= idx_of(e0, id) < e0.len() && e0[idx_of(e0, id)].name.id == id by {
        let k0 = idx_of(e0, id);
        assert(0 <= k0 < e0.len() && e0[k0].name.id == id);
        assert(has_def(e1, id));
        let k1 = idx_of(e1, id);
        assert(0 <= k1 < e1.len() && e1[k1].name.id == id);
        assert(e0[k1].name.id == id);
    }
}

/// The index of the entry binding `id`, by linear scan.
pub(crate) fn find_idx(entries: &Vec<DefEntry>, id: usize) -> (r: Option<usize>)
    ensures
        match r {
            Some(i) => i < entries@.len() && entries@[i as int].name.id == id && has_def(
                entries@,
                id,
            ),
            None => !has_def(entries@, id),
        },
{
    let mut i: usize = 0;
    while i < entries.len()
        invariant
            i <= entries@.len(),
            forall|k: int| 0 <= k < i ==> entries@[k].name.id != id,
        decreases entries@.len() - i,
    {
        if entries[i].name.id == id {
            return Some(i);
        }
        i = i + 1;
    }
    None
}

/// Whether `v` holds `x`, by linear scan.
pub(crate) fn usize_vec_contains(v: &Vec<usize>, x: usize) -> (r: bool)
    ensures
        r == v@.contains(x),
{
    let mut i: usize = 0;
    while i < v.len()
        invariant
            i <= v@.len(),
            forall|k: int| 0 <= k < i ==> v@[k] != x,
        decreases v@.len() - i,
    {
        if v[i] == x {
            return true;
        }
        i = i + 1;
    }
    false
}

/// Drops every dependence edge whose source is one of the given names of
/// namespace `di`; the redefinition of a name discards the constraints its
/// previous incarnation recorded.
pub(crate) fn filter_edges_not_from(deps: &Vec<DepEdge>, di: usize, ids: &Vec<usize>) -> (out: Vec<
    DepEdge,
>)
    ensures
        forall|i: int|
            0 <= i < out@.len() ==> deps@.contains(#[trigger] out@[i]) && !(out@[i].src.dylib == di
                && ids@.contains(out@[i].src.sym)),
        forall|j: int|
            0 <= j < deps@.len() && !((#[trigger] deps@[j]).src.dylib == di && ids@.contains(
                deps@[j].src.sym,
            )) ==> out@.contains(deps@[j]),
        forall|a: SymRef, b: SymRef|
            #[trigger] edge_in(out@, a, b) <==> (edge_in(deps@, a, b) && !(a.dylib == di
                && ids@.contains(a.sym))),
{
    let mut out: Vec<DepEdge> = Vec::new();
    let mut j: usize = 0;
    while j < deps.len()
        invariant
            j <= deps@.len(),
            forall|i: int|
                0 <= i < out@.len() ==> deps@.contains(#[trigger] out@[i]) && !(out@[i].src.dylib
                    == di && ids@.contains(out@[i].src.sym)),
            forall|k: int|
                0 <= k < j && !((#[trigger] deps@[k]).src.dylib == di && ids@.contains(
                    deps@[k].src.sym,
                )) ==> out@.contains(deps@[k]),
        decreases deps@.len() - j,
    {
        let e = deps[j];
        let ghost out0 = out@;
        if !(e.src.dylib == di && usize_vec_contains(ids, e.src.sym)) {
            out.push(e);
            proof {
                assert(deps@[j as int] == e && deps@.contains(e));
                assert forall|k: int|
                    0 <= k < j + 1 && !((#[trigger] deps@[k]).src.dylib == di && ids@.contains(
                        deps@[k].src.sym,
                    )) implies out@.contains(deps@[k]) by {
                    if k < j {
                        assert(out0.contains(deps@[k]));
                        let m = choose|m: int| 0 <= m < out0.len() && out0[m] == deps@[k];
                        assert(out@[m] == deps@[k]);
                    } else {
                        assert(out@[out@.len() - 1] == deps@[k]);
                    }
                }
            }
        } else {
            proof {
                assert(deps@[j as int] == e);
            }
        }
        j = j + 1;
    }
    proof {
        assert forall|a: SymRef, b: SymRef| #[trigger] edge_in(out@, a, b) <==> (edge_in(deps@, a, b)
            && !(a.dylib == di && ids@.contains(a.sym))) by {
            if edge_in(out@, a, b) {
                let i = choose|i: int| 0 <= i < out@.len() && out@[i].src == a && out@[i].dst == b;
                let k = choose|k: int| 0 <= k < deps@.len() && deps@[k] == out@[i];
                assert(edge_in(deps@, a, b));
            }
            if edge_in(deps@, a, b) && !(a.dylib == di && ids@.contains(a.sym)) {
                let k = choose|k: int|
                    0 <= k < deps@.len() && deps@[k].src == a && deps@[k].dst == b;
                assert(out@.contains(deps@[k]));
                let m = choose|m: int| 0 <= m < out@.len() && out@[m] == deps@[k];
                assert(edge_in(out@, a, b));
            }
        }
    }
    out
}

/// The entry a `define` of this unit installs for its `k`-th declared name:
/// claimed-as-pending for a custom unit, emitted at once for absolute
/// symbols; owned by the namespace's default tracker, not yet requested.
pub open spec fn decl_entry(unit: MaterializationUnit, uidx: usize, dt: usize, k: int) -> DefEntry {
    DefEntry {
        name: decl_pairs(unit)[k].name,
        flags: decl_pairs(unit)[k].flags,
        state: match unit.kind {
            UnitKind::Custom { .. } => DefState::Claimed { unit: uidx },
            UnitKind::Absolute { symbols } => DefState::Emitted { symbol: symbols.pairs@[k].symbol },
        },
        tracker: dt,
        requested: false,
    }
}

/// `define` accepts the unit: it declares every name once, and none of them
/// is already occupied in the target namespace.
pub open spec fn define_ok(es: ExecutionSession, di: int, unit: MaterializationUnit) -> bool {
    &&& decl_distinct(unit)
    &&& forall|k: int|
        0 <= k < decl_pairs(unit).len() ==> !es.occupied(di, (#[trigger] decl_pairs(unit)[k]).name.id)
}

/// An operation that only clears failedness or retracts symbols — never
/// creating a failed symbol or a pending one — cannot break the
/// propagated-failure invariant.
pub proof fn lemma_closure_preserved_weak(es0: ExecutionSession, es1: ExecutionSession)
    requires
        forall|i: int|
            0 <= i < es0.deps@.len() ==> !(es0.sym_failed((#[trigger] es0.deps@[i]).dst)
                && es0.sym_unemitted(es0.deps@[i].src)),
        es1.deps == es0.deps,
        forall|s: SymRef| #[trigger] es1.sym_failed(s) ==> es0.sym_failed(s),
        forall|s: SymRef| #[trigger] es1.sym_unemitted(s) ==> es0.sym_unemitted(s),
    ensures
        forall|i: int|
            0 <= i < es1.deps@.len() ==> !(es1.sym_failed((#[trigger] es1.deps@[i]).dst)
                && es1.sym_unemitted(es1.deps@[i].src)),
{
    assert forall|i: int| 0 <= i < es1.deps@.len() implies !(es1.sym_failed(
        (#[trigger] es1.deps@[i]).dst,
    ) && es1.sym_unemitted(es1.deps@[i].src)) by {
        assert(es0.deps@[i] == es1.deps@[i]);
        assert(!(es0.sym_failed(es0.deps@[i].dst) && es0.sym_unemitted(es0.deps@[i].src)));
    }
}

/// An operation that leaves every symbol's failedness alone and never turns
/// an emitted or absent symbol back into a pending one cannot break the
/// propagated-failure invariant.
pub proof fn lemma_closure_preserved(es0: ExecutionSession, es1: ExecutionSession)
    requires
        es0.wf(),
        es1.deps == es0.deps,
        forall|s: SymRef| #[trigger] es1.sym_failed(s) == es0.sym_failed(s),
        forall|s: SymRef| #[trigger] es1.sym_unemitted(s) ==> es0.sym_unemitted(s),
    ensures
        forall|i: int|
            0 <= i < es1.deps@.len() ==> !(es1.sym_failed((#[trigger] es1.deps@[i]).dst)
                && es1.sym_unemitted(es1.deps@[i].src)),
{
    assert forall|i: int| 0 <= i < es1.deps@.len() implies !(es1.sym_failed(
        (#[trigger] es1.deps@[i]).dst,
    ) && es1.sym_unemitted(es1.deps@[i].src)) by {
        assert(es0.deps@[i] == es1.deps@[i]);
        assert(!(es0.sym_failed(es0.deps@[i].dst) && es0.sym_unemitted(es0.deps@[i].src)));
    }
}

/// The process-wide registry.  All protocol state lives here; handles
/// (namespaces, trackers, responsibilities) are indices into it.
#[derive(Debug)]
pub struct ExecutionSession {
    pub pool: SymbolStringPool,
    pub dylibs: Vec<JITDylibState>,
    pub trackers: Vec<TrackerRec>,
    pub units: Vec<UnitRec>,
    pub resps: Vec<RespRec>,
    pub deps: Vec<DepEdge>,
}

impl ExecutionSession {
    /// The binding of name `id` in namespace `di`, if any.
    pub open spec fn def_at(self, di: int, id: usize) -> Option<DefEntry> {
        if 0 <= di < self.dylibs@.len() && has_def(self.dylibs@[di].entries@, id) {
            Some(def_of(self.dylibs@[di].entries@, id))
        } else {
            None
        }
    }

    /// The name is taken: it has a binding that was neither failed nor
    /// retracted, so `define` must refuse it.
    pub open spec fn occupied(self, di: int, id: usize) -> bool {
        match self.def_at(di, id) {
            Some(e) => !(e.state is Failed) && !(e.state is Removed),
            None => false,
        }
    }

    /// The symbol is failed.
    pub open spec fn sym_failed(self, s: SymRef) -> bool {
        match self.def_at(s.dylib as int, s.sym) {
            Some(e) => e.state is Failed,
            None => false,
        }
    }

    /// The symbol is pending or resolved: it could still fail.
    pub open spec fn sym_unemitted(self, s: SymRef) -> bool {
        match self.def_at(s.dylib as int, s.sym) {
            Some(e) => unemitted(e.state),
            None => false,
        }
    }

    /// Responsibility `r` is live over namespace `di` and lists name `id`.
    pub open spec fn resp_owns(self, di: int, r: usize, id: usize) -> bool {
        &&& r < self.resps@.len()
        &&& self.resps@[r as int].live
        &&& self.resps@[r as int].dylib == di
        &&& contains_sym(self.resps@[r as int].syms@, id)
    }

    /// The bookkeeping an entry references is in range: its tracker exists,
    /// and the owners its state points at really exist and list the name.
    pub open spec fn entry_state_ok(self, di: int, e: DefEntry) -> bool {
        e.tracker < self.trackers@.len() && match e.state {
            DefState::Claimed { unit } => unit < self.units@.len()
                && self.units@[unit as int].dylib == di,
            DefState::Materializing { resp } => self.resp_owns(di, resp, e.name.id),
            DefState::Resolved { resp, symbol } => self.resp_owns(di, resp, e.name.id),
            DefState::Emitted { symbol } => true,
            DefState::Failed => true,
            DefState::Removed => true,
        }
    }

    pub open spec fn dylib_wf(self, di: int) -> bool {
        let d = self.dylibs@[di];
        &&& d.default_tracker < self.trackers@.len()
        &&& self.trackers@[d.default_tracker as int].live
        &&& self.trackers@[d.default_tracker as int].is_default
        &&& self.trackers@[d.default_tracker as int].dylib == di
        &&& distinct_ids(d.entries@)
        &&& forall|i: int|
            0 <= i < d.entries@.len() ==> self.entry_state_ok(di, #[trigger] d.entries@[i])
    }

    /// The session invariant.  Beyond structural soundness of all indices it
    /// carries the two protocol facts every operation preserves: the
    /// dependence graph is acyclic, and failure has already propagated —
    /// no pending or resolved symbol depends directly on a failed one.
    pub open spec fn wf(self) -> bool {
        &&& self.pool.wf()
        &&& forall|di: int| 0 <= di < self.dylibs@.len() ==> self.dylib_wf(di)
        &&& forall|r: int|
            0 <= r < self.resps@.len() && self.resps@[r].live ==> self.resps@[r].dylib
                < self.dylibs@.len()
        &&& forall|r: int|
            0 <= r < self.resps@.len() && (#[trigger] self.resps@[r]).live ==> distinct_sym_ids(
                self.resps@[r].syms@,
            )
        &&& forall|i: int|
            0 <= i < self.deps@.len() ==> (#[trigger] self.deps@[i]).src.dylib
                < self.dylibs@.len() && self.deps@[i].dst.dylib < self.dylibs@.len()
        &&& acyclic(self.deps@)
        &&& forall|i: int|
            0 <= i < self.deps@.len() ==> !(self.sym_failed((#[trigger] self.deps@[i]).dst)
                && self.sym_unemitted(self.deps@[i].src))
    }

    /// A fresh session: an empty pool and no namespaces.
    pub fn new() -> (r: Self)
        ensures
            r.wf(),
            r.dylibs@.len() == 0,
            r.pool.slots@.len() == 0,
            r.resps@.len() == 0,
            r.deps@.len() == 0,
    {
        ExecutionSession {
            pool: SymbolStringPool::new(),
            dylibs: Vec::new(),
            trackers: Vec::new(),
            units: Vec::new(),
            resps: Vec::new(),
            deps: Vec::new(),
        }
    }

    /// Interns `name` in the session's string pool: returns the unique live
    /// handle for the text, creating the entry if absent and incrementing its
    /// reference count.
    pub fn intern(&mut self, name: &str) -> (e: SymbolStringPoolEntry)
        requires
            old(self).wf(),
        ensures
            final(self).wf(),
            final(self).dylibs == old(self).dylibs,
            final(self).trackers == old(self).trackers,
            final(self).units == old(self).units,
            final(self).resps == old(self).resps,
            final(self).deps == old(self).deps,
            final(self).pool.live(e),
            final(self).pool.text_of(e) == name@,
            forall|h: SymbolStringPoolEntry|
                old(self).pool.live(h) ==> final(self).pool.live(h) && final(self).pool.text_of(h)
                    == old(self).pool.text_of(h),
            forall|i: int|
                0 <= i < old(self).pool.slots@.len() && old(self).pool.slots@[i].count > 0 && old(
                    self,
                ).pool.slots@[i].text@ == name@ ==> e.id == i,
            old(self).pool.has_live_text(name@) ==> final(self).pool.slots@.len() == old(
                self,
            ).pool.slots@.len() && e.id < old(self).pool.slots@.len()
                && final(self).pool.slots@[e.id as int].count == bumped(
                old(self).pool.slots@[e.id as int].count,
            ),
            !old(self).pool.has_live_text(name@) ==> final(self).pool.slots@.len() == old(
                self,
            ).pool.slots@.len() + 1 && e.id == old(self).pool.slots@.len()
                && final(self).pool.slots@[e.id as int].count == 1,
    {
        let e = self.pool.intern(name);
        proof {
            assert forall|di: int| 0 <= di < self.dylibs@.len() implies self.dylib_wf(di) by {
                assert(old(self).dylib_wf(di));
                assert forall|i: int|
                    0 <= i < self.dylibs@[di].entries@.len() implies self.entry_state_ok(
                    di,
                    #[trigger] self.dylibs@[di].entries@[i],
                ) by {
                    assert(old(self).entry_state_ok(di, old(self).dylibs@[di].entries@[i]));
                }
            }
            assert forall|i: int| 0 <= i < self.deps@.len() implies !(self.sym_failed(
                (#[trigger] self.deps@[i]).dst,
            ) && self.sym_unemitted(self.deps@[i].src)) by {
                assert(!(old(self).sym_failed(old(self).deps@[i].dst) && old(self).sym_unemitted(
                    old(self).deps@[i].src,
                )));
            }
        }
        e
    }

    /// Allocates a namespace without checking the name for uniqueness and
    /// without implicit platform-initialization hooks.  Never fails.
    pub fn create_bare_jit_dylib(&mut self, name: &str) -> (d: JITDylib)
        requires
            old(self).wf(),
        ensures
            final(self).wf(),
            d.id == old(self).dylibs@.len(),
            final(self).dylibs@.len() == old(self).dylibs@.len() + 1,
            forall|k: int|
                0 <= k < old(self).dylibs@.len() ==> final(self).dylibs@[k] == old(self).dylibs@[k],
            final(self).dylibs@[d.id as int].name@ == name@,
            final(self).dylibs@[d.id as int].bare == true,
            final(self).dylibs@[d.id as int].entries@.len() == 0,
            final(self).pool == old(self).pool,
            final(self).units == old(self).units,
            final(self).resps == old(self).resps,
            final(self).deps == old(self).deps,
            final(self).trackers@.len() == old(self).trackers@.len() + 1,
            forall|k: int|
                0 <= k < old(self).trackers@.len() ==> final(self).trackers@[k] == old(
                    self,
                ).trackers@[k],
    {
        self.push_dylib(name, true)
    }

    /// Allocates a namespace with implicit platform-initialization hooks;
    /// fails if a namespace with this name already exists in the session.
    pub fn create_jit_dylib(&mut self, name: &str) -> (r: Result<JITDylib, OrcError>)
        requires
            old(self).wf(),
        ensures
            final(self).wf(),
            match r {
                Ok(d) => {
                    &&& !(exists|k: int|
                        0 <= k < old(self).dylibs@.len() && (#[trigger] old(
                            self,
                        ).dylibs@[k].name)@ == name@)
                    &&& d.id == old(self).dylibs@.len()
                    &&& final(self).dylibs@.len() == old(self).dylibs@.len() + 1
                    &&& forall|k: int|
                        0 <= k < old(self).dylibs@.len() ==> final(self).dylibs@[k] == old(
                            self,
                        ).dylibs@[k]
                    &&& final(self).dylibs@[d.id as int].name@ == name@
                    &&& final(self).dylibs@[d.id as int].bare == false
                    &&& final(self).dylibs@[d.id as int].entries@.len() == 0
                    &&& final(self).pool == old(self).pool
                    &&& final(self).units == old(self).units
                    &&& final(self).resps == old(self).resps
                    &&& final(self).deps == old(self).deps
                    &&& final(self).trackers@.len() == old(self).trackers@.len() + 1
                    &&& forall|k: int|
                        0 <= k < old(self).trackers@.len() ==> final(self).trackers@[k] == old(
                            self,
                        ).trackers@[k]
                },
                Err(e) => {
                    &&& e == OrcError::DuplicateNamespace
                    &&& *final(self) == *old(self)
                    &&& exists|k: int|
                        0 <= k < old(self).dylibs@.len() && (#[trigger] old(
                            self,
                        ).dylibs@[k].name)@ == name@
                },
            },
    {
        let owned: String = name.to_owned();
        let mut i: usize = 0;
        while i < self.dylibs.len()
            invariant
                *self == *old(self),
                self.wf(),
                i <= self.dylibs@.len(),
                owned@ == name@,
                forall|k: int| 0 <= k < i ==> (#[trigger] self.dylibs@[k].name)@ != name@,
            decreases self.dylibs@.len() - i,
        {
            if self.dylibs[i].name == owned {
                return Err(OrcError::DuplicateNamespace);
            }
            i = i + 1;
        }
        Ok(self.push_dylib(name, false))
    }

    /// Appends a namespace together with its default tracker.
    fn push_dylib(&mut self, name: &str, bare: bool) -> (d: JITDylib)
        requires
            old(self).wf(),
        ensures
            final(self).wf(),
            d.id == old(self).dylibs@.len(),
            final(self).dylibs@.len() == old(self).dylibs@.len() + 1,
            forall|k: int|
                0 <= k < old(self).dylibs@.len() ==> final(self).dylibs@[k] == old(self).dylibs@[k],
            final(self).dylibs@[d.id as int].name@ == name@,
            final(self).dylibs@[d.id as int].bare == bare,
            final(self).dylibs@[d.id as int].entries@.len() == 0,
            final(self).pool == old(self).pool,
            final(self).units == old(self).units,
            final(self).resps == old(self).resps,
            final(self).deps == old(self).deps,
            final(self).trackers@.len() == old(self).trackers@.len() + 1,
            forall|k: int|
                0 <= k < old(self).trackers@.len() ==> final(self).trackers@[k] == old(
                    self,
                ).trackers@[k],
    {
        let d = JITDylib { id: self.dylibs.len() };
        let t = self.trackers.len();
        self.trackers.push(TrackerRec { dylib: d.id, live: true, is_default: true });
        self.dylibs.push(
            JITDylibState { name: name.to_owned(), bare, entries: Vec::new(), default_tracker: t },
        );
        proof {
            assert forall|di: int| 0 <= di < self.dylibs@.len() implies self.dylib_wf(di) by {
                if di < old(self).dylibs@.len() {
                    assert(old(self).dylib_wf(di));
                    assert(self.dylibs@[di] == old(self).dylibs@[di]);
                    assert forall|i: int|
                        0 <= i < self.dylibs@[di].entries@.len() implies self.entry_state_ok(
                        di,
                        #[trigger] self.dylibs@[di].entries@[i],
                    ) by {
                        assert(old(self).entry_state_ok(di, old(self).dylibs@[di].entries@[i]));
                    }
                }
            }
            assert forall|i: int| 0 <= i < self.deps@.len() implies !(self.sym_failed(
                (#[trigger] self.deps@[i]).dst,
            ) && self.sym_unemitted(self.deps@[i].src)) by {
                assert(!(old(self).sym_failed(old(self).deps@[i].dst) && old(self).sym_unemitted(
                    old(self).deps@[i].src,
                )));
                assert(self.def_at(self.deps@[i].dst.dylib as int, self.deps@[i].dst.sym) == old(
                    self,
                ).def_at(self.deps@[i].dst.dylib as int, self.deps@[i].dst.sym));
                assert(self.def_at(self.deps@[i].src.dylib as int, self.deps@[i].src.sym) == old(
                    self,
                ).def_at(self.deps@[i].src.dylib as int, self.deps@[i].src.sym));
            }
        }
        d
    }

    /// Finds the (first-created) namespace with this name, if any.
    pub fn get_jit_dylib_by_name(&self, name: &str) -> (r: Option<JITDylib>)
        ensures
            match r {
                Some(d) => d.id < self.dylibs@.len() && (self.dylibs@[d.id as int].name)@ == name@
                    && forall|k: int|
                    0 <= k < d.id ==> (#[trigger] self.dylibs@[k].name)@ != name@,
                None => forall|k: int|
                    0 <= k < self.dylibs@.len() ==> (#[trigger] self.dylibs@[k].name)@ != name@,
            },
    {
        let owned: String = name.to_owned();
        let mut i: usize = 0;
        while i < self.dylibs.len()
            invariant
                i <= self.dylibs@.len(),
                owned@ == name@,
                forall|k: int| 0 <= k < i ==> (#[trigger] self.dylibs@[k].name)@ != name@,
            decreases self.dylibs@.len() - i,
        {
            if self.dylibs[i].name == owned {
                return Some(JITDylib { id: i });
            }
            i = i + 1;
        }
        None
    }

    /// Queries one name.  An emitted symbol is returned; a failed one
    /// reports failure; a pending one is marked as requested, so that the
    /// materializer can learn which of its symbols lookups actually asked
    /// for.
    pub fn lookup(&mut self, d: JITDylib, name: &SymbolStringPoolEntry) -> (r: LookupResult)
        requires
            old(self).wf(),
            d.id < old(self).dylibs@.len(),
        ensures
            final(self).wf(),
            final(self).pool == old(self).pool,
            final(self).trackers == old(self).trackers,
            final(self).units == old(self).units,
            final(self).resps == old(self).resps,
            final(self).deps == old(self).deps,
            final(self).dylibs@.len() == old(self).dylibs@.len(),
            forall|k: int|
                0 <= k < old(self).dylibs@.len() && k != d.id ==> final(self).dylibs@[k] == old(
                    self,
                ).dylibs@[k],
            forall|id: usize|
                id != name.id ==> final(self).def_at(d.id as int, id) == old(self).def_at(
                    d.id as int,
                    id,
                ),
            match old(self).def_at(d.id as int, name.id) {
                None => r == LookupResult::NotFound && *final(self) == *old(self),
                Some(e) => match e.state {
                    DefState::Removed => r == LookupResult::NotFound && *final(self) == *old(self),
                    DefState::Failed => r == LookupResult::Failed && *final(self) == *old(self),
                    DefState::Emitted { symbol } => r == (LookupResult::Emitted { symbol })
                        && *final(self) == *old(self),
                    _ => r == LookupResult::Pending && final(self).def_at(d.id as int, name.id)
                        == Some(DefEntry { requested: true, ..e }),
                },
            },
    {
        let di = d.id;
        proof {
            assert(self.dylib_wf(di as int));
        }
        match find_idx(&self.dylibs[di].entries, name.id) {
            None => LookupResult::NotFound,
            Some(k) => {
                proof {
                    lemma_idx_unique(self.dylibs@[di as int].entries@, k as int);
                }
                let e = self.dylibs[di].entries[k];
                match e.state {
                    DefState::Removed => LookupResult::NotFound,
                    DefState::Failed => LookupResult::Failed,
                    DefState::Emitted { symbol } => LookupResult::Emitted { symbol },
                    _ => {
                        let e2 = DefEntry { requested: true, ..e };
                        self.dylibs[di].entries.set(k, e2);
                        proof {
                            self.lemma_after_entry_update(*old(self), di as int, k as int, e2);
                        }
                        LookupResult::Pending
                    },
                }
            },
        }
    }

    /// Dispatches materialization for the unit that claimed `name`: issues
    /// the fresh, live responsibility that governs every symbol the unit
    /// still has claimed in this namespace.  The external dispatcher then
    /// hands the responsibility to the unit's materializer.
    pub fn start_materialization(&mut self, d: JITDylib, name: &SymbolStringPoolEntry) -> (r:
        Result<crate::responsibility::MaterializationResponsibility, OrcError>)
        requires
            old(self).wf(),
            d.id < old(self).dylibs@.len(),
        ensures
            final(self).wf(),
            final(self).pool == old(self).pool,
            final(self).trackers == old(self).trackers,
            final(self).units == old(self).units,
            final(self).deps == old(self).deps,
            final(self).dylibs@.len() == old(self).dylibs@.len(),
            forall|k: int|
                0 <= k < old(self).dylibs@.len() && k != d.id ==> final(self).dylibs@[k] == old(
                    self,
                ).dylibs@[k],
            match r {
                Ok(mr) => {
                    let u = old(self).def_at(d.id as int, name.id)->Some_0.state->Claimed_unit;
                    &&& (match old(self).def_at(d.id as int, name.id) {
                        Some(e) => e.state is Claimed,
                        None => false,
                    })
                    &&& mr.id == old(self).resps@.len()
                    &&& final(self).resps@.len() == old(self).resps@.len() + 1
                    &&& forall|k: int|
                        0 <= k < old(self).resps@.len() ==> final(self).resps@[k] == old(
                            self,
                        ).resps@[k]
                    &&& final(self).resps@[mr.id as int].live
                    &&& final(self).resps@[mr.id as int].dylib == d.id
                    &&& final(self).resps@[mr.id as int].init == old(self).units@[u as int].init
                    // the responsibility lists exactly the names the unit still had claimed
                    &&& forall|id: usize|
                        contains_sym(final(self).resps@[mr.id as int].syms@, id) <==> (match old(
                            self,
                        ).def_at(d.id as int, id) {
                            Some(e) => e.state == (DefState::Claimed { unit: u }),
                            None => false,
                        })
                    // those names are now pending under the new responsibility
                    &&& forall|id: usize|
                        #![trigger final(self).def_at(d.id as int, id)]
                        match old(self).def_at(d.id as int, id) {
                            Some(e) => final(self).def_at(d.id as int, id) == (if e.state == (
                                DefState::Claimed { unit: u }
                            ) {
                                Some(DefEntry { state: DefState::Materializing { resp: mr.id }, ..e })
                            } else {
                                Some(e)
                            }),
                            None => final(self).def_at(d.id as int, id) is None,
                        }
                    // the responsibility's listing is duplicate-free and
                    // carries the declared flags
                    &&& distinct_sym_ids(final(self).resps@[mr.id as int].syms@)
                    &&& forall|k: int|
                        0 <= k < final(self).resps@[mr.id as int].syms@.len()
                            ==> (#[trigger] final(self).resps@[mr.id as int].syms@[k]).flags
                            == old(self).def_at(
                            d.id as int,
                            final(self).resps@[mr.id as int].syms@[k].name.id,
                        )->Some_0.flags
                },
                Err(e) => {
                    &&& e == OrcError::UnknownSymbol
                    &&& *final(self) == *old(self)
                    &&& !(match old(self).def_at(d.id as int, name.id) {
                        Some(en) => en.state is Claimed,
                        None => false,
                    })
                },
            },
    {
        let di = d.id;
        proof {
            assert(self.dylib_wf(di as int));
        }
        let u: usize;
        match find_idx(&self.dylibs[di].entries, name.id) {
            None => {
                return Err(OrcError::UnknownSymbol);
            },
            Some(k) => {
                proof {
                    lemma_idx_unique(self.dylibs@[di as int].entries@, k as int);
                }
                match self.dylibs[di].entries[k].state {
                    DefState::Claimed { unit } => {
                        u = unit;
                    },
                    _ => {
                        return Err(OrcError::UnknownSymbol);
                    },
                }
            },
        }
        let rid = self.resps.len();
        let ghost es0 = *self;
        let mut syms: Vec<SymbolFlagsMapPair> = Vec::new();
        let n = self.dylibs[di].entries.len();
        let mut i: usize = 0;
        #[verifier::loop_isolation(false)]
        while i < n
            invariant
                i <= n,
                self.pool == es0.pool,
                self.trackers == es0.trackers,
                self.units == es0.units,
                self.resps == es0.resps,
                self.deps == es0.deps,
                self.dylibs@.len() == es0.dylibs@.len(),
                forall|k: int|
                    0 <= k < self.dylibs@.len() && k != di ==> self.dylibs@[k] == es0.dylibs@[k],
                self.dylibs@[di as int].name == es0.dylibs@[di as int].name,
                self.dylibs@[di as int].bare == es0.dylibs@[di as int].bare,
                self.dylibs@[di as int].default_tracker == es0.dylibs@[di as int].default_tracker,
                self.dylibs@[di as int].entries@.len() == n,
                forall|k: int|
                    0 <= k < n ==> (#[trigger] self.dylibs@[di as int].entries@[k]).name
                        == es0.dylibs@[di as int].entries@[k].name
                        && self.dylibs@[di as int].entries@[k].flags == es0.dylibs@[di as
                        int].entries@[k].flags && self.dylibs@[di as int].entries@[k].tracker
                        == es0.dylibs@[di as int].entries@[k].tracker && self.dylibs@[di as
                        int].entries@[k].requested == es0.dylibs@[di as int].entries@[k].requested,
                forall|k: int|
                    0 <= k < i ==> (#[trigger] self.dylibs@[di as int].entries@[k]).state == (
                    if es0.dylibs@[di as int].entries@[k].state == (DefState::Claimed { unit: u }) {
                        DefState::Materializing { resp: rid }
                    } else {
                        es0.dylibs@[di as int].entries@[k].state
                    }),
                forall|k: int|
                    i <= k < n ==> (#[trigger] self.dylibs@[di as int].entries@[k]).state
                        == es0.dylibs@[di as int].entries@[k].state,
                forall|id: usize|
                    contains_sym(syms@, id) <==> exists|k: int|
                        0 <= k < i && (#[trigger] es0.dylibs@[di as int].entries@[k]).name.id == id
                            && es0.dylibs@[di as int].entries@[k].state == (DefState::Claimed {
                            unit: u,
                        }),
                forall|k: int|
                    0 <= k < syms@.len() ==> has_def(
                        es0.dylibs@[di as int].entries@,
                        (#[trigger] syms@[k]).name.id,
                    ) && def_of(es0.dylibs@[di as int].entries@, syms@[k].name.id).flags
                        == syms@[k].flags && def_of(
                        es0.dylibs@[di as int].entries@,
                        syms@[k].name.id,
                    ).state == (DefState::Claimed { unit: u }),
                distinct_sym_ids(syms@),
                forall|k: int|
                    0 <= k < syms@.len() ==> exists|kk: int|
                        0 <= kk < i && (#[trigger] es0.dylibs@[di as int].entries@[kk]).name.id
                            == (#[trigger] syms@[k]).name.id,
            decreases n - i,
        {
            let e = self.dylibs[di].entries[i];
            let is_ours: bool = match e.state {
                DefState::Claimed { unit } => unit == u,
                _ => false,
            };
            if is_ours {
                let ghost syms0 = syms@;
                syms.push(SymbolFlagsMapPair { name: e.name, flags: e.flags });
                let e2 = DefEntry { state: DefState::Materializing { resp: rid }, ..e };
                self.dylibs[di].entries.set(i, e2);
                proof {
                    lemma_idx_unique(es0.dylibs@[di as int].entries@, i as int);
                    assert forall|a: int, b: int|
                        0 <= a < syms@.len() && 0 <= b < syms@.len() && a != b
                            implies (#[trigger] syms@[a]).name.id != (#[trigger] syms@[b]).name.id
                        by {
                        if a < syms0.len() && b < syms0.len() {
                            assert(syms0[a].name.id != syms0[b].name.id);
                        } else if b == syms0.len() {
                            assert(syms@[a] == syms0[a]);
                            let kk = choose|kk: int|
                                0 <= kk < i && (#[trigger] es0.dylibs@[di as
                                int].entries@[kk]).name.id == syms0[a].name.id;
                            assert(es0.dylibs@[di as int].entries@[kk].name.id != e.name.id);
                        } else {
                            assert(syms@[b] == syms0[b]);
                            let kk = choose|kk: int|
                                0 <= kk < i && (#[trigger] es0.dylibs@[di as
                                int].entries@[kk]).name.id == syms0[b].name.id;
                            assert(es0.dylibs@[di as int].entries@[kk].name.id != e.name.id);
                        }
                    }
                    assert forall|k: int|
                        0 <= k < syms@.len() implies exists|kk: int|
                        0 <= kk < i + 1 && (#[trigger] es0.dylibs@[di as int].entries@[kk]).name.id
                            == (#[trigger] syms@[k]).name.id by {
                        if k < syms0.len() {
                            assert(syms@[k] == syms0[k]);
                            let kk = choose|kk: int|
                                0 <= kk < i && (#[trigger] es0.dylibs@[di as
                                int].entries@[kk]).name.id == syms0[k].name.id;
                        } else {
                            assert(es0.dylibs@[di as int].entries@[i as int].name.id
                                == syms@[k].name.id);
                        }
                    }
                    assert forall|id: usize| contains_sym(syms@, id) <==> exists|k: int|
                        0 <= k < i + 1 && (#[trigger] es0.dylibs@[di as int].entries@[k]).name.id
                            == id && es0.dylibs@[di as int].entries@[k].state == (DefState::Claimed {
                            unit: u,
                        }) by {
                        if contains_sym(syms@, id) {
                            let m = choose|m: int| 0 <= m < syms@.len() && syms@[m].name.id == id;
                            if m < syms0.len() {
                                assert(contains_sym(syms0, id));
                            } else {
                                assert(es0.dylibs@[di as int].entries@[i as int].name.id == id);
                            }
                        }
                        if exists|k: int|
                            0 <= k < i + 1 && (#[trigger] es0.dylibs@[di as
                            int].entries@[k]).name.id == id && es0.dylibs@[di as
                            int].entries@[k].state == (DefState::Claimed { unit: u }) {
                            let k = choose|k: int|
                                0 <= k < i + 1 && (#[trigger] es0.dylibs@[di as
                                int].entries@[k]).name.id == id && es0.dylibs@[di as
                                int].entries@[k].state == (DefState::Claimed { unit: u });
                            if k < i {
                                assert(contains_sym(syms0, id));
                                let m = choose|m: int|
                                    0 <= m < syms0.len() && syms0[m].name.id == id;
                                assert(syms@[m].name.id == id);
                            } else {
                                assert(syms@[syms@.len() - 1].name.id == id);
                            }
                        }
                    }
                }
            } else {
                proof {
                    assert forall|id: usize| contains_sym(syms@, id) implies exists|k: int|
                        0 <= k < i + 1 && (#[trigger] es0.dylibs@[di as int].entries@[k]).name.id
                            == id && es0.dylibs@[di as int].entries@[k].state == (DefState::Claimed {
                            unit: u,
                        }) by {
                        let k = choose|k: int|
                            0 <= k < i && (#[trigger] es0.dylibs@[di as int].entries@[k]).name.id
                                == id && es0.dylibs@[di as int].entries@[k].state == (
                            DefState::Claimed { unit: u });
                        assert(0 <= k < i + 1);
                    }
                }
            }
            i = i + 1;
        }
        self.resps.push(
            RespRec { live: true, dylib: di, init: self.units[u].init, syms },
        );
        let mr = crate::responsibility::MaterializationResponsibility { id: rid };
        proof {
            self.lemma_wf_after_dispatch(es0, di as int, u, rid);
        }
        Ok(mr)
    }

    /// The session invariant and the per-name reading of the namespace after
    /// a dispatch: every entry the unit had claimed turned pending under the
    /// new responsibility, and nothing else moved.
    proof fn lemma_wf_after_dispatch(self, es0: ExecutionSession, di: int, u: usize, rid: usize)
        requires
            es0.wf(),
            0 <= di < es0.dylibs@.len(),
            u < es0.units@.len(),
            es0.units@[u as int].dylib == di,
            rid == es0.resps@.len(),
            self.pool == es0.pool,
            self.trackers == es0.trackers,
            self.units == es0.units,
            self.deps == es0.deps,
            self.dylibs@.len() == es0.dylibs@.len(),
            forall|k: int| 0 <= k < es0.dylibs@.len() && k != di ==> self.dylibs@[k] == es0.dylibs@[k],
            self.dylibs@[di].name == es0.dylibs@[di].name,
            self.dylibs@[di].bare == es0.dylibs@[di].bare,
            self.dylibs@[di].default_tracker == es0.dylibs@[di].default_tracker,
            self.dylibs@[di].entries@.len() == es0.dylibs@[di].entries@.len(),
            forall|k: int|
                0 <= k < es0.dylibs@[di].entries@.len() ==> (#[trigger] self.dylibs@[di].entries@[k]).name
                    == es0.dylibs@[di].entries@[k].name && self.dylibs@[di].entries@[k].flags
                    == es0.dylibs@[di].entries@[k].flags && self.dylibs@[di].entries@[k].tracker
                    == es0.dylibs@[di].entries@[k].tracker && self.dylibs@[di].entries@[k].requested
                    == es0.dylibs@[di].entries@[k].requested,
            forall|k: int|
                0 <= k < es0.dylibs@[di].entries@.len() ==> (#[trigger] self.dylibs@[di].entries@[k]).state
                    == (if es0.dylibs@[di].entries@[k].state == (DefState::Claimed { unit: u }) {
                    DefState::Materializing { resp: rid }
                } else {
                    es0.dylibs@[di].entries@[k].state
                }),
            self.resps@.len() == es0.resps@.len() + 1,
            forall|k: int| 0 <= k < es0.resps@.len() ==> self.resps@[k] == es0.resps@[k],
            self.resps@[rid as int].live,
            self.resps@[rid as int].dylib == di,
            forall|id: usize|
                contains_sym(self.resps@[rid as int].syms@, id) <==> exists|k: int|
                    0 <= k < es0.dylibs@[di].entries@.len() && (#[trigger] es0.dylibs@[di].entries@[k]).name.id
                        == id && es0.dylibs@[di].entries@[k].state == (DefState::Claimed {
                        unit: u,
                    }),
            distinct_sym_ids(self.resps@[rid as int].syms@),
        ensures
            self.wf(),
            forall|id: usize|
                #![trigger self.def_at(di, id)]
                match es0.def_at(di, id) {
                    Some(e) => self.def_at(di, id) == (if e.state == (DefState::Claimed {
                        unit: u,
                    }) {
                        Some(
                            DefEntry {
                                state: DefState::Materializing { resp: rid },
                                ..e
                            },
                        )
                    } else {
                        Some(e)
                    }),
                    None => self.def_at(di, id) is None,
                },
    {
        let e0 = es0.dylibs@[di].entries@;
        let e1 = self.dylibs@[di].entries@;
        assert(es0.dylib_wf(di));
        lemma_def_at_same_names(e0, e1);
        assert forall|id: usize|
            #![trigger self.def_at(di, id)]
            match es0.def_at(di, id) {
                Some(e) => self.def_at(di, id) == (if e.state == (DefState::Claimed { unit: u }) {
                    Some(DefEntry { state: DefState::Materializing { resp: rid }, ..e })
                } else {
                    Some(e)
                }),
                None => self.def_at(di, id) is None,
            } by {
            if has_def(e0, id) {
                let k = idx_of(e0, id);
                assert(0 <= k < e0.len() && e0[k].name.id == id);
                assert(idx_of(e1, id) == k);
                assert(e1[k].name == e0[k].name && e1[k].flags == e0[k].flags && e1[k].tracker
                    == e0[k].tracker && e1[k].requested == e0[k].requested);
            }
        }
        assert forall|dj: int| 0 <= dj < self.dylibs@.len() implies self.dylib_wf(dj) by {
            assert(es0.dylib_wf(dj));
            assert forall|i: int|
                0 <= i < self.dylibs@[dj].entries@.len() implies self.entry_state_ok(
                dj,
                #[trigger] self.dylibs@[dj].entries@[i],
            ) by {
                let en = self.dylibs@[dj].entries@[i];
                if dj == di {
                    let old_en = e0[i];
                    assert(es0.entry_state_ok(di, old_en));
                    if old_en.state == (DefState::Claimed { unit: u }) {
                        assert(en.state == (DefState::Materializing { resp: rid }));
                        assert(contains_sym(self.resps@[rid as int].syms@, en.name.id));
                    } else {
                        assert(en.state == old_en.state);
                        match en.state {
                            DefState::Materializing { resp } => {
                                assert(es0.resp_owns(dj, resp, old_en.name.id));
                                assert(resp < es0.resps@.len());
                                assert(self.resps@[resp as int] == es0.resps@[resp as int]);
                            },
                            DefState::Resolved { resp, symbol } => {
                                assert(es0.resp_owns(dj, resp, old_en.name.id));
                                assert(resp < es0.resps@.len());
                                assert(self.resps@[resp as int] == es0.resps@[resp as int]);
                            },
                            _ => {},
                        }
                    }
                } else {
                    assert(en == es0.dylibs@[dj].entries@[i]);
                    assert(es0.entry_state_ok(dj, en));
                    match en.state {
                        DefState::Materializing { resp } => {
                            assert(es0.resp_owns(dj, resp, en.name.id));
                            assert(self.resps@[resp as int] == es0.resps@[resp as int]);
                        },
                        DefState::Resolved { resp, symbol } => {
                            assert(es0.resp_owns(dj, resp, en.name.id));
                            assert(self.resps@[resp as int] == es0.resps@[resp as int]);
                        },
                        _ => {},
                    }
                }
            }
        }
        assert forall|i: int| 0 <= i < self.deps@.len() implies !(self.sym_failed(
            (#[trigger] self.deps@[i]).dst,
        ) && self.sym_unemitted(self.deps@[i].src)) by {
            let t = self.deps@[i].dst;
            let s = self.deps@[i].src;
            assert(!(es0.sym_failed(t) && es0.sym_unemitted(s)));
            assert(self.sym_failed(t) == es0.sym_failed(t));
            assert(self.sym_unemitted(s) == es0.sym_unemitted(s));
        }
    }

    /// After replacing one entry of one namespace by another with the same
    /// name, state and tracker (only `flags`/`requested` may differ), the
    /// session invariant still holds and all other bindings read the same.
    proof fn lemma_after_entry_update(self, old_es: ExecutionSession, di: int, k: int, e2: DefEntry)
        requires
            old_es.wf(),
            0 <= di < old_es.dylibs@.len(),
            0 <= k < old_es.dylibs@[di].entries@.len(),
            e2.name == old_es.dylibs@[di].entries@[k].name,
            e2.state == old_es.dylibs@[di].entries@[k].state,
            e2.tracker == old_es.dylibs@[di].entries@[k].tracker,
            self.pool == old_es.pool,
            self.trackers == old_es.trackers,
            self.units == old_es.units,
            self.resps == old_es.resps,
            self.deps == old_es.deps,
            self.dylibs@.len() == old_es.dylibs@.len(),
            forall|j: int| 0 <= j < old_es.dylibs@.len() && j != di ==> self.dylibs@[j] == old_es.dylibs@[j],
            self.dylibs@[di].name == old_es.dylibs@[di].name,
            self.dylibs@[di].bare == old_es.dylibs@[di].bare,
            self.dylibs@[di].default_tracker == old_es.dylibs@[di].default_tracker,
            self.dylibs@[di].entries@ == old_es.dylibs@[di].entries@.update(k, e2),
        ensures
            self.wf(),
            forall|id: usize|
                id != e2.name.id ==> self.def_at(di, id) == old_es.def_at(di, id),
            self.def_at(di, e2.name.id) == Some(e2),
            forall|j: int, id: usize|
                0 <= j < self.dylibs@.len() && j != di ==> self.def_at(j, id) == old_es.def_at(
                    j,
                    id,
                ),
    {
        let entries0 = old_es.dylibs@[di].entries@;
        assert(old_es.dylib_wf(di));
        lemma_update_entry(entries0, k, e2);
        assert forall|dj: int| 0 <= dj < self.dylibs@.len() implies self.dylib_wf(dj) by {
            assert(old_es.dylib_wf(dj));
            assert forall|i: int|
                0 <= i < self.dylibs@[dj].entries@.len() implies self.entry_state_ok(
                dj,
                #[trigger] self.dylibs@[dj].entries@[i],
            ) by {
                if dj == di && i == k {
                    assert(old_es.entry_state_ok(di, entries0[k]));
                } else if dj == di {
                    assert(self.dylibs@[dj].entries@[i] == entries0[i]);
                    assert(old_es.entry_state_ok(dj, entries0[i]));
                } else {
                    assert(old_es.entry_state_ok(dj, old_es.dylibs@[dj].entries@[i]));
                }
            }
        }
        assert forall|id: usize| id != e2.name.id implies self.def_at(di, id) == old_es.def_at(
            di,
            id,
        ) by {}
        assert forall|i: int| 0 <= i < self.deps@.len() implies !(self.sym_failed(
            (#[trigger] self.deps@[i]).dst,
        ) && self.sym_unemitted(self.deps@[i].src)) by {
            assert(!(old_es.sym_failed(old_es.deps@[i].dst) && old_es.sym_unemitted(
                old_es.deps@[i].src,
            )));
            let t = self.deps@[i].dst;
            let s = self.deps@[i].src;
            assert(self.sym_failed(t) == old_es.sym_failed(t));
            assert(self.sym_unemitted(s) == old_es.sym_unemitted(s));
        }
    }
}


impl JITDylib {
    /// Atomically claims every symbol the unit declares in this namespace,
    /// consuming the unit: a custom unit's symbols become pending under the
    /// stored unit, an absolute unit's become emitted at once.  Fails without
    /// mutating anything if any declared name is already occupied or the unit
    /// declares a name twice.  Names whose earlier incarnation failed or was
    /// retracted are free again; any dependence edges recorded from such an
    /// earlier incarnation are discarded.
    #[verifier::loop_isolation(false)]
    pub fn define(&self, es: &mut ExecutionSession, unit: MaterializationUnit) -> (r: Result<
        (),
        OrcError,
    >)
        requires
            old(es).wf(),
            self.id < old(es).dylibs@.len(),
        ensures
            final(es).wf(),
            final(es).pool == old(es).pool,
            final(es).trackers == old(es).trackers,
            final(es).resps == old(es).resps,
            final(es).dylibs@.len() == old(es).dylibs@.len(),
            forall|k: int|
                0 <= k < old(es).dylibs@.len() && k != self.id ==> final(es).dylibs@[k] == old(
                    es,
                ).dylibs@[k],
            final(es).dylibs@[self.id as int].name == old(es).dylibs@[self.id as int].name,
            final(es).dylibs@[self.id as int].bare == old(es).dylibs@[self.id as int].bare,
            final(es).dylibs@[self.id as int].default_tracker == old(es).dylibs@[self.id as
                int].default_tracker,
            match r {
                Ok(()) => {
                    &&& define_ok(*old(es), self.id as int, unit)
                    &&& forall|k: int|
                        0 <= k < decl_pairs(unit).len() ==> final(es).def_at(
                            self.id as int,
                            (#[trigger] decl_pairs(unit)[k]).name.id,
                        ) == Some(
                            decl_entry(
                                unit,
                                old(es).units@.len() as usize,
                                old(es).dylibs@[self.id as int].default_tracker,
                                k,
                            ),
                        )
                    &&& forall|id: usize|
                        #![trigger final(es).def_at(self.id as int, id)]
                        !decl_contains(unit, id) ==> final(es).def_at(self.id as int, id) == old(
                            es,
                        ).def_at(self.id as int, id)
                    &&& (unit.kind is Custom ==> final(es).units@.len() == old(es).units@.len() + 1
                        && (forall|k: int|
                        0 <= k < old(es).units@.len() ==> final(es).units@[k] == old(es).units@[k])
                        && final(es).units@[old(es).units@.len() as int].dylib == self.id
                        && final(es).units@[old(es).units@.len() as int].unit_name@
                        == unit.unit_name@
                        && final(es).units@[old(es).units@.len() as int].init
                        == unit.kind->Custom_static_initializer)
                    &&& (unit.kind is Absolute ==> final(es).units == old(es).units)
                    &&& forall|a: SymRef, b: SymRef|
                        #[trigger] edge_in(final(es).deps@, a, b) <==> (edge_in(old(es).deps@, a, b)
                            && !(a.dylib == self.id && decl_contains(unit, a.sym)))
                },
                Err(e) => {
                    &&& e == OrcError::DuplicateDefinition
                    &&& *final(es) == *old(es)
                    &&& !define_ok(*old(es), self.id as int, unit)
                },
            },
    {
        let di = self.id;
        proof {
            assert(es.dylib_wf(di as int));
        }
        let dt = es.dylibs[di].default_tracker;
        let uidx = es.units.len();
        let ghost u0 = unit;
        let MaterializationUnit { unit_name, kind } = unit;
        let mut add: Vec<DefEntry> = Vec::new();
        let mut ids: Vec<usize> = Vec::new();
        let is_custom: bool;
        let init_opt: Option<SymbolStringPoolEntry>;
        match kind {
            UnitKind::Custom { symbols, static_initializer } => {
                is_custom = true;
                init_opt = static_initializer;
                proof {
                    assert(decl_pairs(u0) == symbols.pairs@);
                }
                let mut i: usize = 0;
                while i < symbols.pairs.len()
                    invariant
                        i <= symbols.pairs@.len(),
                        add@.len() == i,
                        ids@.len() == i,
                        u0.kind is Custom,
                        decl_pairs(u0) == symbols.pairs@,
                        forall|k: int|
                            0 <= k < i ==> #[trigger] add@[k] == decl_entry(u0, uidx, dt, k)
                                && ids@[k] == add@[k].name.id,
                    decreases symbols.pairs@.len() - i,
                {
                    let p = symbols.pairs[i];
                    add.push(
                        DefEntry {
                            name: p.name,
                            flags: p.flags,
                            state: DefState::Claimed { unit: uidx },
                            tracker: dt,
                            requested: false,
                        },
                    );
                    ids.push(p.name.id);
                    i = i + 1;
                }
            },
            UnitKind::Absolute { symbols } => {
                is_custom = false;
                init_opt = None;
                let mut i: usize = 0;
                while i < symbols.pairs.len()
                    invariant
                        i <= symbols.pairs@.len(),
                        add@.len() == i,
                        ids@.len() == i,
                        u0.kind is Absolute,
                        u0.kind->Absolute_symbols == symbols,
                        decl_pairs(u0).len() == symbols.pairs@.len(),
                        forall|k: int|
                            0 <= k < i ==> #[trigger] add@[k] == decl_entry(u0, uidx, dt, k)
                                && ids@[k] == add@[k].name.id,
                    decreases symbols.pairs@.len() - i,
                {
                    let p = symbols.pairs[i];
                    add.push(
                        DefEntry {
                            name: p.name,
                            flags: p.symbol.flags,
                            state: DefState::Emitted { symbol: p.symbol },
                            tracker: dt,
                            requested: false,
                        },
                    );
                    ids.push(p.name.id);
                    i = i + 1;
                }
            },
        }
        let n_add = add.len();
        proof {
            assert(add@.len() == decl_pairs(u0).len());
            assert forall|x: usize| ids@.contains(x) <==> decl_contains(u0, x) by {
                if ids@.contains(x) {
                    let k = choose|k: int| 0 <= k < ids@.len() && ids@[k] == x;
                    assert(add@[k] == decl_entry(u0, uidx, dt, k));
                    assert(decl_pairs(u0)[k].name.id == x);
                }
                if decl_contains(u0, x) {
                    let k = choose|k: int|
                        0 <= k < decl_pairs(u0).len() && decl_pairs(u0)[k].name.id == x;
                    assert(add@[k] == decl_entry(u0, uidx, dt, k));
                    assert(ids@[k] == x);
                }
            }
        }
        // refuse the unit if any declared name is occupied or repeated
        let mut i: usize = 0;
        while i < n_add
            invariant
                i <= n_add,
                forall|k: int| 0 <= k < i ==> !es.occupied(di as int, (#[trigger] add@[k]).name.id),
                forall|k: int, l: int| 0 <= k < l < i ==> add@[k].name.id != add@[l].name.id,
            decreases n_add - i,
        {
            match find_idx(&es.dylibs[di].entries, add[i].name.id) {
                Some(k) => {
                    proof {
                        lemma_idx_unique(es.dylibs@[di as int].entries@, k as int);
                    }
                    let occ: bool = match es.dylibs[di].entries[k].state {
                        DefState::Failed => false,
                        DefState::Removed => false,
                        _ => true,
                    };
                    if occ {
                        proof {
                            assert(es.occupied(di as int, decl_pairs(u0)[i as int].name.id));
                        }
                        return Err(OrcError::DuplicateDefinition);
                    }
                },
                None => {},
            }
            let mut j: usize = 0;
            while j < i
                invariant
                    j <= i,
                    i < n_add,
                    forall|k: int| 0 <= k < j ==> add@[k].name.id != add@[i as int].name.id,
                decreases i - j,
            {
                if add[j].name.id == add[i].name.id {
                    proof {
                        assert(decl_pairs(u0)[j as int].name.id == decl_pairs(
                            u0,
                        )[i as int].name.id);
                        assert(!decl_distinct(u0));
                    }
                    return Err(OrcError::DuplicateDefinition);
                }
                j = j + 1;
            }
            i = i + 1;
        }
        proof {
            assert forall|k: int| 0 <= k < decl_pairs(u0).len() implies !es.occupied(
                di as int,
                (#[trigger] decl_pairs(u0)[k]).name.id,
            ) by {
                assert(add@[k].name.id == decl_pairs(u0)[k].name.id);
            }
            assert(decl_distinct(u0)) by {
                assert forall|k: int, l: int|
                    0 <= k < decl_pairs(u0).len() && 0 <= l < decl_pairs(u0).len() && k != l
                        implies decl_pairs(u0)[k].name.id != decl_pairs(u0)[l].name.id by {
                    assert(add@[k] == decl_entry(u0, uidx, dt, k));
                    assert(add@[l] == decl_entry(u0, uidx, dt, l));
                    if k < l {
                        assert(add@[k].name.id != add@[l].name.id);
                    } else {
                        assert(add@[l].name.id != add@[k].name.id);
                    }
                }
            }
            assert(define_ok(*es, di as int, u0));
        }
        // commit: store the unit, install the declared entries, and discard
        // edges recorded by earlier incarnations of the declared names
        if is_custom {
            es.units.push(UnitRec { unit_name, dylib: di, init: init_opt });
        }
        let ghost es1 = *es;
        proof {
            assert forall|dj: int, k: int|
                0 <= dj < es.dylibs@.len() && 0 <= k < es.dylibs@[dj].entries@.len()
                    implies es.entry_state_ok(dj, #[trigger] es.dylibs@[dj].entries@[k]) by {
                assert(old(es).dylib_wf(dj));
                assert(old(es).entry_state_ok(dj, old(es).dylibs@[dj].entries@[k]));
            }
        }
        let mut i: usize = 0;
        while i < n_add
            invariant
                i <= n_add,
                es.pool == es1.pool,
                es.trackers == es1.trackers,
                es.resps == es1.resps,
                es.units == es1.units,
                es.deps == es1.deps,
                es.dylibs@.len() == es1.dylibs@.len(),
                forall|k: int|
                    0 <= k < es.dylibs@.len() && k != di ==> es.dylibs@[k] == es1.dylibs@[k],
                es.dylibs@[di as int].name == es1.dylibs@[di as int].name,
                es.dylibs@[di as int].bare == es1.dylibs@[di as int].bare,
                es.dylibs@[di as int].default_tracker == es1.dylibs@[di as int].default_tracker,
                distinct_ids(es.dylibs@[di as int].entries@),
                forall|k: int|
                    0 <= k < i ==> es.def_at(di as int, (#[trigger] add@[k]).name.id) == Some(
                        add@[k],
                    ),
                forall|id: usize|
                    #![trigger es.def_at(di as int, id)]
                    !has_def(add@.take(i as int), id) ==> es.def_at(di as int, id) == es1.def_at(
                        di as int,
                        id,
                    ),
                forall|k: int|
                    0 <= k < es.dylibs@[di as int].entries@.len() ==> es.entry_state_ok(
                        di as int,
                        #[trigger] es.dylibs@[di as int].entries@[k],
                    ),
            decreases n_add - i,
        {
            let e = add[i];
            let ghost ent0 = es.dylibs@[di as int].entries@;
            let ghost es_before = *es;
            match find_idx(&es.dylibs[di].entries, e.name.id) {
                Some(k) => {
                    es.dylibs[di].entries.set(k, e);
                    proof {
                        lemma_update_entry(ent0, k as int, e);
                    }
                },
                None => {
                    es.dylibs[di].entries.push(e);
                    proof {
                        lemma_push_entry(ent0, e);
                    }
                },
            }
            proof {
                assert(add@.take(i + 1) == add@.take(i as int).push(add@[i as int]));
                assert forall|k: int| 0 <= k < i + 1 implies es.def_at(
                    di as int,
                    (#[trigger] add@[k]).name.id,
                ) == Some(add@[k]) by {
                    if k < i {
                        assert(add@[k].name.id != e.name.id);
                        assert(es_before.def_at(di as int, add@[k].name.id) == Some(add@[k]));
                    }
                }
                assert forall|id: usize|
                    #![trigger es.def_at(di as int, id)]
                    !has_def(add@.take(i + 1), id) implies es.def_at(di as int, id) == es1.def_at(
                    di as int,
                    id,
                ) by {
                    assert(!has_def(add@.take(i as int), id)) by {
                        if has_def(add@.take(i as int), id) {
                            let k = choose|k: int|
                                0 <= k < i && add@.take(i as int)[k].name.id == id;
                            assert(add@.take(i + 1)[k].name.id == id);
                        }
                    }
                    assert(id != e.name.id) by {
                        if id == e.name.id {
                            assert(add@.take(i + 1)[i as int].name.id == id);
                        }
                    }
                    assert(es_before.def_at(di as int, id) == es1.def_at(di as int, id));
                }
                assert forall|k: int|
                    0 <= k < es.dylibs@[di as int].entries@.len() implies es.entry_state_ok(
                    di as int,
                    #[trigger] es.dylibs@[di as int].entries@[k],
                ) by {
                    let en = es.dylibs@[di as int].entries@[k];
                    if en == e {
                        assert(add@[i as int] == decl_entry(u0, uidx, dt, i as int));
                        match u0.kind {
                            UnitKind::Custom { .. } => {
                                assert(e.state == (DefState::Claimed { unit: uidx }));
                                assert(uidx < es.units@.len() && es.units@[uidx as int].dylib
                                    == di);
                            },
                            UnitKind::Absolute { .. } => {},
                        }
                    } else {
                        assert(k < ent0.len() && ent0[k] == en);
                        assert(es_before.entry_state_ok(di as int, en));
                    }
                }
            }
            i = i + 1;
        }
        let newdeps = filter_edges_not_from(&es.deps, di, &ids);
        let ghost es2 = *es;
        es.deps = newdeps;
        proof {
            assert(add@.take(n_add as int) == add@);
            // the declared names read back as installed; all other names as before
            assert forall|k: int| 0 <= k < decl_pairs(u0).len() implies es.def_at(
                di as int,
                (#[trigger] decl_pairs(u0)[k]).name.id,
            ) == Some(decl_entry(u0, uidx, dt, k)) by {
                assert(es2.def_at(di as int, add@[k].name.id) == Some(add@[k]));
                assert(es.def_at(di as int, add@[k].name.id) == es2.def_at(
                    di as int,
                    add@[k].name.id,
                ));
            }
            assert forall|id: usize|
                #![trigger es.def_at(di as int, id)]
                !decl_contains(u0, id) implies es.def_at(di as int, id) == old(es).def_at(
                di as int,
                id,
            ) by {
                assert(!ids@.contains(id));
                assert(!has_def(add@, id)) by {
                    if has_def(add@, id) {
                        let k = choose|k: int| 0 <= k < add@.len() && add@[k].name.id == id;
                        assert(ids@[k] == id);
                    }
                }
                assert(es2.def_at(di as int, id) == es1.def_at(di as int, id));
                assert(es.def_at(di as int, id) == es2.def_at(di as int, id));
                assert(es1.def_at(di as int, id) == old(es).def_at(di as int, id));
            }
            // edges: exactly the old ones whose source was not redefined
            assert forall|a: SymRef, b: SymRef| #[trigger] edge_in(es.deps@, a, b) <==> (edge_in(
                old(es).deps@,
                a,
                b,
            ) && !(a.dylib == di && decl_contains(u0, a.sym))) by {
                assert(edge_in(es.deps@, a, b) <==> (edge_in(es2.deps@, a, b) && !(a.dylib == di
                    && ids@.contains(a.sym))));
            }
            // the session invariant, piece by piece
            assert forall|dj: int| 0 <= dj < es.dylibs@.len() implies es.dylib_wf(dj) by {
                assert(old(es).dylib_wf(dj));
                if dj == di {
                    assert forall|k: int|
                        0 <= k < es.dylibs@[dj].entries@.len() implies es.entry_state_ok(
                        dj,
                        #[trigger] es.dylibs@[dj].entries@[k],
                    ) by {
                        let en = es.dylibs@[dj].entries@[k];
                        assert(es2.entry_state_ok(dj, en));
                        match en.state {
                            DefState::Claimed { unit } => {
                                assert(unit < es2.units@.len() && es2.units@[unit as int].dylib
                                    == dj);
                            },
                            DefState::Materializing { resp } => {
                                assert(es2.resp_owns(dj, resp, en.name.id));
                            },
                            DefState::Resolved { resp, symbol } => {
                                assert(es2.resp_owns(dj, resp, en.name.id));
                            },
                            _ => {},
                        }
                    }
                } else {
                    assert(es.dylibs@[dj] == old(es).dylibs@[dj]);
                    assert forall|k: int|
                        0 <= k < es.dylibs@[dj].entries@.len() implies es.entry_state_ok(
                        dj,
                        #[trigger] es.dylibs@[dj].entries@[k],
                    ) by {
                        let en = es.dylibs@[dj].entries@[k];
                        assert(old(es).entry_state_ok(dj, en));
                        match en.state {
                            DefState::Claimed { unit } => {
                                assert(unit < old(es).units@.len());
                                assert(es.units@[unit as int] == old(es).units@[unit as int]);
                            },
                            DefState::Materializing { resp } => {
                                assert(old(es).resp_owns(dj, resp, en.name.id));
                            },
                            DefState::Resolved { resp, symbol } => {
                                assert(old(es).resp_owns(dj, resp, en.name.id));
                            },
                            _ => {},
                        }
                    }
                }
            }
            assert forall|i: int|
                0 <= i < es.deps@.len() implies (#[trigger] es.deps@[i]).src.dylib
                    < es.dylibs@.len() && es.deps@[i].dst.dylib < es.dylibs@.len() by {
                assert(es2.deps@.contains(es.deps@[i]));
                let j = choose|j: int| 0 <= j < es2.deps@.len() && es2.deps@[j] == es.deps@[i];
                assert(old(es).deps@[j] == es.deps@[i]);
            }
            assert(acyclic(es.deps@)) by {
                assert forall|a: SymRef, b: SymRef| #[trigger] edge_in(es.deps@, a, b) implies
                    edge_in(old(es).deps@, a, b) by {}
                lemma_acyclic_narrow(es.deps@, old(es).deps@);
            }
            assert forall|i: int| 0 <= i < es.deps@.len() implies !(es.sym_failed(
                (#[trigger] es.deps@[i]).dst,
            ) && es.sym_unemitted(es.deps@[i].src)) by {
                let e = es.deps@[i];
                assert(es2.deps@.contains(e));
                let j = choose|j: int| 0 <= j < es2.deps@.len() && es2.deps@[j] == e;
                assert(old(es).deps@[j] == e);
                assert(!(old(es).sym_failed(e.dst) && old(es).sym_unemitted(e.src)));
                assert(!(e.src.dylib == di && ids@.contains(e.src.sym)));
                assert(es.sym_unemitted(e.src) == old(es).sym_unemitted(e.src)) by {
                    if e.src.dylib == di {
                        assert(!decl_contains(u0, e.src.sym));
                        assert(es.def_at(e.src.dylib as int, e.src.sym) == old(es).def_at(
                            e.src.dylib as int,
                            e.src.sym,
                        ));
                    } else {
                        assert(es.dylibs@[e.src.dylib as int] == old(es).dylibs@[e.src.dylib as
                            int]);
                    }
                }
                if e.dst.dylib == di && decl_contains(u0, e.dst.sym) {
                    let k = choose|k: int|
                        0 <= k < decl_pairs(u0).len() && decl_pairs(u0)[k].name.id == e.dst.sym;
                    assert(es.def_at(di as int, decl_pairs(u0)[k].name.id) == Some(
                        decl_entry(u0, uidx, dt, k),
                    ));
                    assert(!(decl_entry(u0, uidx, dt, k).state is Failed));
                    assert(!es.sym_failed(e.dst));
                } else {
                    assert(es.sym_failed(e.dst) == old(es).sym_failed(e.dst)) by {
                        if e.dst.dylib == di {
                            assert(es.def_at(e.dst.dylib as int, e.dst.sym) == old(es).def_at(
                                e.dst.dylib as int,
                                e.dst.sym,
                            ));
                        } else {
                            assert(es.dylibs@[e.dst.dylib as int] == old(es).dylibs@[e.dst.dylib as
                                int]);
                        }
                    }
                }
            }
            assert(es.wf());
        }
        Ok(())
    }
}

} // verus!
