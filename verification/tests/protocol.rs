use orc2::{
    DependenceMapPair, DependenceMapPairs, EvaluatedSymbol, ExecutionSession, LookupResult,
    Materializer, MaterializationUnit, ObjectLayer, OrcError, SymbolFlags, SymbolFlagsMapPair,
    SymbolFlagsMapPairs, SymbolMapPair, SymbolMapPairs,
};

fn flags0() -> SymbolFlags {
    SymbolFlags::new(0, 0)
}

fn esym(address: u64) -> EvaluatedSymbol {
    EvaluatedSymbol::new(address, flags0())
}

#[test]
fn defined_symbols_are_pending_immediately() {
    let mut es = ExecutionSession::new();
    let jd = es.create_jit_dylib("main_jd").unwrap();
    let main = es.intern("main");
    let unit = MaterializationUnit::create(
        "unit_a",
        SymbolFlagsMapPairs::new(vec![SymbolFlagsMapPair::new(main, flags0())]),
        None,
    );
    jd.define(&mut es, unit).unwrap();
    assert_eq!(es.lookup(jd, &main), LookupResult::Pending);
}

#[test]
fn emission_requires_every_symbol_resolved() {
    let mut es = ExecutionSession::new();
    let jd = es.create_jit_dylib("main_jd").unwrap();
    let a = es.intern("a");
    let b = es.intern("b");
    let unit = MaterializationUnit::create(
        "unit_ab",
        SymbolFlagsMapPairs::new(vec![
            SymbolFlagsMapPair::new(a, flags0()),
            SymbolFlagsMapPair::new(b, flags0()),
        ]),
        None,
    );
    jd.define(&mut es, unit).unwrap();
    let mr = es.start_materialization(jd, &a).unwrap();
    mr.notify_resolved(
        &mut es,
        SymbolMapPairs::new(vec![SymbolMapPair::new(a, esym(0x1000))]),
    )
    .unwrap();
    // one symbol still pending: emission fails and the token comes back
    let (mr, err) = mr.notify_emitted(&mut es).unwrap_err();
    assert_eq!(err, OrcError::PrematureEmission);
    // the responsibility is still usable: finish and emit
    mr.notify_resolved(
        &mut es,
        SymbolMapPairs::new(vec![SymbolMapPair::new(b, esym(0x2000))]),
    )
    .unwrap();
    assert!(mr.notify_emitted(&mut es).is_ok());
    match es.lookup(jd, &a) {
        LookupResult::Emitted { symbol } => assert_eq!(symbol.get_address(), 0x1000),
        other => panic!("lookup of a after emission gave {:?}", other),
    }
    match es.lookup(jd, &b) {
        LookupResult::Emitted { symbol } => assert_eq!(symbol.get_address(), 0x2000),
        other => panic!("lookup of b after emission gave {:?}", other),
    }
}

#[test]
fn failed_symbols_answer_lookups_with_failure() {
    let mut es = ExecutionSession::new();
    let jd = es.create_jit_dylib("main_jd").unwrap();
    let a = es.intern("a");
    let unit = MaterializationUnit::create(
        "unit_a",
        SymbolFlagsMapPairs::new(vec![SymbolFlagsMapPair::new(a, flags0())]),
        None,
    );
    jd.define(&mut es, unit).unwrap();
    let mr = es.start_materialization(jd, &a).unwrap();
    mr.fail_materialization(&mut es);
    assert_eq!(es.lookup(jd, &a), LookupResult::Failed);
}

#[test]
fn failing_a_dependency_fails_the_dependent() {
    let mut es = ExecutionSession::new();
    let jd = es.create_jit_dylib("main_jd").unwrap();
    let x = es.intern("x");
    let y = es.intern("y");
    let unit_x = MaterializationUnit::create(
        "unit_x",
        SymbolFlagsMapPairs::new(vec![SymbolFlagsMapPair::new(x, flags0())]),
        None,
    );
    let unit_y = MaterializationUnit::create(
        "unit_y",
        SymbolFlagsMapPairs::new(vec![SymbolFlagsMapPair::new(y, flags0())]),
        None,
    );
    jd.define(&mut es, unit_x).unwrap();
    jd.define(&mut es, unit_y).unwrap();
    let mr_x = es.start_materialization(jd, &x).unwrap();
    let mr_y = es.start_materialization(jd, &y).unwrap();
    // x depends on y, and x is otherwise ready to emit
    mr_x.add_dependencies(
        &mut es,
        x,
        DependenceMapPairs::new(vec![DependenceMapPair::new(jd, vec![y])]),
    )
    .unwrap();
    mr_x.notify_resolved(
        &mut es,
        SymbolMapPairs::new(vec![SymbolMapPair::new(x, esym(0x1000))]),
    )
    .unwrap();
    // failing y must also fail x before any lookup on x can succeed
    mr_y.fail_materialization(&mut es);
    assert_eq!(es.lookup(jd, &x), LookupResult::Failed);
    assert_eq!(es.lookup(jd, &y), LookupResult::Failed);
    // the dependent responsibility can no longer emit
    let (mr_x, err) = mr_x.notify_emitted(&mut es).unwrap_err();
    assert_eq!(err, OrcError::PrematureEmission);
    mr_x.fail_materialization(&mut es);
}

#[test]
fn delegation_moves_ownership_without_duplicating_it() {
    let mut es = ExecutionSession::new();
    let jd = es.create_jit_dylib("main_jd").unwrap();
    let x = es.intern("x");
    let y = es.intern("y");
    let unit = MaterializationUnit::create(
        "unit_xy",
        SymbolFlagsMapPairs::new(vec![
            SymbolFlagsMapPair::new(x, flags0()),
            SymbolFlagsMapPair::new(y, flags0()),
        ]),
        None,
    );
    jd.define(&mut es, unit).unwrap();
    let mr = es.start_materialization(jd, &x).unwrap();
    let mr2 = mr.delegate(&mut es, vec![x]).unwrap();
    // the original responsibility rejects any further resolution of x
    let err = mr
        .notify_resolved(
            &mut es,
            SymbolMapPairs::new(vec![SymbolMapPair::new(x, esym(0x1000))]),
        )
        .unwrap_err();
    assert_eq!(err, OrcError::UnknownSymbol);
    // the delegate owns x now
    mr2.notify_resolved(
        &mut es,
        SymbolMapPairs::new(vec![SymbolMapPair::new(x, esym(0x1000))]),
    )
    .unwrap();
    assert!(mr2.notify_emitted(&mut es).is_ok());
    match es.lookup(jd, &x) {
        LookupResult::Emitted { symbol } => assert_eq!(symbol.get_address(), 0x1000),
        other => panic!("lookup of x gave {:?}", other),
    }
    mr.fail_materialization(&mut es);
}

#[test]
fn requested_symbols_and_replace_scenario() {
    let mut es = ExecutionSession::new();
    let jd = es.create_jit_dylib("main_jd").unwrap();
    let main = es.intern("main");
    let helper = es.intern("helper");
    let unit = MaterializationUnit::create(
        "unit_main_helper",
        SymbolFlagsMapPairs::new(vec![
            SymbolFlagsMapPair::new(main, flags0()),
            SymbolFlagsMapPair::new(helper, flags0()),
        ]),
        None,
    );
    jd.define(&mut es, unit).unwrap();
    // only "main" is looked up
    assert_eq!(es.lookup(jd, &main), LookupResult::Pending);
    let mr = es.start_materialization(jd, &main).unwrap();
    let requested = mr.get_requested_symbols(&es);
    assert_eq!(requested.len(), 1);
    assert!(requested.get(0) == main);
    // hand "helper" to a new unit
    let new_unit = MaterializationUnit::create(
        "unit_helper",
        SymbolFlagsMapPairs::new(vec![SymbolFlagsMapPair::new(helper, flags0())]),
        None,
    );
    mr.replace(&mut es, new_unit).unwrap();
    // post-replace, the original responsibility errors on anything touching helper
    let err = mr
        .notify_resolved(
            &mut es,
            SymbolMapPairs::new(vec![SymbolMapPair::new(helper, esym(0x3000))]),
        )
        .unwrap_err();
    assert_eq!(err, OrcError::UnknownSymbol);
    let err = mr.delegate(&mut es, vec![helper]).unwrap_err();
    assert_eq!(err, OrcError::UnknownSymbol);
    // main still materializes normally
    mr.notify_resolved(
        &mut es,
        SymbolMapPairs::new(vec![SymbolMapPair::new(main, esym(0x4000))]),
    )
    .unwrap();
    assert!(mr.notify_emitted(&mut es).is_ok());
}

#[test]
fn dependency_cycles_are_rejected_when_recorded() {
    let mut es = ExecutionSession::new();
    let jd = es.create_jit_dylib("main_jd").unwrap();
    let x = es.intern("x");
    let y = es.intern("y");
    let unit = MaterializationUnit::create(
        "unit_xy",
        SymbolFlagsMapPairs::new(vec![
            SymbolFlagsMapPair::new(x, flags0()),
            SymbolFlagsMapPair::new(y, flags0()),
        ]),
        None,
    );
    jd.define(&mut es, unit).unwrap();
    let mr = es.start_materialization(jd, &x).unwrap();
    mr.add_dependencies(
        &mut es,
        x,
        DependenceMapPairs::new(vec![DependenceMapPair::new(jd, vec![y])]),
    )
    .unwrap();
    let err = mr
        .add_dependencies(
            &mut es,
            y,
            DependenceMapPairs::new(vec![DependenceMapPair::new(jd, vec![x])]),
        )
        .unwrap_err();
    assert_eq!(err, OrcError::DependencyCycle);
    mr.fail_materialization(&mut es);
}

#[test]
fn define_materializing_claims_extra_symbols() {
    let mut es = ExecutionSession::new();
    let jd = es.create_jit_dylib("main_jd").unwrap();
    let a = es.intern("a");
    let extra = es.intern("extra");
    let unit = MaterializationUnit::create(
        "unit_a",
        SymbolFlagsMapPairs::new(vec![SymbolFlagsMapPair::new(a, flags0())]),
        None,
    );
    jd.define(&mut es, unit).unwrap();
    let mr = es.start_materialization(jd, &a).unwrap();
    mr.define_materializing(
        &mut es,
        SymbolFlagsMapPairs::new(vec![SymbolFlagsMapPair::new(extra, flags0())]),
    )
    .unwrap();
    mr.notify_resolved(
        &mut es,
        SymbolMapPairs::new(vec![
            SymbolMapPair::new(a, esym(0x1000)),
            SymbolMapPair::new(extra, esym(0x1008)),
        ]),
    )
    .unwrap();
    assert!(mr.notify_emitted(&mut es).is_ok());
    match es.lookup(jd, &extra) {
        LookupResult::Emitted { symbol } => assert_eq!(symbol.get_address(), 0x1008),
        other => panic!("lookup of extra gave {:?}", other),
    }
}

#[test]
fn absolute_symbols_are_emitted_at_once() {
    let mut es = ExecutionSession::new();
    let jd = es.create_jit_dylib("main_jd").unwrap();
    let a = es.intern("a");
    let unit = MaterializationUnit::from_absolute_symbols(SymbolMapPairs::new(vec![
        SymbolMapPair::new(a, esym(0xdead)),
    ]));
    jd.define(&mut es, unit).unwrap();
    match es.lookup(jd, &a) {
        LookupResult::Emitted { symbol } => assert_eq!(symbol.get_address(), 0xdead),
        other => panic!("lookup of an absolute symbol gave {:?}", other),
    }
}

#[test]
fn object_layer_emits_an_artifact() {
    let mut es = ExecutionSession::new();
    let jd = es.create_jit_dylib("main_jd").unwrap();
    let a = es.intern("a");
    let unit = MaterializationUnit::create(
        "unit_a",
        SymbolFlagsMapPairs::new(vec![SymbolFlagsMapPair::new(a, flags0())]),
        None,
    );
    jd.define(&mut es, unit).unwrap();
    let mr = es.start_materialization(jd, &a).unwrap();
    let layer = ObjectLayer::new();
    layer
        .emit(
            &mut es,
            mr,
            SymbolMapPairs::new(vec![SymbolMapPair::new(a, esym(0x7000))]),
        )
        .unwrap();
    match es.lookup(jd, &a) {
        LookupResult::Emitted { symbol } => assert_eq!(symbol.get_address(), 0x7000),
        other => panic!("lookup after object-layer emission gave {:?}", other),
    }
}

#[test]
fn resolving_a_foreign_name_is_an_error() {
    let mut es = ExecutionSession::new();
    let jd = es.create_jit_dylib("main_jd").unwrap();
    let a = es.intern("a");
    let other = es.intern("other");
    let unit = MaterializationUnit::create(
        "unit_a",
        SymbolFlagsMapPairs::new(vec![SymbolFlagsMapPair::new(a, flags0())]),
        None,
    );
    jd.define(&mut es, unit).unwrap();
    let mr = es.start_materialization(jd, &a).unwrap();
    let err = mr
        .notify_resolved(
            &mut es,
            SymbolMapPairs::new(vec![SymbolMapPair::new(other, esym(1))]),
        )
        .unwrap_err();
    assert_eq!(err, OrcError::UnknownSymbol);
    mr.fail_materialization(&mut es);
}

#[test]
fn duplicate_definition_is_refused_without_mutation() {
    let mut es = ExecutionSession::new();
    let jd = es.create_jit_dylib("main_jd").unwrap();
    let a = es.intern("a");
    let unit = MaterializationUnit::create(
        "unit_a",
        SymbolFlagsMapPairs::new(vec![SymbolFlagsMapPair::new(a, flags0())]),
        None,
    );
    jd.define(&mut es, unit).unwrap();
    let unit2 = MaterializationUnit::create(
        "unit_a_again",
        SymbolFlagsMapPairs::new(vec![SymbolFlagsMapPair::new(a, flags0())]),
        None,
    );
    let err = jd.define(&mut es, unit2).unwrap_err();
    assert_eq!(err, OrcError::DuplicateDefinition);
    assert_eq!(es.lookup(jd, &a), LookupResult::Pending);
}

#[test]
fn a_failed_name_can_be_defined_afresh() {
    let mut es = ExecutionSession::new();
    let jd = es.create_jit_dylib("main_jd").unwrap();
    let a = es.intern("a");
    let unit = MaterializationUnit::create(
        "unit_a",
        SymbolFlagsMapPairs::new(vec![SymbolFlagsMapPair::new(a, flags0())]),
        None,
    );
    jd.define(&mut es, unit).unwrap();
    let mr = es.start_materialization(jd, &a).unwrap();
    mr.fail_materialization(&mut es);
    assert_eq!(es.lookup(jd, &a), LookupResult::Failed);
    let unit2 = MaterializationUnit::create(
        "unit_a_fresh",
        SymbolFlagsMapPairs::new(vec![SymbolFlagsMapPair::new(a, flags0())]),
        None,
    );
    jd.define(&mut es, unit2).unwrap();
    assert_eq!(es.lookup(jd, &a), LookupResult::Pending);
}

struct AbsolutizingMaterializer {
    address: u64,
}

impl Materializer for AbsolutizingMaterializer {
    fn materialize(
        &mut self,
        session: &mut ExecutionSession,
        responsibility: orc2::MaterializationResponsibility,
    ) {
        let symbols = responsibility.get_symbols(session);
        let mut resolved = Vec::new();
        let mut addr = self.address;
        let mut i = 0;
        while i < symbols.len() {
            resolved.push(SymbolMapPair::new(*symbols.get(i).get_name(), esym(addr)));
            addr += 8;
            i += 1;
        }
        responsibility
            .notify_resolved(session, SymbolMapPairs::new(resolved))
            .unwrap();
        responsibility.notify_emitted(session).unwrap();
    }

    fn discard(&mut self, _jit_dylib: &orc2::JITDylib, _symbol: &orc2::SymbolStringPoolEntry) {}
}

#[test]
fn a_materializer_drives_the_protocol_to_emission() {
    let mut es = ExecutionSession::new();
    let jd = es.create_jit_dylib("main_jd").unwrap();
    let main = es.intern("main");
    let unit = MaterializationUnit::create(
        "unit_main",
        SymbolFlagsMapPairs::new(vec![SymbolFlagsMapPair::new(main, flags0())]),
        None,
    );
    jd.define(&mut es, unit).unwrap();
    // the dispatcher: a lookup finds the symbol pending, so it hands a fresh
    // responsibility to the unit's materializer
    assert_eq!(es.lookup(jd, &main), LookupResult::Pending);
    let mr = es.start_materialization(jd, &main).unwrap();
    let mut materializer = AbsolutizingMaterializer { address: 0x9000 };
    materializer.materialize(&mut es, mr);
    match es.lookup(jd, &main) {
        LookupResult::Emitted { symbol } => assert_eq!(symbol.get_address(), 0x9000),
        other => panic!("lookup after materialization gave {:?}", other),
    }
}

#[test]
fn failure_propagates_across_namespaces() {
    let mut es = ExecutionSession::new();
    let jd_a = es.create_jit_dylib("jd_a").unwrap();
    let jd_b = es.create_jit_dylib("jd_b").unwrap();
    let x = es.intern("x");
    let y = es.intern("y");
    let unit_x = MaterializationUnit::create(
        "unit_x",
        SymbolFlagsMapPairs::new(vec![SymbolFlagsMapPair::new(x, flags0())]),
        None,
    );
    let unit_y = MaterializationUnit::create(
        "unit_y",
        SymbolFlagsMapPairs::new(vec![SymbolFlagsMapPair::new(y, flags0())]),
        None,
    );
    jd_a.define(&mut es, unit_x).unwrap();
    jd_b.define(&mut es, unit_y).unwrap();
    let mr_x = es.start_materialization(jd_a, &x).unwrap();
    let mr_y = es.start_materialization(jd_b, &y).unwrap();
    mr_x.add_dependencies(
        &mut es,
        x,
        DependenceMapPairs::new(vec![DependenceMapPair::new(jd_b, vec![y])]),
    )
    .unwrap();
    mr_y.fail_materialization(&mut es);
    assert_eq!(es.lookup(jd_a, &x), LookupResult::Failed);
    let (mr_x, err) = mr_x.notify_emitted(&mut es).unwrap_err();
    assert_eq!(err, OrcError::PrematureEmission);
    mr_x.fail_materialization(&mut es);
}

#[test]
fn reclaiming_a_retracted_name_never_duplicates_the_listing() {
    let mut es = ExecutionSession::new();
    let jd = es.create_jit_dylib("main_jd").unwrap();
    let a = es.intern("a");
    let b = es.intern("b");
    let unit = MaterializationUnit::create(
        "unit_ab",
        SymbolFlagsMapPairs::new(vec![
            SymbolFlagsMapPair::new(a, flags0()),
            SymbolFlagsMapPair::new(b, flags0()),
        ]),
        None,
    );
    jd.define(&mut es, unit).unwrap();
    let mr = es.start_materialization(jd, &a).unwrap();
    // retract both definitions; the responsibility's listing goes stale
    let rt = jd.create_resource_tracker(&mut es);
    let default = jd.get_default_resource_tracker(&es);
    default.transfer_to(&mut es, &rt);
    rt.remove(&mut es).unwrap();
    assert_eq!(es.lookup(jd, &a), LookupResult::NotFound);
    // reclaim one retracted name under the same responsibility: the stale
    // listing is superseded, never duplicated
    mr.define_materializing(
        &mut es,
        SymbolFlagsMapPairs::new(vec![SymbolFlagsMapPair::new(a, flags0())]),
    )
    .unwrap();
    let listed = mr.get_symbols(&es);
    let mut count_a = 0;
    let mut i = 0;
    while i < listed.len() {
        if *listed.get(i).get_name() == a {
            count_a += 1;
        }
        i += 1;
    }
    assert_eq!(count_a, 1);
    // the requested set is duplicate-free as well
    assert_eq!(es.lookup(jd, &a), LookupResult::Pending);
    let requested = mr.get_requested_symbols(&es);
    assert_eq!(requested.len(), 1);
    assert!(requested.get(0) == a);
    mr.fail_materialization(&mut es);
}

#[test]
fn dependencies_on_missing_targets_are_unknown_symbol() {
    let mut es = ExecutionSession::new();
    let jd = es.create_jit_dylib("main_jd").unwrap();
    let a = es.intern("a");
    let ghostly = es.intern("never_defined");
    let unit = MaterializationUnit::create(
        "unit_a",
        SymbolFlagsMapPairs::new(vec![SymbolFlagsMapPair::new(a, flags0())]),
        None,
    );
    jd.define(&mut es, unit).unwrap();
    let mr = es.start_materialization(jd, &a).unwrap();
    let err = mr
        .add_dependencies(
            &mut es,
            a,
            DependenceMapPairs::new(vec![DependenceMapPair::new(jd, vec![ghostly])]),
        )
        .unwrap_err();
    assert_eq!(err, OrcError::UnknownSymbol);
    mr.fail_materialization(&mut es);
}
