use orc2::{
    EvaluatedSymbol, ExecutionSession, LookupResult, MaterializationUnit, OrcError, SymbolFlags,
    SymbolFlagsMapPair, SymbolFlagsMapPairs, SymbolMapPair, SymbolMapPairs,
};

fn flags0() -> SymbolFlags {
    SymbolFlags::new(0, 0)
}

fn esym(address: u64) -> EvaluatedSymbol {
    EvaluatedSymbol::new(address, flags0())
}

#[test]
fn tracker_removal_is_all_or_nothing() {
    let mut es = ExecutionSession::new();
    let jd = es.create_jit_dylib("main_jd").unwrap();
    let a = es.intern("a");
    let b = es.intern("b");
    let unit = MaterializationUnit::create(
        "unit_ab",
        SymbolFlagsMapPairs::new(vec![
            SymbolFlagsMapPair::new(a, flags0()),
            SymbolFlagsMapPair::new(b, flags0()),
        ]),
        None,
    );
    jd.define(&mut es, unit).unwrap();
    // move both definitions under one explicitly created tracker
    let rt = jd.create_resource_tracker(&mut es);
    let default = jd.get_default_resource_tracker(&es);
    default.transfer_to(&mut es, &rt);
    // resolve only a
    let mr = es.start_materialization(jd, &a).unwrap();
    mr.notify_resolved(
        &mut es,
        SymbolMapPairs::new(vec![SymbolMapPair::new(a, esym(0x1000))]),
    )
    .unwrap();
    rt.remove(&mut es).unwrap();
    // both a and b are gone, and no dangling pending state remains
    assert_eq!(es.lookup(jd, &a), LookupResult::NotFound);
    assert_eq!(es.lookup(jd, &b), LookupResult::NotFound);
    let err = mr
        .notify_resolved(
            &mut es,
            SymbolMapPairs::new(vec![SymbolMapPair::new(b, esym(0x2000))]),
        )
        .unwrap_err();
    assert_eq!(err, OrcError::UnknownSymbol);
    mr.fail_materialization(&mut es);
}

#[test]
fn transfer_preserves_definition_states() {
    let mut es = ExecutionSession::new();
    let jd = es.create_jit_dylib("main_jd").unwrap();
    let a = es.intern("a");
    let unit = MaterializationUnit::from_absolute_symbols(SymbolMapPairs::new(vec![
        SymbolMapPair::new(a, esym(0x5000)),
    ]));
    jd.define(&mut es, unit).unwrap();
    let rt = jd.create_resource_tracker(&mut es);
    let default = jd.get_default_resource_tracker(&es);
    default.transfer_to(&mut es, &rt);
    // still emitted after the transfer
    match es.lookup(jd, &a) {
        LookupResult::Emitted { symbol } => assert_eq!(symbol.get_address(), 0x5000),
        other => panic!("lookup after transfer gave {:?}", other),
    }
    // removing the receiving tracker retracts the definition
    rt.remove(&mut es).unwrap();
    assert_eq!(es.lookup(jd, &a), LookupResult::NotFound);
}

#[test]
fn releasing_a_tracker_folds_back_into_the_default() {
    let mut es = ExecutionSession::new();
    let jd = es.create_jit_dylib("main_jd").unwrap();
    let a = es.intern("a");
    let unit = MaterializationUnit::from_absolute_symbols(SymbolMapPairs::new(vec![
        SymbolMapPair::new(a, esym(0x6000)),
    ]));
    jd.define(&mut es, unit).unwrap();
    let rt = jd.create_resource_tracker(&mut es);
    let default = jd.get_default_resource_tracker(&es);
    default.transfer_to(&mut es, &rt);
    rt.release(&mut es);
    // the definition survived, back under the default tracker
    match es.lookup(jd, &a) {
        LookupResult::Emitted { symbol } => assert_eq!(symbol.get_address(), 0x6000),
        other => panic!("lookup after release gave {:?}", other),
    }
    let default = jd.get_default_resource_tracker(&es);
    default.remove(&mut es).unwrap();
    assert_eq!(es.lookup(jd, &a), LookupResult::NotFound);
}

#[test]
fn clear_retracts_everything_and_fails_pending_work() {
    let mut es = ExecutionSession::new();
    let jd = es.create_jit_dylib("main_jd").unwrap();
    let a = es.intern("a");
    let b = es.intern("b");
    let unit_a = MaterializationUnit::create(
        "unit_a",
        SymbolFlagsMapPairs::new(vec![SymbolFlagsMapPair::new(a, flags0())]),
        None,
    );
    let unit_b = MaterializationUnit::from_absolute_symbols(SymbolMapPairs::new(vec![
        SymbolMapPair::new(b, esym(0x8000)),
    ]));
    jd.define(&mut es, unit_a).unwrap();
    jd.define(&mut es, unit_b).unwrap();
    let mr = es.start_materialization(jd, &a).unwrap();
    jd.clear(&mut es).unwrap();
    assert_eq!(es.lookup(jd, &a), LookupResult::NotFound);
    assert_eq!(es.lookup(jd, &b), LookupResult::NotFound);
    let err = mr
        .notify_resolved(
            &mut es,
            SymbolMapPairs::new(vec![SymbolMapPair::new(a, esym(1))]),
        )
        .unwrap_err();
    assert_eq!(err, OrcError::UnknownSymbol);
    mr.fail_materialization(&mut es);
}
