use orc2::{ExecutionSession, LookupResult, SymbolStringPool};

#[test]
fn interning_is_idempotent_on_content() {
    let mut es = ExecutionSession::new();
    let first = es.intern("main");
    let second = es.intern("main");
    assert_eq!(first, second);
    assert_eq!(es.pool.get_string(&first), "main");
    assert_eq!(es.pool.get_string(&second), "main");
}

#[test]
fn distinct_texts_get_distinct_handles() {
    let mut es = ExecutionSession::new();
    let a = es.intern("alpha");
    let b = es.intern("beta");
    assert_ne!(a, b);
    assert_eq!(es.pool.get_string(&a), "alpha");
    assert_eq!(es.pool.get_string(&b), "beta");
}

#[test]
fn released_names_are_reallocated_fresh() {
    let mut pool = SymbolStringPool::new();
    let first = pool.intern("gone");
    pool.release(first);
    // the entry's count reached zero; a new interning allocates a new entry
    let second = pool.intern("gone");
    assert_ne!(first, second);
    assert_eq!(pool.get_string(&second), "gone");
}

#[test]
fn retain_and_release_balance() {
    let mut pool = SymbolStringPool::new();
    let name = pool.intern("kept");
    pool.retain(&name);
    pool.release(name);
    // one reference remains; the entry is still live
    assert_eq!(pool.get_string(&name), "kept");
    pool.release(name);
}

#[test]
fn namespaces_are_found_by_name() {
    let mut es = ExecutionSession::new();
    let jd = es.create_jit_dylib("main_jd").unwrap();
    assert!(es.get_jit_dylib_by_name("main_jd") == Some(jd));
    assert!(es.get_jit_dylib_by_name("absent_jd").is_none());
    let err = es.create_jit_dylib("main_jd").unwrap_err();
    assert_eq!(err, orc2::OrcError::DuplicateNamespace);
    let bare = es.create_bare_jit_dylib("bare_jd");
    assert!(es.get_jit_dylib_by_name("bare_jd") == Some(bare));
}

#[test]
fn lookup_of_an_absent_name_is_not_an_error() {
    let mut es = ExecutionSession::new();
    let jd = es.create_jit_dylib("main_jd").unwrap();
    let ghostly = es.intern("never_defined");
    assert_eq!(es.lookup(jd, &ghostly), LookupResult::NotFound);
}
