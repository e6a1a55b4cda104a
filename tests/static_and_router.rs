use asset_store::{
    from_directory, AnyError, AnyStore, AssetStore, IoError, MultiStore, MultiStoreError, Source,
    StaticStore, StaticStoreError,
};
use resources_package_package::Package;

static README: Package = Package { data: &[(b"readme.md", b"hello"), (b"docs/a.txt", b"A")] };
static OTHER: Package = Package { data: &[(b"x", b"from b"), (b"y", b"why")] };
static BAD_KEY: Package = Package { data: &[(b"ok", b"1"), (b"\xff", b"2")] };
static FIRST: Package = Package { data: &[(b"x", b"from a")] };

fn identity(bytes: &[u8]) -> Vec<u8> {
    bytes.to_vec()
}

fn describe(e: StaticStoreError) -> String {
    match e {
        StaticStoreError::NotFound(k) => format!("missing {}", k),
    }
}

#[test]
fn static_store_answers_without_load() {
    let store = StaticStore::new(&README);
    assert_eq!(store.map_resource("readme.md", identity), Ok(Some(b"hello".to_vec())));
    assert_eq!(
        store.map_resource("missing.md", identity),
        Err(StaticStoreError::NotFound("missing.md".to_string()))
    );
    assert_eq!(store.map_resource("docs/a.txt", identity), Ok(Some(b"A".to_vec())));
}

#[test]
fn static_store_is_always_resolved() {
    let mut store = StaticStore::new(&README);
    store.load("readme.md");
    assert_eq!(store.is_loaded("readme.md"), Ok(true));
    store.unload("readme.md");
    assert_eq!(store.is_loaded("readme.md"), Ok(true));
    store.unload_everything();
    assert_eq!(store.map_resource_block("readme.md", identity), Ok(b"hello".to_vec()));
    assert_eq!(
        store.is_loaded("nope"),
        Err(StaticStoreError::NotFound("nope".to_string()))
    );
    assert_eq!(
        store.map_resource_block("nope", identity),
        Err(StaticStoreError::NotFound("nope".to_string()))
    );
    assert_eq!(
        store.all_loaded(&["readme.md", "nope"]),
        Err(vec![("nope", StaticStoreError::NotFound("nope".to_string()))])
    );
    assert_eq!(store.all_loaded(&["readme.md", "docs/a.txt"]), Ok(true));
}

fn router() -> MultiStore<StaticStore, fn(StaticStoreError) -> String> {
    let mut combo = MultiStore::new();
    combo.add("a", StaticStore::new(&FIRST), describe as fn(StaticStoreError) -> String);
    combo.add("b", StaticStore::new(&OTHER), describe as fn(StaticStoreError) -> String);
    combo
}

#[test]
fn router_dispatches_by_prefix() {
    let combo = router();
    assert_eq!(combo.map_resource("a:x", identity), Ok(Some(b"from a".to_vec())));
    assert_eq!(combo.map_resource("b:x", identity), Ok(Some(b"from b".to_vec())));
    assert_eq!(combo.map_resource("x", identity), Err(MultiStoreError::NoSplit));
    assert_eq!(
        combo.map_resource("c:x", identity),
        Err(MultiStoreError::StoreNotFound("c".to_string()))
    );
    assert_eq!(
        combo.map_resource("a:y", identity),
        Err(MultiStoreError::WrappedError("missing y".to_string()))
    );
}

#[test]
fn router_splits_at_first_separator() {
    let mut combo = MultiStore::new();
    combo.add("a", StaticStore::new(&README), describe as fn(StaticStoreError) -> String);
    assert_eq!(
        combo.map_resource("a:b:c", identity),
        Err(MultiStoreError::WrappedError("missing b:c".to_string()))
    );
    assert_eq!(combo.is_loaded("a:readme.md"), Ok(true));
    assert_eq!(
        combo.is_loaded(":readme.md"),
        Err(MultiStoreError::StoreNotFound("".to_string()))
    );
}

#[test]
fn router_add_replaces_prefix() {
    let mut combo = router();
    combo.add("a", StaticStore::new(&OTHER), describe as fn(StaticStoreError) -> String);
    assert_eq!(combo.map_resource("a:y", identity), Ok(Some(b"why".to_vec())));
}

#[test]
fn router_all_loaded_merges_failures() {
    let mut combo = router();
    combo.load("a:x");
    combo.load("nowhere");
    combo.unload("b:y");
    combo.unload_everything();
    assert_eq!(combo.all_loaded(&["a:x", "b:y"]), Ok(true));
    assert_eq!(
        combo.all_loaded(&["a:x", "q", "z:1", "b:zz"]),
        Err(vec![
            ("q", MultiStoreError::NoSplit),
            ("z:1", MultiStoreError::StoreNotFound("z".to_string())),
            ("b:zz", MultiStoreError::WrappedError("missing zz".to_string())),
        ])
    );
}

#[test]
fn static_store_checks_its_keys() {
    assert!(StaticStore::checked(&README).is_some());
    assert!(StaticStore::checked(&BAD_KEY).is_none());
}

fn to_text(e: AnyError) -> String {
    match e {
        AnyError::Io(IoError::NotFound(k)) => format!("no file {}", k),
        AnyError::Static(StaticStoreError::NotFound(k)) => format!("no entry {}", k),
        other => format!("{:?}", other),
    }
}

fn mixed() -> MultiStore<AnyStore, fn(AnyError) -> String> {
    let mut combo = MultiStore::new();
    combo.add("file", AnyStore::Files(from_directory("./src/")), to_text as fn(AnyError) -> String);
    combo.add("docs", AnyStore::Static(StaticStore::new(&README)), to_text as fn(AnyError) -> String);
    combo
}

#[test]
fn router_runs_jobs_of_file_stores() {
    let mut combo = mixed();
    combo.load("file:lib.rs");
    assert_eq!(combo.map_resource("file:lib.rs", identity), Ok(None));
    let rj = combo.next_job().unwrap();
    assert_eq!(rj.prefix, "file");
    assert_eq!(rj.job.key, "lib.rs");
    assert_eq!(rj.job.location, "./src/lib.rs");
    assert!(matches!(rj.source, Source::Disk));
    combo.complete(rj, Ok(b"lib".to_vec()));
    assert!(combo.next_job().is_none());
    assert_eq!(combo.map_resource("file:lib.rs", identity), Ok(Some(b"lib".to_vec())));
    assert_eq!(combo.with_bytes("file:lib.rs", |_| ()), Ok(Some(())));
    combo.load("file:foo.rs");
    assert_eq!(
        combo.is_loaded("file:foo.rs"),
        Err(MultiStoreError::WrappedError("no file foo.rs".to_string()))
    );
    combo.unload("file:lib.rs");
    assert_eq!(combo.is_loaded("file:lib.rs"), Ok(false));
}

#[test]
fn router_blocks_on_static_stores() {
    let mut combo = mixed();
    assert_eq!(combo.map_resource_block("docs:readme.md", identity), Ok(b"hello".to_vec()));
    assert_eq!(combo.map_resource_block("x", identity), Err(MultiStoreError::NoSplit));
    assert_eq!(
        combo.map_resource_block("c:x", identity),
        Err(MultiStoreError::StoreNotFound("c".to_string()))
    );
    assert_eq!(
        combo.map_resource_block("docs:missing.md", identity),
        Err(MultiStoreError::WrappedError("no entry missing.md".to_string()))
    );
}

#[test]
fn router_bulk_operations_reach_each_store() {
    let mut combo = mixed();
    combo.load_all(&["file:lib.rs", "file:test.rs", "docs:readme.md"]);
    let mut n = 0;
    while let Some(rj) = combo.next_job() {
        combo.complete(rj, Ok(Vec::new()));
        n += 1;
    }
    assert_eq!(n, 2);
    assert_eq!(combo.all_loaded(&["file:lib.rs", "file:test.rs", "docs:readme.md"]), Ok(true));
    combo.unload_all(&["file:lib.rs"]);
    assert_eq!(combo.all_loaded(&["file:lib.rs", "file:test.rs"]), Ok(false));
    combo.unload_everything();
    assert_eq!(combo.is_loaded("file:test.rs"), Ok(false));
    assert_eq!(combo.is_loaded("docs:readme.md"), Ok(true));
}
