use asset_store::{
    from_directory, from_url, response_outcome, to_unit, AssetStore, Fetch, FsBackend, IoBackend,
    IoError, IoStore,
};

/// Runs every pending job of a file store. A job whose file exists is
/// answered with empty content, one whose file is gone with `NotFound`.
fn serve(store: &mut IoStore<FsBackend>) {
    while let Some(job) = store.next_job() {
        let outcome = if std::path::Path::new(&job.location).is_file() {
            Ok(Vec::new())
        } else {
            Err(IoError::NotFound(job.key.clone()))
        };
        store.complete(job, outcome);
    }
}

/// Loads `path`, serves the jobs, and reads the outcome through `mapfn`.
fn map_resource_block<O, F: Fn(&[u8]) -> O>(
    store: &mut IoStore<FsBackend>,
    path: &str,
    mapfn: F,
) -> Result<O, IoError> {
    store.load(path);
    serve(store);
    match store.map_resource(path, mapfn) {
        Ok(Some(v)) => Ok(v),
        Ok(None) => panic!("a served key stays unresolved"),
        Err(e) => Err(e),
    }
}

#[test]
fn test_load() {
    let mut store = from_directory("./src/");
    store.load("test.rs");
    let loaded = map_resource_block(&mut store, "test.rs", |x| to_unit(x));
    assert!(loaded.is_ok());
}

#[test]
fn test_load_all() {
    let mut store = from_directory("./src/");
    store.load_all(&["test.rs", "lib.rs"]);
    {
        let test = map_resource_block(&mut store, "test.rs", |x| to_unit(x));
        assert!(test.is_ok());
    }
    {
        let lib = map_resource_block(&mut store, "lib.rs", |x| to_unit(x));
        assert!(lib.is_ok());
    }
}

#[test]
fn test_load_fail() {
    let mut store = from_directory("./src/");
    store.load("foo.rs");
    let loaded = map_resource_block(&mut store, "foo.rs", |x| to_unit(x));
    assert!(loaded.is_err());
}

#[test]
fn test_load_same() {
    let mut store = from_directory("./src/");
    store.load("foo.rs");
    store.load("foo.rs");
    let loaded = map_resource_block(&mut store, "foo.rs", |x| to_unit(x));
    assert!(loaded.is_err());
}

#[test]
fn test_fetch_regular() {
    let mut store = from_directory("./src/");
    store.load("lib.rs");
    loop {
        match store.map_resource("lib.rs", |x| to_unit(x)) {
            Ok(Some(_)) => {
                break;
            }
            Ok(None) => {
                serve(&mut store);
                continue;
            }
            Err(_) => {
                assert!(false)
            }
        }
    }
}

#[test]
fn test_unload() {
    let mut store = from_directory("./src/");

    store.load("lib.rs");
    assert!(map_resource_block(&mut store, "lib.rs", |x| to_unit(x)).is_ok());
    assert!(store.map_resource("lib.rs", |x| to_unit(x)).is_ok());

    store.unload("lib.rs");
    match store.map_resource("lib.rs", |x| to_unit(x)) {
        Ok(None) => assert!(true),
        _ => assert!(false),
    }
}

#[test]
fn completed_bytes_come_back_unchanged() {
    let mut store = from_directory("./src/");
    store.load("lib.rs");
    let job = store.next_job().unwrap();
    assert_eq!(job.key, "lib.rs");
    assert_eq!(job.location, "./src/lib.rs");
    let bytes = vec![0u8, 1, 2, 255, b'h', b'i'];
    store.complete(job, Ok(bytes.clone()));
    assert_eq!(store.map_resource("lib.rs", |x| x.to_vec()), Ok(Some(bytes.clone())));
    assert_eq!(store.map_resource("lib.rs", |x| x.to_vec()), Ok(Some(bytes)));
    assert_eq!(store.is_loaded("lib.rs"), Ok(true));
}

#[test]
fn pending_key_is_not_yet() {
    let mut store = from_directory("./src/");
    store.load("lib.rs");
    assert_eq!(store.map_resource("lib.rs", |x| x.len()), Ok(None));
    assert_eq!(store.is_loaded("lib.rs"), Ok(false));
    serve(&mut store);
    assert_eq!(store.map_resource("lib.rs", |x| x.len()), Ok(Some(0)));
}

#[test]
fn reload_keeps_old_outcome_until_completed() {
    let mut store = from_directory("./src/");
    store.load("lib.rs");
    let job = store.next_job().unwrap();
    store.complete(job, Ok(b"old".to_vec()));
    store.load("lib.rs");
    assert_eq!(store.map_resource("lib.rs", |x| x.to_vec()), Ok(Some(b"old".to_vec())));
    let job = store.next_job().unwrap();
    store.complete(job, Ok(b"new".to_vec()));
    assert_eq!(store.map_resource("lib.rs", |x| x.to_vec()), Ok(Some(b"new".to_vec())));
}

#[test]
fn missing_file_is_not_found_at_once() {
    let mut store = from_directory("./src/");
    store.load("nonexistent");
    assert!(store.next_job().is_none());
    assert_eq!(
        store.is_loaded("nonexistent"),
        Err(IoError::NotFound("nonexistent".to_string()))
    );
    store.load("nonexistent");
    assert_eq!(
        store.map_resource("nonexistent", |x| x.len()),
        Err(IoError::NotFound("nonexistent".to_string()))
    );
}

#[test]
fn unload_forgets_only_that_key() {
    let mut store = from_directory("./src/");
    store.load("lib.rs");
    store.load("test.rs");
    serve(&mut store);
    store.unload("lib.rs");
    assert_eq!(store.is_loaded("lib.rs"), Ok(false));
    assert_eq!(store.is_loaded("test.rs"), Ok(true));
    store.unload("never-loaded");
    assert_eq!(store.is_loaded("test.rs"), Ok(true));
}

#[test]
fn unload_everything_twice_is_once() {
    let mut store = from_directory("./src/");
    store.load_all(&["lib.rs", "test.rs", "foo.rs"]);
    serve(&mut store);
    store.unload_everything();
    let once: Vec<_> = ["lib.rs", "test.rs", "foo.rs"].iter().map(|k| store.is_loaded(k)).collect();
    store.unload_everything();
    let twice: Vec<_> = ["lib.rs", "test.rs", "foo.rs"].iter().map(|k| store.is_loaded(k)).collect();
    assert_eq!(once, twice);
    assert_eq!(twice, vec![Ok(false), Ok(false), Ok(false)]);
}

#[test]
fn unload_all_forgets_the_listed_keys() {
    let mut store = from_directory("./src/");
    store.load_all(&["lib.rs", "test.rs"]);
    serve(&mut store);
    store.unload_all(&["lib.rs"]);
    assert_eq!(store.is_loaded("lib.rs"), Ok(false));
    assert_eq!(store.is_loaded("test.rs"), Ok(true));
}

#[test]
fn all_loaded_lists_every_failure() {
    let mut store = from_directory("./src/");
    store.load_all(&["lib.rs", "foo.rs", "bar.rs"]);
    assert_eq!(store.all_loaded(&["lib.rs"]), Ok(false));
    serve(&mut store);
    assert_eq!(store.all_loaded(&["lib.rs"]), Ok(true));
    assert_eq!(store.all_loaded(&["lib.rs", "test.rs"]), Ok(false));
    assert_eq!(
        store.all_loaded(&["foo.rs", "lib.rs", "bar.rs"]),
        Err(vec![
            ("foo.rs", IoError::NotFound("foo.rs".to_string())),
            ("bar.rs", IoError::NotFound("bar.rs".to_string())),
        ])
    );
}

#[test]
fn with_bytes_reports_unit() {
    let mut store = from_directory("./src/");
    assert_eq!(store.with_bytes("lib.rs", |_| ()), Ok(None));
    store.load("lib.rs");
    serve(&mut store);
    assert_eq!(store.with_bytes("lib.rs", |_| ()), Ok(Some(())));
}

#[test]
fn keys_leaving_the_root_are_refused() {
    let mut store = from_directory("./src/");
    store.load("../Cargo.toml");
    assert!(store.next_job().is_none());
    assert_eq!(
        store.is_loaded("../Cargo.toml"),
        Err(IoError::SandboxViolation("../Cargo.toml".to_string()))
    );
    store.load("/etc/passwd");
    assert_eq!(
        store.is_loaded("/etc/passwd"),
        Err(IoError::SandboxViolation("/etc/passwd".to_string()))
    );
}

#[test]
fn unsandboxed_backend_resolves_parent_keys() {
    let backend = FsBackend::new("./src", false);
    assert_eq!(backend.resolve("../Cargo.toml"), "./src/../Cargo.toml");
    match backend.decide("../Cargo.toml", true) {
        Fetch::Pending(job) => assert_eq!(job.location, "./src/../Cargo.toml"),
        Fetch::Done(_) => panic!("expected a job"),
    }
    let sandboxed = FsBackend::new("./src", true);
    match sandboxed.decide("a/../../b", true) {
        Fetch::Done(Err(IoError::SandboxViolation(k))) => assert_eq!(k, "a/../../b"),
        _ => panic!("expected a refusal"),
    }
    match sandboxed.decide("a/../b", true) {
        Fetch::Pending(job) => assert_eq!(job.location, "./src/a/../b"),
        Fetch::Done(_) => panic!("a key that stays under the root is served"),
    }
    match sandboxed.decide("a/..b", true) {
        Fetch::Pending(job) => assert_eq!(job.location, "./src/a/..b"),
        Fetch::Done(_) => panic!("expected a job"),
    }
    match sandboxed.decide("gone.rs", false) {
        Fetch::Done(Err(IoError::NotFound(k))) => assert_eq!(k, "gone.rs"),
        _ => panic!("expected not found"),
    }
}

#[test]
fn join_adds_one_separator() {
    assert_eq!(asset_store::iostore::join_path("root", "a.txt"), "root/a.txt");
    assert_eq!(asset_store::iostore::join_path("root/", "a.txt"), "root/a.txt");
    assert_eq!(asset_store::iostore::join_path("", "a.txt"), "a.txt");
    assert_eq!(asset_store::iostore::join_path("root", "/abs"), "/abs");
    assert!(asset_store::iostore::escapes(".."));
    assert!(asset_store::iostore::escapes("x/../.."));
    assert!(!asset_store::iostore::escapes("x/..y/z"));
    assert!(!asset_store::iostore::escapes(""));
    assert!(!asset_store::iostore::escapes("a/../b"));
    assert!(!asset_store::iostore::escapes("a/./../b/.."));
    assert!(asset_store::iostore::escapes("a/./../.."));
    assert!(!asset_store::iostore::escapes("a//b/../.."));
    assert!(asset_store::iostore::escapes("a//b/../../.."));
}

#[test]
fn url_store_queues_a_get_of_base_and_key() {
    let mut store = from_url("http://www.example.com/");
    store.load("robots.txt");
    let job = store.next_job().unwrap();
    assert_eq!(job.key, "robots.txt");
    assert_eq!(job.location, "http://www.example.com/robots.txt");
    assert_eq!(store.is_loaded("robots.txt"), Ok(false));
}

#[test]
fn url_that_does_not_parse_fails_at_once() {
    let mut store = from_url("not a url/");
    store.load("robots.txt");
    assert!(store.next_job().is_none());
    assert_eq!(
        store.is_loaded("robots.txt"),
        Err(IoError::TransportFailure("not a url/robots.txt".to_string()))
    );
}

#[test]
fn net_backend_answers_by_parse() {
    let backend = asset_store::NetBackend::new("http://h/");
    match backend.go_get("x") {
        Fetch::Pending(job) => assert_eq!(job.location, "http://h/x"),
        Fetch::Done(_) => panic!("expected a job"),
    }
    match backend.decide("x", false) {
        Fetch::Done(Err(IoError::TransportFailure(u))) => assert_eq!(u, "http://h/x"),
        _ => panic!("expected a transport failure"),
    }
}

#[test]
fn response_status_decides_outcome() {
    assert_eq!(response_outcome("http://h/x", 200, b"body".to_vec()), Ok(b"body".to_vec()));
    assert_eq!(response_outcome("http://h/x", 204, Vec::new()), Ok(Vec::new()));
    assert_eq!(
        response_outcome("http://h/x", 404, b"missing".to_vec()),
        Err(IoError::TransportFailure("http://h/x".to_string()))
    );
    assert_eq!(
        response_outcome("http://h/x", 301, Vec::new()),
        Err(IoError::TransportFailure("http://h/x".to_string()))
    );
}

#[test]
fn error_duplicate_is_equal() {
    let e = IoError::ReadFailure("x".to_string());
    assert_eq!(e.duplicate(), e);
    assert_eq!(IoError::CacheUnavailable.duplicate(), IoError::CacheUnavailable);
}

#[test]
fn key_through_parent_inside_root_is_served() {
    let mut store = from_directory("./");
    store.load("src/../src/lib.rs");
    let job = store.next_job().unwrap();
    assert_eq!(job.location, "./src/../src/lib.rs");
    store.complete(job, Ok(b"x".to_vec()));
    assert_eq!(store.map_resource("src/../src/lib.rs", |x| x.to_vec()), Ok(Some(b"x".to_vec())));
}
