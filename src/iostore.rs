//! A store whose resources are produced by a backend, one request per `load`.
//!
//! The store is a state machine: `load` asks the backend what a key needs,
//! and either caches an outcome at once or queues a job; whoever runs the
//! jobs hands each outcome back through `complete`.
use vstd::prelude::*;

use crate::{loaded_status, mapped, AssetStore};

verus! {

/// Why a resource could not be produced.
#[derive(Debug, PartialEq, Eq)]
pub enum IoError {
    /// Nothing exists under the requested key.
    NotFound(String),
    /// The key resolves to a place outside the store's root.
    SandboxViolation(String),
    /// The request could not be sent, or was answered without success.
    TransportFailure(String),
    /// The resource exists but reading it failed.
    ReadFailure(String),
    /// The shared cache could not be reached.
    CacheUnavailable,
}

impl IoError {
    /// A copy of this error.
    pub fn duplicate(&self) -> (r: IoError)
        ensures
            r == *self,
    {
        match self {
            IoError::NotFound(s) => IoError::NotFound(s.clone()),
            IoError::SandboxViolation(s) => IoError::SandboxViolation(s.clone()),
            IoError::TransportFailure(s) => IoError::TransportFailure(s.clone()),
            IoError::ReadFailure(s) => IoError::ReadFailure(s.clone()),
            IoError::CacheUnavailable => IoError::CacheUnavailable,
        }
    }
}

impl View for IoError {
    type V = IoError;

    open spec fn view(&self) -> IoError {
        *self
    }
}

/// The bytes or the error of an outcome, as plain values.
pub open spec fn outcome_view(r: Result<Vec<u8>, IoError>) -> Result<Seq<u8>, IoError> {
    match r {
        Ok(v) => Ok(v@),
        Err(e) => Err(e),
    }
}

/// One resolved resource of the cache.
pub struct Entry {
    pub key: String,
    pub value: Result<Vec<u8>, IoError>,
}

/// The outcome cached for `k`: that of the first entry with key `k`.
pub open spec fn lookup(s: Seq<Entry>, k: Seq<char>) -> Option<Result<Seq<u8>, IoError>>
    decreases s.len(),
{
    if s.len() == 0 {
        None
    } else {
        match lookup(s.drop_last(), k) {
            Some(o) => Some(o),
            None => if s.last().key@ == k {
                Some(outcome_view(s.last().value))
            } else {
                None
            },
        }
    }
}

proof fn lemma_lookup_push(s: Seq<Entry>, e: Entry, k: Seq<char>)
    ensures
        lookup(s.push(e), k) == match lookup(s, k) {
            Some(o) => Some(o),
            None => if e.key@ == k {
                Some(outcome_view(e.value))
            } else {
                None
            },
        },
{
    assert(s.push(e).drop_last() =~= s);
}

/// Removes every entry with key `k`, keeping the others in order.
fn remove_key(entries: &mut Vec<Entry>, k: &str)
    ensures
        lookup(final(entries)@, k@) is None,
        forall|j: Seq<char>| j != k@ ==> lookup(final(entries)@, j) == lookup(old(entries)@, j),
{
    let ghost orig = entries@;
    let mut rest: Vec<Entry> = Vec::new();
    std::mem::swap(entries, &mut rest);
    let ghost n = rest.len();
    while rest.len() > 0
        invariant
            n == orig.len(),
            rest.len() <= n,
            rest@ == orig.subrange(n - rest.len(), n as int),
            lookup(entries@, k@) is None,
            forall|j: Seq<char>|
                j != k@ ==> lookup(entries@, j) == lookup(orig.subrange(0, n - rest.len()), j),
        decreases rest.len(),
    {
        let ghost done = orig.subrange(0, n - rest.len());
        let ghost prev = rest@;
        let e = rest.remove(0);
        proof {
            assert(rest@ =~= prev.subrange(1, prev.len() as int));
            assert(rest@ =~= orig.subrange(n - rest.len(), n as int));
            assert(orig.subrange(0, n - rest.len()) =~= done.push(e));
            assert forall|j: Seq<char>| true implies lookup(done.push(e), j) == match lookup(
                done,
                j,
            ) {
                Some(o) => Some(o),
                None => if e.key@ == j {
                    Some(outcome_view(e.value))
                } else {
                    None
                },
            } by {
                lemma_lookup_push(done, e, j);
            }
        }
        if !str_eq(e.key.as_str(), k) {
            let ghost before = entries@;
            entries.push(e);
            proof {
                assert forall|j: Seq<char>| true implies lookup(entries@, j) == match lookup(
                    before,
                    j,
                ) {
                    Some(o) => Some(o),
                    None => if entries@.last().key@ == j {
                        Some(outcome_view(entries@.last().value))
                    } else {
                        None
                    },
                } by {
                    lemma_lookup_push(before, entries@.last(), j);
                }
            }
        }
    }
    proof {
        assert(orig.subrange(0, n as int) =~= orig);
    }
}

/// Whether two strings hold the same characters.
pub fn str_eq(a: &str, b: &str) -> (r: bool)
    ensures
        r == (a@ == b@),
{
    let n = a.unicode_len();
    if n != b.unicode_len() {
        return false;
    }
    let mut i: usize = 0;
    while i < n
        invariant
            n == a@.len() == b@.len(),
            i <= n,
            forall|j: int| 0 <= j < i ==> a@[j] == b@[j],
        decreases n - i,
    {
        if a.get_char(i) != b.get_char(i) {
            return false;
        }
        i = i + 1;
    }
    assert(a@ =~= b@);
    true
}


proof fn lemma_lookup_none(s: Seq<Entry>, k: Seq<char>)
    requires
        forall|j: int| 0 <= j < s.len() ==> s[j].key@ != k,
    ensures
        lookup(s, k) is None,
    decreases s.len(),
{
    if s.len() > 0 {
        lemma_lookup_none(s.drop_last(), k);
    }
}

proof fn lemma_lookup_first(s: Seq<Entry>, k: Seq<char>, i: int)
    requires
        0 <= i < s.len(),
        s[i].key@ == k,
        forall|j: int| 0 <= j < i ==> s[j].key@ != k,
    ensures
        lookup(s, k) == Some(outcome_view(s[i].value)),
    decreases s.len(),
{
    if i < s.len() - 1 {
        lemma_lookup_first(s.drop_last(), k, i);
    } else {
        lemma_lookup_none(s.drop_last(), k);
    }
}

/// The index of the entry that `lookup` reads for `k`.
fn find_entry(entries: &Vec<Entry>, k: &str) -> (r: Option<usize>)
    ensures
        match r {
            Some(i) => i < entries@.len() && lookup(entries@, k@) == Some(
                outcome_view(entries@[i as int].value),
            ),
            None => lookup(entries@, k@) is None,
        },
{
    let mut i: usize = 0;
    while i < entries.len()
        invariant
            i <= entries@.len(),
            forall|j: int| 0 <= j < i ==> entries@[j].key@ != k@,
        decreases entries@.len() - i,
    {
        if str_eq(entries[i].key.as_str(), k) {
            proof {
                lemma_lookup_first(entries@, k@, i as int);
            }
            return Some(i);
        }
        i = i + 1;
    }
    proof {
        lemma_lookup_none(entries@, k@);
    }
    None
}

/// A unit of outside work: produce the resource `key` from `location`
/// (a file path or a URL), then hand the outcome to `IoStore::complete`.
pub struct Job {
    pub key: String,
    pub location: String,
}

/// What a backend makes of a request.
pub enum Fetch {
    /// The outcome is known at once.
    Done(Result<Vec<u8>, IoError>),
    /// The outcome needs outside work.
    Pending(Job),
}

/// A source of resources: decides, for each requested key, whether the
/// outcome is known at once or which outside work produces it.
pub trait IoBackend {
    /// The answers that `go_get` may give for `path`.
    spec fn admits(&self, path: Seq<char>, f: Fetch) -> bool;

    /// Begins producing the resource `path`.
    fn go_get(&self, path: &str) -> (r: Fetch)
        ensures
            self.admits(path@, r),
    ;
}

/// A store that caches what its backend produces.
pub struct IoStore<B> {
    backend: B,
    entries: Vec<Entry>,
    jobs: Vec<Job>,
}

impl<B: IoBackend> IoStore<B> {
    /// The backend that serves this store.
    pub closed spec fn backend(&self) -> B {
        self.backend
    }

    /// The jobs handed out by the backend and not yet taken, oldest first.
    pub closed spec fn pending(&self) -> Seq<Job> {
        self.jobs@
    }

    /// The outcome cached for `k`, if any.
    pub closed spec fn resolved(&self, k: Seq<char>) -> Option<Result<Seq<u8>, IoError>> {
        lookup(self.entries@, k)
    }

    /// `b` is `a` after the backend answered `f` to a request for `key`.
    pub open spec fn accepted(a: Self, b: Self, key: Seq<char>, f: Fetch) -> bool {
        &&& b.backend() == a.backend()
        &&& match f {
            Fetch::Done(o) => {
                &&& b.pending() == a.pending()
                &&& forall|k: Seq<char>| #[trigger]
                    b.resolved(k) == if k == key {
                        Some(outcome_view(o))
                    } else {
                        a.resolved(k)
                    }
            },
            Fetch::Pending(j) => {
                &&& b.pending() == a.pending().push(j)
                &&& forall|k: Seq<char>| #[trigger] b.resolved(k) == a.resolved(k)
            },
        }
    }

    /// An empty store over `backend`.
    pub fn new(backend: B) -> (r: Self)
        ensures
            r.backend() == backend,
            r.pending() == Seq::<Job>::empty(),
            forall|k: Seq<char>| #[trigger] r.resolved(k) is None,
    {
        let r = IoStore { backend, entries: Vec::new(), jobs: Vec::new() };
        proof {
            assert forall|k: Seq<char>| #[trigger] r.resolved(k) is None by {
                lemma_lookup_none(r.entries@, k);
            }
        }
        r
    }

    /// Caches `outcome` as the resource `key`, replacing what was cached.
    fn store_outcome(&mut self, key: String, outcome: Result<Vec<u8>, IoError>)
        ensures
            final(self).backend() == old(self).backend(),
            final(self).pending() == old(self).pending(),
            forall|k: Seq<char>| #[trigger]
                final(self).resolved(k) == if k == key@ {
                    Some(outcome_view(outcome))
                } else {
                    old(self).resolved(k)
                },
    {
        remove_key(&mut self.entries, key.as_str());
        let ghost before = self.entries@;
        let e = Entry { key, value: outcome };
        self.entries.push(e);
        proof {
            assert forall|k: Seq<char>| true implies #[trigger] lookup(self.entries@, k) == match lookup(
                before,
                k,
            ) {
                Some(o) => Some(o),
                None => if e.key@ == k {
                    Some(outcome_view(e.value))
                } else {
                    None
                },
            } by {
                lemma_lookup_push(before, e, k);
            }
        }
    }

    /// Records the backend's answer `f` to a request for `path`: an outcome
    /// known at once is cached, a job is queued.
    pub fn accept(&mut self, path: &str, f: Fetch)
        ensures
            Self::accepted(*old(self), *final(self), path@, f),
    {
        match f {
            Fetch::Done(o) => {
                self.store_outcome(path.to_string(), o);
            },
            Fetch::Pending(j) => {
                self.jobs.push(j);
            },
        }
    }

    /// Whether a job waits to be taken.
    pub fn has_jobs(&self) -> (r: bool)
        ensures
            r == (self.pending().len() > 0),
    {
        self.jobs.len() > 0
    }

    /// `b` is `a` with its oldest pending job taken.
    pub open spec fn taken(a: Self, b: Self) -> bool {
        &&& b.backend() == a.backend()
        &&& forall|k: Seq<char>| #[trigger] b.resolved(k) == a.resolved(k)
        &&& b.pending() == a.pending().drop_first()
    }

    /// Takes the oldest pending job, for someone to run.
    pub fn next_job(&mut self) -> (r: Option<Job>)
        ensures
            final(self).backend() == old(self).backend(),
            forall|k: Seq<char>| #[trigger] final(self).resolved(k) == old(self).resolved(k),
            old(self).pending().len() == 0 ==> r is None && final(self).pending() == old(
                self,
            ).pending(),
            old(self).pending().len() > 0 ==> r == Some(old(self).pending()[0])
                && final(self).pending() == old(self).pending().drop_first(),
    {
        if self.jobs.len() == 0 {
            None
        } else {
            let j = self.jobs.remove(0);
            assert(self.jobs@ =~= old(self).jobs@.drop_first());
            Some(j)
        }
    }

    /// `b` is `a` once `outcome` was handed back for a job of key `key`.
    pub open spec fn completed(
        a: Self,
        b: Self,
        key: Seq<char>,
        outcome: Result<Vec<u8>, IoError>,
    ) -> bool {
        &&& b.backend() == a.backend()
        &&& b.pending() == a.pending()
        &&& forall|k: Seq<char>| #[trigger]
            b.resolved(k) == if k == key {
                Some(outcome_view(outcome))
            } else {
                a.resolved(k)
            }
    }

    /// `b` is `a` with the resource `key` forgotten.
    pub open spec fn unloaded(a: Self, b: Self, key: Seq<char>) -> bool {
        &&& b.backend() == a.backend()
        &&& b.pending() == a.pending()
        &&& b.resolved(key) is None
        &&& forall|k: Seq<char>| k != key ==> #[trigger] b.resolved(k) == a.resolved(k)
    }

    /// `b` is `a` with every resource forgotten.
    pub open spec fn cleared(a: Self, b: Self) -> bool {
        &&& b.backend() == a.backend()
        &&& b.pending() == a.pending()
        &&& forall|k: Seq<char>| #[trigger] b.resolved(k) is None
    }

    /// Hands back the outcome of a job: it becomes what is cached for the
    /// job's key, replacing what was there.
    pub fn complete(&mut self, job: Job, outcome: Result<Vec<u8>, IoError>)
        ensures
            Self::completed(*old(self), *final(self), job.key@, outcome),
    {
        self.store_outcome(job.key, outcome);
    }
}

impl<B: IoBackend> AssetStore<IoError> for IoStore<B> {
    open spec fn wf(&self) -> bool {
        true
    }

    open spec fn outcome(&self, path: Seq<char>) -> Option<Result<Seq<u8>, IoError>> {
        self.resolved(path)
    }

    /// Some answer that the backend admits for `path` was recorded.
    open spec fn load_step(&self, next: Self, path: Seq<char>) -> bool {
        exists|f: Fetch| #[trigger] self.backend().admits(path, f) && Self::accepted(*self, next, path, f)
    }

    open spec fn unload_step(&self, next: Self, path: Seq<char>) -> bool {
        Self::unloaded(*self, next, path)
    }

    open spec fn clear_step(&self, next: Self) -> bool {
        Self::cleared(*self, next)
    }

    /// The backend's answer is recorded; an answer that needs outside work
    /// leaves every cached outcome as it was.
    fn load(&mut self, path: &str)
        ensures
            exists|f: Fetch|
                #[trigger] old(self).backend().admits(path@, f) && Self::accepted(
                    *old(self),
                    *final(self),
                    path@,
                    f,
                ),
    {
        let f = self.backend.go_get(path);
        self.accept(path, f);
    }

    fn is_loaded(&self, path: &str) -> (r: Result<bool, IoError>) {
        match find_entry(&self.entries, path) {
            Some(i) => match &self.entries[i].value {
                Ok(_) => Ok(true),
                Err(e) => Err(e.duplicate()),
            },
            None => Ok(false),
        }
    }

    fn unload(&mut self, path: &str)
        ensures
            Self::unloaded(*old(self), *final(self), path@),
    {
        remove_key(&mut self.entries, path);
    }

    fn unload_everything(&mut self)
        ensures
            Self::cleared(*old(self), *final(self)),
    {
        self.entries = Vec::new();
        proof {
            assert forall|k: Seq<char>| #[trigger] self.resolved(k) is None by {
                lemma_lookup_none(self.entries@, k);
            }
        }
    }

    fn map_resource<O, F: Fn(&[u8]) -> O>(&self, path: &str, mapfn: F) -> (r: Result<
        Option<O>,
        IoError,
    >) {
        match find_entry(&self.entries, path) {
            Some(i) => match &self.entries[i].value {
                Ok(v) => {
                    let s = v.as_slice();
                    let out = mapfn(s);
                    proof {
                        assert(s@ == v@ && call_ensures(mapfn, (s,), out));
                        assert(self.outcome(path@) == Some(Ok::<Seq<u8>, IoError>(v@)));
                        let r: Result<Option<O>, IoError> = Ok(Some(out));
                        assert(r matches Ok(Some(vv)) && vv == out);
                        assert(mapped(self.outcome(path@), mapfn, r));
                    }
                    Ok(Some(out))
                },
                Err(e) => Err(e.duplicate()),
            },
            None => Ok(None),
        }
    }
}


/// How a path component moves the depth below the root: `..` goes up one
/// level, an empty component or `.` stays, any other goes down one.
pub open spec fn component_step(c: Seq<char>) -> int {
    if c.len() == 2 && c[0] == '.' && c[1] == '.' {
        -1
    } else if c.len() == 0 || (c.len() == 1 && c[0] == '.') {
        0
    } else {
        1
    }
}

/// Whether the components of `k` from position `i` on take the depth below
/// zero, where `depth` is the depth reached before the component that
/// starts at `start`.
pub open spec fn climbs_out(k: Seq<char>, i: int, depth: int, start: int) -> bool
    decreases k.len() - i,
{
    if i >= k.len() {
        depth + component_step(k.subrange(start, k.len() as int)) < 0
    } else if k[i] == '/' {
        let d = depth + component_step(k.subrange(start, i));
        d < 0 || climbs_out(k, i + 1, d, i + 1)
    } else {
        climbs_out(k, i + 1, depth, start)
    }
}

/// Whether a key may lead outside the root it is resolved against: it is
/// absolute, or, counting its components from left to right, `..` takes the
/// depth below the root.
pub open spec fn escapes_root(k: Seq<char>) -> bool {
    (k.len() > 0 && k[0] == '/') || climbs_out(k, 0, 0, 0)
}

/// `key` resolved against `root`, as joining the two paths does: an
/// absolute key stands alone, else a separator goes between them unless
/// the root is empty or already ends with one.
pub open spec fn joined(root: Seq<char>, key: Seq<char>) -> Seq<char> {
    if key.len() > 0 && key[0] == '/' {
        key
    } else if root.len() == 0 || root.last() == '/' {
        root + key
    } else {
        root + seq!['/'] + key
    }
}

/// The characters of `s`, one by one.
pub fn chars_of(s: &str) -> (r: Vec<char>)
    ensures
        r@ == s@,
{
    let n = s.unicode_len();
    let mut r: Vec<char> = Vec::new();
    let mut i: usize = 0;
    while i < n
        invariant
            n == s@.len(),
            i <= n,
            r@ == s@.subrange(0, i as int),
        decreases n - i,
    {
        r.push(s.get_char(i));
        i = i + 1;
        assert(r@ =~= s@.subrange(0, i as int));
    }
    assert(s@.subrange(0, n as int) =~= s@);
    r
}

/// The step of the component `c[start..end]`.
fn step_of(c: &Vec<char>, start: usize, end: usize) -> (r: i8)
    requires
        start <= end <= c@.len(),
    ensures
        r == component_step(c@.subrange(start as int, end as int)),
{
    let n = end - start;
    if n == 2 && c[start] == '.' && c[start + 1] == '.' {
        -1
    } else if n == 0 || (n == 1 && c[start] == '.') {
        0
    } else {
        1
    }
}

/// Whether `key` may lead outside the root it is resolved against.
pub fn escapes(key: &str) -> (r: bool)
    ensures
        r == escapes_root(key@),
{
    let c = chars_of(key);
    let n = c.len();
    if n > 0 && c[0] == '/' {
        return true;
    }
    let mut i: usize = 0;
    let mut depth: usize = 0;
    let mut start: usize = 0;
    while i < n
        invariant
            c@ == key@,
            n == c@.len(),
            start <= i <= n,
            depth <= i,
            climbs_out(key@, 0, 0, 0) == climbs_out(key@, i as int, depth as int, start as int),
        decreases n - i,
    {
        if c[i] == '/' {
            let st = step_of(&c, start, i);
            if st < 0 && depth == 0 {
                return true;
            }
            if st < 0 {
                depth = depth - 1;
            } else if st > 0 {
                depth = depth + 1;
            }
            start = i + 1;
        }
        i = i + 1;
    }
    let st = step_of(&c, start, n);
    st < 0 && depth == 0
}

/// `key` resolved against `root`.
pub fn join_path(root: &str, key: &str) -> (r: String)
    ensures
        r@ == joined(root@, key@),
{
    let rn = root.unicode_len();
    if key.unicode_len() > 0 && key.get_char(0) == '/' {
        return key.to_string();
    }
    let mut r = root.to_string();
    if rn > 0 && root.get_char(rn - 1) != '/' {
        r.append("/");
        proof {
            reveal_strlit("/");
        }
    }
    r.append(key);
    r
}

/// Relies on std::path::Path::exists: whether the file system holds an entry
/// at `p` at the moment of the call.
#[verifier::external_body]
fn path_exists(p: &str) -> (r: bool) {
    std::path::Path::new(p).exists()
}

/// Serves keys as files under a root directory.
pub struct FsBackend {
    path: String,
    sandboxed: bool,
}

/// `f` is what a file backend over `root` answers for `key`, where `exists`
/// tells whether the resolved path exists: keys that may leave the root
/// are refused when the backend is sandboxed, a missing file is not found,
/// any other key becomes a job that reads the resolved path.
pub open spec fn fs_answer(
    root: Seq<char>,
    sandboxed: bool,
    key: Seq<char>,
    exists: bool,
    f: Fetch,
) -> bool {
    if sandboxed && escapes_root(key) {
        match f {
            Fetch::Done(Err(IoError::SandboxViolation(s))) => s@ == key,
            _ => false,
        }
    } else if !exists {
        match f {
            Fetch::Done(Err(IoError::NotFound(s))) => s@ == key,
            _ => false,
        }
    } else {
        match f {
            Fetch::Pending(j) => j.key@ == key && j.location@ == joined(root, key),
            _ => false,
        }
    }
}

impl FsBackend {
    /// The directory that keys are resolved against.
    pub closed spec fn root(&self) -> Seq<char> {
        self.path@
    }

    /// Whether keys that may leave the root are refused.
    pub closed spec fn is_sandboxed(&self) -> bool {
        self.sandboxed
    }

    /// A backend over the directory `path`.
    pub fn new(path: &str, sandboxed: bool) -> (r: FsBackend)
        ensures
            r.root() == path@,
            r.is_sandboxed() == sandboxed,
    {
        FsBackend { path: path.to_string(), sandboxed }
    }

    /// The path that `key` resolves to.
    pub fn resolve(&self, key: &str) -> (r: String)
        ensures
            r@ == joined(self.root(), key@),
    {
        join_path(self.path.as_str(), key)
    }

    /// The answer for `key`, given whether its resolved path exists.
    pub fn decide(&self, key: &str, exists: bool) -> (r: Fetch)
        ensures
            fs_answer(self.root(), self.is_sandboxed(), key@, exists, r),
    {
        if self.sandboxed && escapes(key) {
            Fetch::Done(Err(IoError::SandboxViolation(key.to_string())))
        } else if !exists {
            Fetch::Done(Err(IoError::NotFound(key.to_string())))
        } else {
            Fetch::Pending(Job { key: key.to_string(), location: self.resolve(key) })
        }
    }
}

impl IoBackend for FsBackend {
    open spec fn admits(&self, path: Seq<char>, f: Fetch) -> bool {
        fs_answer(self.root(), self.is_sandboxed(), path, true, f) || fs_answer(
            self.root(),
            self.is_sandboxed(),
            path,
            false,
            f,
        )
    }

    fn go_get(&self, path: &str) -> (r: Fetch) {
        if self.sandboxed && escapes(path) {
            return self.decide(path, false);
        }
        let full = self.resolve(path);
        let exists = path_exists(full.as_str());
        self.decide(path, exists)
    }
}

/// A store that serves the files under the directory `path`, refusing keys
/// that may lead outside it.
pub fn from_directory(path: &str) -> (r: IoStore<FsBackend>)
    ensures
        r.backend().root() == path@,
        r.backend().is_sandboxed(),
        r.pending() == Seq::<Job>::empty(),
        forall|k: Seq<char>| #[trigger] r.resolved(k) is None,
{
    IoStore::new(FsBackend::new(path, true))
}


/// Whether `s` parses as a URL.
pub uninterp spec fn url_parses(s: Seq<char>) -> bool;

/// Relies on hyper::Url::parse (the url crate's parser, which hyper
/// re-exports): whether `s` parses as a URL, which depends on the text alone.
#[verifier::external_body]
fn parse_url(s: &str) -> (r: bool)
    ensures
        r == url_parses(s@),
{
    hyper::Url::parse(s).is_ok()
}

/// Serves keys by HTTP GET from a base URL.
pub struct NetBackend {
    base: String,
}

/// `f` is what a network backend over `base` answers for `key`, where
/// `parses` tells whether the base followed by the key parses as a URL: a
/// job that fetches that URL, else a transport failure naming it.
pub open spec fn net_answer(base: Seq<char>, key: Seq<char>, parses: bool, f: Fetch) -> bool {
    if parses {
        match f {
            Fetch::Pending(j) => j.key@ == key && j.location@ == base + key,
            _ => false,
        }
    } else {
        match f {
            Fetch::Done(Err(IoError::TransportFailure(s))) => s@ == base + key,
            _ => false,
        }
    }
}

impl NetBackend {
    /// The URL that keys are appended to.
    pub closed spec fn base(&self) -> Seq<char> {
        self.base@
    }

    /// A backend over the base URL `base`.
    pub fn new(base: &str) -> (r: NetBackend)
        ensures
            r.base() == base@,
    {
        NetBackend { base: base.to_string() }
    }

    /// The URL of `key`: the base followed by the key.
    pub fn url_for(&self, key: &str) -> (r: String)
        ensures
            r@ == self.base() + key@,
    {
        let mut r = self.base.clone();
        r.append(key);
        r
    }

    /// The answer for `key`, given whether its URL parses.
    pub fn decide(&self, key: &str, parses: bool) -> (r: Fetch)
        ensures
            net_answer(self.base(), key@, parses, r),
    {
        let url = self.url_for(key);
        if parses {
            Fetch::Pending(Job { key: key.to_string(), location: url })
        } else {
            Fetch::Done(Err(IoError::TransportFailure(url)))
        }
    }
}

impl IoBackend for NetBackend {
    open spec fn admits(&self, path: Seq<char>, f: Fetch) -> bool {
        net_answer(self.base(), path, url_parses(self.base() + path), f)
    }

    fn go_get(&self, path: &str) -> (r: Fetch) {
        let url = self.url_for(path);
        let parses = parse_url(url.as_str());
        self.decide(path, parses)
    }
}

/// The outcome of an HTTP answer to a GET of `url`: the body on a 2xx
/// status, a transport failure naming the URL on any other.
pub fn response_outcome(url: &str, status: u16, body: Vec<u8>) -> (r: Result<Vec<u8>, IoError>)
    ensures
        200 <= status < 300 ==> r == Ok::<Vec<u8>, IoError>(body),
        !(200 <= status < 300) ==> match r {
            Err(IoError::TransportFailure(s)) => s@ == url@,
            _ => false,
        },
{
    if 200 <= status && status < 300 {
        Ok(body)
    } else {
        Err(IoError::TransportFailure(url.to_string()))
    }
}

/// A store that serves keys by HTTP GET from the base URL `base`.
pub fn from_url(base: &str) -> (r: IoStore<NetBackend>)
    ensures
        r.backend().base() == base@,
        r.pending() == Seq::<Job>::empty(),
        forall|k: Seq<char>| #[trigger] r.resolved(k) is None,
{
    IoStore::new(NetBackend::new(base))
}


/// Fetching a file round-trips its bytes: when a file store loads a key
/// and the backend queues a job for it, the job reads the path that the key
/// resolves to under the root, and handing back the bytes read there makes
/// the key resolve to exactly those bytes.
pub proof fn law_round_trip(
    s0: IoStore<FsBackend>,
    s1: IoStore<FsBackend>,
    s2: IoStore<FsBackend>,
    key: Seq<char>,
    j: Job,
    bytes: Vec<u8>,
)
    requires
        s0.backend().admits(key, Fetch::Pending(j)),
        IoStore::accepted(s0, s1, key, Fetch::Pending(j)),
        IoStore::completed(s1, s2, j.key@, Ok(bytes)),
    ensures
        j.key@ == key,
        j.location@ == joined(s0.backend().root(), key),
        s2.outcome(key) == Some(Ok::<Seq<u8>, IoError>(bytes@)),
{
}

/// While the backend works on a key, nothing changes for queries: every key
/// answers as before the load, so a key that was absent is "not yet" and
/// never an error.
pub proof fn law_pending_is_not_yet<B: IoBackend>(s0: IoStore<B>, s1: IoStore<B>, key: Seq<char>, j: Job)
    requires
        IoStore::accepted(s0, s1, key, Fetch::Pending(j)),
    ensures
        forall|k: Seq<char>| #[trigger] s1.outcome(k) == s0.outcome(k),
        s0.outcome(key) is None ==> loaded_status(s1.outcome(key)) == Ok::<bool, IoError>(false),
{
}

/// A forgotten key answers "not yet", as if it had never been loaded.
pub proof fn law_unload_forgets<B: IoBackend>(s0: IoStore<B>, s1: IoStore<B>, key: Seq<char>)
    requires
        IoStore::unloaded(s0, s1, key),
    ensures
        s1.outcome(key) is None,
        loaded_status(s1.outcome(key)) == Ok::<bool, IoError>(false),
{
}

/// A missing file is an error at once, never a job: loading its key, once
/// or twice, leaves the key resolved to an error.
pub proof fn law_missing_is_error(
    s0: IoStore<FsBackend>,
    s1: IoStore<FsBackend>,
    s2: IoStore<FsBackend>,
    key: Seq<char>,
    f1: Fetch,
    f2: Fetch,
)
    requires
        fs_answer(s0.backend().root(), s0.backend().is_sandboxed(), key, false, f1),
        IoStore::accepted(s0, s1, key, f1),
        fs_answer(s1.backend().root(), s1.backend().is_sandboxed(), key, false, f2),
        IoStore::accepted(s1, s2, key, f2),
    ensures
        f1 is Done,
        f2 is Done,
        s1.outcome(key) matches Some(Err(_)),
        s2.outcome(key) matches Some(Err(_)),
        s2.pending() == s0.pending(),
{
}

/// Forgetting everything twice in a row leaves the store as forgetting it
/// once does, and every key then answers "not loaded".
pub proof fn law_unload_everything_idempotent<B: IoBackend>(
    s0: IoStore<B>,
    s1: IoStore<B>,
    s2: IoStore<B>,
)
    requires
        IoStore::cleared(s0, s1),
        IoStore::cleared(s1, s2),
    ensures
        s2.backend() == s1.backend(),
        s2.pending() == s1.pending(),
        forall|k: Seq<char>| #[trigger] s2.outcome(k) == s1.outcome(k),
        forall|k: Seq<char>| loaded_status(#[trigger] s2.outcome(k)) == Ok::<bool, IoError>(false),
{
}

} // verus!
