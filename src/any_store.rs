//! The kinds of store that a router can hold side by side.
use vstd::prelude::*;

use crate::iostore::{FsBackend, IoError, IoStore, Job, NetBackend};
use crate::static_store::{StaticStore, StaticStoreError};
use crate::AssetStore;

verus! {

/// A store of any of the library's kinds.
pub enum AnyStore {
    /// Files under a root directory.
    Files(IoStore<FsBackend>),
    /// Resources fetched by HTTP GET.
    Web(IoStore<NetBackend>),
    /// A fixed package.
    Static(StaticStore),
}

/// The error of a store of any kind.
#[derive(Debug, PartialEq, Eq)]
pub enum AnyError {
    Io(IoError),
    Static(StaticStoreError),
}

/// An error of any kind as plain values.
pub enum AnyErrorView {
    Io(IoError),
    /// The key that a static store did not find.
    Static(Seq<char>),
}

impl View for AnyError {
    type V = AnyErrorView;

    open spec fn view(&self) -> AnyErrorView {
        match self {
            AnyError::Io(e) => AnyErrorView::Io(*e),
            AnyError::Static(e) => AnyErrorView::Static(e@),
        }
    }
}

/// Where a job's location is to be read from.
pub enum Source {
    Disk,
    Web,
}

/// An outcome of a file or network store, its error seen as of any kind.
pub open spec fn io_outcome(o: Option<Result<Seq<u8>, IoError>>) -> Option<Result<Seq<u8>, AnyErrorView>> {
    match o {
        None => None,
        Some(Ok(b)) => Some(Ok(b)),
        Some(Err(e)) => Some(Err(AnyErrorView::Io(e))),
    }
}

/// An outcome of a static store, its error seen as of any kind.
pub open spec fn static_outcome(o: Option<Result<Seq<u8>, Seq<char>>>) -> Option<Result<Seq<u8>, AnyErrorView>> {
    match o {
        None => None,
        Some(Ok(b)) => Some(Ok(b)),
        Some(Err(k)) => Some(Err(AnyErrorView::Static(k))),
    }
}

impl AnyStore {
    /// The jobs that wait to be taken; a static store has none.
    pub open spec fn pending(&self) -> Seq<Job> {
        match self {
            AnyStore::Files(s) => s.pending(),
            AnyStore::Web(s) => s.pending(),
            AnyStore::Static(_) => Seq::empty(),
        }
    }

    /// `b` is `a` with its oldest pending job taken.
    pub open spec fn taken(a: Self, b: Self) -> bool {
        match (a, b) {
            (AnyStore::Files(x), AnyStore::Files(y)) => IoStore::taken(x, y),
            (AnyStore::Web(x), AnyStore::Web(y)) => IoStore::taken(x, y),
            _ => false,
        }
    }

    /// `b` is `a` once `outcome` was handed back for a job of key `key`; a
    /// static store stays as it is.
    pub open spec fn completed(
        a: Self,
        b: Self,
        key: Seq<char>,
        outcome: Result<Vec<u8>, IoError>,
    ) -> bool {
        match (a, b) {
            (AnyStore::Files(x), AnyStore::Files(y)) => IoStore::completed(x, y, key, outcome),
            (AnyStore::Web(x), AnyStore::Web(y)) => IoStore::completed(x, y, key, outcome),
            (AnyStore::Static(x), AnyStore::Static(y)) => x == y,
            _ => false,
        }
    }

    /// Whether a job waits to be taken.
    pub fn has_jobs(&self) -> (r: bool)
        ensures
            r == (self.pending().len() > 0),
    {
        match self {
            AnyStore::Files(s) => s.has_jobs(),
            AnyStore::Web(s) => s.has_jobs(),
            AnyStore::Static(_) => false,
        }
    }

    /// Takes the oldest pending job, with where it is to be read from.
    pub fn next_job(&mut self) -> (r: Option<(Source, Job)>)
        requires
            old(self).pending().len() > 0,
        ensures
            Self::taken(*old(self), *final(self)),
            r matches Some((src, j)) && j == old(self).pending()[0] && match *old(self) {
                AnyStore::Files(_) => src is Disk,
                _ => src is Web,
            },
    {
        match self {
            AnyStore::Files(s) => match s.next_job() {
                Some(j) => Some((Source::Disk, j)),
                None => None,
            },
            AnyStore::Web(s) => match s.next_job() {
                Some(j) => Some((Source::Web, j)),
                None => None,
            },
            AnyStore::Static(_) => None,
        }
    }

    /// Hands back the outcome of a job.
    pub fn complete(&mut self, job: Job, outcome: Result<Vec<u8>, IoError>)
        ensures
            Self::completed(*old(self), *final(self), job.key@, outcome),
    {
        match self {
            AnyStore::Files(s) => s.complete(job, outcome),
            AnyStore::Web(s) => s.complete(job, outcome),
            AnyStore::Static(_) => {},
        }
    }
}

impl AssetStore<AnyError> for AnyStore {
    open spec fn wf(&self) -> bool {
        match self {
            AnyStore::Static(s) => s.wf(),
            _ => true,
        }
    }

    open spec fn outcome(&self, path: Seq<char>) -> Option<Result<Seq<u8>, AnyErrorView>> {
        match self {
            AnyStore::Files(s) => io_outcome(s.outcome(path)),
            AnyStore::Web(s) => io_outcome(s.outcome(path)),
            AnyStore::Static(s) => static_outcome(s.outcome(path)),
        }
    }

    open spec fn load_step(&self, next: Self, path: Seq<char>) -> bool {
        match (*self, next) {
            (AnyStore::Files(a), AnyStore::Files(b)) => a.load_step(b, path),
            (AnyStore::Web(a), AnyStore::Web(b)) => a.load_step(b, path),
            (AnyStore::Static(a), AnyStore::Static(b)) => a.load_step(b, path),
            _ => false,
        }
    }

    open spec fn unload_step(&self, next: Self, path: Seq<char>) -> bool {
        match (*self, next) {
            (AnyStore::Files(a), AnyStore::Files(b)) => a.unload_step(b, path),
            (AnyStore::Web(a), AnyStore::Web(b)) => a.unload_step(b, path),
            (AnyStore::Static(a), AnyStore::Static(b)) => a.unload_step(b, path),
            _ => false,
        }
    }

    open spec fn clear_step(&self, next: Self) -> bool {
        match (*self, next) {
            (AnyStore::Files(a), AnyStore::Files(b)) => a.clear_step(b),
            (AnyStore::Web(a), AnyStore::Web(b)) => a.clear_step(b),
            (AnyStore::Static(a), AnyStore::Static(b)) => a.clear_step(b),
            _ => false,
        }
    }

    fn load(&mut self, path: &str) {
        match self {
            AnyStore::Files(s) => s.load(path),
            AnyStore::Web(s) => s.load(path),
            AnyStore::Static(s) => s.load(path),
        }
    }

    fn is_loaded(&self, path: &str) -> (r: Result<bool, AnyError>) {
        match self {
            AnyStore::Files(s) => match s.is_loaded(path) {
                Ok(b) => Ok(b),
                Err(e) => Err(AnyError::Io(e)),
            },
            AnyStore::Web(s) => match s.is_loaded(path) {
                Ok(b) => Ok(b),
                Err(e) => Err(AnyError::Io(e)),
            },
            AnyStore::Static(s) => match s.is_loaded(path) {
                Ok(b) => Ok(b),
                Err(e) => Err(AnyError::Static(e)),
            },
        }
    }

    fn unload(&mut self, path: &str) {
        match self {
            AnyStore::Files(s) => s.unload(path),
            AnyStore::Web(s) => s.unload(path),
            AnyStore::Static(s) => s.unload(path),
        }
    }

    fn unload_everything(&mut self) {
        match self {
            AnyStore::Files(s) => s.unload_everything(),
            AnyStore::Web(s) => s.unload_everything(),
            AnyStore::Static(s) => s.unload_everything(),
        }
    }

    fn map_resource<O, F: Fn(&[u8]) -> O>(&self, path: &str, mapfn: F) -> (r: Result<
        Option<O>,
        AnyError,
    >) {
        match self {
            AnyStore::Files(s) => match s.map_resource(path, mapfn) {
                Ok(x) => Ok(x),
                Err(e) => Err(AnyError::Io(e)),
            },
            AnyStore::Web(s) => match s.map_resource(path, mapfn) {
                Ok(x) => Ok(x),
                Err(e) => Err(AnyError::Io(e)),
            },
            AnyStore::Static(s) => match s.map_resource(path, mapfn) {
                Ok(x) => Ok(x),
                Err(e) => Err(AnyError::Static(e)),
            },
        }
    }
}

} // verus!
