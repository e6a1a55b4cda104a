//! A store over a fixed table of resources built into the program.
use vstd::prelude::*;
use vstd::utf8::{decode_utf8, valid_utf8};

use resources_package_package::Package;

use crate::{mapped, AssetStore};

verus! {

/// resources_package_package's Package: the table of resources that the
/// build embeds, used here only through `Package::find`.
#[verifier::external_type_specification]
#[verifier::external_body]
pub struct ExPackage(Package);

/// The entries of a package, in order: each key's bytes and its content.
pub uninterp spec fn package_entries(p: Package) -> Seq<(Seq<u8>, Seq<u8>)>;

/// Whether std's path comparison takes `a` and `b` for the same path.
pub uninterp spec fn same_path(a: Seq<char>, b: Seq<char>) -> bool;

/// Path equality as std's `Path` compares, component by component: equal
/// text is the same path, and text without a `/` is one component or none,
/// so two such texts are the same path only when they are equal.
pub open spec fn path_eq(a: Seq<char>, b: Seq<char>) -> bool {
    a == b || ((a.contains('/') || b.contains('/')) && same_path(a, b))
}

/// The content of the first entry of `es` whose key, decoded as UTF-8,
/// names the same path as `key`.
pub open spec fn first_match(es: Seq<(Seq<u8>, Seq<u8>)>, key: Seq<char>) -> Option<Seq<u8>>
    decreases es.len(),
{
    if es.len() == 0 {
        None
    } else {
        match first_match(es.drop_last(), key) {
            Some(v) => Some(v),
            None => if path_eq(decode_utf8(es.last().0), key) {
                Some(es.last().1)
            } else {
                None
            },
        }
    }
}

/// The content that a package holds under a key, if any.
pub open spec fn package_lookup(p: Package, key: Seq<char>) -> Option<Seq<u8>> {
    first_match(package_entries(p), key)
}

/// Whether every key of the package is valid UTF-8.
pub open spec fn keys_are_utf8(p: Package) -> bool {
    forall|i: int|
        0 <= i < package_entries(p).len() ==> valid_utf8(#[trigger] package_entries(p)[i].0)
}

/// Relies on resources_package_package's Package::find: it scans the entries
/// in order and returns the content of the first one whose key, decoded as
/// UTF-8 and read as a path, equals `key` read as a path; it decodes each
/// key it passes and panics on one that is not UTF-8.
#[verifier::external_body]
fn package_find(p: &Package, key: &str) -> (r: Option<&'static [u8]>)
    requires
        keys_are_utf8(*p),
    ensures
        match r {
            Some(v) => package_lookup(*p, key@) == Some(v@),
            None => package_lookup(*p, key@) is None,
        },
        r is None ==> forall|i: int|
            0 <= i < package_entries(*p).len() ==> !same_path(
                decode_utf8(#[trigger] package_entries(*p)[i].0),
                key@,
            ) || !(decode_utf8(package_entries(*p)[i].0).contains('/') || key@.contains('/')),
{
    p.find(key)
}

/// Relies on the public field `data` of resources_package_package's Package:
/// the entries, in order, as pairs of key bytes and content.
#[verifier::external_body]
fn package_data(p: &Package) -> (r: &'static [(&'static [u8], &'static [u8])])
    ensures
        r@.len() == package_entries(*p).len(),
        forall|i: int|
            0 <= i < r@.len() ==> (#[trigger] r@[i]).0@ == package_entries(*p)[i].0 && r@[i].1@
                == package_entries(*p)[i].1,
{
    p.data
}

/// Relies on std::str::from_utf8: it succeeds exactly on valid UTF-8.
#[verifier::external_body]
fn is_utf8(b: &[u8]) -> (r: bool)
    ensures
        r == valid_utf8(b@),
{
    std::str::from_utf8(b).is_ok()
}

/// Whether every key of `p` is valid UTF-8, checked entry by entry.
pub fn check_keys(p: &Package) -> (r: bool)
    ensures
        r == keys_are_utf8(*p),
{
    let data = package_data(p);
    let mut i: usize = 0;
    while i < data.len()
        invariant
            data@.len() == package_entries(*p).len(),
            forall|j: int|
                0 <= j < data@.len() ==> (#[trigger] data@[j]).0@ == package_entries(*p)[j].0,
            i <= data@.len(),
            forall|j: int| 0 <= j < i ==> valid_utf8(#[trigger] package_entries(*p)[j].0),
        decreases data@.len() - i,
    {
        let (k, _) = data[i];
        if !is_utf8(k) {
            assert(data@[i as int].0@ == package_entries(*p)[i as int].0);
            return false;
        }
        i = i + 1;
    }
    true
}

/// The error of a static store: nothing is stored under the key.
#[derive(Debug, PartialEq, Eq)]
pub enum StaticStoreError {
    NotFound(String),
}

impl View for StaticStoreError {
    type V = Seq<char>;

    /// The key that was not found.
    open spec fn view(&self) -> Seq<char> {
        match self {
            StaticStoreError::NotFound(k) => k@,
        }
    }
}

/// A store whose resources are all resolved from the start: a lookup in a
/// fixed package.
pub struct StaticStore {
    mem: &'static Package,
}

impl StaticStore {
    /// The package that this store reads.
    pub closed spec fn package(&self) -> Package {
        *self.mem
    }

    /// A store over `m`, when every key of `m` is valid UTF-8.
    pub fn checked(m: &'static Package) -> (r: Option<StaticStore>)
        ensures
            r is Some <==> keys_are_utf8(*m),
            r matches Some(s) ==> s.package() == *m && s.wf(),
    {
        if check_keys(m) {
            Some(StaticStore::new(m))
        } else {
            None
        }
    }

    /// A store over `m`.
    pub fn new(m: &'static Package) -> (r: StaticStore)
        requires
            keys_are_utf8(*m),
        ensures
            r.package() == *m,
            r.wf(),
    {
        StaticStore { mem: m }
    }

    /// The content stored under `path`, if any.
    fn find(&self, path: &str) -> (r: Option<&'static [u8]>)
        requires
            self.wf(),
        ensures
            match r {
                Some(v) => package_lookup(self.package(), path@) == Some(v@),
                None => package_lookup(self.package(), path@) is None,
            },
    {
        package_find(self.mem, path)
    }

    /// The transform applied to the content stored under `path`; there is
    /// nothing to wait for, so the answer is never "not yet".
    pub fn map_resource_block<O, F: Fn(&[u8]) -> O>(&self, path: &str, mapfn: F) -> (r: Result<
        O,
        StaticStoreError,
    >)
        requires
            self.wf(),
            forall|s: &[u8]| #[trigger] mapfn.requires((s,)),
        ensures
            match package_lookup(self.package(), path@) {
                Some(b) => match r {
                    Ok(v) => exists|s: &[u8]| s@ == b && #[trigger] call_ensures(mapfn, (s,), v),
                    Err(_) => false,
                },
                None => match r {
                    Err(e) => e@ == path@,
                    Ok(_) => false,
                },
            },
    {
        match self.find(path) {
            Some(x) => {
                let out = mapfn(x);
                proof {
                    let r: Result<O, StaticStoreError> = Ok(out);
                    assert(r matches Ok(vv) && vv == out && call_ensures(mapfn, (x,), vv));
                }
                Ok(out)
            },
            None => Err(StaticStoreError::NotFound(path.to_string())),
        }
    }
}

impl AssetStore<StaticStoreError> for StaticStore {
    closed spec fn wf(&self) -> bool {
        keys_are_utf8(*self.mem)
    }

    open spec fn outcome(&self, path: Seq<char>) -> Option<Result<Seq<u8>, Seq<char>>> {
        match package_lookup(self.package(), path) {
            Some(b) => Some(Ok(b)),
            None => Some(Err(path)),
        }
    }

    /// Nothing changes.
    open spec fn load_step(&self, next: Self, path: Seq<char>) -> bool {
        next == *self
    }

    /// Nothing changes.
    open spec fn unload_step(&self, next: Self, path: Seq<char>) -> bool {
        next == *self
    }

    /// Nothing changes.
    open spec fn clear_step(&self, next: Self) -> bool {
        next == *self
    }

    /// Everything is resolved already: nothing to do.
    fn load(&mut self, path: &str)
        ensures
            *final(self) == *old(self),
    {
    }

    fn is_loaded(&self, path: &str) -> (r: Result<bool, StaticStoreError>) {
        match self.find(path) {
            Some(_) => Ok(true),
            None => Err(StaticStoreError::NotFound(path.to_string())),
        }
    }

    /// The package cannot be changed: nothing to do.
    fn unload(&mut self, path: &str)
        ensures
            *final(self) == *old(self),
    {
    }

    /// The package cannot be changed: nothing to do.
    fn unload_everything(&mut self)
        ensures
            *final(self) == *old(self),
    {
    }

    fn map_resource<O, F: Fn(&[u8]) -> O>(&self, path: &str, mapfn: F) -> (r: Result<
        Option<O>,
        StaticStoreError,
    >) {
        match self.find(path) {
            Some(x) => {
                let out = mapfn(x);
                proof {
                    let r: Result<Option<O>, StaticStoreError> = Ok(Some(out));
                    assert(r matches Ok(Some(vv)) && vv == out);
                    assert(mapped(self.outcome(path@), mapfn, r));
                }
                Ok(Some(out))
            },
            None => Err(StaticStoreError::NotFound(path.to_string())),
        }
    }
}

} // verus!
