//! A router that addresses several stores through one namespace of keys
//! `prefix:subpath`, with one error type for all of them.
use vstd::prelude::*;

use crate::iostore::{chars_of, str_eq};
use crate::any_store::{AnyError, AnyStore, Source};
use crate::iostore::{IoError, Job};
use crate::{all_resolved, failures, keys_of, AssetStore};

verus! {

/// The errors of a router.
#[derive(Debug, PartialEq, Eq)]
pub enum MultiStoreError<E> {
    /// The key holds no `:` separator.
    NoSplit,
    /// No store is registered under the key's prefix.
    StoreNotFound(String),
    /// The error of the store that the key was routed to, translated.
    WrappedError(E),
}

/// Whether `k` holds its first `:` at `i`.
pub open spec fn first_colon(k: Seq<char>, i: int) -> bool {
    &&& 0 <= i < k.len()
    &&& k[i] == ':'
    &&& forall|j: int| 0 <= j < i ==> k[j] != ':'
}

/// Whether `k` holds a `:`.
pub open spec fn has_colon(k: Seq<char>) -> bool {
    exists|i: int| first_colon(k, i)
}

/// The position of the first `:` of `k`.
pub open spec fn colon_at(k: Seq<char>) -> int {
    choose|i: int| first_colon(k, i)
}

/// The prefix of a routed key: what stands before its first `:`.
pub open spec fn key_prefix(k: Seq<char>) -> Seq<char> {
    k.subrange(0, colon_at(k))
}

/// The rest of a routed key: what follows its first `:`.
pub open spec fn key_rest(k: Seq<char>) -> Seq<char> {
    k.subrange(colon_at(k) + 1, k.len() as int)
}

proof fn lemma_first_colon_unique(k: Seq<char>, i: int, j: int)
    requires
        first_colon(k, i),
        first_colon(k, j),
    ensures
        i == j,
{
}

/// The position of the first `:` of `k`, if any.
pub fn find_colon(k: &str) -> (r: Option<usize>)
    ensures
        match r {
            Some(i) => has_colon(k@) && colon_at(k@) == i,
            None => !has_colon(k@),
        },
{
    let c = chars_of(k);
    let mut i: usize = 0;
    while i < c.len()
        invariant
            c@ == k@,
            i <= c@.len(),
            forall|j: int| 0 <= j < i ==> k@[j] != ':',
        decreases c@.len() - i,
    {
        if c[i] == ':' {
            proof {
                assert(first_colon(k@, i as int));
                let w = colon_at(k@);
                lemma_first_colon_unique(k@, w, i as int);
            }
            return Some(i);
        }
        i = i + 1;
    }
    assert forall|j: int| !first_colon(k@, j) by {
        if 0 <= j < k@.len() {
            assert(k@[j] != ':');
        }
    }
    None
}

/// A store together with the function that translates its errors.
pub struct StoreWrapper<S, F> {
    pub store: S,
    pub trans: F,
}

/// Whether `tr` accepts every error of type `E`.
pub open spec fn translates<E, T, F: Fn(E) -> T>(tr: F) -> bool {
    forall|e: E| #[trigger] tr.requires((e,))
}

/// `r` is `e`, an error whose view is `v`, after translation by `tr`.
pub open spec fn translated<E: View, T, F: Fn(E) -> T>(tr: F, v: E::V, r: T) -> bool {
    exists|e: E| e@ == v && #[trigger] call_ensures(tr, (e,), r)
}

/// `r` is the failure for a key `k` that cannot be routed: it holds no `:`,
/// or no store is registered under its prefix.
pub open spec fn misrouted<T, X>(k: Seq<char>, r: Result<X, MultiStoreError<T>>) -> bool {
    if !has_colon(k) {
        r matches Err(MultiStoreError::NoSplit)
    } else {
        match r {
            Err(MultiStoreError::StoreNotFound(p)) => p@ == key_prefix(k),
            _ => false,
        }
    }
}

/// `r` is what a query of a store that stands at `o` gives once its error
/// is translated by `tr`.
pub open spec fn translated_status<E: View, T, F: Fn(E) -> T>(
    o: Option<Result<Seq<u8>, E::V>>,
    tr: F,
    r: Result<bool, MultiStoreError<T>>,
) -> bool {
    match o {
        None => r == Ok::<bool, MultiStoreError<T>>(false),
        Some(Ok(_)) => r == Ok::<bool, MultiStoreError<T>>(true),
        Some(Err(v)) => match r {
            Err(MultiStoreError::WrappedError(t)) => translated(tr, v, t),
            _ => false,
        },
    }
}

/// `r` is what a transform `f` of a store that stands at `o` gives once the
/// store's error is translated by `tr`.
pub open spec fn translated_map<E: View, T, F: Fn(E) -> T, O, M: Fn(&[u8]) -> O>(
    o: Option<Result<Seq<u8>, E::V>>,
    tr: F,
    f: M,
    r: Result<Option<O>, MultiStoreError<T>>,
) -> bool {
    match o {
        None => r == Ok::<Option<O>, MultiStoreError<T>>(None),
        Some(Ok(b)) => match r {
            Ok(Some(v)) => exists|s: &[u8]| s@ == b && #[trigger] call_ensures(f, (s,), v),
            _ => false,
        },
        Some(Err(v)) => match r {
            Err(MultiStoreError::WrappedError(t)) => translated(tr, v, t),
            _ => false,
        },
    }
}

impl<S, F> StoreWrapper<S, F> {
    /// Wraps `st`, translating its errors with `tr`.
    pub fn new(st: S, tr: F) -> (r: StoreWrapper<S, F>)
        ensures
            r.store == st,
            r.trans == tr,
    {
        StoreWrapper { store: st, trans: tr }
    }

    /// Whether the wrapped store has loaded `path`, its error translated.
    pub fn is_loaded<E: View, T>(&self, path: &str) -> (r: Result<bool, MultiStoreError<T>>) where
        S: AssetStore<E>,
        F: Fn(E) -> T,

        requires
            self.store.wf(),
            translates(self.trans),
        ensures
            translated_status(self.store.outcome(path@), self.trans, r),
    {
        match self.store.is_loaded(path) {
            Ok(b) => Ok(b),
            Err(e) => {
                let t = (self.trans)(e);
                Err(MultiStoreError::WrappedError(t))
            },
        }
    }

    /// The transform applied to `path` in the wrapped store, its error
    /// translated.
    pub fn map_resource<E: View, T, O, M: Fn(&[u8]) -> O>(&self, path: &str, mapfn: M) -> (r:
        Result<Option<O>, MultiStoreError<T>>) where S: AssetStore<E>, F: Fn(E) -> T
        requires
            self.store.wf(),
            translates(self.trans),
            forall|s: &[u8]| #[trigger] mapfn.requires((s,)),
        ensures
            translated_map(self.store.outcome(path@), self.trans, mapfn, r),
    {
        match self.store.map_resource(path, mapfn) {
            Ok(x) => Ok(x),
            Err(e) => {
                let t = (self.trans)(e);
                Err(MultiStoreError::WrappedError(t))
            },
        }
    }

    /// The wrapped store's answer for all of `paths`, each error translated.
    pub fn all_loaded<'a, E: View, T>(&self, paths: &[&'a str]) -> (r: Result<
        bool,
        Vec<(&'a str, T)>,
    >) where S: AssetStore<E>, F: Fn(E) -> T
        requires
            self.store.wf(),
            translates(self.trans),
        ensures
            ({
                let keys = keys_of(paths@);
                let outs = |k: Seq<char>| self.store.outcome(k);
                let fails = failures(keys, outs);
                if fails.len() == 0 {
                    r == Ok::<bool, Vec<(&'a str, T)>>(all_resolved(keys, outs))
                } else {
                    match r {
                        Ok(_) => false,
                        Err(errs) => {
                            &&& errs@.len() == fails.len()
                            &&& forall|i: int|
                                0 <= i < fails.len() ==> (#[trigger] errs@[i]).0@ == fails[i].0
                                    && translated(self.trans, fails[i].1, errs@[i].1)
                        },
                    }
                }
            }),
    {
        match self.store.all_loaded(paths) {
            Ok(b) => Ok(b),
            Err(errs) => {
                let ghost fails = failures(
                    keys_of(paths@),
                    |k: Seq<char>| self.store.outcome(k),
                );
                let mut out: Vec<(&'a str, T)> = Vec::new();
                let mut rest = errs;
                let ghost all = rest@;
                let ghost n = rest@.len();
                while rest.len() > 0
                    invariant
                        translates(self.trans),
                        n == all.len(),
                        rest@.len() <= n,
                        rest@ == all.subrange(n - rest@.len(), n as int),
                        out@.len() == n - rest@.len(),
                        forall|i: int|
                            0 <= i < out@.len() ==> (#[trigger] out@[i]).0 == all[i].0
                                && call_ensures(self.trans, (all[i].1,), out@[i].1),
                    decreases rest@.len(),
                {
                    let ghost prev = rest@;
                    let (p, e) = rest.remove(0);
                    proof {
                        assert(rest@ =~= prev.subrange(1, prev.len() as int));
                        assert(rest@ =~= all.subrange(n - rest@.len(), n as int));
                        assert(all[n - prev.len()] == prev[0]);
                    }
                    let t = (self.trans)(e);
                    out.push((p, t));
                }
                proof {
                    assert forall|i: int| 0 <= i < fails.len() implies (#[trigger] out@[i]).0@
                        == fails[i].0 && translated(self.trans, fails[i].1, out@[i].1) by {
                        assert(all[i].1@ == fails[i].1);
                        assert(call_ensures(self.trans, (all[i].1,), out@[i].1));
                    }
                }
                Err(out)
            },
        }
    }
}

/// A key made of a prefix without `:`, a `:` and any rest is routed by
/// that prefix, and the store registered there is asked for that rest.
pub proof fn law_route_split(prefix: Seq<char>, rest: Seq<char>)
    requires
        forall|i: int| 0 <= i < prefix.len() ==> prefix[i] != ':',
    ensures
        has_colon(prefix + seq![':'] + rest),
        key_prefix(prefix + seq![':'] + rest) == prefix,
        key_rest(prefix + seq![':'] + rest) == rest,
{
    let k = prefix + seq![':'] + rest;
    assert(first_colon(k, prefix.len() as int));
    lemma_first_colon_unique(k, colon_at(k), prefix.len() as int);
    assert(k.subrange(0, prefix.len() as int) =~= prefix);
    assert(k.subrange(prefix.len() as int + 1, k.len() as int) =~= rest);
}

/// A key without `:` cannot be routed: a router answers it with `NoSplit`
/// and with nothing else.
pub proof fn law_no_separator<T, X>(k: Seq<char>, r: Result<X, MultiStoreError<T>>)
    requires
        forall|i: int| 0 <= i < k.len() ==> k[i] != ':',
    ensures
        !has_colon(k),
        misrouted(k, r) <==> r matches Err(MultiStoreError::NoSplit),
{
}

/// A key whose prefix has no registered store is answered with
/// `StoreNotFound` carrying that prefix, and with nothing else.
pub proof fn law_unknown_prefix<T, X>(
    prefix: Seq<char>,
    rest: Seq<char>,
    r: Result<X, MultiStoreError<T>>,
)
    requires
        forall|i: int| 0 <= i < prefix.len() ==> prefix[i] != ':',
    ensures
        misrouted(prefix + seq![':'] + rest, r) <==> match r {
            Err(MultiStoreError::StoreNotFound(p)) => p@ == prefix,
            _ => false,
        },
{
    law_route_split(prefix, rest);
}

/// The keys of `keys` for which `fails` holds, in order.
pub open spec fn failing_keys(keys: Seq<Seq<char>>, fails: spec_fn(Seq<char>) -> bool) -> Seq<
    Seq<char>,
>
    decreases keys.len(),
{
    if keys.len() == 0 {
        Seq::empty()
    } else {
        let rest = failing_keys(keys.drop_last(), fails);
        if fails(keys.last()) {
            rest.push(keys.last())
        } else {
            rest
        }
    }
}

/// A router: stores registered under distinct prefixes.
pub struct MultiStore<S, F> {
    stores: Vec<(String, StoreWrapper<S, F>)>,
}

impl<S, F> MultiStore<S, F> {
    /// Prefixes are registered at most once.
    pub closed spec fn wf(&self) -> bool {
        forall|i: int, j: int|
            0 <= i < self.stores@.len() && 0 <= j < self.stores@.len() && i != j ==> (
            #[trigger] self.stores@[i]).0@ != (#[trigger] self.stores@[j]).0@
    }

    /// The store registered under `p`, with its translation.
    pub closed spec fn entry(&self, p: Seq<char>) -> Option<StoreWrapper<S, F>> {
        if exists|i: int| 0 <= i < self.stores@.len() && #[trigger] self.stores@[i].0@ == p {
            let i = choose|i: int| 0 <= i < self.stores@.len() && #[trigger] self.stores@[i].0@ == p;
            Some(self.stores@[i].1)
        } else {
            None
        }
    }

    /// Every registered store is well formed and its translation accepts
    /// every error.
    pub open spec fn ready<E: View, T>(&self) -> bool where S: AssetStore<E>, F: Fn(E) -> T {
        &&& self.wf()
        &&& forall|p: Seq<char>| #[trigger] self.entry(p) is Some ==> {
            &&& self.entry(p)->0.store.wf()
            &&& translates(self.entry(p)->0.trans)
        }
    }

    proof fn lemma_entry_at(&self, i: int)
        requires
            self.wf(),
            0 <= i < self.stores@.len(),
        ensures
            self.entry(self.stores@[i].0@) == Some(self.stores@[i].1),
    {
        let p = self.stores@[i].0@;
        assert(self.stores@[i].0@ == p);
        let w = choose|w: int| 0 <= w < self.stores@.len() && #[trigger] self.stores@[w].0@ == p;
        if w != i {
            assert(self.stores@[w].0@ != self.stores@[i].0@);
        }
    }

    proof fn lemma_entry_same(a: &Self, b: &Self, p: Seq<char>)
        requires
            a.wf(),
            b.wf(),
            forall|j: int|
                0 <= j < b.stores@.len() && #[trigger] b.stores@[j].0@ == p ==> j < a.stores@.len()
                    && a.stores@[j] == b.stores@[j],
            forall|j: int|
                0 <= j < a.stores@.len() && #[trigger] a.stores@[j].0@ == p ==> j < b.stores@.len()
                    && a.stores@[j] == b.stores@[j],
        ensures
            a.entry(p) == b.entry(p),
    {
        if exists|j: int| 0 <= j < b.stores@.len() && #[trigger] b.stores@[j].0@ == p {
            let j = choose|j: int| 0 <= j < b.stores@.len() && #[trigger] b.stores@[j].0@ == p;
            a.lemma_entry_at(j);
            b.lemma_entry_at(j);
        } else if exists|j: int| 0 <= j < a.stores@.len() && #[trigger] a.stores@[j].0@ == p {
            let j = choose|j: int| 0 <= j < a.stores@.len() && #[trigger] a.stores@[j].0@ == p;
            assert(b.stores@[j].0@ == p);
        }
    }

    /// A router with no store.
    pub fn new() -> (r: MultiStore<S, F>)
        ensures
            r.wf(),
            forall|p: Seq<char>| #[trigger] r.entry(p) is None,
    {
        MultiStore { stores: Vec::new() }
    }

    /// The index of the store registered under `p`.
    fn find_prefix(&self, p: &str) -> (r: Option<usize>)
        requires
            self.wf(),
        ensures
            match r {
                Some(i) => i < self.stores@.len() && self.stores@[i as int].0@ == p@ && self.entry(
                    p@,
                ) == Some(self.stores@[i as int].1),
                None => self.entry(p@) is None,
            },
    {
        let mut i: usize = 0;
        while i < self.stores.len()
            invariant
                self.wf(),
                i <= self.stores@.len(),
                forall|j: int| 0 <= j < i ==> self.stores@[j].0@ != p@,
            decreases self.stores@.len() - i,
        {
            if str_eq(self.stores[i].0.as_str(), p) {
                proof {
                    self.lemma_entry_at(i as int);
                }
                return Some(i);
            }
            i = i + 1;
        }
        None
    }

    /// Registers `store` under `prefix`, its errors translated by `tr`; a
    /// store registered under the same prefix before is replaced.
    pub fn add<E: View, T>(&mut self, prefix: &str, store: S, tr: F) where
        S: AssetStore<E>,
        F: Fn(E) -> T,

        requires
            old(self).wf(),
        ensures
            final(self).wf(),
            final(self).entry(prefix@) == Some(StoreWrapper { store, trans: tr }),
            forall|p: Seq<char>| p != prefix@ ==> #[trigger] final(self).entry(p) == old(self).entry(p),
    {
        let wrapped = StoreWrapper::new(store, tr);
        match self.find_prefix(prefix) {
            Some(i) => {
                self.stores.set(i, (prefix.to_string(), wrapped));
                proof {
                    assert(self.wf()) by {
                        assert forall|x: int, y: int|
                            0 <= x < self.stores@.len() && 0 <= y < self.stores@.len() && x != y
                                implies (#[trigger] self.stores@[x]).0@ != (
                        #[trigger] self.stores@[y]).0@ by {
                            assert(old(self).stores@[x] == self.stores@[x] || x == i);
                            assert(old(self).stores@[y] == self.stores@[y] || y == i);
                            assert(old(self).stores@[i as int].0@ == prefix@);
                        }
                    }
                    assert forall|p: Seq<char>| p != prefix@ implies #[trigger] self.entry(p) == old(
                        self,
                    ).entry(p) by {
                        Self::lemma_entry_same(old(self), self, p);
                    }
                    self.lemma_entry_at(i as int);
                }
            },
            None => {
                self.stores.push((prefix.to_string(), wrapped));
                proof {
                    let n = old(self).stores@.len() as int;
                    assert forall|j: int| 0 <= j < n implies #[trigger] self.stores@[j] == old(
                        self,
                    ).stores@[j] by {}
                    assert(self.wf()) by {
                        assert forall|x: int, y: int|
                            0 <= x < self.stores@.len() && 0 <= y < self.stores@.len() && x != y
                                implies (#[trigger] self.stores@[x]).0@ != (
                        #[trigger] self.stores@[y]).0@ by {
                            if x < n && y < n {
                                assert(old(self).stores@[x] == self.stores@[x]);
                                assert(old(self).stores@[y] == self.stores@[y]);
                            } else if x < n {
                                assert(old(self).stores@[x].0@ != prefix@);
                            } else {
                                assert(old(self).stores@[y].0@ != prefix@);
                            }
                        }
                    }
                    assert forall|p: Seq<char>| p != prefix@ implies #[trigger] self.entry(p) == old(
                        self,
                    ).entry(p) by {
                        Self::lemma_entry_same(old(self), self, p);
                    }
                    self.lemma_entry_at(n);
                }
            },
        }
    }

    proof fn lemma_replace_at(a: &Self, b: &Self, i: int)
        requires
            a.wf(),
            0 <= i < a.stores@.len(),
            b.stores@.len() == a.stores@.len(),
            b.stores@[i].0@ == a.stores@[i].0@,
            forall|j: int| 0 <= j < a.stores@.len() && j != i ==> b.stores@[j] == a.stores@[j],
        ensures
            b.wf(),
            b.entry(a.stores@[i].0@) == Some(b.stores@[i].1),
            forall|p: Seq<char>| p != a.stores@[i].0@ ==> #[trigger] b.entry(p) == a.entry(p),
    {
        assert forall|x: int, y: int|
            0 <= x < b.stores@.len() && 0 <= y < b.stores@.len() && x != y implies (
        #[trigger] b.stores@[x]).0@ != (#[trigger] b.stores@[y]).0@ by {
            assert(a.stores@[x].0@ == b.stores@[x].0@);
            assert(a.stores@[y].0@ == b.stores@[y].0@);
        }
        b.lemma_entry_at(i);
        assert forall|p: Seq<char>| p != a.stores@[i].0@ implies #[trigger] b.entry(p) == a.entry(
            p,
        ) by {
            Self::lemma_entry_same(a, b, p);
        }
    }

    /// The index of the store that `path` is routed to, and the rest of the
    /// key that this store is asked for.
    fn get_store<'b, T>(&self, path: &'b str) -> (r: Result<(usize, &'b str), MultiStoreError<T>>)
        requires
            self.wf(),
        ensures
            !has_colon(path@) || self.entry(key_prefix(path@)) is None ==> misrouted(path@, r),
            has_colon(path@) && self.entry(key_prefix(path@)) is Some ==> match r {
                Ok((i, rest)) => {
                    &&& i < self.stores@.len()
                    &&& self.stores@[i as int].0@ == key_prefix(path@)
                    &&& self.entry(key_prefix(path@)) == Some(self.stores@[i as int].1)
                    &&& rest@ == key_rest(path@)
                },
                Err(_) => false,
            },
    {
        match find_colon(path) {
            None => Err(MultiStoreError::NoSplit),
            Some(c) => {
                let n = path.unicode_len();
                let before = path.substring_char(0, c);
                let after = path.substring_char(c + 1, n);
                match self.find_prefix(before) {
                    Some(i) => Ok((i, after)),
                    None => Err(MultiStoreError::StoreNotFound(before.to_string())),
                }
            },
        }
    }

    /// `b` is `a` after `load(k)`: a key that cannot be routed changes
    /// nothing, else only the store it is routed to changes, by one load of
    /// the rest of the key.
    pub open spec fn routed_load<E: View, T>(a: Self, b: Self, k: Seq<char>) -> bool where
        S: AssetStore<E>,
        F: Fn(E) -> T,
     {
        if !has_colon(k) || a.entry(key_prefix(k)) is None {
            b == a
        } else {
            &&& forall|p: Seq<char>| p != key_prefix(k) ==> #[trigger] b.entry(p) == a.entry(p)
            &&& b.entry(key_prefix(k)) is Some
            &&& b.entry(key_prefix(k))->0.trans == a.entry(key_prefix(k))->0.trans
            &&& a.entry(key_prefix(k))->0.store.load_step(
                b.entry(key_prefix(k))->0.store,
                key_rest(k),
            )
        }
    }

    /// `b` is `a` after `unload(k)`, as `routed_load` is for `load`.
    pub open spec fn routed_unload<E: View, T>(a: Self, b: Self, k: Seq<char>) -> bool where
        S: AssetStore<E>,
        F: Fn(E) -> T,
     {
        if !has_colon(k) || a.entry(key_prefix(k)) is None {
            b == a
        } else {
            &&& forall|p: Seq<char>| p != key_prefix(k) ==> #[trigger] b.entry(p) == a.entry(p)
            &&& b.entry(key_prefix(k)) is Some
            &&& b.entry(key_prefix(k))->0.trans == a.entry(key_prefix(k))->0.trans
            &&& a.entry(key_prefix(k))->0.store.unload_step(
                b.entry(key_prefix(k))->0.store,
                key_rest(k),
            )
        }
    }

    /// Tells the store that `path` is routed to to begin loading the rest of
    /// the key; a key that cannot be routed is ignored.
    pub fn load<E: View, T>(&mut self, path: &str) where S: AssetStore<E>, F: Fn(E) -> T
        requires
            old(self).ready::<E, T>(),
        ensures
            final(self).ready::<E, T>(),
            Self::routed_load::<E, T>(*old(self), *final(self), path@),
    {
        match self.get_store::<T>(path) {
            Ok((i, rest)) => {
                proof {
                    old(self).lemma_entry_at(i as int);
                }
                self.stores[i].1.store.load(rest);
                proof {
                    Self::lemma_replace_at(old(self), self, i as int);
                }
            },
            Err(_) => {},
        }
    }

    /// Whether the resource that `path` is routed to is loaded, with the
    /// store's error translated; a key that cannot be routed fails.
    pub fn is_loaded<E: View, T>(&self, path: &str) -> (r: Result<bool, MultiStoreError<T>>) where
        S: AssetStore<E>,
        F: Fn(E) -> T,

        requires
            self.ready::<E, T>(),
        ensures
            !has_colon(path@) || self.entry(key_prefix(path@)) is None ==> misrouted(path@, r),
            has_colon(path@) && self.entry(key_prefix(path@)) is Some ==> translated_status(
                self.entry(key_prefix(path@))->0.store.outcome(key_rest(path@)),
                self.entry(key_prefix(path@))->0.trans,
                r,
            ),
    {
        match self.get_store::<T>(path) {
            Ok((i, rest)) => {
                self.stores[i].1.is_loaded(rest)
            },
            Err(e) => Err(e),
        }
    }

    /// Forgets the resource that `path` is routed to; a key that cannot be
    /// routed is ignored.
    pub fn unload<E: View, T>(&mut self, path: &str) where S: AssetStore<E>, F: Fn(E) -> T
        requires
            old(self).ready::<E, T>(),
        ensures
            final(self).ready::<E, T>(),
            Self::routed_unload::<E, T>(*old(self), *final(self), path@),
    {
        match self.get_store::<T>(path) {
            Ok((i, rest)) => {
                proof {
                    old(self).lemma_entry_at(i as int);
                }
                self.stores[i].1.store.unload(rest);
                proof {
                    Self::lemma_replace_at(old(self), self, i as int);
                }
            },
            Err(_) => {},
        }
    }

    /// Tells every registered store to forget every resource.
    pub fn unload_everything<E: View, T>(&mut self) where S: AssetStore<E>, F: Fn(E) -> T
        requires
            old(self).ready::<E, T>(),
        ensures
            final(self).ready::<E, T>(),
            forall|p: Seq<char>| #[trigger] final(self).entry(p) is Some == old(self).entry(p) is Some,
            forall|p: Seq<char>|
                #[trigger] old(self).entry(p) is Some ==> final(self).entry(p)->0.trans == old(
                    self,
                ).entry(p)->0.trans && old(self).entry(p)->0.store.clear_step(
                    final(self).entry(p)->0.store,
                ),
    {
        let mut i: usize = 0;
        while i < self.stores.len()
            invariant
                self.ready::<E, T>(),
                i <= self.stores@.len(),
                self.stores@.len() == old(self).stores@.len(),
                forall|j: int|
                    0 <= j < self.stores@.len() ==> (#[trigger] self.stores@[j]).0 == old(
                        self,
                    ).stores@[j].0 && self.stores@[j].1.trans == old(self).stores@[j].1.trans,
                forall|j: int|
                    0 <= j < i ==> (#[trigger] old(self).stores@[j]).1.store.clear_step(
                        self.stores@[j].1.store,
                    ),
                forall|j: int| i <= j < self.stores@.len() ==> #[trigger] self.stores@[j] == old(
                    self,
                ).stores@[j],
            decreases self.stores@.len() - i,
        {
            let ghost before = *self;
            proof {
                before.lemma_entry_at(i as int);
            }
            self.stores[i].1.store.unload_everything();
            proof {
                Self::lemma_replace_at(&before, self, i as int);
                assert forall|j: int|
                    0 <= j < i + 1 implies (#[trigger] old(self).stores@[j]).1.store.clear_step(
                    self.stores@[j].1.store,
                ) by {
                    if j < i {
                        assert(self.stores@[j] == before.stores@[j]);
                    }
                }
                assert forall|j: int|
                    i + 1 <= j < self.stores@.len() implies #[trigger] self.stores@[j] == old(
                    self,
                ).stores@[j] by {
                    assert(self.stores@[j] == before.stores@[j]);
                }
            }
            i = i + 1;
        }
        proof {
            assert forall|p: Seq<char>| #[trigger] self.entry(p) is Some == old(self).entry(
                p,
            ) is Some && (old(self).entry(p) is Some ==> self.entry(p)->0.trans == old(
                self,
            ).entry(p)->0.trans && old(self).entry(p)->0.store.clear_step(
                self.entry(p)->0.store,
            )) by {
                if exists|j: int| 0 <= j < self.stores@.len() && #[trigger] self.stores@[j].0@ == p {
                    let j = choose|j: int|
                        0 <= j < self.stores@.len() && #[trigger] self.stores@[j].0@ == p;
                    self.lemma_entry_at(j);
                    old(self).lemma_entry_at(j);
                } else if exists|j: int|
                    0 <= j < old(self).stores@.len() && #[trigger] old(self).stores@[j].0@ == p {
                    let j = choose|j: int|
                        0 <= j < old(self).stores@.len() && #[trigger] old(self).stores@[j].0@ == p;
                    assert(self.stores@[j].0@ == p);
                }
            }
        }
    }

    /// The transform applied to the resource that `path` is routed to, with
    /// the store's error translated; a key that cannot be routed fails.
    pub fn map_resource<E: View, T, O, M: Fn(&[u8]) -> O>(&self, path: &str, mapfn: M) -> (r:
        Result<Option<O>, MultiStoreError<T>>) where S: AssetStore<E>, F: Fn(E) -> T
        requires
            self.ready::<E, T>(),
            forall|s: &[u8]| #[trigger] mapfn.requires((s,)),
        ensures
            !has_colon(path@) || self.entry(key_prefix(path@)) is None ==> misrouted(path@, r),
            has_colon(path@) && self.entry(key_prefix(path@)) is Some ==> translated_map(
                self.entry(key_prefix(path@))->0.store.outcome(key_rest(path@)),
                self.entry(key_prefix(path@))->0.trans,
                mapfn,
                r,
            ),
    {
        match self.get_store::<T>(path) {
            Ok((i, rest)) => {
                self.stores[i].1.map_resource(rest, mapfn)
            },
            Err(e) => Err(e),
        }
    }

    /// Whether a query of `k` fails: it cannot be routed, or the store it is
    /// routed to resolved it to an error.
    pub open spec fn key_fails<E: View, T>(&self, k: Seq<char>) -> bool where
        S: AssetStore<E>,
        F: Fn(E) -> T,
     {
        !has_colon(k) || self.entry(key_prefix(k)) is None || self.entry(key_prefix(k))->0.store.outcome(
            key_rest(k),
        ) matches Some(Err(_))
    }

    /// `r` is what a query of `k` may answer.
    pub open spec fn key_status<E: View, T>(&self, k: Seq<char>, r: Result<bool, MultiStoreError<T>>) -> bool where
        S: AssetStore<E>,
        F: Fn(E) -> T,
     {
        if !has_colon(k) || self.entry(key_prefix(k)) is None {
            misrouted(k, r)
        } else {
            translated_status(
                self.entry(key_prefix(k))->0.store.outcome(key_rest(k)),
                self.entry(key_prefix(k))->0.trans,
                r,
            )
        }
    }

    /// Whether every one of `paths` is loaded in the store it is routed to;
    /// when some failed, to be routed or in their store, the list of every
    /// failure instead, in the order of `paths`.
    pub fn all_loaded<'a, E: View, T>(&self, paths: &[&'a str]) -> (r: Result<
        bool,
        Vec<(&'a str, MultiStoreError<T>)>,
    >) where S: AssetStore<E>, F: Fn(E) -> T
        requires
            self.ready::<E, T>(),
        ensures
            ({
                let keys = keys_of(paths@);
                let fails = failing_keys(keys, |k: Seq<char>| self.key_fails::<E, T>(k));
                if fails.len() == 0 {
                    r == Ok::<bool, Vec<(&'a str, MultiStoreError<T>)>>(
                        forall|i: int|
                            0 <= i < keys.len() ==> #[trigger] self.key_status::<E, T>(
                                keys[i],
                                Ok(true),
                            ),
                    )
                } else {
                    match r {
                        Ok(_) => false,
                        Err(errs) => {
                            &&& errs@.len() == fails.len()
                            &&& forall|i: int|
                                0 <= i < fails.len() ==> (#[trigger] errs@[i]).0@ == fails[i]
                                    && self.key_status::<E, T>(fails[i], Err(errs@[i].1))
                        },
                    }
                }
            }),
    {
        let ghost fk = |k: Seq<char>| self.key_fails::<E, T>(k);
        let mut status = true;
        let mut errs: Vec<(&'a str, MultiStoreError<T>)> = Vec::new();
        let mut i: usize = 0;
        while i < paths.len()
            invariant
                self.ready::<E, T>(),
                fk == |k: Seq<char>| self.key_fails::<E, T>(k),
                i <= paths@.len(),
                errs@.len() == failing_keys(keys_of(paths@).subrange(0, i as int), fk).len(),
                forall|j: int|
                    0 <= j < errs@.len() ==> (#[trigger] errs@[j]).0@ == failing_keys(
                        keys_of(paths@).subrange(0, i as int),
                        fk,
                    )[j] && self.key_status::<E, T>(
                        failing_keys(keys_of(paths@).subrange(0, i as int), fk)[j],
                        Err(errs@[j].1),
                    ),
                failing_keys(keys_of(paths@).subrange(0, i as int), fk).len() == 0 ==> status
                    == forall|j: int|
                    0 <= j < i ==> #[trigger] self.key_status::<E, T>(
                        keys_of(paths@)[j],
                        Ok(true),
                    ),
            decreases paths@.len() - i,
        {
            let p = paths[i];
            let ghost before = keys_of(paths@).subrange(0, i as int);
            let ghost after = keys_of(paths@).subrange(0, i + 1);
            proof {
                assert(after.drop_last() =~= before);
                assert(after.last() == p@);
            }
            let q = self.is_loaded::<E, T>(p);
            proof {
                assert(self.key_status::<E, T>(p@, q));
            }
            match q {
                Ok(b) => {
                    proof {
                        assert(!self.key_fails::<E, T>(p@));
                        assert(self.key_status::<E, T>(p@, Ok(true)) == b);
                    }
                    status = status && b;
                },
                Err(e) => {
                    proof {
                        assert(self.key_fails::<E, T>(p@));
                    }
                    errs.push((p, e));
                },
            }
            i = i + 1;
        }
        proof {
            assert(keys_of(paths@).subrange(0, i as int) =~= keys_of(paths@));
        }
        if errs.len() == 0 {
            Ok(status)
        } else {
            Err(errs)
        }
    }

    /// Like `map_resource`, for a transform run for its effect alone.
    pub fn with_bytes<E: View, T, W: Fn(&[u8])>(&self, path: &str, with_fn: W) -> (r: Result<
        Option<()>,
        MultiStoreError<T>,
    >) where S: AssetStore<E>, F: Fn(E) -> T
        requires
            self.ready::<E, T>(),
            forall|s: &[u8]| #[trigger] with_fn.requires((s,)),
        ensures
            !has_colon(path@) || self.entry(key_prefix(path@)) is None ==> misrouted(path@, r),
            has_colon(path@) && self.entry(key_prefix(path@)) is Some ==> translated_map(
                self.entry(key_prefix(path@))->0.store.outcome(key_rest(path@)),
                self.entry(key_prefix(path@))->0.trans,
                with_fn,
                r,
            ),
    {
        self.map_resource(path, with_fn)
    }

    /// Tells the stores that `paths` are routed to to begin loading them;
    /// keys that cannot be routed are ignored.
    pub fn load_all<E: View, T>(&mut self, paths: &[&str]) where S: AssetStore<E>, F: Fn(E) -> T
        requires
            old(self).ready::<E, T>(),
        ensures
            final(self).ready::<E, T>(),
            exists|states: Seq<Self>|
                #![trigger states.len()]
                {
                    &&& states.len() == paths@.len() + 1
                    &&& states[0] == *old(self)
                    &&& states.last() == *final(self)
                    &&& forall|i: int|
                        0 <= i < paths@.len() ==> #[trigger] Self::routed_load::<E, T>(
                            states[i],
                            states[i + 1],
                            paths@[i]@,
                        )
                },
    {
        let ghost states = seq![*self];
        let mut i: usize = 0;
        while i < paths.len()
            invariant
                self.ready::<E, T>(),
                i <= paths@.len(),
                states.len() == i + 1,
                states[0] == *old(self),
                states.last() == *self,
                forall|j: int|
                    0 <= j < i ==> #[trigger] Self::routed_load::<E, T>(
                        states[j],
                        states[j + 1],
                        paths@[j]@,
                    ),
            decreases paths@.len() - i,
        {
            self.load::<E, T>(paths[i]);
            proof {
                let prev = states;
                states = states.push(*self);
                assert forall|j: int| 0 <= j < i + 1 implies #[trigger] Self::routed_load::<E, T>(
                    states[j],
                    states[j + 1],
                    paths@[j]@,
                ) by {
                    if j < i {
                        assert(states[j] == prev[j] && states[j + 1] == prev[j + 1]);
                    }
                }
            }
            i = i + 1;
        }
        assert(states.len() == paths@.len() + 1);
    }

    /// Forgets each of `paths` in the store it is routed to; keys that
    /// cannot be routed are ignored.
    pub fn unload_all<E: View, T>(&mut self, paths: &[&str]) where S: AssetStore<E>, F: Fn(E) -> T
        requires
            old(self).ready::<E, T>(),
        ensures
            final(self).ready::<E, T>(),
            exists|states: Seq<Self>|
                #![trigger states.len()]
                {
                    &&& states.len() == paths@.len() + 1
                    &&& states[0] == *old(self)
                    &&& states.last() == *final(self)
                    &&& forall|i: int|
                        0 <= i < paths@.len() ==> #[trigger] Self::routed_unload::<E, T>(
                            states[i],
                            states[i + 1],
                            paths@[i]@,
                        )
                },
    {
        let ghost states = seq![*self];
        let mut i: usize = 0;
        while i < paths.len()
            invariant
                self.ready::<E, T>(),
                i <= paths@.len(),
                states.len() == i + 1,
                states[0] == *old(self),
                states.last() == *self,
                forall|j: int|
                    0 <= j < i ==> #[trigger] Self::routed_unload::<E, T>(
                        states[j],
                        states[j + 1],
                        paths@[j]@,
                    ),
            decreases paths@.len() - i,
        {
            self.unload::<E, T>(paths[i]);
            proof {
                let prev = states;
                states = states.push(*self);
                assert forall|j: int| 0 <= j < i + 1 implies #[trigger] Self::routed_unload::<E, T>(
                    states[j],
                    states[j + 1],
                    paths@[j]@,
                ) by {
                    if j < i {
                        assert(states[j] == prev[j] && states[j + 1] == prev[j + 1]);
                    }
                }
            }
            i = i + 1;
        }
        assert(states.len() == paths@.len() + 1);
    }
}

/// A job of one of a router's stores, addressed by the prefix that the
/// store is registered under.
pub struct RoutedJob {
    pub prefix: String,
    pub source: Source,
    pub job: Job,
}

/// A blocking answer seen as a polled one: a value is `Some` value.
pub open spec fn as_polled<O, T>(r: Result<O, MultiStoreError<T>>) -> Result<
    Option<O>,
    MultiStoreError<T>,
> {
    match r {
        Ok(v) => Ok(Some(v)),
        Err(e) => Err(e),
    }
}

impl<F> MultiStore<AnyStore, F> {
    /// Whether a blocking query of `k` needs no outside work: the key cannot
    /// be routed, or it is routed to a static store.
    pub open spec fn settles(&self, k: Seq<char>) -> bool {
        !has_colon(k) || self.entry(key_prefix(k)) is None || self.entry(
            key_prefix(k),
        )->0.store is Static
    }

    /// Takes the oldest pending job of the first store that has one.
    pub fn next_job<T>(&mut self) -> (r: Option<RoutedJob>) where F: Fn(AnyError) -> T
        requires
            old(self).ready::<AnyError, T>(),
        ensures
            final(self).ready::<AnyError, T>(),
            r is None ==> *final(self) == *old(self) && forall|p: Seq<char>| #[trigger]
                old(self).entry(p) is Some ==> old(self).entry(p)->0.store.pending().len() == 0,
            r matches Some(rj) ==> {
                let before = old(self).entry(rj.prefix@);
                let after = final(self).entry(rj.prefix@);
                &&& before is Some
                &&& before->0.store.pending().len() > 0
                &&& rj.job == before->0.store.pending()[0]
                &&& after is Some
                &&& after->0.trans == before->0.trans
                &&& AnyStore::taken(before->0.store, after->0.store)
                &&& forall|p: Seq<char>| p != rj.prefix@ ==> #[trigger] final(self).entry(p) == old(
                    self,
                ).entry(p)
            },
    {
        let mut i: usize = 0;
        while i < self.stores.len()
            invariant
                *self == *old(self),
                self.ready::<AnyError, T>(),
                i <= self.stores@.len(),
                forall|j: int| 0 <= j < i ==> (#[trigger] self.stores@[j]).1.store.pending().len() == 0,
            decreases self.stores@.len() - i,
        {
            if self.stores[i].1.store.has_jobs() {
                proof {
                    old(self).lemma_entry_at(i as int);
                }
                let prefix = self.stores[i].0.clone();
                let taken = self.stores[i].1.store.next_job();
                proof {
                    Self::lemma_replace_at(old(self), self, i as int);
                }
                match taken {
                    Some((source, job)) => {
                        return Some(RoutedJob { prefix, source, job });
                    },
                    None => {
                        return None;
                    },
                }
            }
            i = i + 1;
        }
        proof {
            assert forall|p: Seq<char>| #[trigger]
                old(self).entry(p) is Some implies old(self).entry(p)->0.store.pending().len()
                == 0 by {
                let j = choose|j: int|
                    0 <= j < self.stores@.len() && #[trigger] self.stores@[j].0@ == p;
                self.lemma_entry_at(j);
            }
        }
        None
    }

    /// Hands back the outcome of a job to the store it came from; a job
    /// whose prefix is no longer registered is dropped.
    pub fn complete<T>(&mut self, rj: RoutedJob, outcome: Result<Vec<u8>, IoError>) where
        F: Fn(AnyError) -> T,

        requires
            old(self).ready::<AnyError, T>(),
        ensures
            final(self).ready::<AnyError, T>(),
            old(self).entry(rj.prefix@) is None ==> *final(self) == *old(self),
            old(self).entry(rj.prefix@) is Some ==> {
                let before = old(self).entry(rj.prefix@)->0;
                let after = final(self).entry(rj.prefix@);
                &&& after is Some
                &&& after->0.trans == before.trans
                &&& AnyStore::completed(before.store, after->0.store, rj.job.key@, outcome)
                &&& forall|p: Seq<char>| p != rj.prefix@ ==> #[trigger] final(self).entry(p) == old(
                    self,
                ).entry(p)
            },
    {
        match self.find_prefix(rj.prefix.as_str()) {
            Some(i) => {
                self.stores[i].1.store.complete(rj.job, outcome);
                proof {
                    Self::lemma_replace_at(old(self), self, i as int);
                }
            },
            None => {},
        }
    }

    /// Loads `path` and reads it through `mapfn`, for keys that need no
    /// outside work; the store's error is translated, and a key that cannot
    /// be routed fails.
    pub fn map_resource_block<T, O, M: Fn(&[u8]) -> O>(&mut self, path: &str, mapfn: M) -> (r:
        Result<O, MultiStoreError<T>>) where F: Fn(AnyError) -> T
        requires
            old(self).ready::<AnyError, T>(),
            old(self).settles(path@),
            forall|s: &[u8]| #[trigger] mapfn.requires((s,)),
        ensures
            final(self).ready::<AnyError, T>(),
            Self::routed_load::<AnyError, T>(*old(self), *final(self), path@),
            !has_colon(path@) || old(self).entry(key_prefix(path@)) is None ==> misrouted(path@, r),
            has_colon(path@) && old(self).entry(key_prefix(path@)) is Some ==> translated_map(
                final(self).entry(key_prefix(path@))->0.store.outcome(key_rest(path@)),
                final(self).entry(key_prefix(path@))->0.trans,
                mapfn,
                as_polled(r),
            ),
    {
        self.load::<AnyError, T>(path);
        match self.map_resource::<AnyError, T, O, M>(path, mapfn) {
            Ok(Some(v)) => Ok(v),
            Ok(None) => {
                proof {
                    let st = old(self).entry(key_prefix(path@))->0.store;
                    assert(st matches AnyStore::Static(_));
                }
                Err(MultiStoreError::NoSplit)
            },
            Err(e) => Err(e),
        }
    }
}

} // verus!
