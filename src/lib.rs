//! Named binary resources loaded from interchangeable backends into a cache
//! that callers poll, with a prefix router over several stores.
use vstd::prelude::*;

pub mod any_store;
pub mod iostore;
pub mod multi_store;
pub mod static_store;
pub mod test;

pub use iostore::{
    from_directory, from_url, response_outcome, Fetch, FsBackend, IoBackend, IoError, IoStore, Job,
    NetBackend,
};
pub use any_store::{AnyError, AnyStore, Source};
pub use multi_store::{MultiStore, MultiStoreError, RoutedJob};
pub use static_store::{StaticStore, StaticStoreError};
pub use test::to_unit;

verus! {

/// What a query answers for a resource: not yet resolved (`Ok(false)`),
/// resolved with bytes (`Ok(true)`), or resolved with an error.
pub open spec fn loaded_status<V>(o: Option<Result<Seq<u8>, V>>) -> Result<bool, V> {
    match o {
        None => Ok(false),
        Some(Ok(_)) => Ok(true),
        Some(Err(e)) => Err(e),
    }
}

/// A status with its error seen through the error's view.
pub open spec fn status_view<E: View>(r: Result<bool, E>) -> Result<bool, E::V> {
    match r {
        Ok(b) => Ok(b),
        Err(e) => Err(e@),
    }
}

/// `r` is what `map_resource` may return when the resource stands at `o`:
/// the transform's result on the cached bytes, `Ok(None)` while unresolved,
/// or the cached error.
pub open spec fn mapped<E: View, O, F: Fn(&[u8]) -> O>(
    o: Option<Result<Seq<u8>, E::V>>,
    f: F,
    r: Result<Option<O>, E>,
) -> bool {
    match o {
        None => r == Ok::<Option<O>, E>(None),
        Some(Err(e)) => match r {
            Err(x) => x@ == e,
            _ => false,
        },
        Some(Ok(b)) => match r {
            Ok(Some(v)) => exists|s: &[u8]| s@ == b && #[trigger] call_ensures(f, (s,), v),
            _ => false,
        },
    }
}

/// The keys among `keys` whose outcome under `outs` is an error, in order,
/// each with that error.
pub open spec fn failures<V>(
    keys: Seq<Seq<char>>,
    outs: spec_fn(Seq<char>) -> Option<Result<Seq<u8>, V>>,
) -> Seq<(Seq<char>, V)>
    decreases keys.len(),
{
    if keys.len() == 0 {
        Seq::empty()
    } else {
        let rest = failures(keys.drop_last(), outs);
        match outs(keys.last()) {
            Some(Err(e)) => rest.push((keys.last(), e)),
            _ => rest,
        }
    }
}

/// Whether every key of `keys` resolved to bytes under `outs`.
pub open spec fn all_resolved<V>(
    keys: Seq<Seq<char>>,
    outs: spec_fn(Seq<char>) -> Option<Result<Seq<u8>, V>>,
) -> bool {
    forall|i: int| 0 <= i < keys.len() ==> #[trigger] outs(keys[i]) matches Some(Ok(_))
}

/// The keys of a list of string slices.
pub open spec fn keys_of(paths: Seq<&str>) -> Seq<Seq<char>> {
    paths.map_values(|p: &str| p@)
}

/// `r` is the answer to a query of all of `keys` under `outs`: the list of
/// failures when there is one, else whether every key resolved to bytes.
pub open spec fn aggregated<E: View, 'a>(
    keys: Seq<Seq<char>>,
    outs: spec_fn(Seq<char>) -> Option<Result<Seq<u8>, E::V>>,
    r: Result<bool, Vec<(&'a str, E)>>,
) -> bool {
    let fails = failures(keys, outs);
    if fails.len() == 0 {
        r == Ok::<bool, Vec<(&'a str, E)>>(all_resolved(keys, outs))
    } else {
        match r {
            Ok(_) => false,
            Err(errs) => {
                &&& errs@.len() == fails.len()
                &&& forall|i: int|
                    0 <= i < fails.len() ==> (#[trigger] errs@[i]).0@ == fails[i].0 && errs@[i].1@
                        == fails[i].1
            },
        }
    }
}

/// The interface every store offers: begin loading a resource, ask whether
/// it is resolved, read it through a transform, and forget it again.
pub trait AssetStore<E: View>: Sized {
    /// The store's own invariant.
    spec fn wf(&self) -> bool;

    /// What a non-blocking query of `path` sees: `None` while nothing is
    /// resolved for it, else the bytes or the error it resolved to.
    spec fn outcome(&self, path: Seq<char>) -> Option<Result<Seq<u8>, E::V>>;

    /// `next` is this store after `load(path)`.
    spec fn load_step(&self, next: Self, path: Seq<char>) -> bool;

    /// `next` is this store after `unload(path)`.
    spec fn unload_step(&self, next: Self, path: Seq<char>) -> bool;

    /// `next` is this store after `unload_everything()`.
    spec fn clear_step(&self, next: Self) -> bool;

    /// Tells the store to begin loading a resource.
    fn load(&mut self, path: &str)
        requires
            old(self).wf(),
        ensures
            final(self).wf(),
            old(self).load_step(*final(self), path@),
    ;

    /// `Ok(true)` once the resource resolved to bytes, `Ok(false)` while it is
    /// not resolved, the error it resolved to otherwise.
    fn is_loaded(&self, path: &str) -> (r: Result<bool, E>)
        requires
            self.wf(),
        ensures
            status_view(r) == loaded_status(self.outcome(path@)),
    ;

    /// Tells the store to begin loading each of `paths`.
    fn load_all(&mut self, paths: &[&str])
        requires
            old(self).wf(),
        ensures
            final(self).wf(),
            exists|states: Seq<Self>|
                #![trigger states.len()]
                {
                    &&& states.len() == paths@.len() + 1
                    &&& states[0] == *old(self)
                    &&& states.last() == *final(self)
                    &&& forall|i: int|
                        0 <= i < paths@.len() ==> #[trigger] states[i].load_step(
                            states[i + 1],
                            paths@[i]@,
                        )
                },
    {
        let ghost states = seq![*self];
        let mut i: usize = 0;
        while i < paths.len()
            invariant
                self.wf(),
                i <= paths@.len(),
                states.len() == i + 1,
                states[0] == *old(self),
                states.last() == *self,
                forall|j: int|
                    0 <= j < i ==> #[trigger] states[j].load_step(states[j + 1], paths@[j]@),
            decreases paths@.len() - i,
        {
            let ghost before = *self;
            self.load(paths[i]);
            proof {
                let prev = states;
                states = states.push(*self);
                assert forall|j: int|
                    0 <= j < i + 1 implies #[trigger] states[j].load_step(states[j + 1], paths@[j]@) by {
                    if j < i {
                        assert(states[j] == prev[j] && states[j + 1] == prev[j + 1]);
                    }
                }
            }
            i = i + 1;
        }
        assert(states.len() == paths@.len() + 1);
    }

    /// Whether every one of `paths` is loaded; when some failed, the list of
    /// every failure instead, in the order of `paths`.
    fn all_loaded<'a>(&self, paths: &[&'a str]) -> (r: Result<bool, Vec<(&'a str, E)>>)
        requires
            self.wf(),
        ensures
            aggregated(keys_of(paths@), |k: Seq<char>| self.outcome(k), r),
    {
        let ghost outs = |k: Seq<char>| self.outcome(k);
        let mut status = true;
        let mut errs: Vec<(&'a str, E)> = Vec::new();
        let mut i: usize = 0;
        while i < paths.len()
            invariant
                self.wf(),
                outs == |k: Seq<char>| self.outcome(k),
                i <= paths@.len(),
                errs@.len() == failures(keys_of(paths@).subrange(0, i as int), outs).len(),
                forall|j: int|
                    0 <= j < errs@.len() ==> (#[trigger] errs@[j]).0@ == failures(
                        keys_of(paths@).subrange(0, i as int),
                        outs,
                    )[j].0 && errs@[j].1@ == failures(
                        keys_of(paths@).subrange(0, i as int),
                        outs,
                    )[j].1,
                failures(keys_of(paths@).subrange(0, i as int), outs).len() == 0 ==> status
                    == all_resolved(keys_of(paths@).subrange(0, i as int), outs),
            decreases paths@.len() - i,
        {
            let p = paths[i];
            let ghost before = keys_of(paths@).subrange(0, i as int);
            let ghost after = keys_of(paths@).subrange(0, i + 1);
            proof {
                assert(after.drop_last() =~= before);
                assert(after.last() == p@);
            }
            match self.is_loaded(p) {
                Ok(b) => {
                    status = status && b;
                },
                Err(e) => {
                    errs.push((p, e));
                },
            }
            i = i + 1;
        }
        proof {
            assert(keys_of(paths@).subrange(0, i as int) =~= keys_of(paths@));
        }
        if errs.len() == 0 {
            Ok(status)
        } else {
            Err(errs)
        }
    }

    /// Forgets a resource if it is resolved; other resources stay as they are.
    fn unload(&mut self, path: &str)
        requires
            old(self).wf(),
        ensures
            final(self).wf(),
            old(self).unload_step(*final(self), path@),
            forall|k: Seq<char>| k != path@ ==> final(self).outcome(k) == old(self).outcome(k),
    ;

    /// Forgets each of `paths` that is resolved.
    fn unload_all(&mut self, paths: &[&str])
        requires
            old(self).wf(),
        ensures
            final(self).wf(),
            exists|states: Seq<Self>|
                #![trigger states.len()]
                {
                    &&& states.len() == paths@.len() + 1
                    &&& states[0] == *old(self)
                    &&& states.last() == *final(self)
                    &&& forall|i: int|
                        0 <= i < paths@.len() ==> #[trigger] states[i].unload_step(
                            states[i + 1],
                            paths@[i]@,
                        )
                },
            forall|k: Seq<char>|
                !keys_of(paths@).contains(k) ==> final(self).outcome(k) == old(self).outcome(k),
    {
        let ghost states = seq![*self];
        let mut i: usize = 0;
        while i < paths.len()
            invariant
                self.wf(),
                i <= paths@.len(),
                states.len() == i + 1,
                states[0] == *old(self),
                states.last() == *self,
                forall|j: int|
                    0 <= j < i ==> #[trigger] states[j].unload_step(states[j + 1], paths@[j]@),
                forall|k: Seq<char>|
                    !keys_of(paths@).contains(k) ==> self.outcome(k) == old(self).outcome(k),
            decreases paths@.len() - i,
        {
            proof {
                assert(keys_of(paths@)[i as int] == paths@[i as int]@);
            }
            let ghost before = *self;
            self.unload(paths[i]);
            proof {
                let prev = states;
                states = states.push(*self);
                assert forall|j: int|
                    0 <= j < i + 1 implies #[trigger] states[j].unload_step(states[j + 1], paths@[j]@) by {
                    if j < i {
                        assert(states[j] == prev[j] && states[j + 1] == prev[j + 1]);
                    }
                }
            }
            i = i + 1;
        }
        assert(states.len() == paths@.len() + 1);
    }

    /// Like `map_resource`, for a transform run for its effect alone.
    fn with_bytes<F: Fn(&[u8])>(&self, path: &str, with_fn: F) -> (r: Result<Option<()>, E>)
        requires
            self.wf(),
            forall|s: &[u8]| #[trigger] with_fn.requires((s,)),
        ensures
            mapped(self.outcome(path@), with_fn, r),
    {
        self.map_resource(path, with_fn)
    }

    /// Forgets every resource.
    fn unload_everything(&mut self)
        requires
            old(self).wf(),
        ensures
            final(self).wf(),
            old(self).clear_step(*final(self)),
    ;

    /// The transform applied to the resource's bytes if it resolved to bytes,
    /// `Ok(None)` while it is not resolved, the error it resolved to otherwise.
    fn map_resource<O, F: Fn(&[u8]) -> O>(&self, path: &str, mapfn: F) -> (r: Result<
        Option<O>,
        E,
    >)
        requires
            self.wf(),
            forall|s: &[u8]| #[trigger] mapfn.requires((s,)),
        ensures
            mapped(self.outcome(path@), mapfn, r),
    ;
}

} // verus!
