//! The profile store: the set of named containers, with atomic replacement.
//!
//! The store holds its containers in memory.  A container is replaced in two
//! steps, as a file is by writing a temporary file and renaming it: it is
//! staged beside the stored containers, which stay as they are, and then
//! committed in one step.  Whoever mirrors the store on disk can follow the
//! same two steps.

use crate::container::container_of;
use crate::container::decoded;
use crate::container::encode;
use crate::container::lemma_container_bytes;
use crate::container::Container;
use crate::container::ContainerView;
use crate::envs::serialized;
use crate::envs::EnvMap;
use crate::envs::Entry;
use crate::cipher::MAX_PLAINTEXT;
use crate::error::CodecError;
use crate::error::CryptoError;
use crate::error::StoreError;
use crate::table::assoc_map;
use crate::table::lemma_assoc_at;
use crate::table::Table;
use vstd::prelude::*;

verus! {

/// A store as plain values: the stored containers by name, and the container
/// that is staged to replace or join them, if there is one.
pub struct StoreModel {
    pub contents: Map<Seq<char>, ContainerView>,
    pub pending: Option<(Seq<char>, ContainerView)>,
}

impl StoreModel {
    /// The store after `container` was staged under `name`.
    pub open spec fn staged(self, name: Seq<char>, container: ContainerView) -> StoreModel {
        StoreModel { contents: self.contents, pending: Some((name, container)) }
    }

    /// The store after what was staged took its place.
    pub open spec fn committed(self) -> StoreModel {
        match self.pending {
            Some((name, container)) => StoreModel {
                contents: self.contents.insert(name, container),
                pending: None,
            },
            None => self,
        }
    }

    /// The store after what was staged was thrown away.
    pub open spec fn discarded(self) -> StoreModel {
        StoreModel { contents: self.contents, pending: None }
    }

    /// The store after `container` was written under `name`.
    pub open spec fn written(self, name: Seq<char>, container: ContainerView) -> StoreModel {
        self.staged(name, container).committed()
    }
}

/// The names of a store after a write under `name`: as before where the
/// name was stored already, with the name at the end where it is new.
pub open spec fn listed_after_write(names: Seq<Seq<char>>, name: Seq<char>) -> Seq<Seq<char>> {
    if names.contains(name) {
        names
    } else {
        names.push(name)
    }
}

/// A write is atomic: while the new container is only staged, and after an
/// interrupted write was cleaned up, every name reads as before the write;
/// after the commit the written name reads as the new container and every
/// other name as before.  No state in between holds anything else.
pub proof fn lemma_write_is_atomic(store: StoreModel, name: Seq<char>, container: ContainerView)
    ensures
        store.staged(name, container).contents == store.contents,
        store.staged(name, container).discarded().contents == store.contents,
        store.written(name, container).contents == store.contents.insert(name, container),
        store.written(name, container).contents[name] == container,
        store.written(name, container).pending is None,
        forall|other: Seq<char>|
            other != name ==> (store.written(name, container).contents.contains_key(other)
                <==> store.contents.contains_key(other)),
        forall|other: Seq<char>|
            other != name && store.contents.contains_key(other) ==> store.written(
                name,
                container,
            ).contents[other] == store.contents[other],
{
}

#[derive(Clone, Debug)]
struct Staged {
    name: String,
    container: Container,
}

/// The stored profiles.
#[derive(Clone, Debug)]
pub struct Store {
    profiles: Table<Container>,
    staged: Option<Staged>,
}

impl View for Store {
    type V = StoreModel;

    closed spec fn view(&self) -> StoreModel {
        StoreModel {
            contents: assoc_map(self.profiles.keys(), self.containers()),
            pending: match self.staged {
                Some(s) => Some((s.name@, s.container@)),
                None => None,
            },
        }
    }
}

impl Store {
    /// The names of the stored profiles, in the order in which they came.
    pub closed spec fn names(&self) -> Seq<Seq<char>> {
        self.profiles.keys()
    }

    spec fn containers(&self) -> Seq<ContainerView> {
        Seq::new(self.profiles.values().len(), |i: int| self.profiles.values()[i]@)
    }

    /// No name is stored twice.
    pub closed spec fn wf(&self) -> bool {
        self.profiles.wf()
    }

    /// The names are distinct and are the names that the store binds.
    pub proof fn lemma_names(&self)
        requires
            self.wf(),
        ensures
            self.names().no_duplicates(),
            forall|name: Seq<char>| self.names().contains(name) <==> self@.contents.contains_key(name),
    {
    }

    /// The empty store.
    pub fn new() -> (store: Store)
        ensures
            store.wf(),
            store@.contents == Map::<Seq<char>, ContainerView>::empty(),
            store@.pending is None,
            store.names() == Seq::<Seq<char>>::empty(),
    {
        let store = Store { profiles: Table::new(), staged: None };
        assert(store@.contents =~= Map::<Seq<char>, ContainerView>::empty());
        store
    }

    /// Whether a profile of that name is stored.
    pub fn contains(&self, name: &str) -> (found: bool)
        requires
            self.wf(),
        ensures
            found == self@.contents.contains_key(name@),
    {
        self.profiles.find(name).is_some()
    }

    /// The names of the stored profiles.
    pub fn list(&self) -> (names: Vec<String>)
        requires
            self.wf(),
        ensures
            names@.len() == self.names().len(),
            forall|i: int| 0 <= i < names@.len() ==> (#[trigger] names@[i])@ == self.names()[i],
    {
        let mut names: Vec<String> = Vec::new();
        let n = self.profiles.len();
        let mut i: usize = 0;
        while i < n
            invariant
                n == self.profiles.keys().len(),
                0 <= i <= n,
                names@.len() == i,
                forall|j: int| 0 <= j < i ==> (#[trigger] names@[j])@ == self.profiles.keys()[j],
            decreases n - i,
        {
            names.push(self.profiles.key_at(i).clone());
            i += 1;
        }
        names
    }

    /// The container stored under `name`.
    pub fn read_raw(&self, name: &str) -> (result: Result<Container, StoreError>)
        requires
            self.wf(),
        ensures
            match result {
                Ok(c) => self@.contents.contains_key(name@) && self@.contents[name@] == c@,
                Err(e) => e == StoreError::NotFound && !self@.contents.contains_key(name@),
            },
    {
        match self.profiles.find(name) {
            Some(i) => {
                proof {
                    self.profiles.lemma_same_length();
                    lemma_assoc_at(self.profiles.keys(), self.containers(), i as int);
                }
                Ok(self.profiles.value_at(i).duplicate())
            },
            None => Err(StoreError::NotFound),
        }
    }

    /// Stages `container` to be stored under `name`.  What is stored stays as
    /// it is; what was staged before is dropped.
    pub fn stage(&mut self, name: String, container: Container)
        requires
            old(self).wf(),
        ensures
            final(self).wf(),
            final(self)@ == old(self)@.staged(name@, container@),
            final(self).names() == old(self).names(),
    {
        self.staged = Some(Staged { name, container });
    }

    /// Puts what is staged in its place, in one step.  Says whether anything
    /// was staged.
    pub fn commit(&mut self) -> (done: bool)
        requires
            old(self).wf(),
        ensures
            final(self).wf(),
            final(self)@ == old(self)@.committed(),
            done == (old(self)@.pending is Some),
            final(self).names() == match old(self)@.pending {
                Some((name, _)) => listed_after_write(old(self).names(), name),
                None => old(self).names(),
            },
    {
        let staged = self.staged.take();
        match staged {
            Some(s) => {
                let ghost keys = self.profiles.keys();
                let ghost before = self.containers();
                let ghost k = s.name@;
                let ghost c = s.container;
                proof {
                    self.profiles.lemma_same_length();
                }
                self.profiles.insert(s.name, s.container);
                proof {
                    self.profiles.lemma_same_length();
                    if keys.contains(k) {
                        let i = keys.index_of(k);
                        assert(keys[i] == k);
                        assert(self.containers() =~= before.update(i, c@));
                        crate::table::lemma_assoc_update(keys, before, i, c@);
                    } else {
                        assert(self.containers() =~= before.push(c@));
                        crate::table::lemma_assoc_push(keys, before, k, c@);
                    }
                }
                true
            },
            None => false,
        }
    }

    /// Drops what is staged, as after a write that was interrupted.
    pub fn discard(&mut self)
        requires
            old(self).wf(),
        ensures
            final(self).wf(),
            final(self)@ == old(self)@.discarded(),
            final(self).names() == old(self).names(),
    {
        self.staged = None;
    }

    /// Stores `container` under `name`, in place of what was stored there.
    pub fn write_raw(&mut self, name: String, container: Container)
        requires
            old(self).wf(),
        ensures
            final(self).wf(),
            final(self)@ == old(self)@.written(name@, container@),
            final(self).names() == listed_after_write(old(self).names(), name@),
    {
        self.stage(name, container);
        self.commit();
    }

    /// Removes the profile `name` for good.
    pub fn delete(&mut self, name: &str) -> (result: Result<(), StoreError>)
        requires
            old(self).wf(),
        ensures
            final(self).wf(),
            final(self)@.pending == old(self)@.pending,
            match result {
Ok(_) => {
                    &&& old(self)@.contents.contains_key(name@)
                    &&& final(self)@.contents == old(self)@.contents.remove(name@)
                    &&& final(self).names() == old(self).names().remove(
                        old(self).names().index_of(name@),
                    )
                },
                Err(e) => {
                    &&& e == StoreError::NotFound
                    &&& !old(self)@.contents.contains_key(name@)
                    &&& final(self)@ == old(self)@
                    &&& final(self).names() == old(self).names()
                },
            },
    {
        match self.profiles.find(name) {
            Some(i) => {
                let ghost keys = self.profiles.keys();
                let ghost before = self.containers();
                proof {
                    self.profiles.lemma_same_length();
                    crate::table::lemma_assoc_remove(keys, before, i as int);
                    crate::table::lemma_index_of_unique(keys, i as int);
                }
                self.profiles.remove_at(i);
                proof {
                    self.profiles.lemma_same_length();
                    assert(self.containers() =~= before.remove(i as int));
                }
                Ok(())
            },
            None => Err(StoreError::NotFound),
        }
    }

    /// Stores the container that `bytes` hold under the new name `name`,
    /// without opening it.
    pub fn import_raw(&mut self, name: String, bytes: &[u8]) -> (result: Result<(), StoreError>)
        requires
            old(self).wf(),
        ensures
            final(self).wf(),
            match result {
                Ok(_) => {
                    &&& !old(self)@.contents.contains_key(name@)
                    &&& container_of(bytes@) is Ok
                    &&& final(self)@ == old(self)@.written(name@, container_of(bytes@)->Ok_0)
                    &&& final(self)@.contents[name@].bytes() == bytes@
                    &&& final(self).names() == old(self).names().push(name@)
                },
                Err(e) => {
                    &&& final(self)@ == old(self)@
                    &&& final(self).names() == old(self).names()
                    &&& if old(self)@.contents.contains_key(name@) {
                        e == StoreError::AlreadyExists
                    } else {
                        container_of(bytes@) is Err && e == StoreError::Format(
                            container_of(bytes@)->Err_0,
                        )
                    }
                },
            },
    {
        if self.contains(name.as_str()) {
            return Err(StoreError::AlreadyExists);
        }
        match Container::from_bytes(bytes) {
            Ok(container) => {
                proof {
                    lemma_container_bytes(bytes@);
                }
                self.write_raw(name, container);
                Ok(())
            },
            Err(e) => Err(StoreError::Format(e)),
        }
    }

    /// Stores a new profile `name` that holds `initial` under `passphrase`.
    /// Where a profile of that name is stored already, nothing changes.
    pub fn create(&mut self, name: String, initial: &EnvMap, passphrase: &str) -> (result: Result<
        (),
        StoreError,
    >)
        requires
            old(self).wf(),
            initial.wf(),
        ensures
            final(self).wf(),
            old(self)@.contents.contains_key(name@) ==> result == Err::<(), StoreError>(
                StoreError::AlreadyExists,
            ),
            match result {
                Ok(_) => {
                    &&& !old(self)@.contents.contains_key(name@)
                    &&& final(self)@.contents.contains_key(name@)
                    &&& final(self)@ == old(self)@.written(name@, final(self)@.contents[name@])
                    &&& decoded(final(self)@.contents[name@], passphrase@) == Ok::<
                        Seq<Entry>,
                        CodecError,
                    >(initial.entries())
                    &&& final(self).names() == old(self).names().push(name@)
                },
                Err(e) => {
                    &&& final(self)@ == old(self)@
                    &&& final(self).names() == old(self).names()
                    &&& if old(self)@.contents.contains_key(name@) {
                        e == StoreError::AlreadyExists
                    } else if serialized(initial.entries()).len() > MAX_PLAINTEXT {
                        e == StoreError::Crypto(CryptoError::MessageTooLarge)
                    } else {
                        e == StoreError::Crypto(CryptoError::RandomSource)
                    }
                },
            },
    {
        if self.contains(name.as_str()) {
            return Err(StoreError::AlreadyExists);
        }
        match encode(initial, passphrase) {
            Ok(container) => {
                self.write_raw(name, container);
                Ok(())
            },
            Err(e) => Err(StoreError::Crypto(e)),
        }
    }
}

} // verus!
