//! A decrypted profile in memory, and how it gets there and back.
//!
//! A profile in memory is never written back by itself: what was changed
//! reaches the store only through [`Profile::push_changes`].

use crate::cipher::MAX_PLAINTEXT;
use crate::container::decode;
use crate::container::decoded;
use crate::container::encode;
use crate::envs::export_text;
use crate::envs::serialized;
use crate::envs::EnvMap;
use crate::envs::EnvVar;
use crate::envs::Entry;
use crate::error::CodecError;
use crate::error::CryptoError;
use crate::error::StoreError;
use crate::store::listed_after_write;
use crate::store::Store;
use crate::store::StoreModel;
use crate::text::valid_name;
use vstd::prelude::*;

verus! {

/// A named set of variables.
#[derive(Clone, Debug)]
pub struct Profile {
    /// The name under which the profile is stored.
    pub name: String,
    /// The variables of the profile.
    pub envs: EnvMap,
}

/// The variables that `store` gives out for `name` under `passphrase`:
/// those of the container stored under that name, where there is one and it
/// decodes.
pub open spec fn readable(store: StoreModel, name: Seq<char>, passphrase: Seq<char>) -> Option<
    Seq<Entry>,
> {
    if store.contents.contains_key(name) {
        match decoded(store.contents[name], passphrase) {
            Ok(envs) => Some(envs),
            Err(_) => None,
        }
    } else {
        None
    }
}

/// Reads the profile `name` from `store` and decrypts it under `passphrase`.
///
/// The result is `None` where no such profile is stored and where the
/// container does not decode, be it for a wrong passphrase: the two are not
/// told apart.
pub fn get_profile(store: &Store, name: &str, passphrase: &str) -> (profile: Option<Profile>)
    requires
        store.wf(),
    ensures
        match profile {
            Some(p) => p.wf() && p.name@ == name@ && readable(store@, name@, passphrase@) == Some(
                p.envs.entries(),
            ),
            None => readable(store@, name@, passphrase@) is None,
        },
{
    let container = match store.read_raw(name) {
        Ok(c) => c,
        Err(_) => {
            return None;
        },
    };
    match decode(&container, passphrase) {
        Ok(envs) => Some(Profile { name: name.to_owned(), envs }),
        Err(_) => None,
    }
}

impl Profile {
    /// The variables are well-formed.
    pub open spec fn wf(&self) -> bool {
        self.envs.wf()
    }

    /// The profile `name` with the variables `envs`.
    pub fn new(name: String, envs: EnvMap) -> (profile: Profile)
        ensures
            profile.name == name,
            profile.envs == envs,
    {
        Profile { name, envs }
    }

    /// Sets the variable `key` to `value`.  A `key` that is no valid name
    /// changes nothing.
    pub fn add_env(&mut self, key: String, value: String)
        requires
            old(self).wf(),
        ensures
            final(self).wf(),
            final(self).name == old(self).name,
            valid_name(key@) ==> final(self).envs@ == old(self).envs@.insert(key@, value@),
            valid_name(key@) && !old(self).envs@.contains_key(key@) ==> final(self).envs.entries()
                == old(self).envs.entries().push((key@, value@)),
            !valid_name(key@) ==> final(self).envs.entries() == old(self).envs.entries(),
    {
        self.envs.insert(key, value);
    }

    /// Gives the variable `key` the new value `value`.  Where no such
    /// variable is set, nothing changes.
    pub fn edit_env(&mut self, key: String, value: String)
        requires
            old(self).wf(),
        ensures
            final(self).wf(),
            final(self).name == old(self).name,
            old(self).envs@.contains_key(key@) ==> final(self).envs@ == old(self).envs@.insert(
                key@,
                value@,
            ),
            !old(self).envs@.contains_key(key@) ==> final(self).envs.entries() == old(self).envs.entries(),
    {
        if self.envs.contains_key(key.as_str()) {
            let ghost es = self.envs.entries();
            proof {
                let i = crate::envs::names(es).index_of(key@);
                assert(crate::envs::names(es)[i] == key@);
                assert(valid_name(es[i].0));
            }
            self.envs.insert(key, value);
        }
    }

    /// Takes the variable `key` out.  Where no such variable is set, nothing
    /// changes.
    pub fn remove_env(&mut self, key: &str)
        requires
            old(self).wf(),
        ensures
            final(self).wf(),
            final(self).name == old(self).name,
            final(self).envs@ == old(self).envs@.remove(key@),
            !old(self).envs@.contains_key(key@) ==> final(self).envs.entries() == old(self).envs.entries(),
    {
        self.envs.remove(key);
    }

    /// Encrypts the variables afresh under `passphrase`, with a new salt and
    /// a new nonce, and stores the container under the profile's name in
    /// place of what was there.
    pub fn push_changes(&self, store: &mut Store, passphrase: &str) -> (result: Result<
        (),
        StoreError,
    >)
        requires
            self.wf(),
            old(store).wf(),
        ensures
            final(store).wf(),
            match result {
                Ok(_) => {
                    &&& final(store)@.contents.contains_key(self.name@)
                    &&& final(store)@ == old(store)@.written(
                        self.name@,
                        final(store)@.contents[self.name@],
                    )
                    &&& decoded(final(store)@.contents[self.name@], passphrase@) == Ok::<
                        Seq<Entry>,
                        CodecError,
                    >(self.envs.entries())
                    &&& readable(final(store)@, self.name@, passphrase@) == Some(
                        self.envs.entries(),
                    )
                    &&& final(store).names() == listed_after_write(old(store).names(), self.name@)
                },
                Err(e) => {
                    &&& final(store)@ == old(store)@
                    &&& final(store).names() == old(store).names()
                    &&& if serialized(self.envs.entries()).len() > MAX_PLAINTEXT {
                        e == StoreError::Crypto(CryptoError::MessageTooLarge)
                    } else {
                        e == StoreError::Crypto(CryptoError::RandomSource)
                    }
                },
            },
    {
        match encode(&self.envs, passphrase) {
            Ok(container) => {
                store.write_raw(self.name.clone(), container);
                Ok(())
            },
            Err(e) => Err(StoreError::Crypto(e)),
        }
    }

    /// The variables, in order, for display.
    pub fn list_envs(&self) -> (list: Vec<EnvVar>)
        ensures
            list@.len() == self.envs.entries().len(),
            forall|i: int|
                0 <= i < list@.len() ==> (#[trigger] list@[i]).key@ == self.envs.entries()[i].0
                    && list@[i].value@ == self.envs.entries()[i].1,
    {
        self.envs.vars()
    }

    /// The variables as plain text, one line `NAME=VALUE` for each.
    pub fn export_envs(&self) -> (text: String)
        ensures
            text@ == export_text(self.envs.entries()),
    {
        self.envs.to_text()
    }
}

} // verus!
