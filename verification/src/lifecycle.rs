//! The environment lifecycle: applying a profile's variables to an
//! environment, and taking them out again so that the environment is as it
//! was before.
//!
//! The manager works on an environment that it holds in memory.  When it
//! loads a profile it records, for each variable of the profile, what the
//! environment held under that name before; unloading restores exactly that.

use crate::envs::entries_map;
use crate::envs::lemma_entries_map_ends;
use crate::envs::lemma_entries_map_step;
use crate::envs::valid_entries;
use crate::envs::EnvMap;
use crate::profile::Profile;
use crate::snapshot::lemma_prior_map_step;
use crate::snapshot::prior_map;
use crate::snapshot::prior_names;
use crate::snapshot::text_view;
use crate::snapshot::valid_prior;
use crate::snapshot::Prior;
use crate::snapshot::Snapshot;
use crate::table::assoc_map;
use crate::table::lemma_assoc_at;
use crate::table::lemma_assoc_push;
use crate::table::lemma_assoc_remove;
use crate::table::lemma_assoc_update;
use crate::table::Table;
use crate::text::valid_name;
use vstd::prelude::*;

verus! {

/// An environment: the variables that are set, by name.
pub type Env = Map<Seq<char>, Seq<char>>;

/// What `env` holds under `name`.
pub open spec fn prior_of(env: Env, name: Seq<char>) -> Option<Seq<char>> {
    if env.contains_key(name) {
        Some(env[name])
    } else {
        None
    }
}

/// The environment after the variables `vars` were set in `env`.
pub open spec fn applied(env: Env, vars: Env) -> Env {
    env.union_prefer_right(vars)
}

/// What `env` holds under the names of `vars`.
pub open spec fn snapshot_of(env: Env, vars: Env) -> Prior {
    Map::new(|name: Seq<char>| vars.contains_key(name), |name: Seq<char>| prior_of(env, name))
}

/// The environment after every name of `prior` was put back to what `prior`
/// records for it: set to the recorded value, or unset.
pub open spec fn restored(env: Env, prior: Prior) -> Env {
    Map::new(
        |name: Seq<char>|
            if prior.contains_key(name) {
                prior[name] is Some
            } else {
                env.contains_key(name)
            },
        |name: Seq<char>|
            if prior.contains_key(name) {
                prior[name]->0
            } else {
                env[name]
            },
    )
}

/// Unloading undoes loading: for every environment and every set of
/// variables, restoring the snapshot taken at the load gives the environment
/// back as it was.
pub proof fn lemma_unload_inverts_load(env: Env, vars: Env)
    ensures
        restored(applied(env, vars), snapshot_of(env, vars)) == env,
{
    assert(restored(applied(env, vars), snapshot_of(env, vars)) =~= env);
}

/// Restoring touches the recorded names only: a variable that was set after
/// the load under another name stays, and one that was changed under a
/// recorded name goes back to the recorded value.
pub proof fn lemma_restore_is_last_snapshot_wins(env: Env, prior: Prior, name: Seq<char>)
    ensures
        prior.contains_key(name) ==> prior_of(restored(env, prior), name) == prior[name],
        !prior.contains_key(name) ==> prior_of(restored(env, prior), name) == prior_of(env, name),
{
}

/// The manager's state as plain values: the environment, and for each
/// loaded profile the snapshot taken when it was loaded.
pub struct LifecycleModel {
    pub env: Env,
    pub snapshots: Map<Seq<char>, Prior>,
}

impl LifecycleModel {
    /// Whether the profile `name` is loaded.
    pub open spec fn is_loaded(self, name: Seq<char>) -> bool {
        self.snapshots.contains_key(name)
    }

    /// The state after the profile `name` with the variables `vars` was
    /// loaded.  A snapshot that was there for `name` is replaced.
    pub open spec fn loaded(self, name: Seq<char>, vars: Env) -> LifecycleModel {
        LifecycleModel {
            env: applied(self.env, vars),
            snapshots: self.snapshots.insert(name, snapshot_of(self.env, vars)),
        }
    }

    /// The state after the profile `name` was unloaded.  Where it is not
    /// loaded, nothing changes.
    pub open spec fn unloaded(self, name: Seq<char>) -> LifecycleModel {
        if self.snapshots.contains_key(name) {
            LifecycleModel {
                env: restored(self.env, self.snapshots[name]),
                snapshots: self.snapshots.remove(name),
            }
        } else {
            self
        }
    }
}

/// Loading a profile and unloading it again leaves the environment as it
/// was, and the profile not loaded.
pub proof fn lemma_load_unload(state: LifecycleModel, name: Seq<char>, vars: Env)
    ensures
        state.loaded(name, vars).is_loaded(name),
        state.loaded(name, vars).unloaded(name).env == state.env,
        state.loaded(name, vars).unloaded(name).snapshots == state.snapshots.remove(name),
        !state.loaded(name, vars).unloaded(name).is_loaded(name),
{
    lemma_unload_inverts_load(state.env, vars);
    assert(state.snapshots.insert(name, snapshot_of(state.env, vars)).remove(name)
        =~= state.snapshots.remove(name));
}

/// Unloading a profile that is not loaded changes nothing.
pub proof fn lemma_unload_not_loaded(state: LifecycleModel, name: Seq<char>)
    requires
        !state.is_loaded(name),
    ensures
        state.unloaded(name) == state,
{
}

/// The environment lifecycle manager.
#[derive(Clone, Debug)]
pub struct Lifecycle {
    env: EnvMap,
    snapshots: Table<Snapshot>,
}

impl View for Lifecycle {
    type V = LifecycleModel;

    closed spec fn view(&self) -> LifecycleModel {
        LifecycleModel {
            env: self.env@,
            snapshots: assoc_map(self.snapshots.keys(), self.priors()),
        }
    }
}

impl Lifecycle {
    spec fn priors(&self) -> Seq<Prior> {
        Seq::new(self.snapshots.values().len(), |i: int| self.snapshots.values()[i]@)
    }

    /// The environment and every snapshot are well-formed, and no profile
    /// has two snapshots.
    pub closed spec fn wf(&self) -> bool {
        &&& self.env.wf()
        &&& self.snapshots.wf()
        &&& forall|i: int|
            0 <= i < self.snapshots.values().len() ==> (#[trigger] self.snapshots.values()[i]).wf()
    }

    /// A manager for the environment `env`, with no profile loaded.
    pub fn new(env: EnvMap) -> (manager: Lifecycle)
        requires
            env.wf(),
        ensures
            manager.wf(),
            manager@.env == env@,
            manager@.snapshots == Map::<Seq<char>, Prior>::empty(),
            manager.env_entries() == env.entries(),
    {
        let manager = Lifecycle { env, snapshots: Table::new() };
        assert(manager@.snapshots =~= Map::<Seq<char>, Prior>::empty());
        manager
    }

    /// The variables of the environment, in order.
    pub closed spec fn env_entries(&self) -> Seq<crate::envs::Entry> {
        self.env.entries()
    }

    /// The environment as it stands.
    pub fn env(&self) -> (env: &EnvMap)
        requires
            self.wf(),
        ensures
            env.wf(),
            env@ == self@.env,
            env.entries() == self.env_entries(),
    {
        &self.env
    }

    /// Whether the profile `name` is loaded.
    pub fn is_loaded(&self, name: &str) -> (loaded: bool)
        requires
            self.wf(),
        ensures
            loaded == self@.is_loaded(name@),
    {
        self.snapshots.find(name).is_some()
    }

    /// The snapshot that was taken when the profile `name` was loaded.
    pub fn snapshot(&self, name: &str) -> (snapshot: Option<&Snapshot>)
        requires
            self.wf(),
        ensures
            match snapshot {
                Some(s) => s.wf() && self@.snapshots.contains_key(name@) && self@.snapshots[name@]
                    == s@,
                None => !self@.snapshots.contains_key(name@),
            },
    {
        match self.snapshots.find(name) {
            Some(i) => {
                proof {
                    self.snapshots.lemma_same_length();
                    lemma_assoc_at(self.snapshots.keys(), self.priors(), i as int);
                }
                Some(self.snapshots.value_at(i))
            },
            None => None,
        }
    }

    /// Puts back a snapshot that was taken for the profile `name` earlier,
    /// in place of the one the manager has for it, if any.
    pub fn adopt(&mut self, name: String, snapshot: Snapshot)
        requires
            old(self).wf(),
            snapshot.wf(),
        ensures
            final(self).wf(),
            final(self)@.env == old(self)@.env,
            final(self).env_entries() == old(self).env_entries(),
            final(self)@.snapshots == old(self)@.snapshots.insert(name@, snapshot@),
    {
        let ghost keys = self.snapshots.keys();
        let ghost before = self.priors();
        let ghost values = self.snapshots.values();
        let ghost k = name@;
        proof {
            self.snapshots.lemma_same_length();
        }
        self.snapshots.insert(name, snapshot);
        proof {
            self.snapshots.lemma_same_length();
            if keys.contains(k) {
                let i = keys.index_of(k);
                assert(keys[i] == k);
                assert(self.priors() =~= before.update(i, snapshot@));
                lemma_assoc_update(keys, before, i, snapshot@);
                assert forall|j: int| 0 <= j < self.snapshots.values().len() implies (
                #[trigger] self.snapshots.values()[j]).wf() by {
                    if j != i {
                        assert(self.snapshots.values()[j] == values[j]);
                    }
                }
            } else {
                assert(self.priors() =~= before.push(snapshot@));
                lemma_assoc_push(keys, before, k, snapshot@);
                assert forall|j: int| 0 <= j < self.snapshots.values().len() implies (
                #[trigger] self.snapshots.values()[j]).wf() by {
                    if j < values.len() {
                        assert(self.snapshots.values()[j] == values[j]);
                    }
                }
            }
        }
    }

    /// Loads `profile`: records what the environment holds under the name of
    /// each of its variables, and sets each variable.
    ///
    /// A profile that is loaded already must be unloaded first: the new
    /// snapshot replaces the old one.
    pub fn load(&mut self, profile: &Profile)
        requires
            old(self).wf(),
            profile.wf(),
        ensures
            final(self).wf(),
            final(self)@ == old(self)@.loaded(profile.name@, profile.envs@),
    {
        let ghost env0 = self.env@;
        let ghost snaps0 = self.snapshots;
        let ghost es = profile.envs.entries();
        let mut prior = Snapshot::new();
        let n = profile.envs.len();
        let mut i: usize = 0;
        proof {
            lemma_entries_map_ends(es);
            assert(self.env@ =~= applied(env0, entries_map(es.subrange(0, 0))));
            assert(prior@ =~= snapshot_of(env0, entries_map(es.subrange(0, 0))));
        }
        while i < n
            invariant
                es == profile.envs.entries(),
                valid_entries(es),
                n == es.len(),
                0 <= i <= n,
                self.env.wf(),
                prior.wf(),
                self.snapshots == snaps0,
                self.env@ == applied(env0, entries_map(es.subrange(0, i as int))),
                prior@ == snapshot_of(env0, entries_map(es.subrange(0, i as int))),
            decreases n - i,
        {
            let key = profile.envs.key_at(i);
            let value = profile.envs.value_at(i);
            let ghost m = entries_map(es.subrange(0, i as int));
            let ghost k = key@;
            proof {
                lemma_entries_map_step(es, i as int);
                assert(valid_name(es[i as int].0));
            }
            let before = match self.env.get(key.as_str()) {
                Some(v) => Some(v.clone()),
                None => None,
            };
            assert(text_view(before) == prior_of(env0, k));
            prior.record(key.clone(), before);
            self.env.insert(key.clone(), value.clone());
            proof {
                let m2 = entries_map(es.subrange(0, i + 1));
                assert(m2 == m.insert(k, value@));
                assert(self.env@ =~= applied(env0, m2));
                assert(prior@ =~= snapshot_of(env0, m2));
            }
            i += 1;
        }
        let ghost all = snapshot_of(env0, profile.envs@);
        assert(prior@ == all);
        self.adopt(profile.name.clone(), prior);
    }

    /// Unloads `profile`: puts every name of the snapshot that was taken when
    /// it was loaded back to what the snapshot records, and drops the
    /// snapshot.  Where the profile is not loaded, nothing changes.
    pub fn unload(&mut self, profile: &Profile)
        requires
            old(self).wf(),
        ensures
            final(self).wf(),
            final(self)@ == old(self)@.unloaded(profile.name@),
    {
        let ghost env0 = self.env@;
        let found = self.snapshots.find(profile.name.as_str());
        match found {
            None => {},
            Some(at) => {
                let ghost keys = self.snapshots.keys();
                let ghost before = self.priors();
                let ghost values = self.snapshots.values();
                proof {
                    self.snapshots.lemma_same_length();
                    lemma_assoc_at(keys, before, at as int);
                    lemma_assoc_remove(keys, before, at as int);
                    assert(values[at as int].wf());
                }
                let snapshot = self.snapshots.remove_at(at);
                proof {
                    self.snapshots.lemma_same_length();
                    assert(self.priors() =~= before.remove(at as int));
                    assert forall|j: int| 0 <= j < self.snapshots.values().len() implies (
                    #[trigger] self.snapshots.values()[j]).wf() by {
                        assert(self.snapshots.values()[j] == values[if j < at {
                            j
                        } else {
                            j + 1
                        }]);
                    }
                }
                let ghost snaps1 = self.snapshots;
                let ghost ps = snapshot.entries();
                let n = snapshot.len();
                let mut i: usize = 0;
                proof {
                    assert(prior_names(ps.subrange(0, 0)) =~= Seq::<Seq<char>>::empty());
                    assert(prior_map(ps.subrange(0, 0)) =~= Map::<
                        Seq<char>,
                        Option<Seq<char>>,
                    >::empty());
                    assert(self.env@ =~= restored(env0, prior_map(ps.subrange(0, 0))));
                }
                while i < n
                    invariant
                        ps == snapshot.entries(),
                        valid_prior(ps),
                        n == ps.len(),
                        0 <= i <= n,
                        self.env.wf(),
                        self.snapshots == snaps1,
                        self.env@ == restored(env0, prior_map(ps.subrange(0, i as int))),
                    decreases n - i,
                {
                    let key = snapshot.key_at(i);
                    let ghost m = prior_map(ps.subrange(0, i as int));
                    let ghost k = key@;
                    proof {
                        lemma_prior_map_step(ps, i as int);
                        assert(valid_name(ps[i as int].0));
                    }
                    match snapshot.value_at(i) {
                        Some(value) => {
                            self.env.insert(key.clone(), value.clone());
                            proof {
                                let m2 = prior_map(ps.subrange(0, i + 1));
                                assert(m2 == m.insert(k, Some(value@)));
                                assert(self.env@ =~= restored(env0, m2));
                            }
                        },
                        None => {
                            self.env.remove(key.as_str());
                            proof {
                                let m2 = prior_map(ps.subrange(0, i + 1));
                                assert(m2 == m.insert(k, None::<Seq<char>>));
                                assert(self.env@ =~= restored(env0, m2));
                            }
                        },
                    }
                    i += 1;
                }
                assert(ps.subrange(0, n as int) =~= ps);
            },
        }
    }
}

} // verus!
