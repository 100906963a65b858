//! The generation-based cache-freshness protocol: a monotonic counter per
//! graph name, and the decision rule queries apply before serving a loaded
//! snapshot.

use vstd::prelude::*;

use crate::graph::{
    assoc_keys_unique, assoc_view, lemma_assoc_view_absent, lemma_assoc_view_entry,
    lemma_assoc_view_update,
};

verus! {

/// The generation a name maps to; a name never invalidated sits at zero.
pub open spec fn gen_lookup(m: Map<Seq<char>, i64>, name: Seq<char>) -> int {
    if m.contains_key(name) {
        m[name] as int
    } else {
        0
    }
}

/// Effect of one invalidation on the counter table.
pub open spec fn bump_m(m: Map<Seq<char>, i64>, name: Seq<char>) -> Map<Seq<char>, i64> {
    m.insert(name, (gen_lookup(m, name) + 1) as i64)
}

/// Successive invalidations of one name return strictly increasing values,
/// and an invalidation of one name leaves every other name's counter
/// unchanged.
pub proof fn lemma_generation_monotonic(m: Map<Seq<char>, i64>, name: Seq<char>, other: Seq<char>)
    requires
        gen_lookup(m, name) < i64::MAX,
    ensures
        gen_lookup(bump_m(m, name), name) > gen_lookup(m, name),
        other != name ==> gen_lookup(bump_m(m, name), other) == gen_lookup(m, other),
{
}

/// The monotonic generation counters, one per graph name.
///
/// The host owns the durable copy of this table; this type is its
/// in-memory model and the reference for what an invalidation does.
pub struct GenerationStore {
    entries: Vec<(String, i64)>,
}

impl View for GenerationStore {
    type V = Map<Seq<char>, i64>;

    closed spec fn view(&self) -> Map<Seq<char>, i64> {
        assoc_view(self.entries@)
    }
}

impl GenerationStore {
    pub closed spec fn wf(&self) -> bool {
        &&& assoc_keys_unique(self.entries@)
        &&& forall|i: int| 0 <= i < self.entries@.len() ==> (#[trigger] self.entries@[i]).1 >= 1
    }

    pub fn new() -> (s: GenerationStore)
        ensures
            s@ == Map::<Seq<char>, i64>::empty(),
            s.wf(),
    {
        let s = GenerationStore { entries: Vec::new() };
        proof {
            assert(s@ =~= Map::<Seq<char>, i64>::empty());
        }
        s
    }

    /// The current generation of a graph name: zero when never invalidated.
    pub open spec fn gen_of(&self, name: Seq<char>) -> int {
        gen_lookup(self@, name)
    }

    /// Read the current generation of a graph name.
    pub fn fetch(&self, graph_name: &str) -> (g: i64)
        requires
            self.wf(),
        ensures
            g == self.gen_of(graph_name@),
    {
        let owned: String = graph_name.to_owned();
        let n = self.entries.len();
        for i in 0..n
            invariant
                self.wf(),
                n == self.entries@.len(),
                owned@ == graph_name@,
                forall|j: int| 0 <= j < i ==> (#[trigger] self.entries@[j]).0@ != graph_name@,
        {
            if self.entries[i].0 == owned {
                proof {
                    lemma_assoc_view_entry(self.entries@, i as int);
                }
                return self.entries[i].1;
            }
        }
        proof {
            lemma_assoc_view_absent(self.entries@, graph_name@);
        }
        0
    }

    /// Bump the generation counter of a graph name, creating it at one.
    /// Returns the new generation.
    pub fn invalidate(&mut self, graph_name: &str) -> (g: i64)
        requires
            old(self).wf(),
            old(self).gen_of(graph_name@) < i64::MAX,
        ensures
            final(self).wf(),
            g == old(self).gen_of(graph_name@) + 1,
            final(self)@ == bump_m(old(self)@, graph_name@),
    {
        let owned: String = graph_name.to_owned();
        let n = self.entries.len();
        for i in 0..n
            invariant
                old(self).wf(),
                old(self).gen_of(graph_name@) < i64::MAX,
                self == old(self),
                n == self.entries@.len(),
                owned@ == graph_name@,
                forall|j: int| 0 <= j < i ==> (#[trigger] self.entries@[j]).0@ != graph_name@,
        {
            if self.entries[i].0 == owned {
                proof {
                    lemma_assoc_view_entry(self.entries@, i as int);
                }
                let cur = self.entries[i].1;
                let ghost s0 = self.entries@;
                self.entries.set(i, (owned, cur + 1));
                proof {
                    lemma_assoc_view_update(s0, i as int, self.entries@[i as int]);
                    assert forall|a: int, b: int|
                        0 <= a < b < self.entries@.len() implies (
                    #[trigger] self.entries@[a]).0@ != (#[trigger] self.entries@[b]).0@ by {
                        assert(self.entries@[a].0@ == s0[a].0@);
                        assert(self.entries@[b].0@ == s0[b].0@);
                    }
                    assert forall|j: int|
                        0 <= j < self.entries@.len() implies (#[trigger] self.entries@[j]).1
                        >= 1 by {
                        if j != i {
                            assert(self.entries@[j] == s0[j]);
                        }
                    }
                }
                return cur + 1;
            }
        }
        proof {
            lemma_assoc_view_absent(self.entries@, graph_name@);
        }
        let ghost s0 = self.entries@;
        self.entries.push((owned, 1));
        proof {
            assert(self.entries@.drop_last() =~= s0);
            assert(self.entries@.last().0@ == graph_name@);
            assert(self@ == assoc_view(s0).insert(graph_name@, 1i64));
            assert forall|a: int, b: int|
                0 <= a < b < self.entries@.len() implies (#[trigger] self.entries@[a]).0@ != (
            #[trigger] self.entries@[b]).0@ by {
                if b < self.entries@.len() - 1 {
                    assert(self.entries@[a].0@ == s0[a].0@);
                    assert(self.entries@[b].0@ == s0[b].0@);
                } else {
                    assert(self.entries@[a].0@ == s0[a].0@);
                    assert(self.entries@[b].0@ == graph_name@);
                }
            }
            assert forall|j: int|
                0 <= j < self.entries@.len() implies (#[trigger] self.entries@[j]).1 >= 1 by {
                if j < self.entries@.len() - 1 {
                    assert(self.entries@[j] == s0[j]);
                }
            }
        }
        1
    }
}

/// What a query does about snapshot freshness before serving.
#[derive(Debug, Clone, Copy, PartialEq, Eq, Structural)]
pub enum FreshnessAction {
    /// No snapshot is loaded: serve nothing, nothing to refresh.
    NoSnapshot,
    /// The generation store could not be read: serve the loaded snapshot
    /// after warning once.
    StoreUnreachable,
    /// The snapshot is at least as new as the current generation: serve it.
    Fresh,
    /// Stale, but automatic reloading is off: serve the stale snapshot.
    StaleAutoReloadOff,
    /// Stale, but a load ran more recently than the debounce window: serve
    /// the stale snapshot with a notice.
    StaleDebounced,
    /// Stale: reload inline before serving.
    Reload,
}

/// The freshness rule. `loaded` carries the loaded snapshot's generation
/// and the seconds elapsed since it was loaded; `current` is the counter
/// read from the store, absent when the store is unreachable.
pub open spec fn spec_ensure_fresh(
    loaded: Option<(i64, u64)>,
    current: Option<i64>,
    auto_reload: bool,
    debounce_secs: u64,
) -> FreshnessAction {
    match loaded {
        None => FreshnessAction::NoSnapshot,
        Some((loaded_generation, elapsed_secs)) => match current {
            None => FreshnessAction::StoreUnreachable,
            Some(current_generation) => if loaded_generation >= current_generation {
                FreshnessAction::Fresh
            } else if !auto_reload {
                FreshnessAction::StaleAutoReloadOff
            } else if debounce_secs > 0 && elapsed_secs < debounce_secs {
                FreshnessAction::StaleDebounced
            } else {
                FreshnessAction::Reload
            },
        },
    }
}

/// Decide what a query must do about snapshot freshness: serve when fresh,
/// serve stale when reloading is off or debounced, and otherwise reload
/// inline.
pub fn ensure_fresh(
    loaded: Option<(i64, u64)>,
    current: Option<i64>,
    auto_reload: bool,
    debounce_secs: u64,
) -> (r: FreshnessAction)
    ensures
        r == spec_ensure_fresh(loaded, current, auto_reload, debounce_secs),
{
    match loaded {
        None => FreshnessAction::NoSnapshot,
        Some((loaded_generation, elapsed_secs)) => match current {
            None => FreshnessAction::StoreUnreachable,
            Some(current_generation) => {
                if loaded_generation >= current_generation {
                    FreshnessAction::Fresh
                } else if !auto_reload {
                    FreshnessAction::StaleAutoReloadOff
                } else if debounce_secs > 0 && elapsed_secs < debounce_secs {
                    FreshnessAction::StaleDebounced
                } else {
                    FreshnessAction::Reload
                }
            },
        },
    }
}

/// How a snapshot reports itself.
#[derive(Debug, Clone, Copy, PartialEq, Eq, Structural)]
pub enum SnapshotStatus {
    NotLoaded,
    Loaded,
    Stale,
}

/// Status of a (possibly absent) snapshot against the current generation:
/// the reported state and the staleness flag.
pub fn snapshot_status(loaded_generation: Option<i64>, current_generation: i64) -> (r: (
    SnapshotStatus,
    bool,
))
    ensures
        match loaded_generation {
            None => r == (SnapshotStatus::NotLoaded, false),
            Some(lg) => {
                &&& r.1 == (lg < current_generation)
                &&& r.0 == if lg < current_generation {
                    SnapshotStatus::Stale
                } else {
                    SnapshotStatus::Loaded
                }
            },
        },
{
    match loaded_generation {
        None => (SnapshotStatus::NotLoaded, false),
        Some(lg) => {
            if lg < current_generation {
                (SnapshotStatus::Stale, true)
            } else {
                (SnapshotStatus::Loaded, false)
            }
        },
    }
}

} // verus!
