//! Epoch-based memory reclamation.
//!
//! A collection that removes nodes while other threads may still be
//! reading them cannot free those nodes at once. Instead each operation
//! runs pinned: the thread records the global epoch it observed, and a
//! detached node is retired into a garbage bag tagged with that epoch.
//! The global epoch advances one generation at a time, and only when
//! every pinned thread has caught up with it; a retired item is freed
//! only once the global epoch is at least two generations past its
//! retirement epoch. `lemma_collectible_is_unobservable` proves that
//! this rule is safe: such an item was retired strictly before any
//! currently pinned thread took its pin, so none of them can still
//! hold a reference to it.
//!
//! This module verifies the bookkeeping itself — the epochs, the
//! participant records, the bags, and the decisions taken over them.

use vstd::prelude::*;
use vstd::seq_lib::group_seq_properties;

verus! {

/// One record per registered thread.
#[derive(Clone, Copy, PartialEq, Eq, Structural)]
pub struct Participant {
    /// How many nested pins the thread currently holds; the thread
    /// counts as pinned exactly while this is positive.
    pub pin_depth: u64,
    /// The global epoch the thread observed at its outermost pin;
    /// meaningful only while pinned.
    pub epoch: u64,
}

impl Participant {
    /// A thread is pinned while it holds at least one pin.
    pub open spec fn is_pinned(self) -> bool {
        self.pin_depth > 0
    }
}

/// A retired item: detached from a structure at a known epoch and
/// waiting in the garbage bag until no pinned thread can observe it.
pub struct Retired<T> {
    /// The retiring thread's epoch at the moment of retirement.
    pub epoch: u64,
    /// The detached item whose destruction is deferred.
    pub item: T,
}

/// A retired item may be reclaimed once the global epoch has moved at
/// least two generations past its retirement epoch.
pub open spec fn collectible<T>(g: u64, r: Retired<T>) -> bool {
    r.epoch + 2 <= g
}

/// The garbage that a collection at global epoch `g` leaves in place:
/// the entries not yet two generations old, in their original order.
pub open spec fn kept_garbage<T>(s: Seq<Retired<T>>, g: u64) -> Seq<Retired<T>> {
    s.filter(|r: Retired<T>| !collectible(g, r))
}

/// The items that a collection at global epoch `g` hands back for
/// destruction, in their original order.
pub open spec fn freed_items<T>(s: Seq<Retired<T>>, g: u64) -> Seq<T> {
    s.filter(|r: Retired<T>| collectible(g, r)).map_values(|r: Retired<T>| r.item)
}

/// Proof that a thread is registered and currently pinned. Created by
/// `pin`, required by `defer_free`, consumed by `unpin`.
pub struct Scope {
    /// The index of the pinned thread's participant record.
    pub thread: usize,
    /// The epoch that record carries while this scope is live.
    pub epoch: u64,
}

/// The reclamation state: the global epoch, every participant record,
/// and the retired items awaiting a safe epoch.
pub struct Collector<T> {
    /// The global generation counter; advances by one at a time.
    pub epoch: u64,
    /// One record per registered thread, indexed by `Scope::thread`.
    pub participants: Vec<Participant>,
    /// Every retired item not yet reclaimed, tagged with its epoch.
    pub garbage: Vec<Retired<T>>,
}

impl<T> Collector<T> {
    /// The invariant every operation preserves: a pinned thread's
    /// epoch lags the global epoch by at most one generation, and no
    /// retirement epoch lies in the future.
    pub open spec fn wf(self) -> bool {
        &&& forall|i: int|
            0 <= i < self.participants@.len() && (#[trigger] self.participants@[i]).is_pinned()
                ==> self.participants@[i].epoch <= self.epoch && self.epoch <= self.participants@[
                i].epoch + 1
        &&& forall|k: int|
            0 <= k < self.garbage@.len() ==> (#[trigger] self.garbage@[k]).epoch <= self.epoch
    }

    /// A scope is valid when it names a registered thread that is
    /// pinned at exactly the epoch the scope carries.
    pub open spec fn valid_scope(self, s: Scope) -> bool {
        &&& (s.thread as int) < self.participants@.len()
        &&& self.participants@[s.thread as int].is_pinned()
        &&& self.participants@[s.thread as int].epoch == s.epoch
    }

    /// Returns a fresh collector: epoch zero, no participants, no
    /// garbage.
    pub fn new() -> (c: Self)
        ensures
            c.epoch == 0,
            c.participants@ == Seq::<Participant>::empty(),
            c.garbage@ == Seq::<Retired<T>>::empty(),
            c.wf(),
    {
        Collector { epoch: 0, participants: Vec::new(), garbage: Vec::new() }
    }

    /// Registers a new thread and returns the index of its record,
    /// created unpinned.
    pub fn register(&mut self) -> (t: usize)
        requires
            old(self).wf(),
        ensures
            t == old(self).participants@.len(),
            final(self).participants@ == old(self).participants@.push(
                Participant { pin_depth: 0, epoch: 0 },
            ),
            final(self).epoch == old(self).epoch,
            final(self).garbage@ == old(self).garbage@,
            final(self).wf(),
    {
        let t = self.participants.len();
        self.participants.push(Participant { pin_depth: 0, epoch: 0 });
        t
    }

    /// Pins thread `t`: on the outermost pin the record takes the
    /// current global epoch; nested pins keep the epoch already held.
    /// Returns the scope that proves the thread pinned.
    pub fn pin(&mut self, t: usize) -> (s: Scope)
        requires
            old(self).wf(),
            t < old(self).participants@.len(),
            old(self).participants@[t as int].pin_depth < u64::MAX,
        ensures
            s.thread == t,
            s.epoch == final(self).participants@[t as int].epoch,
            final(self).valid_scope(s),
            final(self).epoch == old(self).epoch,
            final(self).garbage@ == old(self).garbage@,
            final(self).participants@ == old(self).participants@.update(
                t as int,
                Participant {
                    pin_depth: (old(self).participants@[t as int].pin_depth + 1) as u64,
                    epoch: if old(self).participants@[t as int].is_pinned() {
                        old(self).participants@[t as int].epoch
                    } else {
                        old(self).epoch
                    },
                },
            ),
            final(self).wf(),
    {
        let depth = self.participants[t].pin_depth;
        let e = if depth == 0 {
            self.epoch
        } else {
            self.participants[t].epoch
        };
        self.participants[t] = Participant { pin_depth: depth + 1, epoch: e };
        Scope { thread: t, epoch: e }
    }

    /// Unpins the scope's thread: drops one pin, and at depth zero the
    /// thread stops blocking the epoch from advancing.
    pub fn unpin(&mut self, s: Scope)
        requires
            old(self).wf(),
            old(self).valid_scope(s),
        ensures
            final(self).epoch == old(self).epoch,
            final(self).garbage@ == old(self).garbage@,
            final(self).participants@ == old(self).participants@.update(
                s.thread as int,
                Participant {
                    pin_depth: (old(self).participants@[s.thread as int].pin_depth - 1) as u64,
                    epoch: s.epoch,
                },
            ),
            final(self).wf(),
    {
        let depth = self.participants[s.thread].pin_depth;
        self.participants[s.thread] = Participant { pin_depth: depth - 1, epoch: s.epoch };
    }

    /// Retires an item under a live scope: appends it to the garbage
    /// bag tagged with the scope's epoch. No destruction happens here.
    pub fn defer_free(&mut self, s: &Scope, item: T)
        requires
            old(self).wf(),
            old(self).valid_scope(*s),
        ensures
            final(self).garbage@ == old(self).garbage@.push(Retired { epoch: s.epoch, item }),
            final(self).epoch == old(self).epoch,
            final(self).participants@ == old(self).participants@,
            final(self).wf(),
    {
        let epoch = s.epoch;
        self.garbage.push(Retired { epoch, item });
    }

    /// Attempts to advance the global epoch by one generation. The
    /// advance happens exactly when every pinned thread has already
    /// caught up with the current global epoch; a single lagging
    /// pinned thread blocks it, which is what keeps reclamation safe.
    pub fn try_advance(&mut self) -> (advanced: bool)
        requires
            old(self).wf(),
            old(self).epoch < u64::MAX,
        ensures
            advanced <==> (forall|i: int|
                0 <= i < old(self).participants@.len() && (#[trigger] old(
                    self,
                ).participants@[i]).is_pinned() ==> old(self).participants@[i].epoch == old(
                    self,
                ).epoch),
            final(self).epoch == if advanced {
                (old(self).epoch + 1) as u64
            } else {
                old(self).epoch
            },
            final(self).participants@ == old(self).participants@,
            final(self).garbage@ == old(self).garbage@,
            final(self).wf(),
    {
        let n = self.participants.len();
        let mut i: usize = 0;
        while i < n
            invariant
                self.epoch == old(self).epoch,
                self.participants@ == old(self).participants@,
                self.garbage@ == old(self).garbage@,
                self.wf(),
                n == self.participants@.len(),
                i <= n,
                forall|j: int|
                    0 <= j < i && (#[trigger] self.participants@[j]).is_pinned()
                        ==> self.participants@[j].epoch == self.epoch,
            decreases n - i,
        {
            let p = self.participants[i];
            if p.pin_depth > 0 && p.epoch != self.epoch {
                return false;
            }
            i += 1;
        }
        self.epoch = self.epoch + 1;
        true
    }

    /// Reclaims what is provably unobservable: removes from the bag
    /// every entry at least two generations behind the global epoch
    /// and returns their items, in retirement order, for destruction.
    /// Entries retired more recently stay in the bag untouched.
    pub fn collect(&mut self) -> (freed: Vec<T>)
        requires
            old(self).wf(),
        ensures
            final(self).garbage@ == kept_garbage(old(self).garbage@, old(self).epoch),
            freed@ == freed_items(old(self).garbage@, old(self).epoch),
            final(self).epoch == old(self).epoch,
            final(self).participants@ == old(self).participants@,
            final(self).wf(),
    {
        broadcast use group_seq_properties;

        let ghost orig = self.garbage@;
        let ghost g = self.epoch;
        let mut freed: Vec<T> = Vec::new();
        let mut kept: Vec<Retired<T>> = Vec::new();
        let ghost mut i: int = 0;
        proof {
            assert(orig.take(0) =~= Seq::<Retired<T>>::empty());
            assert(kept_garbage(orig.take(0), g) =~= Seq::<Retired<T>>::empty());
            assert(freed_items(orig.take(0), g) =~= Seq::<T>::empty());
        }
        while self.garbage.len() > 0
            invariant
                self.epoch == g,
                g == old(self).epoch,
                self.participants@ == old(self).participants@,
                orig == old(self).garbage@,
                old(self).wf(),
                0 <= i <= orig.len(),
                self.garbage@ == orig.skip(i),
                kept@ == kept_garbage(orig.take(i), g),
                freed@ == freed_items(orig.take(i), g),
                forall|k: int| 0 <= k < kept@.len() ==> (#[trigger] kept@[k]).epoch <= g,
            decreases self.garbage@.len(),
        {
            let r = self.garbage.remove(0);
            proof {
                assert(r == orig[i]);
                assert(old(self).garbage@[i].epoch <= g);
                assert(orig.skip(i).remove(0) =~= orig.skip(i + 1));
                assert(orig.take(i + 1).drop_last() =~= orig.take(i));
                assert(orig.take(i + 1).last() == orig[i]);
                reveal_filter_step(orig.take(i + 1), g);
            }
            let reclaim = self.epoch >= 2 && r.epoch <= self.epoch - 2;
            proof {
                assert(reclaim == collectible(g, orig[i]));
                if reclaim {
                    assert(freed_items(orig.take(i + 1), g) =~= freed_items(orig.take(i), g).push(
                        orig[i].item,
                    ));
                } else {
                    assert(freed_items(orig.take(i + 1), g) =~= freed_items(orig.take(i), g));
                }
            }
            if reclaim {
                freed.push(r.item);
            } else {
                kept.push(r);
            }
            proof {
                i = i + 1;
            }
        }
        proof {
            assert(orig.take(orig.len() as int) =~= orig);
        }
        self.garbage = kept;
        freed
    }

    /// Opportunistic maintenance, as a pin may perform it: once the
    /// bag has grown to `threshold` retired items, attempt one epoch
    /// advance and reclaim whatever is then two generations old.
    /// Below the threshold nothing happens. Reclamation is only ever
    /// delayed by a lagging pin, never unsafe: what is freed is always
    /// exactly the entries two generations behind the epoch reached.
    pub fn maintain(&mut self, threshold: usize) -> (freed: Vec<T>)
        requires
            old(self).wf(),
            old(self).epoch < u64::MAX,
        ensures
            final(self).participants@ == old(self).participants@,
            final(self).wf(),
            old(self).garbage@.len() < threshold ==> ({
                &&& final(self).epoch == old(self).epoch
                &&& final(self).garbage@ == old(self).garbage@
                &&& freed@ == Seq::<T>::empty()
            }),
            old(self).garbage@.len() >= threshold ==> ({
                let caught_up = forall|i: int|
                    0 <= i < old(self).participants@.len() && (#[trigger] old(
                        self,
                    ).participants@[i]).is_pinned() ==> old(self).participants@[i].epoch == old(
                        self,
                    ).epoch;
                let g = if caught_up {
                    (old(self).epoch + 1) as u64
                } else {
                    old(self).epoch
                };
                &&& final(self).epoch == g
                &&& final(self).garbage@ == kept_garbage(old(self).garbage@, g)
                &&& freed@ == freed_items(old(self).garbage@, g)
            }),
    {
        if self.garbage.len() < threshold {
            Vec::new()
        } else {
            let _ = self.try_advance();
            self.collect()
        }
    }
}

/// Unfolds one step of the garbage filter: splitting off the last
/// entry of the bag keeps or frees it according to its age alone.
proof fn reveal_filter_step<T>(s: Seq<Retired<T>>, g: u64)
    requires
        s.len() > 0,
    ensures
        s.filter(|r: Retired<T>| !collectible(g, r)) == if !collectible(g, s.last()) {
            s.drop_last().filter(|r: Retired<T>| !collectible(g, r)).push(s.last())
        } else {
            s.drop_last().filter(|r: Retired<T>| !collectible(g, r))
        },
        s.filter(|r: Retired<T>| collectible(g, r)) == if collectible(g, s.last()) {
            s.drop_last().filter(|r: Retired<T>| collectible(g, r)).push(s.last())
        } else {
            s.drop_last().filter(|r: Retired<T>| collectible(g, r))
        },
{
    reveal_with_fuel(Seq::filter, 2);
}

/// The reclamation rule is safe: an entry old enough to reclaim was
/// retired strictly before any currently pinned thread observed its
/// epoch, so no pinned thread can still hold a reference into it.
pub proof fn lemma_collectible_is_unobservable<T>(c: Collector<T>, k: int, t: int)
    requires
        c.wf(),
        0 <= k < c.garbage@.len(),
        collectible(c.epoch, c.garbage@[k]),
        0 <= t < c.participants@.len(),
        c.participants@[t].is_pinned(),
    ensures
        c.garbage@[k].epoch < c.participants@[t].epoch,
{
}

/// A collection loses nothing and invents nothing: every entry of the
/// bag is either kept or has its item freed, and nothing else appears.
pub proof fn lemma_collect_conserves<T>(s: Seq<Retired<T>>, g: u64)
    ensures
        kept_garbage(s, g).len() + freed_items(s, g).len() == s.len(),
        freed_items(s, g).to_multiset().add(
            kept_garbage(s, g).map_values(|r: Retired<T>| r.item).to_multiset(),
        ) =~= s.map_values(|r: Retired<T>| r.item).to_multiset(),
    decreases s.len(),
{
    broadcast use vstd::seq_lib::group_to_multiset_ensures;

    if s.len() == 0 {
        assert(kept_garbage(s, g) =~= Seq::<Retired<T>>::empty());
        assert(freed_items(s, g) =~= Seq::<T>::empty());
        assert(s.map_values(|r: Retired<T>| r.item) =~= Seq::<T>::empty());
    } else {
        lemma_collect_conserves(s.drop_last(), g);
        reveal_filter_step(s, g);
        assert(s.map_values(|r: Retired<T>| r.item) =~= s.drop_last().map_values(
            |r: Retired<T>| r.item,
        ).push(s.last().item));
        if collectible(g, s.last()) {
            assert(freed_items(s, g) =~= freed_items(s.drop_last(), g).push(s.last().item));
            assert(kept_garbage(s, g) == kept_garbage(s.drop_last(), g));
        } else {
            assert(freed_items(s, g) == freed_items(s.drop_last(), g));
            assert(kept_garbage(s, g).map_values(|r: Retired<T>| r.item) =~= kept_garbage(
                s.drop_last(),
                g,
            ).map_values(|r: Retired<T>| r.item).push(s.last().item));
        }
    }
}

} // verus!
