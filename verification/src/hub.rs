//! Session lifecycle: the identity allocator and the hub object that ties
//! the registry and the router together. A joining client is assigned a
//! fresh identity, inserted with empty text, and answered with a snapshot of
//! everyone else; every later event goes through `handle`.

use vstd::prelude::*;

use crate::model::Action;
use crate::model::act_of;
use crate::model::apply;
use crate::model::current_text;
use crate::model::lemma_registry_tracks_events;
use crate::model::present;
use crate::model::run;
use crate::msg::Delivery;
use crate::msg::Msg;
use crate::msg::MsgView;
use crate::msg::dels_view;
use crate::msg::msgs_view;
use crate::registry::Registry;
use crate::registry::seq_contains;
use crate::registry::spec_snapshot;
use crate::router::route;
use crate::router::spec_fanout;

verus! {

/// Issues unique, strictly increasing client identities; an identity is
/// never reused while the process runs, even after its client leaves.
pub struct IdAllocator {
    /// The next identity to hand out; every one issued so far is smaller.
    pub counter: i32,
}

impl IdAllocator {
    /// A fresh allocator, starting at identity zero.
    pub fn new() -> (r: IdAllocator)
        ensures
            r.counter == 0,
    {
        IdAllocator { counter: 0 }
    }

    /// Returns a fresh identity, strictly greater than every previously
    /// returned one.
    pub fn next(&mut self) -> (id: i32)
        requires
            old(self).counter < i32::MAX,
        ensures
            id == old(self).counter,
            final(self).counter == old(self).counter + 1,
    {
        let id = self.counter;
        self.counter = self.counter + 1;
        id
    }
}

/// The hub: the authoritative registry together with the identity
/// allocator. The transport owns one of these behind its serialization
/// point; nothing else mutates the registry.
pub struct Hub {
    /// The authoritative client registry.
    pub registry: Registry,
    /// The allocator for fresh client identities.
    pub ids: IdAllocator,
    /// The trace of actions applied so far, for the invariant that the
    /// registry is always exactly what the model computes from the trace.
    pub history: Ghost<Seq<Action>>,
}

impl Hub {
    /// The hub's invariant: the registry is well formed, every present
    /// identity was issued by the allocator (so the next identity is
    /// fresh), and the registry content is the model's run of the history.
    pub open spec fn wf(self) -> bool {
        &&& self.registry.wf()
        &&& forall|i: int|
            0 <= i < self.registry.clients@.len() ==> (#[trigger] self.registry.clients@[i]).id
                < self.ids.counter
        &&& self.registry.as_map() == run(self.history@)
    }

    /// An empty hub.
    pub fn new() -> (h: Hub)
        ensures
            h.wf(),
            h.registry.clients@ == Seq::<crate::registry::ClientState>::empty(),
            h.ids.counter == 0,
            h.history@ == Seq::<Action>::empty(),
    {
        let h = Hub {
            registry: Registry::new(),
            ids: IdAllocator::new(),
            history: Ghost(Seq::<Action>::empty()),
        };
        proof {
            assert(run(h.history@) =~= Map::<i32, Seq<char>>::empty());
        }
        h
    }

    /// Establishes a new session: allocates a fresh identity, inserts it
    /// with empty text, and returns the identity together with the snapshot
    /// of every other client's state that is delivered to the new client
    /// before any live broadcast.
    pub fn connect(&mut self) -> (r: (i32, Vec<Msg>))
        requires
            old(self).wf(),
            old(self).ids.counter < i32::MAX,
        ensures
            final(self).wf(),
            r.0 == old(self).ids.counter,
            !old(self).registry.contains_id(r.0),
            final(self).registry.contains_id(r.0),
            final(self).registry.as_map() == apply(
                old(self).registry.as_map(),
                Action::Join(r.0),
            ),
            final(self).registry.clients@.len() == old(self).registry.clients@.len() + 1,
            final(self).registry.clients@.last().id == r.0,
            final(self).registry.clients@.last().text@ == Seq::<char>::empty(),
            final(self).registry.clients@.drop_last() == old(self).registry.clients@,
            msgs_view(r.1@) == spec_snapshot(old(self).registry.clients@, r.0),
            final(self).ids.counter == old(self).ids.counter + 1,
            final(self).history@ == old(self).history@.push(Action::Join(r.0)),
    {
        let id = self.ids.next();
        proof {
            if seq_contains(self.registry.clients@, id) {
                let i = choose|i: int|
                    0 <= i < self.registry.clients@.len() && self.registry.clients@[i].id == id;
                assert(self.registry.clients@[i].id < id);
            }
        }
        let welcome = self.registry.snapshot(id);
        self.registry.insert(id, String::new());
        self.history = Ghost(self.history@.push(Action::Join(id)));
        proof {
            assert(self.registry.clients@.drop_last() =~= old(self).registry.clients@);
            assert(self.registry.as_map() =~= apply(
                old(self).registry.as_map(),
                Action::Join(id),
            ));
            assert(self.history@.drop_last() =~= old(self).history@);
            assert(run(self.history@) == apply(run(old(self).history@), Action::Join(id)));
        }
        (id, welcome)
    }

    /// Routes one dequeued event through the registry and computes the
    /// broadcast, exactly as `route` does; the allocator is untouched.
    pub fn handle(&mut self, msg: Msg) -> (out: Vec<Delivery>)
        requires
            old(self).wf(),
        ensures
            final(self).wf(),
            final(self).ids == old(self).ids,
            final(self).registry.as_map() == apply(old(self).registry.as_map(), act_of(msg@)),
            forall|id: i32|
                final(self).registry.contains_id(id) <==> (old(self).registry.contains_id(id)
                    && !(msg@ == MsgView::Remove(id))),
            old(self).registry.contains_id(msg@.origin()) ==> dels_view(out@) == spec_fanout(
                final(self).registry.clients@,
                msg@,
            ),
            !old(self).registry.contains_id(msg@.origin()) ==> out@.len() == 0
                && final(self).registry == old(self).registry,
            forall|k: int| 0 <= k < out@.len() ==> (#[trigger] out@[k]).target != msg@.origin(),
            msg@ is SetText ==> final(self).registry.clients@.len()
                == old(self).registry.clients@.len() && (forall|i: int|
                0 <= i < old(self).registry.clients@.len()
                    ==> (#[trigger] final(self).registry.clients@[i]).id
                    == old(self).registry.clients@[i].id
                    && final(self).registry.clients@[i].text@ == (
                if old(self).registry.clients@[i].id == msg@.origin() {
                    msg@.payload()
                } else {
                    old(self).registry.clients@[i].text@
                })),
            msg@ is Remove && old(self).registry.contains_id(msg@.origin()) ==> exists|i: int|
                0 <= i < old(self).registry.clients@.len() && old(self).registry.clients@[i].id
                    == msg@.origin() && final(self).registry.clients@
                    == old(self).registry.clients@.remove(i),
            final(self).history@ == old(self).history@.push(act_of(msg@)),
    {
        let out = route(&mut self.registry, msg);
        self.history = Ghost(self.history@.push(act_of(msg@)));
        proof {
            assert forall|i: int|
                0 <= i < self.registry.clients@.len() implies (#[trigger] self.registry.clients@[i]).id
                < self.ids.counter by {
                let id = self.registry.clients@[i].id;
                assert(seq_contains(self.registry.clients@, id));
                assert(old(self).registry.contains_id(id));
                let j = choose|j: int|
                    0 <= j < old(self).registry.clients@.len() && old(self).registry.clients@[j].id
                        == id;
                assert(old(self).registry.clients@[j].id < old(self).ids.counter);
            }
            assert(self.history@.drop_last() =~= old(self).history@);
            assert(run(self.history@) == apply(run(old(self).history@), act_of(msg@)));
        }
        out
    }

    /// The live hub is exactly the model: at every moment its registry holds
    /// precisely the ids that have joined and not yet left, each mapped to
    /// its most recently applied text.
    pub proof fn lemma_tracks_history(self)
        requires
            self.wf(),
        ensures
            forall|id: i32|
                self.registry.as_map().dom().contains(id) <==> present(self.history@, id),
            forall|id: i32| #[trigger]
                present(self.history@, id) ==> self.registry.as_map()[id] == current_text(
                    self.history@,
                    id,
                ),
    {
        lemma_registry_tracks_events(self.history@);
    }
}

} // verus!
