//! The authoritative registry: the single mapping from client identity to the
//! client's current text, kept in join order.
//!
//! The registry is modelled two ways. The sequence of entries (`clients@`)
//! fixes the iteration order that snapshots and broadcast fan-out follow; the
//! derived map (`as_map`) is the order-free model that the event laws speak
//! of. `seq_as_map` connects the two, and the lemmas below carry each mutation
//! from the sequence to the map.

use vstd::prelude::*;

use crate::msg::Msg;
use crate::msg::MsgView;
use crate::msg::msgs_view;

verus! {

/// One connected client's shared state: its identity and its current text.
#[derive(Debug, Clone)]
pub struct ClientState {
    /// The unique identity assigned at connection time, never reused.
    pub id: i32,
    /// The client's current text value; the hub does not interpret it.
    pub text: String,
}

/// No two entries of `s` carry the same identity.
pub open spec fn ids_unique(s: Seq<ClientState>) -> bool {
    forall|i: int, j: int| 0 <= i < j < s.len() ==> s[i].id != s[j].id
}

/// Some entry of `s` carries the identity `id`.
pub open spec fn seq_contains(s: Seq<ClientState>, id: i32) -> bool {
    exists|i: int| 0 <= i < s.len() && s[i].id == id
}

/// The map from identity to text that a sequence of entries denotes.
pub open spec fn seq_as_map(s: Seq<ClientState>) -> Map<i32, Seq<char>>
    decreases s.len(),
{
    if s.len() == 0 {
        Map::<i32, Seq<char>>::empty()
    } else {
        seq_as_map(s.drop_last()).insert(s.last().id, s.last().text@)
    }
}

/// An identity is in the map's domain exactly when some entry carries it.
pub proof fn lemma_as_map_dom(s: Seq<ClientState>)
    ensures
        forall|id: i32| seq_as_map(s).dom().contains(id) <==> seq_contains(s, id),
    decreases s.len(),
{
    if s.len() == 0 {
    } else {
        lemma_as_map_dom(s.drop_last());
        assert forall|id: i32| seq_as_map(s).dom().contains(id) implies seq_contains(s, id) by {
            if id == s.last().id {
                assert(s[s.len() - 1].id == id);
            } else {
                assert(seq_as_map(s.drop_last()).dom().contains(id));
                assert(seq_contains(s.drop_last(), id));
                let i = choose|i: int| 0 <= i < s.drop_last().len() && s.drop_last()[i].id == id;
                assert(s[i] == s.drop_last()[i]);
                assert(s[i].id == id);
            }
        }
        assert forall|id: i32| seq_contains(s, id) implies seq_as_map(s).dom().contains(id) by {
            let i = choose|i: int| 0 <= i < s.len() && s[i].id == id;
            if i < s.len() - 1 {
                assert(s.drop_last()[i].id == id);
                assert(seq_contains(s.drop_last(), id));
                assert(seq_as_map(s.drop_last()).dom().contains(id));
            }
        }
    }
}

/// With unique identities, the map sends each entry's id to that entry's text.
pub proof fn lemma_as_map_index(s: Seq<ClientState>, i: int)
    requires
        ids_unique(s),
        0 <= i < s.len(),
    ensures
        seq_as_map(s).dom().contains(s[i].id),
        seq_as_map(s)[s[i].id] == s[i].text@,
    decreases s.len(),
{
    if i == s.len() - 1 {
    } else {
        assert(s.drop_last()[i] == s[i]);
        lemma_as_map_index(s.drop_last(), i);
        assert(s[i].id != s.last().id);
    }
}

/// Replacing the entry at `i` by one with the same id is, on the map, an
/// insert of the new text at that id.
pub proof fn lemma_as_map_update(s: Seq<ClientState>, i: int, c: ClientState)
    requires
        ids_unique(s),
        0 <= i < s.len(),
        s[i].id == c.id,
    ensures
        seq_as_map(s.update(i, c)) =~= seq_as_map(s).insert(c.id, c.text@),
    decreases s.len(),
{
    if i == s.len() - 1 {
        assert(s.update(i, c).drop_last() =~= s.drop_last());
    } else {
        assert(s.update(i, c).drop_last() =~= s.drop_last().update(i, c));
        assert(s.drop_last()[i] == s[i]);
        lemma_as_map_update(s.drop_last(), i, c);
        assert(s[i].id != s.last().id);
    }
}

/// Removing the entry at `i` is, on the map, a removal of that entry's id.
pub proof fn lemma_as_map_remove(s: Seq<ClientState>, i: int)
    requires
        ids_unique(s),
        0 <= i < s.len(),
    ensures
        seq_as_map(s.remove(i)) =~= seq_as_map(s).remove(s[i].id),
    decreases s.len(),
{
    if i == s.len() - 1 {
        assert(s.remove(i) =~= s.drop_last());
        lemma_as_map_dom(s.drop_last());
        assert(forall|j: int| 0 <= j < s.drop_last().len() ==> s[j].id != s.last().id);
        assert(!seq_contains(s.drop_last(), s.last().id));
        assert(seq_as_map(s.drop_last()).insert(s.last().id, s.last().text@).remove(s.last().id)
            =~= seq_as_map(s.drop_last()));
    } else {
        assert(s.remove(i).drop_last() =~= s.drop_last().remove(i));
        assert(s.remove(i).last() == s.last());
        assert(s.drop_last()[i] == s[i]);
        lemma_as_map_remove(s.drop_last(), i);
        assert(s[i].id != s.last().id);
    }
}

/// A sequence without an id denotes a map without it.
pub proof fn lemma_as_map_absent(s: Seq<ClientState>, id: i32)
    requires
        !seq_contains(s, id),
    ensures
        seq_as_map(s).remove(id) =~= seq_as_map(s),
{
    lemma_as_map_dom(s);
}

/// The point-in-time content sent to a newly joined client: one `SetText`
/// event for each entry of `s` but the excluded one, in entry order.
pub open spec fn spec_snapshot(s: Seq<ClientState>, exclude: i32) -> Seq<MsgView>
    decreases s.len(),
{
    if s.len() == 0 {
        Seq::<MsgView>::empty()
    } else {
        let rest = spec_snapshot(s.drop_last(), exclude);
        if s.last().id == exclude {
            rest
        } else {
            rest.push(MsgView::SetText(s.last().id, s.last().text@))
        }
    }
}

/// Every event of a snapshot describes one of the entries, never the
/// excluded client.
pub proof fn lemma_snapshot_elems(s: Seq<ClientState>, exclude: i32)
    ensures
        forall|k: int|
            0 <= k < spec_snapshot(s, exclude).len() ==> exists|i: int|
                0 <= i < s.len() && s[i].id != exclude && (#[trigger] spec_snapshot(s, exclude)[k])
                    == MsgView::SetText(s[i].id, s[i].text@),
    decreases s.len(),
{
    if s.len() == 0 {
    } else {
        let d = s.drop_last();
        lemma_snapshot_elems(d, exclude);
        let f = spec_snapshot(s, exclude);
        let rest = spec_snapshot(d, exclude);
        assert forall|k: int| 0 <= k < f.len() implies exists|i: int|
            0 <= i < s.len() && s[i].id != exclude && (#[trigger] f[k]) == MsgView::SetText(
                s[i].id,
                s[i].text@,
            ) by {
            if k < rest.len() {
                assert(f[k] == rest[k]);
                let i = choose|i: int|
                    0 <= i < d.len() && d[i].id != exclude && rest[k] == MsgView::SetText(
                        d[i].id,
                        d[i].text@,
                    );
                assert(s[i] == d[i]);
            } else {
                assert(s.last().id != exclude && f[k] == MsgView::SetText(
                    s.last().id,
                    s.last().text@,
                ));
                assert(s[s.len() - 1].id != exclude);
            }
        }
    }
}

/// Every entry other than the excluded client is described by some event of
/// the snapshot.
pub proof fn lemma_snapshot_covers(s: Seq<ClientState>, exclude: i32)
    ensures
        forall|i: int|
            0 <= i < s.len() && (#[trigger] s[i]).id != exclude ==> exists|k: int|
                0 <= k < spec_snapshot(s, exclude).len() && spec_snapshot(s, exclude)[k]
                    == MsgView::SetText(s[i].id, s[i].text@),
    decreases s.len(),
{
    if s.len() == 0 {
    } else {
        let d = s.drop_last();
        lemma_snapshot_covers(d, exclude);
        let f = spec_snapshot(s, exclude);
        let rest = spec_snapshot(d, exclude);
        assert forall|i: int| 0 <= i < s.len() && (#[trigger] s[i]).id != exclude implies exists|
            k: int,
        |
            0 <= k < f.len() && f[k] == MsgView::SetText(s[i].id, s[i].text@) by {
            if i < s.len() - 1 {
                assert(d[i] == s[i]);
                let k = choose|k: int|
                    0 <= k < rest.len() && rest[k] == MsgView::SetText(d[i].id, d[i].text@);
                assert(f[k] == MsgView::SetText(s[i].id, s[i].text@));
            } else {
                assert(f[f.len() - 1] == MsgView::SetText(s[i].id, s[i].text@));
            }
        }
    }
}

/// With unique identities, no client is described twice by one snapshot.
pub proof fn lemma_snapshot_unique(s: Seq<ClientState>, exclude: i32)
    requires
        ids_unique(s),
    ensures
        forall|k1: int, k2: int|
            0 <= k1 < k2 < spec_snapshot(s, exclude).len() ==> spec_snapshot(
                s,
                exclude,
            )[k1].origin() != spec_snapshot(s, exclude)[k2].origin(),
    decreases s.len(),
{
    if s.len() == 0 {
    } else {
        let d = s.drop_last();
        assert forall|i: int, j: int| 0 <= i < j < d.len() implies d[i].id != d[j].id by {
            assert(d[i] == s[i] && d[j] == s[j]);
        }
        lemma_snapshot_unique(d, exclude);
        lemma_snapshot_elems(d, exclude);
        let f = spec_snapshot(s, exclude);
        let rest = spec_snapshot(d, exclude);
        assert forall|k1: int, k2: int|
            0 <= k1 < k2 < f.len() implies f[k1].origin() != f[k2].origin() by {
            if k2 < rest.len() {
                assert(f[k1] == rest[k1] && f[k2] == rest[k2]);
            } else {
                assert(f[k2].origin() == s.last().id);
                assert(f[k1] == rest[k1]);
                let i = choose|i: int|
                    0 <= i < d.len() && d[i].id != exclude && rest[k1] == MsgView::SetText(
                        d[i].id,
                        d[i].text@,
                    );
                assert(s[i].id != s[s.len() - 1].id);
            }
        }
    }
}

/// The authoritative mapping from client identity to current state.
///
/// Entries are kept in join order; the event router is the sole writer.
pub struct Registry {
    /// The connected clients, one entry per present identity.
    pub clients: Vec<ClientState>,
}

impl Registry {
    /// The registry's invariant: no identity occurs twice.
    pub open spec fn wf(self) -> bool {
        ids_unique(self.clients@)
    }

    /// Whether the identity `id` is currently present.
    pub open spec fn contains_id(self, id: i32) -> bool {
        seq_contains(self.clients@, id)
    }

    /// The order-free model of the registry: identity to text.
    pub open spec fn as_map(self) -> Map<i32, Seq<char>> {
        seq_as_map(self.clients@)
    }

    /// An empty registry.
    pub fn new() -> (r: Registry)
        ensures
            r.wf(),
            r.clients@ == Seq::<ClientState>::empty(),
            r.as_map() == Map::<i32, Seq<char>>::empty(),
    {
        Registry { clients: Vec::new() }
    }

    /// The position of the entry carrying `id`, if any.
    fn find(&self, id: i32) -> (r: Option<usize>)
        ensures
            match r {
                Some(i) => i < self.clients@.len() && self.clients@[i as int].id == id,
                None => !self.contains_id(id),
            },
    {
        let n = self.clients.len();
        let mut i: usize = 0;
        while i < n
            invariant
                i <= n,
                n == self.clients@.len(),
                forall|j: int| 0 <= j < i ==> self.clients@[j].id != id,
            decreases n - i,
        {
            if self.clients[i].id == id {
                return Some(i);
            }
            i += 1;
        }
        None
    }

    /// Adds a new entry. The identity must be fresh; the allocator's
    /// monotonicity guarantees that for every real join.
    pub fn insert(&mut self, id: i32, text: String)
        requires
            old(self).wf(),
            !old(self).contains_id(id),
        ensures
            final(self).wf(),
            final(self).clients@ == old(self).clients@.push((ClientState { id, text })),
            final(self).as_map() == old(self).as_map().insert(id, text@),
            final(self).contains_id(id),
    {
        let ghost s0 = self.clients@;
        self.clients.push(ClientState { id, text });
        proof {
            let s1 = self.clients@;
            assert(s1.drop_last() =~= s0);
            assert forall|i: int, j: int| 0 <= i < j < s1.len() implies s1[i].id != s1[j].id by {
                if j == s1.len() - 1 {
                    assert(!(0 <= i < s0.len() && s0[i].id == id));
                }
            }
            assert(s1[s1.len() - 1].id == id);
        }
    }

    /// Replaces the text of `id` if present and reports whether it was;
    /// an update for a departed client is a silent no-op.
    pub fn update(&mut self, id: i32, text: String) -> (updated: bool)
        requires
            old(self).wf(),
        ensures
            final(self).wf(),
            updated == old(self).contains_id(id),
            final(self).as_map() == if updated {
                old(self).as_map().insert(id, text@)
            } else {
                old(self).as_map()
            },
            updated ==> exists|i: int|
                0 <= i < old(self).clients@.len() && old(self).clients@[i].id == id
                    && final(self).clients@ == old(self).clients@.update(i, (ClientState { id, text })),
            !updated ==> *final(self) == *old(self),
            forall|j: i32| final(self).contains_id(j) <==> old(self).contains_id(j),
    {
        let ghost s0 = self.clients@;
        match self.find(id) {
            Some(i) => {
                self.clients[i] = ClientState { id, text };
                proof {
                    let s1 = self.clients@;
                    assert(s1 =~= s0.update(i as int, (ClientState { id, text })));
                    assert forall|a: int, b: int| 0 <= a < b < s1.len() implies s1[a].id != s1[b].id by {
                        assert(s0[a].id != s0[b].id);
                    }
                    lemma_as_map_update(s0, i as int, ClientState { id, text });
                    assert(s0[i as int].id == id);
                    assert forall|j: i32| seq_contains(s1, j) implies seq_contains(s0, j) by {
                        let a = choose|a: int| 0 <= a < s1.len() && s1[a].id == j;
                        if a == i as int {
                            assert(s0[a].id == id);
                        }
                        assert(s0[a].id == j);
                    }
                    assert forall|j: i32| seq_contains(s0, j) implies seq_contains(s1, j) by {
                        let a = choose|a: int| 0 <= a < s0.len() && s0[a].id == j;
                        if a == i as int {
                            assert(s1[a].id == id);
                        }
                        assert(s1[a].id == j);
                    }
                }
                true
            },
            None => {
                false
            },
        }
    }

    /// Removes the entry of `id` if present and reports whether it was;
    /// a second leave for the same client is a silent no-op.
    pub fn remove(&mut self, id: i32) -> (removed: bool)
        requires
            old(self).wf(),
        ensures
            final(self).wf(),
            removed == old(self).contains_id(id),
            final(self).as_map() == old(self).as_map().remove(id),
            removed ==> exists|i: int|
                0 <= i < old(self).clients@.len() && old(self).clients@[i].id == id
                    && final(self).clients@ == old(self).clients@.remove(i),
            !removed ==> *final(self) == *old(self),
            !final(self).contains_id(id),
            forall|j: i32|
                final(self).contains_id(j) <==> (old(self).contains_id(j) && j != id),
    {
        let ghost s0 = self.clients@;
        match self.find(id) {
            Some(i) => {
                self.clients.remove(i);
                proof {
                    let s1 = self.clients@;
                    assert(s1 == s0.remove(i as int));
                    assert forall|a: int, b: int| 0 <= a < b < s1.len() implies s1[a].id != s1[b].id by {
                        let a0: int = if a < i as int { a } else { a + 1 };
                        let b0: int = if b < i as int { b } else { b + 1 };
                        assert(s1[a] == s0[a0]);
                        assert(s1[b] == s0[b0]);
                    }
                    lemma_as_map_remove(s0, i as int);
                    assert forall|j: i32| seq_contains(s1, j) implies seq_contains(s0, j) by {
                        let a = choose|a: int| 0 <= a < s1.len() && s1[a].id == j;
                        let a0: int = if a < i as int { a } else { a + 1 };
                        assert(s1[a] == s0[a0]);
                        assert(s0[a0].id == j);
                    }
                    assert forall|a: int| 0 <= a < s1.len() implies s1[a].id != id by {
                        let a0: int = if a < i as int { a } else { a + 1 };
                        assert(s1[a] == s0[a0]);
                        assert(a0 != i as int);
                        assert(s0[a0].id != s0[i as int].id);
                    }
                    assert forall|j: i32| seq_contains(s0, j) && j != id implies seq_contains(
                        s1,
                        j,
                    ) by {
                        let a = choose|a: int| 0 <= a < s0.len() && s0[a].id == j;
                        if a < i as int {
                            assert(s1[a] == s0[a]);
                        } else {
                            assert(a != i as int);
                            assert(s1[a - 1] == s0[a]);
                        }
                    }
                }
                true
            },
            None => {
                proof {
                    lemma_as_map_absent(s0, id);
                }
                false
            },
        }
    }

    /// A point-in-time read of every entry but `exclude`, encoded as the
    /// `SetText` events that reconstruct the current shared state.
    pub fn snapshot(&self, exclude: i32) -> (snap: Vec<Msg>)
        ensures
            msgs_view(snap@) == spec_snapshot(self.clients@, exclude),
    {
        let n = self.clients.len();
        let mut snap: Vec<Msg> = Vec::new();
        let mut i: usize = 0;
        while i < n
            invariant
                i <= n,
                n == self.clients@.len(),
                msgs_view(snap@) =~= spec_snapshot(self.clients@.take(i as int), exclude),
            decreases n - i,
        {
            let ghost pre = snap@;
            let c = &self.clients[i];
            if c.id != exclude {
                snap.push(Msg::SetText(c.id, c.text.clone()));
                proof {
                    assert(msgs_view(snap@) =~= msgs_view(pre).push(
                        MsgView::SetText(self.clients@[i as int].id, self.clients@[i as int].text@),
                    ));
                }
            }
            i += 1;
            proof {
                let t = self.clients@.take(i as int);
                assert(t.drop_last() =~= self.clients@.take(i as int - 1));
                assert(t.last() == self.clients@[i as int - 1]);
            }
        }
        proof {
            assert(self.clients@.take(n as int) =~= self.clients@);
        }
        snap
    }

    /// The number of connected clients.
    pub fn len(&self) -> (n: usize)
        ensures
            n == self.clients@.len(),
    {
        self.clients.len()
    }

    /// Whether the identity `id` is currently present.
    pub fn contains(&self, id: i32) -> (b: bool)
        ensures
            b == self.contains_id(id),
    {
        self.find(id).is_some()
    }

    /// The current text of `id`, or `None` when `id` is not present.
    pub fn get_text(&self, id: i32) -> (r: Option<String>)
        requires
            self.wf(),
        ensures
            match r {
                Some(t) => self.contains_id(id) && t@ == self.as_map()[id],
                None => !self.contains_id(id),
            },
    {
        match self.find(id) {
            Some(i) => {
                proof {
                    lemma_as_map_index(self.clients@, i as int);
                }
                Some(self.clients[i].text.clone())
            },
            None => None,
        }
    }
}

} // verus!
