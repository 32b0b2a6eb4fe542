//! The event router: the single serialization point through which every
//! update and leave event passes. Each event is applied to the registry and
//! fanned out to every other connected client, in registry order; an event
//! whose originator already left is dropped silently.

use vstd::prelude::*;

use crate::model::act_of;
use crate::model::apply;
use crate::model::delivers_to;
use crate::msg::Delivery;
use crate::msg::Msg;
use crate::msg::MsgView;
use crate::msg::dels_view;
use crate::registry::ClientState;
use crate::registry::Registry;
use crate::registry::ids_unique;
use crate::registry::lemma_as_map_dom;
use crate::registry::seq_as_map;
use crate::registry::seq_contains;

verus! {

/// The fan-out of event `m` against the registry entries `s` that remain
/// after it was applied: one delivery per entry other than the originator,
/// in entry order, each carrying `m` itself.
pub open spec fn spec_fanout(s: Seq<ClientState>, m: MsgView) -> Seq<(i32, MsgView)>
    decreases s.len(),
{
    if s.len() == 0 {
        Seq::<(i32, MsgView)>::empty()
    } else {
        let rest = spec_fanout(s.drop_last(), m);
        if s.last().id == m.origin() {
            rest
        } else {
            rest.push((s.last().id, m))
        }
    }
}

/// The fan-out of an event is exact: every delivery carries the event itself
/// and is addressed to a present client other than the originator; every
/// such client is addressed exactly once.
pub proof fn lemma_fanout_members(s: Seq<ClientState>, m: MsgView)
    requires
        ids_unique(s),
    ensures
        forall|k: int|
            0 <= k < spec_fanout(s, m).len() ==> ((#[trigger] spec_fanout(s, m)[k]).1 == m
                && spec_fanout(s, m)[k].0 != m.origin() && seq_contains(s, spec_fanout(s, m)[k].0)),
        forall|c: i32|
            seq_contains(s, c) && c != m.origin() ==> exists|k: int|
                0 <= k < spec_fanout(s, m).len() && (#[trigger] spec_fanout(s, m)[k]).0 == c,
        forall|k1: int, k2: int|
            0 <= k1 < k2 < spec_fanout(s, m).len() ==> spec_fanout(s, m)[k1].0 != spec_fanout(
                s,
                m,
            )[k2].0,
    decreases s.len(),
{
    if s.len() == 0 {
    } else {
        let d = s.drop_last();
        assert forall|i: int, j: int| 0 <= i < j < d.len() implies d[i].id != d[j].id by {
            assert(d[i] == s[i] && d[j] == s[j]);
        }
        lemma_fanout_members(d, m);
        let f = spec_fanout(s, m);
        let rest = spec_fanout(d, m);
        assert forall|k: int|
            0 <= k < f.len() implies ((#[trigger] f[k]).1 == m && f[k].0 != m.origin()
            && seq_contains(s, f[k].0)) by {
            if k < rest.len() {
                assert(f[k] == rest[k]);
                let i = choose|i: int| 0 <= i < d.len() && d[i].id == rest[k].0;
                assert(s[i].id == rest[k].0);
            } else {
                assert(s.last().id != m.origin() && f[k] == (s.last().id, m));
                assert(s[s.len() - 1].id == f[k].0);
            }
        }
        assert forall|c: i32| seq_contains(s, c) && c != m.origin() implies exists|k: int|
            0 <= k < f.len() && (#[trigger] f[k]).0 == c by {
            let i = choose|i: int| 0 <= i < s.len() && s[i].id == c;
            if i < s.len() - 1 {
                assert(d[i].id == c);
                assert(seq_contains(d, c));
                let k = choose|k: int| 0 <= k < rest.len() && rest[k].0 == c;
                assert(f[k].0 == c);
            } else {
                assert(s.last().id == c && c != m.origin());
                assert(f[f.len() - 1].0 == c);
            }
        }
        assert forall|k1: int, k2: int| 0 <= k1 < k2 < f.len() implies f[k1].0 != f[k2].0 by {
            if k2 < rest.len() {
                assert(f[k1] == rest[k1] && f[k2] == rest[k2]);
            } else {
                assert(s.last().id != m.origin());
                assert(f[k2].0 == s.last().id);
                assert(f[k1] == rest[k1]);
                assert(seq_contains(d, rest[k1].0));
                let i = choose|i: int| 0 <= i < d.len() && d[i].id == rest[k1].0;
                assert(s[i].id != s[s.len() - 1].id);
            }
        }
    }
}

/// The fan-out of a routed event reaches client `c` exactly when the model
/// says the event is delivered to `c`: here `mp` is the registry content the
/// event met, and `s` the entries it left behind.
pub proof fn lemma_fanout_is_model_delivery(
    s: Seq<ClientState>,
    mp: Map<i32, Seq<char>>,
    m: MsgView,
    c: i32,
)
    requires
        ids_unique(s),
        mp.dom().contains(m.origin()),
        seq_as_map(s) == apply(mp, act_of(m)),
    ensures
        (exists|k: int| 0 <= k < spec_fanout(s, m).len() && (#[trigger] spec_fanout(s, m)[k]).0 == c)
            <==> delivers_to(mp, m, c),
{
    lemma_fanout_members(s, m);
    lemma_as_map_dom(s);
    if exists|k: int| 0 <= k < spec_fanout(s, m).len() && (#[trigger] spec_fanout(s, m)[k]).0 == c {
        let k = choose|k: int|
            0 <= k < spec_fanout(s, m).len() && (#[trigger] spec_fanout(s, m)[k]).0 == c;
        assert(seq_contains(s, c) && c != m.origin());
    }
    if delivers_to(mp, m, c) {
        assert(seq_as_map(s).dom().contains(c));
        assert(seq_contains(s, c));
    }
}

/// One delivery per entry of `reg` other than the event's originator, each
/// carrying a copy of the event, in registry order.
fn fanout(reg: &Registry, msg: &Msg) -> (out: Vec<Delivery>)
    ensures
        dels_view(out@) == spec_fanout(reg.clients@, msg@),
{
    let n = reg.clients.len();
    let origin = msg.origin();
    let mut out: Vec<Delivery> = Vec::new();
    let mut i: usize = 0;
    while i < n
        invariant
            i <= n,
            n == reg.clients@.len(),
            origin == msg@.origin(),
            dels_view(out@) =~= spec_fanout(reg.clients@.take(i as int), msg@),
        decreases n - i,
    {
        let ghost pre = out@;
        let c = &reg.clients[i];
        if c.id != origin {
            out.push(Delivery { target: c.id, msg: msg.dup() });
            proof {
                assert(dels_view(out@) =~= dels_view(pre).push(
                    (reg.clients@[i as int].id, msg@),
                ));
            }
        }
        i += 1;
        proof {
            let t = reg.clients@.take(i as int);
            assert(t.drop_last() =~= reg.clients@.take(i as int - 1));
            assert(t.last() == reg.clients@[i as int - 1]);
        }
    }
    proof {
        assert(reg.clients@.take(n as int) =~= reg.clients@);
    }
    out
}

/// Applies one dequeued event to the registry and computes the broadcast.
///
/// An update for a present client replaces its text and is fanned out to
/// every other client; a leave for a present client removes it and is fanned
/// out to every remaining client. An event whose originator is no longer
/// present leaves the registry untouched and is dropped without a broadcast.
/// No delivery ever targets the originator itself.
pub fn route(reg: &mut Registry, msg: Msg) -> (out: Vec<Delivery>)
    requires
        old(reg).wf(),
    ensures
        final(reg).wf(),
        final(reg).as_map() == apply(old(reg).as_map(), act_of(msg@)),
        forall|id: i32|
            final(reg).contains_id(id) <==> (old(reg).contains_id(id) && !(msg@
                == MsgView::Remove(id))),
        old(reg).contains_id(msg@.origin()) ==> dels_view(out@) == spec_fanout(
            final(reg).clients@,
            msg@,
        ),
        !old(reg).contains_id(msg@.origin()) ==> out@.len() == 0 && *final(reg) == *old(reg),
        forall|k: int| 0 <= k < out@.len() ==> (#[trigger] out@[k]).target != msg@.origin(),
        msg@ is SetText ==> final(reg).clients@.len() == old(reg).clients@.len() && (forall|i: int|
            0 <= i < old(reg).clients@.len() ==> (#[trigger] final(reg).clients@[i]).id
                == old(reg).clients@[i].id && final(reg).clients@[i].text@ == (
            if old(reg).clients@[i].id == msg@.origin() {
                msg@.payload()
            } else {
                old(reg).clients@[i].text@
            })),
        msg@ is Remove && old(reg).contains_id(msg@.origin()) ==> exists|i: int|
            0 <= i < old(reg).clients@.len() && old(reg).clients@[i].id == msg@.origin()
                && final(reg).clients@ == old(reg).clients@.remove(i),
{
    proof {
        lemma_as_map_dom(old(reg).clients@);
    }
    match msg {
        Msg::SetText(id, text) => {
            let echo = text.clone();
            let updated = reg.update(id, text);
            if updated {
                let out = fanout(reg, &Msg::SetText(id, echo));
                proof {
                    lemma_fanout_members(reg.clients@, MsgView::SetText(id, echo@));
                    assert forall|k: int|
                        0 <= k < out@.len() implies (#[trigger] out@[k]).target != id by {
                        assert(dels_view(out@)[k] == out@[k]@);
                    }
                    let i = choose|i: int|
                        0 <= i < old(reg).clients@.len() && old(reg).clients@[i].id == id
                            && reg.clients@ == old(reg).clients@.update(
                            i,
                            (ClientState { id, text }),
                        );
                    assert forall|j: int|
                        0 <= j < old(reg).clients@.len() implies (#[trigger] reg.clients@[j]).id
                        == old(reg).clients@[j].id && reg.clients@[j].text@ == (
                    if old(reg).clients@[j].id == id {
                        text@
                    } else {
                        old(reg).clients@[j].text@
                    }) by {
                        if j != i {
                            assert(old(reg).clients@[j].id != old(reg).clients@[i].id);
                        }
                    }
                }
                out
            } else {
                proof {
                    let ghost s0 = old(reg).clients@;
                    assert forall|j: int|
                        0 <= j < s0.len() implies (#[trigger] s0[j]).id != id by {
                        assert(!(0 <= j < s0.len() && s0[j].id == id));
                    }
                }
                Vec::new()
            }
        },
        Msg::Remove(id) => {
            let removed = reg.remove(id);
            if removed {
                let out = fanout(reg, &Msg::Remove(id));
                proof {
                    lemma_fanout_members(reg.clients@, MsgView::Remove(id));
                    assert forall|k: int|
                        0 <= k < out@.len() implies (#[trigger] out@[k]).target != id by {
                        assert(dels_view(out@)[k] == out@[k]@);
                    }
                }
                out
            } else {
                Vec::new()
            }
        },
    }
}

} // verus!
