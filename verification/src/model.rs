//! The order-free model of the hub: how a trace of join, update and leave
//! actions determines the registry's content, and which events each client
//! observes. The laws of the hub are stated and proved here, over the same
//! spec functions that the executable contracts use.

use vstd::prelude::*;

use crate::msg::MsgView;

verus! {

/// One action applied at the hub's serialization point.
pub enum Action {
    /// A client joined and was inserted with empty text.
    Join(i32),
    /// A client set its text.
    SetText(i32, Seq<char>),
    /// A client left.
    Leave(i32),
}

/// The action that a routed event performs on the registry.
pub open spec fn act_of(m: MsgView) -> Action {
    match m {
        MsgView::SetText(id, t) => Action::SetText(id, t),
        MsgView::Remove(id) => Action::Leave(id),
    }
}

/// One step of the registry model: joins insert with empty text, updates
/// replace the text of a present client and are otherwise a no-op, leaves
/// remove.
pub open spec fn apply(m: Map<i32, Seq<char>>, a: Action) -> Map<i32, Seq<char>> {
    match a {
        Action::Join(id) => m.insert(id, Seq::<char>::empty()),
        Action::SetText(id, t) => if m.dom().contains(id) {
            m.insert(id, t)
        } else {
            m
        },
        Action::Leave(id) => m.remove(id),
    }
}

/// The registry content that a trace of actions, applied in order to an
/// initially empty registry, leaves behind.
pub open spec fn run(tr: Seq<Action>) -> Map<i32, Seq<char>>
    decreases tr.len(),
{
    if tr.len() == 0 {
        Map::<i32, Seq<char>>::empty()
    } else {
        apply(run(tr.drop_last()), tr.last())
    }
}

/// Whether `id` has joined and not left again by the end of the trace:
/// its last join or leave action is a join.
pub open spec fn present(tr: Seq<Action>, id: i32) -> bool
    decreases tr.len(),
{
    if tr.len() == 0 {
        false
    } else {
        match tr.last() {
            Action::Join(j) => j == id || present(tr.drop_last(), id),
            Action::SetText(_, _) => present(tr.drop_last(), id),
            Action::Leave(j) => j != id && present(tr.drop_last(), id),
        }
    }
}

/// The most recently applied text of `id`: the text of the last update that
/// found `id` present, or the empty text of its last join.
pub open spec fn current_text(tr: Seq<Action>, id: i32) -> Seq<char>
    decreases tr.len(),
{
    if tr.len() == 0 {
        Seq::<char>::empty()
    } else {
        match tr.last() {
            Action::Join(j) => if j == id {
                Seq::<char>::empty()
            } else {
                current_text(tr.drop_last(), id)
            },
            Action::SetText(j, t) => if j == id && present(tr.drop_last(), id) {
                t
            } else {
                current_text(tr.drop_last(), id)
            },
            Action::Leave(_) => current_text(tr.drop_last(), id),
        }
    }
}

/// After any trace of actions applied to an initially empty registry, the
/// registry contains exactly the ids that have joined and not yet left, each
/// mapped to its most recently applied text.
pub proof fn lemma_registry_tracks_events(tr: Seq<Action>)
    ensures
        forall|id: i32| run(tr).dom().contains(id) <==> present(tr, id),
        forall|id: i32| #[trigger] present(tr, id) ==> run(tr)[id] == current_text(tr, id),
    decreases tr.len(),
{
    if tr.len() == 0 {
    } else {
        lemma_registry_tracks_events(tr.drop_last());
        let prefix = tr.drop_last();
        assert forall|id: i32| run(tr).dom().contains(id) <==> present(tr, id) by {
            assert(run(prefix).dom().contains(id) <==> present(prefix, id));
        }
        assert forall|id: i32| #[trigger] present(tr, id) implies run(tr)[id] == current_text(
            tr,
            id,
        ) by {
            assert(run(prefix).dom().contains(id) <==> present(prefix, id));
            if present(prefix, id) {
                assert(run(prefix)[id] == current_text(prefix, id));
            }
        }
    }
}

/// Whether processing event `e` against registry content `m` delivers `e` to
/// client `c`: the originator must be present for the event to be applied,
/// and `c` must be among the remaining clients other than the originator.
pub open spec fn delivers_to(m: Map<i32, Seq<char>>, e: MsgView, c: i32) -> bool {
    m.dom().contains(e.origin()) && c != e.origin() && apply(m, act_of(e)).dom().contains(c)
}

/// The registry content after routing a queue of events, in order.
pub open spec fn run_events(m: Map<i32, Seq<char>>, evs: Seq<MsgView>) -> Map<i32, Seq<char>>
    decreases evs.len(),
{
    if evs.len() == 0 {
        m
    } else {
        run_events(apply(m, act_of(evs.first())), evs.drop_first())
    }
}

/// The events client `c` observes while the router works through a queue of
/// events, in queue order: each event is delivered at the moment it is
/// applied, or not at all.
pub open spec fn stream_to(m: Map<i32, Seq<char>>, evs: Seq<MsgView>, c: i32) -> Seq<MsgView>
    decreases evs.len(),
{
    if evs.len() == 0 {
        Seq::<MsgView>::empty()
    } else {
        let head = if delivers_to(m, evs.first(), c) {
            seq![evs.first()]
        } else {
            Seq::<MsgView>::empty()
        };
        head + stream_to(apply(m, act_of(evs.first())), evs.drop_first(), c)
    }
}

/// A client's observed stream splits at any point of the queue: what it
/// observes of `a + b` is what it observes of `a`, then what it observes of
/// `b` against the registry that `a` left behind.
pub proof fn lemma_stream_split(m: Map<i32, Seq<char>>, a: Seq<MsgView>, b: Seq<MsgView>, c: i32)
    ensures
        stream_to(m, a + b, c) == stream_to(m, a, c) + stream_to(run_events(m, a), b, c),
        run_events(m, a + b) == run_events(run_events(m, a), b),
    decreases a.len(),
{
    if a.len() == 0 {
        assert(a + b =~= b);
        assert(stream_to(m, a, c) + stream_to(run_events(m, a), b, c) =~= stream_to(m, b, c));
    } else {
        let m1 = apply(m, act_of(a.first()));
        assert((a + b).first() == a.first());
        assert((a + b).drop_first() =~= a.drop_first() + b);
        lemma_stream_split(m1, a.drop_first(), b, c);
        assert(stream_to(m, a + b, c) =~= stream_to(m, a, c) + stream_to(run_events(m, a), b, c));
    }
}

/// The contribution of a single event to a client's observed stream.
pub open spec fn observed(m: Map<i32, Seq<char>>, e: MsgView, c: i32) -> Seq<MsgView> {
    if delivers_to(m, e, c) {
        seq![e]
    } else {
        Seq::<MsgView>::empty()
    }
}

/// A queue of one event contributes exactly its own observation.
pub proof fn lemma_stream_single(m: Map<i32, Seq<char>>, e: MsgView, c: i32)
    ensures
        stream_to(m, seq![e], c) == observed(m, e, c),
        run_events(m, seq![e]) == apply(m, act_of(e)),
{
    let s: Seq<MsgView> = seq![e];
    assert(s.first() == e);
    assert(s.drop_first() =~= Seq::<MsgView>::empty());
    assert(stream_to(apply(m, act_of(e)), s.drop_first(), c) =~= Seq::<MsgView>::empty());
    assert(run_events(apply(m, act_of(e)), s.drop_first()) == apply(m, act_of(e)));
    assert(stream_to(m, s, c) =~= observed(m, e, c));
}

/// Events are observed in the order they were enqueued. For any two events
/// `e1` then `e2` standing anywhere in the queue in that order, every
/// client's observed stream is: its observations of the part before `e1`,
/// then `e1` (if delivered to it), then its observations of the part between,
/// then `e2` (if delivered), then its observations of the rest. In
/// particular, a client that receives both receives `e1` before `e2`, with
/// everything in between in queue order.
pub proof fn lemma_observed_in_order(
    m: Map<i32, Seq<char>>,
    pre: Seq<MsgView>,
    e1: MsgView,
    mid: Seq<MsgView>,
    e2: MsgView,
    post: Seq<MsgView>,
    c: i32,
)
    ensures
        ({
            let m1 = run_events(m, pre);
            let m2 = run_events(m, pre + seq![e1] + mid);
            stream_to(m, pre + seq![e1] + mid + seq![e2] + post, c) == stream_to(m, pre, c)
                + observed(m1, e1, c) + stream_to(apply(m1, act_of(e1)), mid, c)
                + observed(m2, e2, c) + stream_to(apply(m2, act_of(e2)), post, c)
        }),
{
    let m1 = run_events(m, pre);
    let s1 = seq![e1];
    let s2 = seq![e2];
    lemma_stream_split(m, pre + s1 + mid + s2, post, c);
    lemma_stream_split(m, pre + s1 + mid, s2, c);
    lemma_stream_split(m, pre + s1, mid, c);
    lemma_stream_split(m, pre, s1, c);
    let m2 = run_events(m, pre + s1 + mid);
    lemma_stream_single(m1, e1, c);
    lemma_stream_single(m2, e2, c);
    assert(pre + s1 + mid + s2 + post =~= (pre + s1 + mid + s2) + post);
    assert(pre + s1 + mid + s2 =~= (pre + s1 + mid) + s2);
    assert(pre + s1 + mid =~= (pre + s1) + mid);
    assert(stream_to(m, pre + s1 + mid + s2 + post, c) == stream_to(m, pre, c) + observed(m1, e1, c)
        + stream_to(apply(m1, act_of(e1)), mid, c) + observed(m2, e2, c)
        + stream_to(apply(m2, act_of(e2)), post, c));
}

/// Applying a leave twice in a row leaves the registry exactly as applying it
/// once does, and the second application delivers nothing to anyone.
pub proof fn lemma_leave_idempotent(m: Map<i32, Seq<char>>, id: i32)
    ensures
        apply(apply(m, Action::Leave(id)), Action::Leave(id)) == apply(m, Action::Leave(id)),
        forall|c: i32| !delivers_to(apply(m, Action::Leave(id)), MsgView::Remove(id), c),
{
    assert(apply(apply(m, Action::Leave(id)), Action::Leave(id)) =~= apply(m, Action::Leave(id)));
}

/// No self-echo, at the model level: no event is ever delivered to the client
/// it originates from.
pub proof fn lemma_no_self_echo(m: Map<i32, Seq<char>>, e: MsgView)
    ensures
        !delivers_to(m, e, e.origin()),
{
}

} // verus!
