//! The event vocabulary of the hub: the wire-level message variants and the
//! addressed deliveries that the router hands to the transport.

use vstd::prelude::*;

verus! {

/// An event flowing through the hub: a client set its text, or a client left.
///
/// `SetText(id, text)` records that client `id` set its shared state to `text`;
/// `Remove(id)` records that client `id` disconnected.
#[derive(Debug, Clone, PartialEq, Eq)]
pub enum Msg {
    SetText(i32, String),
    Remove(i32),
}

/// The mathematical image of a `Msg`: the text as a sequence of characters.
pub enum MsgView {
    SetText(i32, Seq<char>),
    Remove(i32),
}

impl View for Msg {
    type V = MsgView;

    open spec fn view(&self) -> MsgView {
        match self {
            Msg::SetText(id, text) => MsgView::SetText(*id, text@),
            Msg::Remove(id) => MsgView::Remove(*id),
        }
    }
}

impl Msg {
    /// The id of the client this event originates from.
    pub fn origin(&self) -> (r: i32)
        ensures
            r == self@.origin(),
    {
        match self {
            Msg::SetText(id, _) => *id,
            Msg::Remove(id) => *id,
        }
    }

    /// An exact copy of the event, proved to carry the same content.
    pub fn dup(&self) -> (r: Msg)
        ensures
            r@ == self@,
    {
        match self {
            Msg::SetText(id, text) => Msg::SetText(*id, text.clone()),
            Msg::Remove(id) => Msg::Remove(*id),
        }
    }
}

impl MsgView {
    /// The id of the client this event originates from.
    pub open spec fn origin(self) -> i32 {
        match self {
            MsgView::SetText(id, _) => id,
            MsgView::Remove(id) => id,
        }
    }

    /// The text an update carries; empty for a leave.
    pub open spec fn payload(self) -> Seq<char> {
        match self {
            MsgView::SetText(_, t) => t,
            MsgView::Remove(_) => Seq::<char>::empty(),
        }
    }
}

/// One outbound event addressed to one client's outward handle.
#[derive(Debug, Clone, PartialEq, Eq)]
pub struct Delivery {
    /// The id of the client this event is to be delivered to.
    pub target: i32,
    /// The event to deliver.
    pub msg: Msg,
}

impl View for Delivery {
    type V = (i32, MsgView);

    open spec fn view(&self) -> (i32, MsgView) {
        (self.target, self.msg@)
    }
}

/// The mathematical image of a queue of events.
pub open spec fn msgs_view(s: Seq<Msg>) -> Seq<MsgView> {
    s.map_values(|m: Msg| m@)
}

/// The mathematical image of a batch of addressed deliveries.
pub open spec fn dels_view(s: Seq<Delivery>) -> Seq<(i32, MsgView)> {
    s.map_values(|d: Delivery| d@)
}

} // verus!
