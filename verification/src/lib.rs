//! A real-time state-synchronization hub.
//!
//! Many clients each hold a small piece of shared state, a text value; the
//! hub keeps every client's view of all other clients' state consistent. All
//! mutation funnels through one serialized stream of events: the router
//! applies each update or leave to the authoritative registry and fans it
//! out to every other connected client, so broadcast order equals
//! application order. A joining client is assigned a fresh identity and
//! answered with a snapshot of everyone else's state.
//!
//! The transport that carries events to and from the wire is an external
//! collaborator: it hands decoded events in and writes addressed deliveries
//! out.

pub mod hub;
pub mod model;
pub mod msg;
pub mod registry;
pub mod router;

pub use hub::Hub;
pub use hub::IdAllocator;
pub use model::Action;
pub use msg::Delivery;
pub use msg::Msg;
pub use msg::MsgView;
pub use registry::ClientState;
pub use registry::Registry;
pub use router::route;
