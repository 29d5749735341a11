//! The event dispatcher.
//!
//! Inbound events arrive as a name and a payload and are decoded once, at this
//! boundary, into a tagged variant; unrecognised names become `Unknown` and
//! are ignored rather than terminating the connection. A `join` names a room
//! to enter; an empty room name is rejected here, before the membership table
//! is touched. A `message` is relayed as a `response` event to the fixed
//! well-known room `"default"`, whatever room the sender itself occupies —
//! joining affects grouping only, not where messages of this vocabulary land.
//! On a transport disconnect the connection leaves its room and is
//! unregistered, in that order.

use vstd::prelude::*;

use crate::broadcast::{recips, Delivery};
use crate::relay::{joined, left_all, Relay};

verus! {

/// One decoded inbound event.
pub enum Event {
    /// Enter the room with the given name.
    Join { room: String },
    /// Relay the payload to the well-known broadcast room.
    Message { payload: String },
    /// Any event with an unrecognised name; ignored.
    Unknown,
}

/// The name of the fixed room that `message` events are relayed to.
pub open spec fn default_room() -> Seq<char> {
    "default"@
}

/// The name of the event under which relayed payloads are delivered.
pub open spec fn response_event() -> Seq<char> {
    "response"@
}

/// Classifies an inbound event by name: `join` and `message` are the fixed
/// vocabulary, anything else is `Unknown`.
pub fn decode_event(name: &str, payload: String) -> (e: Event)
    ensures
        name@ == "join"@ ==> e == (Event::Join { room: payload }),
        name@ == "message"@ ==> e == (Event::Message { payload }),
        name@ != "join"@ && name@ != "message"@ ==> e == Event::Unknown,
{
    proof {
        reveal_strlit("join");
        reveal_strlit("message");
        assert("join"@.len() == 4);
        assert("message"@.len() == 7);
        assert("join"@ != "message"@);
    }
    let n: String = name.to_owned();
    if n == String::from_str("join") {
        Event::Join { room: payload }
    } else if n == String::from_str("message") {
        Event::Message { payload }
    } else {
        Event::Unknown
    }
}

impl Relay {
    /// Handles one decoded inbound event from connection `id` and returns the
    /// deliveries it gives rise to, already resolved against the current
    /// membership. A `join` with a non-empty room name moves the connection
    /// there; with an empty name it is rejected and nothing changes. A
    /// `message` changes no membership and is delivered as a `response` to
    /// every current member of the room `"default"`, each exactly once, the
    /// sender included if it is a member. An `Unknown` event is ignored.
    pub fn handle_event(&mut self, id: u64, ev: Event) -> (out: Vec<Delivery>)
        requires
            old(self).wf(),
        ensures
            final(self).wf(),
            match ev {
                Event::Join { room } => {
                    &&& out@.len() == 0
                    &&& room@.len() > 0 ==> final(self)@ == joined(old(self)@, id, room@)
                    &&& room@.len() == 0 ==> final(self)@ == old(self)@
                },
                Event::Message { payload } => {
                    &&& final(self)@ == old(self)@
                    &&& forall|k: int|
                        0 <= k < out@.len() ==> (#[trigger] out@[k]).event@ == response_event()
                            && out@[k].payload@ == payload@
                    &&& forall|cid: u64|
                        #[trigger] recips(out@).contains(cid) ==> old(self).in_room(
                            cid,
                            default_room(),
                        )
                    &&& forall|cid: u64|
                        old(self).in_room(cid, default_room()) ==> #[trigger] recips(
                            out@,
                        ).contains(cid)
                    &&& recips(out@).no_duplicates()
                    &&& old(self).members(default_room()).finite()
                    &&& out@.len() == old(self).members(default_room()).len()
                },
                Event::Unknown => {
                    &&& final(self)@ == old(self)@
                    &&& out@.len() == 0
                },
            },
    {
        match ev {
            Event::Join { room } => {
                if !room.as_str().is_empty() {
                    self.join(id, room);
                }
                Vec::new()
            },
            Event::Message { payload } => self.broadcast(
                "default",
                "response",
                payload.as_str(),
                None,
            ),
            Event::Unknown => Vec::new(),
        }
    }

    /// Handles the transport's disconnect signal for connection `id`: the
    /// connection leaves whatever room it occupies and is then unregistered,
    /// so no trace of it remains. Idempotent: a second disconnect of the same
    /// identity is a no-op.
    pub fn handle_disconnect(&mut self, id: u64)
        requires
            old(self).wf(),
        ensures
            final(self).wf(),
            final(self)@ == old(self)@.remove(id),
    {
        self.leave_all(id);
        self.unregister(id);
        proof {
            assert(left_all(old(self)@, id).remove(id) =~= old(self)@.remove(id));
        }
    }
}

} // verus!
