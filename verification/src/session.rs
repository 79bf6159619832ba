//! The live-session gateway's own logic: which sessions are open, the id the
//! next one gets, and how each incoming socket message is answered. The
//! sockets, the locking and the JSON text are left to the server around it.
use vstd::prelude::*;
use std::collections::HashSet;

use crate::cli::str_equals;

verus! {

broadcast use vstd::std_specs::hash::group_hash_axioms;

/// The open sessions and the id the next session gets.
pub struct Sessions {
    open: HashSet<u64>,
    next_id: u64,
}

/// The id that follows `id`; ids wrap around after `u64::MAX`.
pub open spec fn following_id(id: u64) -> u64 {
    if id == u64::MAX {
        0
    } else {
        (id + 1) as u64
    }
}

impl Sessions {
    /// The ids of the open sessions.
    pub closed spec fn ids(&self) -> Set<u64> {
        self.open@
    }

    /// The id the next session gets.
    pub closed spec fn next(&self) -> u64 {
        self.next_id
    }

    /// No session is open, and the first one gets id 1.
    pub fn new() -> (r: Self)
        ensures
            r.ids() == Set::<u64>::empty(),
            r.next() == 1,
    {
        Sessions { open: HashSet::new(), next_id: 1 }
    }

    /// Opens a session: it gets the next id, which is then advanced.
    pub fn open(&mut self) -> (id: u64)
        ensures
            id == old(self).next(),
            final(self).ids() == old(self).ids().insert(id),
            final(self).next() == following_id(id),
    {
        let id = self.next_id;
        self.next_id = if id == u64::MAX {
            0
        } else {
            id + 1
        };
        self.open.insert(id);
        id
    }

    /// Closes session `id`; the next id is unchanged.
    pub fn close(&mut self, id: u64)
        ensures
            final(self).ids() == old(self).ids().remove(id),
            final(self).next() == old(self).next(),
    {
        self.open.remove(&id);
        proof {
            assert(self.open@ =~= old(self).open@.remove(id));
        }
    }

    /// How many sessions are open.
    pub fn count(&self) -> (r: usize)
        ensures
            r == self.ids().len(),
    {
        self.open.len()
    }
}

/// A session that opens and then closes leaves the other sessions as they
/// were, provided its id was not already in use.
pub proof fn law_open_then_close(before: Sessions, opened: Sessions, closed: Sessions, id: u64)
    requires
        !before.ids().contains(before.next()),
        id == before.next(),
        opened.ids() == before.ids().insert(id),
        closed.ids() == opened.ids().remove(id),
    ensures
        closed.ids() == before.ids(),
{
    assert(closed.ids() =~= before.ids());
}

/// A message that arrived on a session's socket.
pub enum Incoming {
    /// A text frame, with its `type` field when it is a JSON object that has
    /// one (`None` otherwise).
    Text(Option<String>),
    /// A protocol ping.
    Ping,
    /// The peer closes the session.
    Close,
    /// Any other frame.
    Other,
}

/// What the gateway does about an incoming message.
#[derive(Clone, Copy, Debug, PartialEq, Eq, Structural)]
pub enum Outgoing {
    /// Nothing; wait for the next message.
    Nothing,
    /// Send a JSON message of type `pong`.
    Pong,
    /// Answer the protocol ping with a pong carrying the same payload.
    ReturnPing,
    /// End the session.
    Stop,
}

/// The answer to `msg`, a text frame being read by its `type` (as characters).
pub open spec fn answer(msg: Incoming) -> Outgoing {
    match msg {
        Incoming::Text(Some(kind)) => if kind@ == "ping"@ {
            Outgoing::Pong
        } else {
            Outgoing::Nothing
        },
        Incoming::Text(None) => Outgoing::Nothing,
        Incoming::Ping => Outgoing::ReturnPing,
        Incoming::Close => Outgoing::Stop,
        Incoming::Other => Outgoing::Nothing,
    }
}

/// How the gateway answers an incoming message: a `ping` message gets a
/// `pong`, a protocol ping its pong, a close ends the session, and anything
/// else, unreadable text included, is passed over.
pub fn reply(msg: &Incoming) -> (r: Outgoing)
    ensures
        r == answer(*msg),
{
    match msg {
        Incoming::Text(Some(kind)) => if str_equals(kind.as_str(), "ping") {
            Outgoing::Pong
        } else {
            Outgoing::Nothing
        },
        Incoming::Text(None) => Outgoing::Nothing,
        Incoming::Ping => Outgoing::ReturnPing,
        Incoming::Close => Outgoing::Stop,
        Incoming::Other => Outgoing::Nothing,
    }
}

} // verus!
