//! The broadcast engine.
//!
//! Broadcasting resolves the target room's current member set and produces one
//! outbound delivery per member, skipping at most one excluded connection
//! (typically the sender). The deliveries are returned as plain values; the
//! transport shell pushes each onto the matching connection's outbound channel
//! and isolates any per-connection push failure there, so one slow or closed
//! recipient never affects the others. The whole fan-out for one inbound event
//! is computed against a single membership snapshot.

use vstd::prelude::*;

use crate::relay::Relay;

verus! {

/// One outbound delivery: the event and payload to push onto the outbound
/// channel of connection `to`.
pub struct Delivery {
    pub to: u64,
    pub event: String,
    pub payload: String,
}

/// The recipients of a sequence of deliveries, in order.
pub open spec fn recips(s: Seq<Delivery>) -> Seq<u64> {
    s.map_values(|d: Delivery| d.to)
}

impl Relay {
    /// Produces the deliveries of `(event, payload)` to every current member
    /// of room `room` other than `exclude`: one delivery per such member,
    /// each exactly once, in unspecified order.
    pub fn broadcast(&self, room: &str, event: &str, payload: &str, exclude: Option<u64>) -> (out:
        Vec<Delivery>)
        requires
            self.wf(),
        ensures
            forall|k: int|
                0 <= k < out@.len() ==> (#[trigger] out@[k]).event@ == event@ && out@[k].payload@
                    == payload@,
            forall|id: u64|
                #[trigger] recips(out@).contains(id) ==> self.in_room(id, room@) && Some(id)
                    != exclude,
            forall|id: u64|
                self.in_room(id, room@) && Some(id) != exclude ==> #[trigger] recips(
                    out@,
                ).contains(id),
            recips(out@).no_duplicates(),
            exclude == None::<u64> ==> self.members(room@).finite() && out@.len()
                == self.members(room@).len(),
    {
        let members = self.members_of(room);
        let mut out: Vec<Delivery> = Vec::new();
        let mut i: usize = 0;
        while i < members.len()
            invariant
                i <= members@.len(),
                forall|id: u64| members@.contains(id) <==> self.in_room(id, room@),
                members@.no_duplicates(),
                forall|k: int|
                    0 <= k < out@.len() ==> (#[trigger] out@[k]).event@ == event@
                        && out@[k].payload@ == payload@,
                forall|id: u64|
                    #[trigger] recips(out@).contains(id) ==> members@.take(i as int).contains(id)
                        && Some(id) != exclude,
                forall|id: u64|
                    members@.take(i as int).contains(id) && Some(id) != exclude
                        ==> #[trigger] recips(out@).contains(id),
                recips(out@).no_duplicates(),
            decreases members@.len() - i,
        {
            let m = members[i];
            let skip = match exclude {
                Some(e) => e == m,
                None => false,
            };
            let ghost prev = out@;
            let ghost ip: int = i as int;
            if !skip {
                out.push(
                    Delivery { to: m, event: event.to_owned(), payload: payload.to_owned() },
                );
            }
            i = i + 1;
            proof {
                let taken = members@.take(i as int);
                assert(taken.drop_last() =~= members@.take(ip));
                assert(taken.last() == members@[ip]);
                if !skip {
                    assert(recips(out@) =~= recips(prev).push(m));
                    assert(!recips(prev).contains(m)) by {
                        if members@.take(ip).contains(m) {
                            let j = choose|j: int| 0 <= j < ip && members@.take(ip)[j] == m;
                            assert(members@[j] == members@[ip]);
                            assert(false);
                        }
                    }
                    assert forall|id: u64|
                        #[trigger] recips(out@).contains(id) implies (taken.contains(id) && Some(
                        id,
                    ) != exclude) by {
                        let j = choose|j: int| 0 <= j < recips(out@).len() && recips(out@)[j] == id;
                        if j < recips(out@).len() - 1 {
                            assert(recips(prev)[j] == id);
                            assert(recips(prev).contains(id));
                            let k = choose|k: int| 0 <= k < ip && members@.take(ip)[k] == id;
                            assert(taken[k] == id);
                        } else {
                            assert(taken[ip] == id);
                        }
                    }
                    assert forall|id: u64|
                        taken.contains(id) && Some(id) != exclude implies #[trigger] recips(
                        out@,
                    ).contains(id) by {
                        let k = choose|k: int| 0 <= k < taken.len() && taken[k] == id;
                        if k < ip {
                            assert(members@.take(ip)[k] == id);
                            assert(members@.take(ip).contains(id));
                            assert(recips(prev).contains(id));
                            let j = choose|j: int|
                                0 <= j < recips(prev).len() && recips(prev)[j] == id;
                            assert(recips(out@)[j] == id);
                        } else {
                            assert(recips(out@)[recips(out@).len() - 1] == id);
                        }
                    }
                    assert forall|a: int, b: int|
                        0 <= a < recips(out@).len() && 0 <= b < recips(out@).len() && a != b implies
                        recips(out@)[a] != recips(out@)[b] by {
                        if a < recips(out@).len() - 1 && b < recips(out@).len() - 1 {
                            assert(recips(out@)[a] == recips(prev)[a]);
                            assert(recips(out@)[b] == recips(prev)[b]);
                        } else if b == recips(out@).len() - 1 {
                            assert(recips(out@)[a] == recips(prev)[a]);
                            assert(recips(prev).contains(recips(prev)[a]));
                        } else {
                            assert(recips(out@)[b] == recips(prev)[b]);
                            assert(recips(prev).contains(recips(prev)[b]));
                        }
                    }
                    assert(recips(out@).no_duplicates());
                } else {
                    assert forall|id: u64|
                        taken.contains(id) && Some(id) != exclude implies #[trigger] recips(
                        out@,
                    ).contains(id) by {
                        let k = choose|k: int| 0 <= k < taken.len() && taken[k] == id;
                        assert(k < ip);
                        assert(members@.take(ip)[k] == id);
                        assert(members@.take(ip).contains(id));
                    }
                    assert forall|id: u64|
                        #[trigger] recips(out@).contains(id) implies (taken.contains(id) && Some(
                        id,
                    ) != exclude) by {
                        let k = choose|k: int| 0 <= k < ip && members@.take(ip)[k] == id;
                        assert(taken[k] == id);
                    }
                }
            }
        }
        proof {
            assert(members@.take(members@.len() as int) =~= members@);
            assert forall|id: u64|
                #[trigger] recips(out@).contains(id) implies self.in_room(id, room@) && Some(id)
                != exclude by {
                assert(members@.contains(id));
            }
            assert forall|id: u64|
                self.in_room(id, room@) && Some(id) != exclude implies #[trigger] recips(
                out@,
            ).contains(id) by {
                assert(members@.contains(id));
                assert(members@.take(members@.len() as int).contains(id));
            }
            if exclude == None::<u64> {
                lemma_broadcast_exact(*self, out@, room@);
            }
        }
        out
    }
}

/// Law: a broadcast with no exclusion delivers to exactly the room's members,
/// each exactly once — the recipients, as a set, are the member set, and the
/// number of deliveries equals the number of members.
pub proof fn lemma_broadcast_exact(r: Relay, out: Seq<Delivery>, room: Seq<char>)
    requires
        forall|id: u64| #[trigger] recips(out).contains(id) ==> r.in_room(id, room),
        forall|id: u64| r.in_room(id, room) ==> #[trigger] recips(out).contains(id),
        recips(out).no_duplicates(),
    ensures
        recips(out).to_set() == r.members(room),
        r.members(room).finite(),
        out.len() == r.members(room).len(),
{
    let rc = recips(out);
    broadcast use vstd::seq_lib::group_seq_properties;

    assert(rc.to_set() =~= r.members(room));
    rc.unique_seq_to_set();
}

} // verus!
