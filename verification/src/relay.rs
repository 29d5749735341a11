//! The connection registry and room membership table.
//!
//! A connection is registered with a fresh numeric identity and carries the
//! name of the room it currently occupies, if any. Because each connection
//! stores at most one room name, a connection is a member of at most one room
//! at any instant, and a room's member set is exactly the set of connections
//! whose room field names it: the two directions of the membership relation
//! cannot drift apart. Rooms exist implicitly: a room is created by the first
//! join that names it and vanishes when its last member leaves.

use vstd::prelude::*;

verus! {

/// One live connection: its identity and the room it currently occupies.
pub struct Conn {
    pub id: u64,
    pub room: Option<String>,
}

impl Conn {
    /// The room field as a mathematical value.
    pub open spec fn room_view(self) -> Option<Seq<char>> {
        match self.room {
            Some(r) => Some(r@),
            None => None,
        }
    }
}

/// The relay state: all live connections, each with its current room.
///
/// The abstract value of a `Relay` is a map from connection identity to the
/// current room of that connection (`None` for a connection in no room).
pub struct Relay {
    conns: Vec<Conn>,
    next_id: u64,
}

impl View for Relay {
    type V = Map<u64, Option<Seq<char>>>;

    closed spec fn view(&self) -> Map<u64, Option<Seq<char>>> {
        Map::new(
            |id: u64| exists|i: int| 0 <= i < self.conns@.len() && self.conns@[i].id == id,
            |id: u64|
                {
                    let i = choose|i: int|
                        0 <= i < self.conns@.len() && self.conns@[i].id == id;
                    self.conns@[i].room_view()
                },
        )
    }
}

impl Relay {
    /// Internal well-formedness: identities are unique, and every identity is
    /// below the next one to be handed out (so fresh identities never clash).
    pub closed spec fn wf(self) -> bool {
        &&& (forall|i: int, j: int|
            0 <= i < self.conns@.len() && 0 <= j < self.conns@.len() && i != j
                ==> self.conns@[i].id != self.conns@[j].id)
        &&& (forall|i: int|
            0 <= i < self.conns@.len() ==> (#[trigger] self.conns@[i].id) < self.next_id)
    }

    /// How many identities have ever been handed out; identities are drawn
    /// from a `u64` counter that is never reused.
    pub closed spec fn ids_used(self) -> int {
        self.next_id as int
    }

    /// A fresh identity can still be handed out.
    pub open spec fn can_register(self) -> bool {
        self.ids_used() < u64::MAX
    }

    /// The connection `id` is currently registered.
    pub open spec fn registered(self, id: u64) -> bool {
        self@.dom().contains(id)
    }

    /// The connection `id` is currently a member of room `room`.
    pub open spec fn in_room(self, id: u64, room: Seq<char>) -> bool {
        self@.dom().contains(id) && self@[id] == Some(room)
    }

    /// The member set of room `room`.
    pub open spec fn members(self, room: Seq<char>) -> Set<u64> {
        Set::new(|id: u64| self.in_room(id, room))
    }

    /// The entry at index `i` is what the abstract map holds for its identity.
    proof fn lemma_view_at(self, i: int)
        requires
            self.wf(),
            0 <= i < self.conns@.len(),
        ensures
            self@.dom().contains(self.conns@[i].id),
            self@[self.conns@[i].id] == self.conns@[i].room_view(),
    {
        let id = self.conns@[i].id;
        assert(exists|k: int| 0 <= k < self.conns@.len() && self.conns@[k].id == id);
        let k = choose|k: int| 0 <= k < self.conns@.len() && self.conns@[k].id == id;
        assert(k == i);
    }

    /// An empty relay: no connections, no rooms.
    pub fn new() -> (r: Relay)
        ensures
            r.wf(),
            r@ == Map::<u64, Option<Seq<char>>>::empty(),
            r.ids_used() == 0,
    {
        let r = Relay { conns: Vec::new(), next_id: 0 };
        proof {
            assert(r@ =~= Map::<u64, Option<Seq<char>>>::empty());
        }
        r
    }

    /// The index of the entry for `id`, if `id` is registered.
    fn find_index(&self, id: u64) -> (r: Option<usize>)
        ensures
            match r {
                Some(i) => i < self.conns@.len() && self.conns@[i as int].id == id,
                None => forall|k: int| 0 <= k < self.conns@.len() ==> self.conns@[k].id != id,
            },
    {
        let mut i: usize = 0;
        while i < self.conns.len()
            invariant
                i <= self.conns@.len(),
                forall|k: int| 0 <= k < i ==> self.conns@[k].id != id,
            decreases self.conns@.len() - i,
        {
            if self.conns[i].id == id {
                return Some(i);
            }
            i = i + 1;
        }
        None
    }

    /// Whether a fresh identity can still be handed out; `register` asks for
    /// this. It only ever turns false after as many registrations as `u64`
    /// has values.
    pub fn has_capacity(&self) -> (r: bool)
        ensures
            r == self.can_register(),
    {
        self.next_id < u64::MAX
    }

    /// Registers a new connection and returns its fresh identity. The new
    /// connection starts out in no room; no other connection is affected.
    pub fn register(&mut self) -> (id: u64)
        requires
            old(self).wf(),
            old(self).can_register(),
        ensures
            final(self).wf(),
            !old(self)@.dom().contains(id),
            final(self)@ == old(self)@.insert(id, None::<Seq<char>>),
            final(self).ids_used() == old(self).ids_used() + 1,
    {
        let id = self.next_id;
        self.next_id = self.next_id + 1;
        self.conns.push(Conn { id, room: None });
        proof {
            let pre = old(self)@;
            let post = self@;
            let n: int = self.conns@.len() - 1;
            assert forall|k: u64| post.dom().contains(k) implies
                pre.insert(id, None::<Seq<char>>).dom().contains(k) && post[k] =~= pre.insert(
                id,
                None::<Seq<char>>,
            )[k] by {
                let i = choose|i: int|
                    0 <= i < self.conns@.len() && self.conns@[i].id == k;
                self.lemma_view_at(i);
                if k != id {
                    assert(i < n);
                    assert(old(self).conns@[i].id == k);
                    old(self).lemma_view_at(i);
                }
            }
            assert forall|k: u64| pre.insert(id, None::<Seq<char>>).dom().contains(k) implies
                post.dom().contains(k) by {
                if k == id {
                    assert(self.conns@[n].id == k);
                } else {
                    let i = choose|i: int|
                        0 <= i < old(self).conns@.len() && old(self).conns@[i].id == k;
                    assert(self.conns@[i].id == k);
                }
            }
            assert(post =~= pre.insert(id, None::<Seq<char>>));
        }
        id
    }

    /// Unregisters connection `id`, removing it from the registry and so from
    /// any room it occupied. A no-op if `id` is not registered.
    pub fn unregister(&mut self, id: u64)
        requires
            old(self).wf(),
        ensures
            final(self).wf(),
            final(self)@ == old(self)@.remove(id),
    {
        match self.find_index(id) {
            Some(i) => {
                self.conns.swap_remove(i);
                proof {
                    let pre = old(self)@;
                    let post = self@;
                    let s_old = old(self).conns@;
                    let s_new = self.conns@;
                    let n: int = s_old.len() - 1;
                    assert forall|j: int| 0 <= j < s_new.len() implies (#[trigger] s_new[j]).id
                        < self.next_id by {
                        let jo: int = if j == i { n } else { j };
                        assert(s_new[j] == s_old[jo]);
                    }
                    assert forall|j1: int, j2: int|
                        0 <= j1 < s_new.len() && 0 <= j2 < s_new.len() && j1 != j2 implies s_new[j1].id
                        != s_new[j2].id by {
                        let o1: int = if j1 == i { n } else { j1 };
                        let o2: int = if j2 == i { n } else { j2 };
                        assert(s_new[j1] == s_old[o1]);
                        assert(s_new[j2] == s_old[o2]);
                    }
                    assert forall|k: u64| post.dom().contains(k) implies pre.remove(id).dom().contains(
                        k,
                    ) && post[k] == pre.remove(id)[k] by {
                        let j = choose|j: int| 0 <= j < s_new.len() && s_new[j].id == k;
                        let jo: int = if j == i { n } else { j };
                        assert(s_new[j] == s_old[jo]);
                        assert(jo != i);
                        old(self).lemma_view_at(jo);
                        self.lemma_view_at(j);
                    }
                    assert forall|k: u64| pre.remove(id).dom().contains(k) implies post.dom().contains(
                        k,
                    ) by {
                        let jo = choose|jo: int| 0 <= jo < s_old.len() && s_old[jo].id == k;
                        assert(jo != i);
                        let j: int = if jo == n { i as int } else { jo };
                        assert(s_new[j] == s_old[jo]);
                        assert(s_new[j].id == k);
                    }
                    assert(post =~= pre.remove(id));
                }
            },
            None => {
                proof {
                    assert(self@ =~= old(self)@.remove(id));
                }
            },
        }
    }

    /// Puts connection `id` into room `room`, leaving whatever room it was in
    /// before: the connection's room field is simply replaced, so joining is
    /// atomic and the connection is never transiently in two rooms. Re-joining
    /// the current room changes nothing. A no-op if `id` is not registered.
    pub fn join(&mut self, id: u64, room: String)
        requires
            old(self).wf(),
        ensures
            final(self).wf(),
            final(self)@ == joined(old(self)@, id, room@),
    {
        match self.find_index(id) {
            Some(i) => {
                self.conns[i].room = Some(room);
                proof {
                    self.lemma_update_room(*old(self), i as int, id);
                }
            },
            None => {
                proof {
                    assert(self@ =~= old(self)@);
                }
            },
        }
    }

    /// Removes connection `id` from whatever room it occupies; it stays
    /// registered, in no room. A no-op if `id` is not registered or already in
    /// no room.
    pub fn leave_all(&mut self, id: u64)
        requires
            old(self).wf(),
        ensures
            final(self).wf(),
            final(self)@ == left_all(old(self)@, id),
    {
        match self.find_index(id) {
            Some(i) => {
                self.conns[i].room = None;
                proof {
                    self.lemma_update_room(*old(self), i as int, id);
                }
            },
            None => {
                proof {
                    assert(self@ =~= old(self)@);
                }
            },
        }
    }

    /// After an update of the room field at index `i`, the abstract map is the
    /// old one with the entry for that connection replaced.
    proof fn lemma_update_room(self, pre_state: Relay, i: int, id: u64)
        requires
            pre_state.wf(),
            0 <= i < pre_state.conns@.len(),
            pre_state.conns@[i].id == id,
            self.conns@ == pre_state.conns@.update(i, self.conns@[i]),
            self.conns@[i].id == id,
            self.next_id == pre_state.next_id,
        ensures
            self.wf(),
            self@ == pre_state@.insert(id, self.conns@[i].room_view()),
    {
        let pre = pre_state@;
        let post = self@;
        let v = self.conns@[i].room_view();
        assert forall|k: u64| post.dom().contains(k) implies pre.insert(id, v).dom().contains(k)
            && post[k] == pre.insert(id, v)[k] by {
            let j = choose|j: int| 0 <= j < self.conns@.len() && self.conns@[j].id == k;
            self.lemma_view_at(j);
            pre_state.lemma_view_at(j);
            if k == id {
                assert(j == i);
            } else {
                assert(j != i);
                assert(self.conns@[j] == pre_state.conns@[j]);
            }
        }
        assert forall|k: u64| pre.insert(id, v).dom().contains(k) implies post.dom().contains(k) by {
            if k == id {
                assert(self.conns@[i].id == k);
            } else {
                let j = choose|j: int| 0 <= j < pre_state.conns@.len() && pre_state.conns@[j].id == k;
                assert(j != i);
                assert(self.conns@[j].id == k);
            }
        }
        assert(post =~= pre.insert(id, v));
    }

    /// Looks up connection `id`: its entry if registered, `None` otherwise.
    pub fn lookup(&self, id: u64) -> (r: Option<&Conn>)
        requires
            self.wf(),
        ensures
            match r {
                Some(c) => self.registered(id) && c.id == id && c.room_view() == self@[id],
                None => !self.registered(id),
            },
    {
        match self.find_index(id) {
            Some(i) => {
                proof {
                    self.lemma_view_at(i as int);
                }
                Some(&self.conns[i])
            },
            None => None,
        }
    }

    /// The identities of the members of room `room`, each exactly once, in
    /// unspecified order. Empty for a room with no members; never an error.
    pub fn members_of(&self, room: &str) -> (v: Vec<u64>)
        requires
            self.wf(),
        ensures
            forall|id: u64| v@.contains(id) <==> self.in_room(id, room@),
            v@.no_duplicates(),
            self.members(room@).finite(),
            v@.len() == self.members(room@).len(),
    {
        let target: String = room.to_owned();
        let mut v: Vec<u64> = Vec::new();
        let mut i: usize = 0;
        while i < self.conns.len()
            invariant
                i <= self.conns@.len(),
                self.wf(),
                target@ == room@,
                forall|id: u64|
                    v@.contains(id) <==> exists|k: int|
                        0 <= k < i && self.conns@[k].id == id && self.conns@[k].room_view()
                            == Some(room@),
                v@.no_duplicates(),
            decreases self.conns@.len() - i,
        {
            let c = &self.conns[i];
            let matched = match &c.room {
                Some(r) => *r == target,
                None => false,
            };
            if matched {
                proof {
                    assert(!v@.contains(c.id)) by {
                        if v@.contains(c.id) {
                            let k = choose|k: int|
                                0 <= k < i && self.conns@[k].id == c.id
                                    && self.conns@[k].room_view() == Some(room@);
                            assert(self.conns@[k].id == self.conns@[i as int].id);
                            assert(false);
                        }
                    }
                }
                let ghost prev = v@;
                v.push(c.id);
                proof {
                    assert forall|id: u64|
                        v@.contains(id) implies exists|k: int|
                        0 <= k < i + 1 && self.conns@[k].id == id && self.conns@[k].room_view()
                            == Some(room@) by {
                        let j = choose|j: int| 0 <= j < v@.len() && v@[j] == id;
                        if j < v@.len() - 1 {
                            assert(prev[j] == id);
                            assert(prev.contains(id));
                        } else {
                            assert(self.conns@[i as int].id == id);
                        }
                    }
                    assert forall|id: u64|
                        (exists|k: int|
                            0 <= k < i + 1 && self.conns@[k].id == id && self.conns@[k].room_view()
                                == Some(room@)) implies v@.contains(id) by {
                        let k = choose|k: int|
                            0 <= k < i + 1 && self.conns@[k].id == id && self.conns@[k].room_view()
                                == Some(room@);
                        if k < i {
                            assert(prev.contains(id));
                            let j = choose|j: int| 0 <= j < prev.len() && prev[j] == id;
                            assert(v@[j] == id);
                        } else {
                            assert(v@[v@.len() - 1] == id);
                        }
                    }
                    assert forall|a: int, b: int|
                        0 <= a < v@.len() && 0 <= b < v@.len() && a != b implies v@[a] != v@[b] by {
                        if a < v@.len() - 1 && b < v@.len() - 1 {
                            assert(v@[a] == prev[a] && v@[b] == prev[b]);
                        } else if b == v@.len() - 1 {
                            assert(v@[a] == prev[a]);
                            assert(prev.contains(prev[a]));
                        } else {
                            assert(v@[b] == prev[b]);
                            assert(prev.contains(prev[b]));
                        }
                    }
                    assert(v@.no_duplicates());
                }
            } else {
                proof {
                    assert forall|id: u64|
                        (exists|k: int|
                            0 <= k < i + 1 && self.conns@[k].id == id && self.conns@[k].room_view()
                                == Some(room@)) implies v@.contains(id) by {
                        let k = choose|k: int|
                            0 <= k < i + 1 && self.conns@[k].id == id && self.conns@[k].room_view()
                                == Some(room@);
                        assert(k < i);
                    }
                }
            }
            i = i + 1;
        }
        proof {
            assert forall|id: u64| v@.contains(id) implies self.in_room(id, room@) by {
                let k = choose|k: int|
                    0 <= k < self.conns@.len() && self.conns@[k].id == id && self.conns@[k].room_view()
                        == Some(room@);
                self.lemma_view_at(k);
            }
            assert forall|id: u64| self.in_room(id, room@) implies v@.contains(id) by {
                let k = choose|k: int| 0 <= k < self.conns@.len() && self.conns@[k].id == id;
                self.lemma_view_at(k);
            }
            broadcast use vstd::seq_lib::group_seq_properties;

            assert(v@.to_set() =~= self.members(room@));
            v@.unique_seq_to_set();
        }
        v
    }
}

/// The abstract effect of `join`: if `id` is registered, its room becomes
/// `room`; otherwise nothing changes.
pub open spec fn joined(m: Map<u64, Option<Seq<char>>>, id: u64, room: Seq<char>) -> Map<
    u64,
    Option<Seq<char>>,
> {
    if m.dom().contains(id) {
        m.insert(id, Some(room))
    } else {
        m
    }
}

/// The abstract effect of `leave_all`: if `id` is registered, its room becomes
/// none; otherwise nothing changes.
pub open spec fn left_all(m: Map<u64, Option<Seq<char>>>, id: u64) -> Map<u64, Option<Seq<char>>> {
    if m.dom().contains(id) {
        m.insert(id, None)
    } else {
        m
    }
}

/// Law: a connection is a member of at most one room at any instant — two
/// rooms it is simultaneously a member of are the same room.
pub proof fn lemma_single_room(r: Relay, id: u64, room1: Seq<char>, room2: Seq<char>)
    requires
        r.in_room(id, room1),
        r.in_room(id, room2),
    ensures
        room1 == room2,
{
}

/// Law: joining makes the connection a member of exactly the room it joined
/// most recently, and of no other.
pub proof fn lemma_join_replaces(before: Relay, after: Relay, id: u64, room: Seq<char>)
    requires
        before.registered(id),
        after@ == joined(before@, id, room),
    ensures
        after.in_room(id, room),
        forall|other: Seq<char>| other != room ==> !after.in_room(id, other),
{
}

/// Law: once a connection is removed from the registry it is registered
/// nowhere and a member of no room, so no later membership query includes it.
pub proof fn lemma_disconnect_purges(before: Relay, after: Relay, id: u64)
    requires
        after@ == before@.remove(id),
    ensures
        !after.registered(id),
        forall|room: Seq<char>| !after.in_room(id, room),
{
}

/// Law: leaving all rooms is idempotent — doing it twice in a row ends in the
/// same state as doing it once.
pub proof fn lemma_leave_all_idempotent(m: Map<u64, Option<Seq<char>>>, id: u64)
    ensures
        left_all(left_all(m, id), id) == left_all(m, id),
{
    assert(left_all(left_all(m, id), id) =~= left_all(m, id));
}

} // verus!
