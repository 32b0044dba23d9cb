//! All active rooms, keyed by the video id. A room comes into being on
//! first use and goes within the same operation that leaves it vacant.
//!
//! Each method is one critical section: it changes the rooms and hands back
//! what must be sent, and the caller sends it once the lock is released.

use crate::presence::{after_connect, after_disconnect, count};
use crate::room::VideoRoom;
use crate::slots::is_snapshot_of;
use std::collections::HashMap;
use vstd::prelude::*;

verus! {

broadcast use vstd::std_specs::hash::group_hash_axioms;

/// How many steps of `steps` are `Some(b)`: with `b` true the connections
/// of one player, with `b` false its disconnections.
pub open spec fn tally_steps(steps: Seq<Option<bool>>, b: bool) -> nat
    decreases steps.len(),
{
    if steps.len() == 0 {
        0
    } else {
        tally_steps(steps.drop_last(), b) + if steps.last() == Some(b) {
            1nat
        } else {
            0nat
        }
    }
}

pub struct Rooms<T> {
    rooms: HashMap<u32, VideoRoom<T>>,
}

impl<T: Clone> Rooms<T> {
    /// Whether room `id` is held.
    pub closed spec fn has_room(&self, id: u32) -> bool {
        self.rooms@.contains_key(id)
    }

    /// The hosts of room `id`, by slot id; none for a room not held.
    pub closed spec fn hosts(&self, id: u32) -> Map<u32, T> {
        if self.rooms@.contains_key(id) {
            self.rooms@[id].channels@
        } else {
            Map::empty()
        }
    }

    /// The connected players of room `id`, with their connection counts.
    pub closed spec fn players(&self, id: u32) -> Map<Seq<char>, nat> {
        if self.rooms@.contains_key(id) {
            self.rooms@[id].players@
        } else {
            Map::empty()
        }
    }

    /// The slot id that the next host of room `id` receives.
    pub closed spec fn next_slot(&self, id: u32) -> nat {
        if self.rooms@.contains_key(id) {
            self.rooms@[id].channels.next_id()
        } else {
            0
        }
    }

    /// Every room held is well formed and not vacant.
    pub closed spec fn wf(&self) -> bool {
        forall|id: u32| #[trigger]
            self.rooms@.contains_key(id) ==> self.rooms@[id].wf() && !self.rooms@[id].is_vacant()
    }

    /// Room `id` is the same in `self` and in `other`.
    pub open spec fn same_room(&self, other: &Self, id: u32) -> bool {
        &&& self.has_room(id) == other.has_room(id)
        &&& self.hosts(id) == other.hosts(id)
        &&& self.players(id) == other.players(id)
        &&& self.next_slot(id) == other.next_slot(id)
    }

    /// Every room but `id` is the same in `self` and in `other`.
    pub open spec fn others_unchanged(&self, other: &Self, id: u32) -> bool {
        forall|o: u32| o != id ==> #[trigger] self.same_room(other, o)
    }

    /// A room is held exactly when it has a host or a connected player.
    pub proof fn lemma_held_iff_active(&self, id: u32)
        requires
            self.wf(),
        ensures
            self.has_room(id) <==> (self.hosts(id).dom() != Set::<u32>::empty()
                || self.players(id).dom() != Set::<Seq<char>>::empty()),
            self.players(id).dom() != Set::<Seq<char>>::empty() <==> exists|name: Seq<char>|
                count(self.players(id), name) > 0,
    {
        if self.has_room(id) {
            self.rooms@[id].players.lemma_counts_positive();
            if self.players(id).dom() != Set::<Seq<char>>::empty() {
                assert(exists|k: Seq<char>| self.players(id).dom().contains(k)) by {
                    if !exists|k: Seq<char>| self.players(id).dom().contains(k) {
                        assert(self.players(id).dom() =~= Set::<Seq<char>>::empty());
                    }
                }
                let name = choose|k: Seq<char>| self.players(id).dom().contains(k);
                assert(self.players(id).dom().contains(name));
                assert(count(self.players(id), name) > 0);
            }
        } else {
            assert(self.hosts(id).dom() =~= Set::<u32>::empty());
            assert(self.players(id).dom() =~= Set::<Seq<char>>::empty());
        }
        if exists|name: Seq<char>| count(self.players(id), name) > 0 {
            let name = choose|name: Seq<char>| count(self.players(id), name) > 0;
            assert(self.players(id).dom().contains(name));
        }
    }

    /// How one operation on the registry changes the count of player `name`
    /// in room `id`: `Some(true)` is one of its connections, `Some(false)`
    /// one of its disconnections, and `None` any other operation, which
    /// leaves the count alone.
    pub open spec fn count_step(
        before: &Self,
        after: &Self,
        id: u32,
        name: Seq<char>,
        step: Option<bool>,
    ) -> bool {
        match step {
            Some(true) => after.players(id) == after_connect(before.players(id), name),
            Some(false) => after.players(id) == after_disconnect(before.players(id), name),
            None => count(after.players(id), name) == count(before.players(id), name),
        }
    }

    /// Over any run of operations, interleaved in any way with operations
    /// on other players, hosts and rooms, a player's count in a room is
    /// its count at the start plus its connections less its
    /// disconnections, as long as no disconnection comes without an open
    /// connection to close.
    pub proof fn lemma_count_over_sessions(
        states: Seq<Self>,
        id: u32,
        name: Seq<char>,
        steps: Seq<Option<bool>>,
    )
        requires
            states.len() == steps.len() + 1,
            forall|i: int|
                0 <= i < steps.len() ==> #[trigger] Self::count_step(
                    &states[i],
                    &states[i + 1],
                    id,
                    name,
                    steps[i],
                ),
            forall|k: int|
                0 <= k <= steps.len() ==> tally_steps(#[trigger] steps.take(k), false) <= count(
                    states[0].players(id),
                    name,
                ) + tally_steps(steps.take(k), true),
        ensures
            count(states[steps.len() as int].players(id), name) == count(
                states[0].players(id),
                name,
            ) + tally_steps(steps, true) - tally_steps(steps, false),
        decreases steps.len(),
    {
        if steps.len() > 0 {
            let n = steps.len() - 1;
            let init = steps.drop_last();
            let prefix = states.drop_last();
            assert forall|i: int| 0 <= i < init.len() implies #[trigger] Self::count_step(
                &prefix[i],
                &prefix[i + 1],
                id,
                name,
                init[i],
            ) by {
                assert(Self::count_step(&states[i], &states[i + 1], id, name, steps[i]));
            }
            assert forall|k: int| 0 <= k <= init.len() implies tally_steps(
                #[trigger] init.take(k),
                false,
            ) <= count(prefix[0].players(id), name) + tally_steps(init.take(k), true) by {
                assert(init.take(k) =~= steps.take(k));
            }
            Self::lemma_count_over_sessions(prefix, id, name, init);
            assert(steps.take(steps.len() as int) =~= steps);
            assert(Self::count_step(&states[n], &states[n + 1], id, name, steps[n]));
        }
    }

    /// Every player listed in a room has at least one open connection.
    pub proof fn lemma_counts_positive(&self, id: u32)
        requires
            self.wf(),
        ensures
            forall|k: Seq<char>| #[trigger]
                self.players(id).contains_key(k) ==> self.players(id)[k] > 0,
    {
        if self.has_room(id) {
            self.rooms@[id].players.lemma_counts_positive();
        }
    }

    /// Taking one host out of a room leaves every other host of that room
    /// in its slot, with its channel.
    pub proof fn lemma_other_hosts_stay(before: &Self, after: &Self, id: u32, removed: u32, kept: u32)
        requires
            after.hosts(id) == before.hosts(id).remove(removed),
            removed != kept,
            before.hosts(id).contains_key(kept),
        ensures
            after.hosts(id).contains_key(kept),
            after.hosts(id)[kept] == before.hosts(id)[kept],
    {
        crate::slots::lemma_remove_keeps_others(before.hosts(id), removed, kept);
    }

    /// A room not held has no host and no player, and would start its
    /// slot ids from zero.
    pub proof fn lemma_absent_room_is_blank(&self, id: u32)
        requires
            !self.has_room(id),
        ensures
            self.hosts(id) == Map::<u32, T>::empty(),
            self.players(id) == Map::<Seq<char>, nat>::empty(),
            self.next_slot(id) == 0,
    {
    }

    pub fn new() -> (r: Self)
        ensures
            r.wf(),
            forall|id: u32| !#[trigger] r.has_room(id),
            forall|id: u32| #[trigger] r.hosts(id) == Map::<u32, T>::empty(),
            forall|id: u32| #[trigger] r.players(id) == Map::<Seq<char>, nat>::empty(),
            forall|id: u32| #[trigger] r.next_slot(id) == 0,
    {
        let r = Rooms { rooms: HashMap::new() };
        proof {
            assert forall|id: u32| !#[trigger] r.has_room(id) by {}
            assert forall|id: u32| #[trigger] r.hosts(id) == Map::<u32, T>::empty() by {}
            assert forall|id: u32| #[trigger] r.players(id) == Map::<Seq<char>, nat>::empty() by {}
        }
        r
    }

    /// Takes room `id` out of the table, or a fresh room where none is held.
    fn take_room(&mut self, id: u32) -> (r: VideoRoom<T>)
        requires
            old(self).wf(),
        ensures
            r.wf(),
            final(self).rooms@ == old(self).rooms@.remove(id),
            r.channels@ == old(self).hosts(id),
            r.players@ == old(self).players(id),
            r.channels.next_id() == old(self).next_slot(id),
            old(self).has_room(id) ==> r == old(self).rooms@[id],
            final(self).others_unchanged(&*old(self), id),
    {
        match self.rooms.remove(&id) {
            Some(room) => room,
            None => {
                let r = VideoRoom::new();
                proof {
                    assert(r.channels@ =~= Map::<u32, T>::empty());
                    assert(r.players@ =~= Map::<Seq<char>, nat>::empty());
                }
                r
            },
        }
    }

    /// Puts room `id` back, unless it is vacant.
    fn put_room(&mut self, id: u32, room: VideoRoom<T>)
        requires
            old(self).wf(),
            room.wf(),
            !old(self).rooms@.contains_key(id),
        ensures
            final(self).wf(),
            final(self).has_room(id) == !room.is_vacant(),
            final(self).hosts(id) == room.channels@,
            final(self).players(id) == room.players@,
            final(self).has_room(id) ==> final(self).next_slot(id) == room.channels.next_id(),
            !room.is_vacant() ==> final(self).rooms@ == old(self).rooms@.insert(id, room),
            room.is_vacant() ==> final(self).rooms@ == old(self).rooms@,
            final(self).others_unchanged(&*old(self), id),
    {
        if !room.is_empty() {
            self.rooms.insert(id, room);
        } else {
            proof {
                assert(room.channels@ =~= Map::<u32, T>::empty());
                assert(room.players@ =~= Map::<Seq<char>, nat>::empty());
            }
        }
    }

    /// Whether room `id` is held.
    pub fn contains_room(&self, id: u32) -> (r: bool)
        ensures
            r == self.has_room(id),
    {
        self.rooms.contains_key(&id)
    }

    /// The number of open connections of player `name` in room `id`.
    pub fn connections(&self, id: u32, name: &String) -> (r: u32)
        requires
            self.wf(),
        ensures
            r as nat == count(self.players(id), name@),
    {
        match self.rooms.get(&id) {
            Some(room) => room.players.connections(name),
            None => 0,
        }
    }

    /// Registers a host's channel in room `id` and takes the names of the
    /// players present, in one step, so that the host learns of each player
    /// once: from these names or from a later join. Gives `None`, and
    /// changes nothing, when the room has handed out every slot id.
    pub fn host_connect(&mut self, id: u32, channel: T) -> (r: Option<(u32, Vec<String>)>)
        requires
            old(self).wf(),
        ensures
            final(self).wf(),
            final(self).others_unchanged(&*old(self), id),
            r is None <==> old(self).next_slot(id) >= u32::MAX,
            r is None ==> final(self).same_room(&*old(self), id),
            r matches Some((slot, names)) ==> {
                &&& slot as nat == old(self).next_slot(id)
                &&& !old(self).hosts(id).contains_key(slot)
                &&& final(self).has_room(id)
                &&& final(self).hosts(id) == old(self).hosts(id).insert(slot, channel)
                &&& final(self).players(id) == old(self).players(id)
                &&& final(self).next_slot(id) == old(self).next_slot(id) + 1
                &&& names@.len() == old(self).players(id).dom().len()
                &&& forall|i: int, j: int|
                    #![trigger names@[i], names@[j]]
                    0 <= i < names@.len() && 0 <= j < names@.len() && i != j ==> names@[i]@
                        != names@[j]@
                &&& forall|i: int|
                    0 <= i < names@.len() ==> old(self).players(id).contains_key(
                        #[trigger] names@[i]@,
                    )
                &&& forall|k: Seq<char>| #[trigger]
                    old(self).players(id).contains_key(k) ==> exists|i: int|
                        0 <= i < names@.len() && #[trigger] names@[i]@ == k
                &&& forall|i: int|
                    0 <= i < names@.len() ==> count(old(self).players(id), #[trigger] names@[i]@)
                        > 0
                &&& forall|k: Seq<char>|
                    count(old(self).players(id), k) > 0 ==> exists|i: int|
                        0 <= i < names@.len() && #[trigger] names@[i]@ == k
            },
    {
        let mut room = self.take_room(id);
        let ghost mid: Rooms<T> = *self;
        if room.channels.is_exhausted() {
            self.put_room(id, room);
            proof {
                assert(old(self).has_room(id));
                assert(self.rooms@ =~= old(self).rooms@);
            }
            return None;
        }
        proof {
            old(self).lemma_counts_positive(id);
        }
        let slot = room.channels.add(channel);
        let names = room.players.names();
        assert(room.channels@.dom().contains(slot));
        self.put_room(id, room);
        proof {
            assert forall|o: u32| o != id implies #[trigger] self.same_room(&*old(self), o) by {
                assert(self.same_room(&mid, o));
                assert(mid.same_room(&*old(self), o));
            }
        }
        Some((slot, names))
    }

    /// Removes the host in slot `slot` of room `id`, and the room with it
    /// if nothing else keeps it. Every other slot stays.
    pub fn host_disconnect(&mut self, id: u32, slot: u32)
        requires
            old(self).wf(),
        ensures
            final(self).wf(),
            final(self).others_unchanged(&*old(self), id),
            final(self).hosts(id) == old(self).hosts(id).remove(slot),
            final(self).players(id) == old(self).players(id),
            final(self).has_room(id) ==> final(self).next_slot(id) == old(self).next_slot(id),
    {
        let mut room = self.take_room(id);
        let ghost mid: Rooms<T> = *self;
        room.channels.remove(slot);
        self.put_room(id, room);
        proof {
            assert forall|o: u32| o != id implies #[trigger] self.same_room(&*old(self), o) by {
                assert(self.same_room(&mid, o));
                assert(mid.same_room(&*old(self), o));
            }
        }
    }

    /// Counts one more connection of player `name` in room `id`. Where it
    /// is the player's first, gives the hosts to tell of the join; else
    /// none. Gives `None`, and changes nothing, where the player's count is
    /// at its largest.
    pub fn player_connect(&mut self, id: u32, name: &String) -> (r: Option<Vec<T>>)
        requires
            old(self).wf(),
        ensures
            final(self).wf(),
            final(self).others_unchanged(&*old(self), id),
            r is None <==> count(old(self).players(id), name@) >= u32::MAX,
            r is None ==> final(self).same_room(&*old(self), id),
            r matches Some(notify) ==> {
                &&& final(self).has_room(id)
                &&& final(self).players(id) == after_connect(old(self).players(id), name@)
                &&& final(self).hosts(id) == old(self).hosts(id)
                &&& final(self).next_slot(id) == old(self).next_slot(id)
                &&& if count(old(self).players(id), name@) == 0 {
                    is_snapshot_of(notify@, old(self).hosts(id))
                } else {
                    notify@.len() == 0
                }
            },
    {
        let mut room = self.take_room(id);
        let ghost mid: Rooms<T> = *self;
        if room.players.connections(name) == u32::MAX {
            self.put_room(id, room);
            proof {
                assert(old(self).has_room(id));
                assert(self.rooms@ =~= old(self).rooms@);
            }
            return None;
        }
        proof {
            room.players.lemma_counts_positive();
        }
        let first = room.players.connect(name);
        assert(room.players@.dom().contains(name@));
        let notify = if first {
            room.channels.iter()
        } else {
            Vec::new()
        };
        self.put_room(id, room);
        proof {
            assert forall|o: u32| o != id implies #[trigger] self.same_room(&*old(self), o) by {
                assert(self.same_room(&mid, o));
                assert(mid.same_room(&*old(self), o));
            }
        }
        Some(notify)
    }

    /// The hosts to tell that a player of room `id` buzzed.
    pub fn player_buzz(&self, id: u32) -> (r: Vec<T>)
        requires
            self.wf(),
        ensures
            is_snapshot_of(r@, self.hosts(id)),
    {
        match self.rooms.get(&id) {
            Some(room) => room.channels.iter(),
            None => {
                let r: Vec<T> = Vec::new();
                proof {
                    let ids = Seq::<u32>::empty();
                    assert(ids.to_set() =~= self.hosts(id).dom());
                }
                r
            },
        }
    }

    /// Counts one connection of player `name` in room `id` as closed, and
    /// removes the room if nothing else keeps it. Nobody is told.
    pub fn player_disconnect(&mut self, id: u32, name: &String)
        requires
            old(self).wf(),
        ensures
            final(self).wf(),
            final(self).others_unchanged(&*old(self), id),
            final(self).players(id) == after_disconnect(old(self).players(id), name@),
            final(self).hosts(id) == old(self).hosts(id),
            final(self).has_room(id) ==> final(self).next_slot(id) == old(self).next_slot(id),
    {
        let mut room = self.take_room(id);
        let ghost mid: Rooms<T> = *self;
        room.players.disconnect(name);
        self.put_room(id, room);
        proof {
            assert forall|o: u32| o != id implies #[trigger] self.same_room(&*old(self), o) by {
                assert(self.same_room(&mid, o));
                assert(mid.same_room(&*old(self), o));
            }
        }
    }
}

} // verus!
