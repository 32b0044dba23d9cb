//! One room: the hosts that watch it and the players connected to it.

use crate::presence::Presence;
use crate::slots::TempSet;
use vstd::prelude::*;

verus! {

pub struct VideoRoom<T> {
    /// Channels to the room's hosts (usually just one).
    pub channels: TempSet<T>,
    /// The players connected to the room.
    pub players: Presence,
}

impl<T> VideoRoom<T> {
    pub open spec fn wf(&self) -> bool {
        self.channels.wf() && self.players.wf()
    }

    /// A room is vacant when it has no host and no connected player.
    pub open spec fn is_vacant(&self) -> bool {
        &&& self.channels@.dom() == Set::<u32>::empty()
        &&& self.players@.dom() == Set::<Seq<char>>::empty()
    }

    pub fn new() -> (r: Self)
        ensures
            r.wf(),
            r.is_vacant(),
            r.channels.next_id() == 0,
    {
        VideoRoom { channels: TempSet::new(), players: Presence::new() }
    }

    pub fn is_empty(&self) -> (r: bool)
        requires
            self.wf(),
        ensures
            r == self.is_vacant(),
            r == (self.channels@.len() == 0 && forall|name: Seq<char>|
                #[trigger] self.players@.contains_key(name) ==> self.players@[name] == 0),
    {
        let r = self.channels.is_empty() && self.players.is_empty();
        proof {
            self.players.lemma_counts_positive();
            if !self.players@.is_empty() {
                assert(exists|name: Seq<char>| self.players@.contains_key(name)) by {
                    if !exists|name: Seq<char>| self.players@.contains_key(name) {
                        assert(self.players@.dom() =~= Set::<Seq<char>>::empty());
                    }
                }
            }
        }
        r
    }
}

impl<T> Default for VideoRoom<T> {
    fn default() -> (r: Self)
        ensures
            r.wf(),
            r.is_vacant(),
            r.channels.next_id() == 0,
    {
        VideoRoom::new()
    }
}

} // verus!
