//! Who is connected to a room, and on how many connections each.

use vstd::prelude::*;

verus! {

/// How many connections `name` holds in `m`; zero for a name that `m` lacks.
pub open spec fn count(m: Map<Seq<char>, nat>, name: Seq<char>) -> nat {
    if m.contains_key(name) {
        m[name]
    } else {
        0
    }
}

/// The table after one more connection under `name`.
pub open spec fn after_connect(m: Map<Seq<char>, nat>, name: Seq<char>) -> Map<Seq<char>, nat> {
    m.insert(name, count(m, name) + 1)
}

/// The table after one connection under `name` has closed; the entry goes
/// once its last connection has.
pub open spec fn after_disconnect(m: Map<Seq<char>, nat>, name: Seq<char>) -> Map<
    Seq<char>,
    nat,
> {
    if count(m, name) <= 1 {
        m.remove(name)
    } else {
        m.insert(name, (count(m, name) - 1) as nat)
    }
}

/// The table after a run of connections (`true`) and disconnections
/// (`false`) under `name`, applied in order.
pub open spec fn replay(m: Map<Seq<char>, nat>, name: Seq<char>, ops: Seq<bool>) -> Map<
    Seq<char>,
    nat,
>
    decreases ops.len(),
{
    if ops.len() == 0 {
        m
    } else {
        let prev = replay(m, name, ops.drop_last());
        if ops.last() {
            after_connect(prev, name)
        } else {
            after_disconnect(prev, name)
        }
    }
}

/// How many entries of `ops` equal `b`.
pub open spec fn tally(ops: Seq<bool>, b: bool) -> nat
    decreases ops.len(),
{
    if ops.len() == 0 {
        0
    } else {
        tally(ops.drop_last(), b) + if ops.last() == b {
            1nat
        } else {
            0nat
        }
    }
}

/// A name's count after a run of connections and disconnections is its
/// count before plus the connections less the disconnections, as long as
/// no disconnection comes without a connection left to close. Other names
/// keep their counts.
pub proof fn lemma_count_after_replay(m: Map<Seq<char>, nat>, name: Seq<char>, ops: Seq<bool>)
    requires
        forall|k: int|
            0 <= k <= ops.len() ==> tally(#[trigger] ops.take(k), false) <= count(m, name)
                + tally(ops.take(k), true),
    ensures
        count(replay(m, name, ops), name) == count(m, name) + tally(ops, true) - tally(
            ops,
            false,
        ),
        forall|other: Seq<char>|
            other != name ==> #[trigger] count(replay(m, name, ops), other) == count(m, other),
    decreases ops.len(),
{
    if ops.len() > 0 {
        let init = ops.drop_last();
        assert forall|k: int| 0 <= k <= init.len() implies tally(#[trigger] init.take(k), false)
            <= count(m, name) + tally(init.take(k), true) by {
            assert(init.take(k) =~= ops.take(k));
        }
        lemma_count_after_replay(m, name, init);
        assert(ops.take(ops.len() as int) =~= ops);
        let prev = replay(m, name, init);
        assert forall|other: Seq<char>| other != name implies #[trigger] count(
            replay(m, name, ops),
            other,
        ) == count(m, other) by {
            assert(count(prev, other) == count(m, other));
        }
    }
}

/// A name becomes present, and a join is announced, exactly when its count
/// goes from zero to one: a further connection only raises the count, and
/// a disconnection never makes a name present.
pub proof fn lemma_join_on_first_connection(m: Map<Seq<char>, nat>, name: Seq<char>)
    requires
        forall|k: Seq<char>| #[trigger] m.contains_key(k) ==> m[k] > 0,
    ensures
        !m.contains_key(name) <==> count(m, name) == 0,
        !m.contains_key(name) ==> count(after_connect(m, name), name) == 1,
        m.contains_key(name) ==> count(after_connect(m, name), name) > 1,
        after_disconnect(m, name).contains_key(name) ==> m.contains_key(name),
{
}

/// The table after one connection under each of `names`, in order.
pub open spec fn connect_all(m: Map<Seq<char>, nat>, names: Seq<Seq<char>>) -> Map<
    Seq<char>,
    nat,
>
    decreases names.len(),
{
    if names.len() == 0 {
        m
    } else {
        after_connect(connect_all(m, names.drop_last()), names.last())
    }
}

/// Once distinct players have each connected to an empty table, in any
/// order, the table holds exactly their names, each with one connection.
pub proof fn lemma_present_after_joins(names: Seq<Seq<char>>)
    requires
        names.no_duplicates(),
    ensures
        connect_all(Map::empty(), names).dom() == names.to_set(),
        connect_all(Map::empty(), names).dom().len() == names.len(),
        forall|i: int|
            0 <= i < names.len() ==> count(connect_all(Map::empty(), names), #[trigger] names[i])
                == 1,
    decreases names.len(),
{
    if names.len() > 0 {
        let init = names.drop_last();
        assert(init.no_duplicates());
        lemma_present_after_joins(init);
        assert(names =~= init.push(names.last()));
        assert(!init.contains(names.last()));
        assert(!init.to_set().contains(names.last()));
        assert(connect_all(Map::empty(), names).dom() =~= names.to_set());
        assert forall|i: int| 0 <= i < names.len() implies count(
            connect_all(Map::empty(), names),
            #[trigger] names[i],
        ) == 1 by {
            if i < init.len() {
                assert(init[i] == names[i]);
                assert(names[i] != names.last());
            }
        }
    }
    names.unique_seq_to_set();
}

/// A player's entry: the name and the number of its open connections.
pub struct Player {
    pub name: String,
    pub connected_channels: u32,
}

/// The players of one room, each with a count of at least one. They are
/// kept in a `Vec` under a ghost map, since vstd's `HashMap` model covers
/// integer keys and not `String` ones.
pub struct Presence {
    players: Vec<Player>,
    model: Ghost<Map<Seq<char>, nat>>,
}

impl View for Presence {
    type V = Map<Seq<char>, nat>;

    closed spec fn view(&self) -> Map<Seq<char>, nat> {
        self.model@
    }
}

impl Presence {
    /// The entries hold distinct names, each with a positive count, and
    /// are exactly the entries of the model.
    pub closed spec fn wf(&self) -> bool {
        &&& forall|i: int, j: int|
            #![trigger self.players[i], self.players[j]]
            0 <= i < self.players.len() && 0 <= j < self.players.len() && i != j
                ==> self.players[i].name@ != self.players[j].name@
        &&& forall|i: int|
            #![trigger self.players[i]]
            0 <= i < self.players.len() ==> {
                &&& self.players[i].connected_channels > 0
                &&& self.model@.contains_key(self.players[i].name@)
                &&& self.model@[self.players[i].name@] == self.players[i].connected_channels
            }
        &&& forall|k: Seq<char>|
            #[trigger] self.model@.contains_key(k) ==> exists|i: int|
                0 <= i < self.players.len() && self.players[i].name@ == k
    }

    pub proof fn lemma_counts_positive(&self)
        requires
            self.wf(),
        ensures
            forall|k: Seq<char>| #[trigger] self@.contains_key(k) ==> self@[k] > 0,
    {
        assert forall|k: Seq<char>| #[trigger] self@.contains_key(k) implies self@[k] > 0 by {
            let i = choose|i: int| 0 <= i < self.players.len() && self.players[i].name@ == k;
        }
    }

    pub fn new() -> (r: Self)
        ensures
            r.wf(),
            r@ == Map::<Seq<char>, nat>::empty(),
    {
        Presence { players: Vec::new(), model: Ghost(Map::empty()) }
    }

    fn find(&self, name: &String) -> (r: Option<usize>)
        requires
            self.wf(),
        ensures
            match r {
                Some(i) => i < self.players.len() && self.players[i as int].name@ == name@,
                None => !self@.contains_key(name@),
            },
    {
        let mut i: usize = 0;
        while i < self.players.len()
            invariant
                i <= self.players.len(),
                forall|j: int| 0 <= j < i ==> self.players[j].name@ != name@,
            decreases self.players.len() - i,
        {
            if self.players[i].name == *name {
                return Some(i);
            }
            i = i + 1;
        }
        None
    }

    /// The number of open connections under `name`.
    pub fn connections(&self, name: &String) -> (r: u32)
        requires
            self.wf(),
        ensures
            r as nat == count(self@, name@),
    {
        match self.find(name) {
            Some(i) => self.players[i].connected_channels,
            None => 0,
        }
    }

    /// Counts one more connection under `name`; tells whether the name has
    /// just become present.
    pub fn connect(&mut self, name: &String) -> (first: bool)
        requires
            old(self).wf(),
            count(old(self)@, name@) < u32::MAX,
        ensures
            final(self).wf(),
            first == !old(self)@.contains_key(name@),
            final(self)@ == after_connect(old(self)@, name@),
    {
        match self.find(name) {
            Some(i) => {
                let c = self.players[i].connected_channels;
                let player = Player { name: self.players[i].name.clone(), connected_channels: c + 1 };
                self.players.set(i, player);
                self.model = Ghost(after_connect(self.model@, name@));
                proof {
                    assert forall|k: Seq<char>| #[trigger] self.model@.contains_key(k) implies exists|j: int|
                        0 <= j < self.players.len() && self.players[j].name@ == k by {
                        if k == name@ {
                            assert(self.players[i as int].name@ == k);
                        } else {
                            assert(old(self).model@.contains_key(k));
                            let j = choose|j: int| 0 <= j < old(self).players.len() && old(self).players[j].name@ == k;
                            assert(self.players[j].name@ == k);
                        }
                    }
                }
                false
            },
            None => {
                self.players.push(Player { name: name.clone(), connected_channels: 1 });
                self.model = Ghost(after_connect(self.model@, name@));
                proof {
                    let n = self.players.len() - 1;
                    assert forall|k: Seq<char>| #[trigger] self.model@.contains_key(k) implies exists|j: int|
                        0 <= j < self.players.len() && self.players[j].name@ == k by {
                        if k == name@ {
                            assert(self.players[n].name@ == k);
                        } else {
                            assert(old(self).model@.contains_key(k));
                            let j = choose|j: int| 0 <= j < old(self).players.len() && old(self).players[j].name@ == k;
                            assert(self.players[j].name@ == k);
                        }
                    }
                }
                true
            },
        }
    }

    /// Counts one connection under `name` as closed; the entry goes with
    /// its last connection. A name with no connection is left as it is.
    pub fn disconnect(&mut self, name: &String)
        requires
            old(self).wf(),
        ensures
            final(self).wf(),
            final(self)@ == after_disconnect(old(self)@, name@),
    {
        match self.find(name) {
            Some(i) => {
                let c = self.players[i].connected_channels;
                if c == 1 {
                    self.players.remove(i);
                    self.model = Ghost(after_disconnect(self.model@, name@));
                    proof {
                        assert forall|k: Seq<char>| #[trigger] self.model@.contains_key(k) implies exists|j: int|
                            0 <= j < self.players.len() && self.players[j].name@ == k by {
                            assert(old(self).model@.contains_key(k));
                            let j = choose|j: int| 0 <= j < old(self).players.len() && old(self).players[j].name@ == k;
                            if j < i {
                                assert(self.players[j].name@ == k);
                            } else {
                                assert(self.players[j - 1].name@ == k);
                            }
                        }
                        assert forall|a: int, b: int|
                            0 <= a < self.players.len() && 0 <= b < self.players.len() && a != b
                                implies self.players[a].name@ != self.players[b].name@ by {
                            let oa = if a < i { a } else { a + 1 };
                            let ob = if b < i { b } else { b + 1 };
                            assert(self.players[a] == old(self).players[oa]);
                            assert(self.players[b] == old(self).players[ob]);
                        }
                        assert forall|a: int| 0 <= a < self.players.len() implies {
                            &&& self.players[a].connected_channels > 0
                            &&& self.model@.contains_key(self.players[a].name@)
                            &&& self.model@[self.players[a].name@] == self.players[a].connected_channels
                        } by {
                            let oa = if a < i { a } else { a + 1 };
                            assert(self.players[a] == old(self).players[oa]);
                        }
                    }
                } else {
                    let player = Player { name: self.players[i].name.clone(), connected_channels: c - 1 };
                    self.players.set(i, player);
                    self.model = Ghost(after_disconnect(self.model@, name@));
                    proof {
                        assert forall|k: Seq<char>| #[trigger] self.model@.contains_key(k) implies exists|j: int|
                            0 <= j < self.players.len() && self.players[j].name@ == k by {
                            if k == name@ {
                                assert(self.players[i as int].name@ == k);
                            } else {
                                assert(old(self).model@.contains_key(k));
                                let j = choose|j: int| 0 <= j < old(self).players.len() && old(self).players[j].name@ == k;
                                assert(self.players[j].name@ == k);
                            }
                        }
                    }
                }
            },
            None => {
                proof {
                    assert(self.model@ =~= after_disconnect(self.model@, name@));
                }
            },
        }
    }

    /// Whether no player is connected.
    pub fn is_empty(&self) -> (r: bool)
        requires
            self.wf(),
        ensures
            r == (self@.dom() == Set::<Seq<char>>::empty()),
    {
        let r = self.players.len() == 0;
        proof {
            if r {
                assert(self@.dom() =~= Set::<Seq<char>>::empty());
            } else {
                let p = self.players[0];
                assert(self@.contains_key(p.name@));
            }
        }
        r
    }

    /// The name of every connected player, each once.
    pub fn names(&self) -> (r: Vec<String>)
        requires
            self.wf(),
        ensures
            r@.len() == self@.dom().len(),
            forall|i: int, j: int|
                #![trigger r@[i], r@[j]]
                0 <= i < r@.len() && 0 <= j < r@.len() && i != j ==> r@[i]@ != r@[j]@,
            forall|i: int| 0 <= i < r@.len() ==> self@.contains_key(#[trigger] r@[i]@),
            forall|k: Seq<char>| #[trigger] self@.contains_key(k) ==> exists|i: int|
                0 <= i < r@.len() && #[trigger] r@[i]@ == k,
    {
        let mut r: Vec<String> = Vec::new();
        let mut i: usize = 0;
        while i < self.players.len()
            invariant
                self.wf(),
                i <= self.players.len(),
                r@.len() == i,
                forall|j: int| 0 <= j < i ==> r@[j]@ == #[trigger] self.players[j].name@,
            decreases self.players.len() - i,
        {
            r.push(self.players[i].name.clone());
            i = i + 1;
        }
        proof {
            let names = self.players@.map_values(|p: Player| p.name@);
            assert(names.no_duplicates());
            assert(names.to_set() =~= self@.dom()) by {
                assert forall|k: Seq<char>| names.to_set().contains(k) implies self@.contains_key(k) by {
                    let j = choose|j: int| 0 <= j < names.len() && names[j] == k;
                    let p = self.players[j];
                }
                assert forall|k: Seq<char>| self@.contains_key(k) implies names.to_set().contains(k) by {
                    let j = choose|j: int| 0 <= j < self.players.len() && self.players[j].name@ == k;
                    assert(names[j] == k);
                }
            }
            names.unique_seq_to_set();
            assert(r@.map_values(|s: String| s@) =~= names);
            assert forall|a: int, b: int|
                #![trigger r@[a], r@[b]]
                0 <= a < r@.len() && 0 <= b < r@.len() && a != b implies r@[a]@ != r@[b]@ by {
                assert(r@[a]@ == self.players[a].name@);
                assert(r@[b]@ == self.players[b].name@);
            }
            assert forall|j: int| 0 <= j < r@.len() implies self@.contains_key(#[trigger] r@[j]@) by {
                assert(names[j] == r@[j]@);
                assert(names.to_set().contains(names[j]));
            }
        }
        r
    }
}

} // verus!
