//! What a host is told, and how it is written on the wire.

use vstd::prelude::*;
use vstd::string::StringExecFns;

verus! {

/// An event sent to the hosts of a room.
pub enum Event {
    PlayerJoined(String),
    PlayerBuzzed(String),
}

/// The text frame for an event: a keyword, one space, then the player's
/// name as it stands (which may itself hold spaces).
pub open spec fn wire_text(e: Event) -> Seq<char> {
    match e {
        Event::PlayerJoined(name) => seq!['j', 'o', 'i', 'n', ' '] + name@,
        Event::PlayerBuzzed(name) => seq!['b', 'u', 'z', 'z', ' '] + name@,
    }
}

impl Event {
    pub fn to_text(&self) -> (r: String)
        ensures
            r@ == wire_text(*self),
    {
        match self {
            Event::PlayerJoined(name) => {
                let mut r = String::from_str("join ");
                proof {
                    reveal_strlit("join ");
                    assert(r@ =~= seq!['j', 'o', 'i', 'n', ' ']);
                }
                r.append(name.as_str());
                r
            },
            Event::PlayerBuzzed(name) => {
                let mut r = String::from_str("buzz ");
                proof {
                    reveal_strlit("buzz ");
                    assert(r@ =~= seq!['b', 'u', 'z', 'z', ' ']);
                }
                r.append(name.as_str());
                r
            },
        }
    }
}

} // verus!
