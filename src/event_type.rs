use vstd::prelude::*;

verus! {

/// Identifier of a player, and of a game.
pub type Uid = u32;

/// A normalized connection event, as produced by the connection registry.
#[derive(Debug, Clone, PartialEq, Eq)]
pub enum EventType {
    PlayerConnect(Uid),
    PlayerDisconnect(Uid),
    /// Bytes received from a player, exactly as read.
    PlayerSay(Uid, Vec<u8>),
    /// A move from one board square to another: `(x1, y1)` to `(x2, y2)`.
    PlayerPlay(Uid, u8, u8, u8, u8),
}

impl EventType {
    /// The player that the event concerns.
    pub open spec fn spec_uid(&self) -> Uid {
        match self {
            EventType::PlayerConnect(u) => *u,
            EventType::PlayerDisconnect(u) => *u,
            EventType::PlayerSay(u, _) => *u,
            EventType::PlayerPlay(u, _, _, _, _) => *u,
        }
    }

    #[verifier::when_used_as_spec(spec_uid)]
    pub fn uid(&self) -> (r: Uid)
        ensures
            r == self.spec_uid(),
    {
        match self {
            EventType::PlayerConnect(u) => *u,
            EventType::PlayerDisconnect(u) => *u,
            EventType::PlayerSay(u, _) => *u,
            EventType::PlayerPlay(u, _, _, _, _) => *u,
        }
    }
}

} // verus!
