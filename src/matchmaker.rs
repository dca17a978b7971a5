use crate::event_type::{EventType, Uid};
use std::collections::HashMap;
use vstd::prelude::*;

verus! {

broadcast use vstd::std_specs::hash::group_hash_axioms;

/// A game between two players.
#[derive(Debug, Clone, Copy, PartialEq, Eq, Structural)]
pub struct Game {
    pub uid: Uid,
    pub white_uid: Uid,
    pub black_uid: Uid,
}

/// A connected player, and the game it plays in, if any.
#[derive(Debug, Clone, Copy, PartialEq, Eq, Structural)]
pub struct Player {
    pub uid: Uid,
    pub game: Option<Uid>,
}

/// What the matchmaker reports to its observers.
#[derive(Debug, Clone, PartialEq, Eq)]
pub enum Notification {
    PlayerConnected(Uid),
    PlayerDisconnected(Uid),
    PlayerSaid(Uid, Vec<u8>),
    PlayerPlayed(Uid, u8, u8, u8, u8),
    /// A game was created: game, white player, black player.
    GameCreated(Uid, Uid, Uid),
    /// A game ended: game, winner, loser.
    GameEnded(Uid, Uid, Uid),
}

/// Why an event was refused; a refused event leaves the state unchanged.
#[derive(Debug, Clone, Copy, PartialEq, Eq, Structural)]
pub enum MatchError {
    /// A connect for an identifier that is already known.
    AlreadyConnected(Uid),
    /// An event for an identifier that is not known.
    UnknownPlayer(Uid),
    /// A new game is needed but every game identifier has been handed out.
    GameIdsExhausted,
}

impl Game {
    pub open spec fn has(self, p: Uid) -> bool {
        self.white_uid == p || self.black_uid == p
    }

    /// The other participant of the game.
    pub open spec fn opponent(self, p: Uid) -> Uid {
        if self.white_uid == p {
            self.black_uid
        } else {
            self.white_uid
        }
    }
}

/// The abstract state of the matchmaker.
pub struct Lobby {
    /// The player waiting for an opponent, if any.
    pub waiting: Option<Uid>,
    /// The known players, by identifier.
    pub players: Map<Uid, Player>,
    /// The games in progress, by identifier.
    pub games: Map<Uid, Game>,
    /// The identifier that the next game receives.
    pub next_game: Uid,
}

impl Lobby {
    pub open spec fn initial() -> Lobby {
        Lobby { waiting: None, players: Map::empty(), games: Map::empty(), next_game: 0 }
    }

    /// Consistency of the state, except that the player `skip` (if any) need
    /// not be accounted for by the waiting slot or a game.
    pub open spec fn wf_but(self, skip: Option<Uid>) -> bool {
        &&& forall|p: Uid| #[trigger]
            self.players.contains_key(p) ==> self.players[p].uid == p
        &&& forall|p: Uid|
            #![trigger self.players[p]]
            self.players.contains_key(p) && skip != Some(p) ==> match self.players[p].game {
                None => self.waiting == Some(p),
                Some(g) => self.games.contains_key(g) && self.games[g].has(p),
            }
        &&& forall|g: Uid| #[trigger]
            self.games.contains_key(g) ==> {
                let game = self.games[g];
                &&& game.uid == g
                &&& g < self.next_game
                &&& game.white_uid != game.black_uid
                &&& self.players.contains_key(game.white_uid)
                &&& self.players[game.white_uid].game == Some(g)
                &&& self.players.contains_key(game.black_uid)
                &&& self.players[game.black_uid].game == Some(g)
            }
        &&& match self.waiting {
            None => true,
            Some(w) => self.players.contains_key(w) && self.players[w].game is None && skip != Some(
                w,
            ),
        }
    }

    /// Every known player waits or plays in exactly one game, and the games
    /// and players refer to each other.
    pub open spec fn wf(self) -> bool {
        self.wf_but(None)
    }

    pub open spec fn is_waiting(self, p: Uid) -> bool {
        self.waiting == Some(p)
    }

    pub open spec fn in_game(self, p: Uid) -> bool {
        self.players.contains_key(p) && self.players[p].game is Some
    }

    /// A new game can be given an identifier, or none is needed.
    pub open spec fn can_pair(self) -> bool {
        self.waiting is None || self.next_game < u32::MAX
    }
}

/// Pairing: `uid` takes the waiting slot, or starts a game with its occupant.
pub open spec fn matchmade(s: Lobby, uid: Uid) -> Lobby {
    match s.waiting {
        None => Lobby { waiting: Some(uid), ..s },
        Some(w) => {
            let g = s.next_game;
            Lobby {
                waiting: None,
                players: s.players.insert(w, Player { uid: w, game: Some(g) }).insert(
                    uid,
                    Player { uid, game: Some(g) },
                ),
                games: s.games.insert(g, Game { uid: g, white_uid: w, black_uid: uid }),
                next_game: (g + 1) as Uid,
            }
        },
    }
}

/// What pairing `uid` reports.
pub open spec fn pairing_notes(s: Lobby, uid: Uid) -> Seq<Notification> {
    match s.waiting {
        None => seq![],
        Some(w) => seq![Notification::GameCreated(s.next_game, w, uid)],
    }
}

pub open spec fn connect_error(s: Lobby, uid: Uid) -> Option<MatchError> {
    if s.players.contains_key(uid) {
        Some(MatchError::AlreadyConnected(uid))
    } else if !s.can_pair() {
        Some(MatchError::GameIdsExhausted)
    } else {
        None
    }
}

/// The state with `uid` registered but not yet paired.
pub open spec fn joined(s: Lobby, uid: Uid) -> Lobby {
    Lobby { players: s.players.insert(uid, Player { uid, game: None }), ..s }
}

/// The state after a new player `uid` connects.
pub open spec fn connected(s: Lobby, uid: Uid) -> Lobby {
    matchmade(joined(s, uid), uid)
}

pub open spec fn connect_notes(s: Lobby, uid: Uid) -> Seq<Notification> {
    seq![Notification::PlayerConnected(uid)] + pairing_notes(s, uid)
}

pub open spec fn disconnect_error(s: Lobby, uid: Uid) -> Option<MatchError> {
    if !s.players.contains_key(uid) {
        Some(MatchError::UnknownPlayer(uid))
    } else if s.players[uid].game is Some && !s.can_pair() {
        Some(MatchError::GameIdsExhausted)
    } else {
        None
    }
}

/// The state after the game of `uid` is removed and its opponent freed,
/// before the opponent is paired again.
pub open spec fn game_dropped(s: Lobby, uid: Uid, g: Uid) -> Lobby {
    let winner = s.games[g].opponent(uid);
    Lobby {
        games: s.games.remove(g),
        players: s.players.remove(uid).insert(winner, Player { uid: winner, game: None }),
        ..s
    }
}

/// The state after the known player `uid` disconnects.
pub open spec fn disconnected(s: Lobby, uid: Uid) -> Lobby {
    match s.players[uid].game {
        None => Lobby { waiting: None, players: s.players.remove(uid), ..s },
        Some(g) => matchmade(game_dropped(s, uid, g), s.games[g].opponent(uid)),
    }
}

pub open spec fn disconnect_notes(s: Lobby, uid: Uid) -> Seq<Notification> {
    match s.players[uid].game {
        None => seq![Notification::PlayerDisconnected(uid)],
        Some(g) => {
            let winner = s.games[g].opponent(uid);
            seq![
                Notification::PlayerDisconnected(uid),
                Notification::GameEnded(g, winner, uid),
            ] + pairing_notes(game_dropped(s, uid, g), winner)
        },
    }
}


pub open spec fn event_error(s: Lobby, e: EventType) -> Option<MatchError> {
    match e {
        EventType::PlayerConnect(u) => connect_error(s, u),
        EventType::PlayerDisconnect(u) => disconnect_error(s, u),
        _ => if s.players.contains_key(e.uid()) {
            None
        } else {
            Some(MatchError::UnknownPlayer(e.uid()))
        },
    }
}

/// The state after one event; a refused event changes nothing.
pub open spec fn step(s: Lobby, e: EventType) -> Lobby {
    if event_error(s, e) is Some {
        s
    } else {
        match e {
            EventType::PlayerConnect(u) => connected(s, u),
            EventType::PlayerDisconnect(u) => disconnected(s, u),
            _ => s,
        }
    }
}

/// What an accepted event reports.
pub open spec fn event_notes(s: Lobby, e: EventType) -> Seq<Notification> {
    match e {
        EventType::PlayerConnect(u) => connect_notes(s, u),
        EventType::PlayerDisconnect(u) => disconnect_notes(s, u),
        EventType::PlayerSay(u, m) => seq![Notification::PlayerSaid(u, m)],
        EventType::PlayerPlay(u, x1, y1, x2, y2) => seq![
            Notification::PlayerPlayed(u, x1, y1, x2, y2),
        ],
    }
}

/// The state after a sequence of events, handled in order.
pub open spec fn run(s: Lobby, events: Seq<EventType>) -> Lobby
    decreases events.len(),
{
    if events.len() == 0 {
        s
    } else {
        step(run(s, events.drop_last()), events.last())
    }
}

/// Pairing a player that is registered but not yet accounted for restores
/// consistency.
pub proof fn lemma_matchmade_wf(s: Lobby, uid: Uid)
    requires
        s.wf_but(Some(uid)),
        s.players.contains_key(uid),
        s.players[uid].game is None,
        s.can_pair(),
    ensures
        matchmade(s, uid).wf(),
{
    let t = matchmade(s, uid);
    match s.waiting {
        None => {},
        Some(w) => {
            let g = s.next_game;
            assert(!s.games.contains_key(g));
            assert forall|p: Uid| t.players.contains_key(p) implies match #[trigger] t.players[p].game {
                None => t.waiting == Some(p),
                Some(h) => t.games.contains_key(h) && t.games[h].has(p),
            } by {
                if p != w && p != uid {
                    assert(s.players[p].game is Some);
                }
            }
            assert forall|h: Uid| #[trigger] t.games.contains_key(h) implies {
                let game = t.games[h];
                &&& game.uid == h
                &&& h < t.next_game
                &&& game.white_uid != game.black_uid
                &&& t.players.contains_key(game.white_uid)
                &&& t.players[game.white_uid].game == Some(h)
                &&& t.players.contains_key(game.black_uid)
                &&& t.players[game.black_uid].game == Some(h)
            } by {
                if h != g {
                    let game = s.games[h];
                    assert(s.players[game.white_uid].game == Some(h));
                    assert(s.players[game.black_uid].game == Some(h));
                }
            }
        },
    }
}

/// Connecting a new player keeps the state consistent.
pub proof fn lemma_connected_wf(s: Lobby, uid: Uid)
    requires
        s.wf(),
        connect_error(s, uid) is None,
    ensures
        connected(s, uid).wf(),
{
    let j = joined(s, uid);
    assert forall|h: Uid| #[trigger] j.games.contains_key(h) implies j.games[h].white_uid != uid
        && j.games[h].black_uid != uid by {
        let game = s.games[h];
        assert(s.players.contains_key(game.white_uid));
        assert(s.players.contains_key(game.black_uid));
    }
    lemma_matchmade_wf(j, uid);
}

/// A known player disconnecting keeps the state consistent.
pub proof fn lemma_disconnected_wf(s: Lobby, uid: Uid)
    requires
        s.wf(),
        disconnect_error(s, uid) is None,
    ensures
        disconnected(s, uid).wf(),
{
    match s.players[uid].game {
        None => {
            let t = disconnected(s, uid);
            assert forall|h: Uid| #[trigger] s.games.contains_key(h) implies s.games[h].white_uid
                != uid && s.games[h].black_uid != uid by {
                let game = s.games[h];
                assert(s.players[game.white_uid].game == Some(h));
                assert(s.players[game.black_uid].game == Some(h));
            }
            assert forall|p: Uid| t.players.contains_key(p) implies match #[trigger] t.players[p].game {
                None => t.waiting == Some(p),
                Some(h) => t.games.contains_key(h) && t.games[h].has(p),
            } by {
                assert(s.players[p].game is Some);
            }
        },
        Some(g) => {
            let game = s.games[g];
            let winner = game.opponent(uid);
            let d = game_dropped(s, uid, g);
            assert(s.players[winner].game == Some(g));
            assert forall|h: Uid| #[trigger] d.games.contains_key(h) implies {
                let other = d.games[h];
                &&& other.white_uid != uid && other.black_uid != uid
                &&& other.white_uid != winner && other.black_uid != winner
                &&& d.players[other.white_uid].game == Some(h)
                &&& d.players[other.black_uid].game == Some(h)
            } by {
                let other = s.games[h];
                assert(s.players[other.white_uid].game == Some(h));
                assert(s.players[other.black_uid].game == Some(h));
            }
            assert forall|p: Uid| d.players.contains_key(p) && p != winner implies match #[trigger] d.players[p].game {
                None => d.waiting == Some(p),
                Some(h) => d.games.contains_key(h) && d.games[h].has(p),
            } by {
                assert(s.players.contains_key(p));
                match s.players[p].game {
                    None => {},
                    Some(h) => {
                        if h == g {
                            assert(s.games[g].has(p));
                        }
                    },
                }
            }
            lemma_matchmade_wf(d, winner);
        },
    }
}

/// Handling an event keeps the state consistent.
pub proof fn lemma_step_wf(s: Lobby, e: EventType)
    requires
        s.wf(),
    ensures
        step(s, e).wf(),
{
    if event_error(s, e) is None {
        match e {
            EventType::PlayerConnect(u) => lemma_connected_wf(s, u),
            EventType::PlayerDisconnect(u) => lemma_disconnected_wf(s, u),
            _ => {},
        }
    }
}

/// Whatever events arrive, every known player is at every point either
/// waiting or in a game, and never both.
pub proof fn lemma_each_player_waits_or_plays(s: Lobby, events: Seq<EventType>)
    requires
        s.wf(),
    ensures
        run(s, events).wf(),
        forall|p: Uid| #[trigger]
            run(s, events).players.contains_key(p) ==> (run(s, events).is_waiting(p)
                != run(s, events).in_game(p)),
    decreases events.len(),
{
    if events.len() > 0 {
        lemma_each_player_waits_or_plays(s, events.drop_last());
        lemma_step_wf(run(s, events.drop_last()), events.last());
    }
    let t = run(s, events);
    assert forall|p: Uid| #[trigger] t.players.contains_key(p) implies (t.is_waiting(p)
        != t.in_game(p)) by {
        if t.is_waiting(p) {
            assert(t.players[p].game is None);
        } else {
            assert(t.players[p].game is Some);
        }
    }
}

/// Players are paired in the order in which they connect: four new players
/// `a`, `b`, `c`, `d` arriving at an empty waiting slot form the games
/// `(a, b)` and then `(c, d)`.
pub proof fn lemma_pairing_is_fifo(s: Lobby, a: Uid, b: Uid, c: Uid, d: Uid)
    requires
        s.wf(),
        s.waiting is None,
        s.next_game + 1 < u32::MAX,
        a != b && a != c && a != d && b != c && b != d && c != d,
        !s.players.contains_key(a),
        !s.players.contains_key(b),
        !s.players.contains_key(c),
        !s.players.contains_key(d),
    ensures
        connect_error(s, a) is None,
        connect_error(connected(s, a), b) is None,
        connect_error(connected(connected(s, a), b), c) is None,
        connect_error(connected(connected(connected(s, a), b), c), d) is None,
        ({
            let t = connected(connected(connected(connected(s, a), b), c), d);
            &&& t.waiting is None
            &&& t.games == s.games.insert(
                s.next_game,
                Game { uid: s.next_game, white_uid: a, black_uid: b },
            ).insert(
                (s.next_game + 1) as Uid,
                Game { uid: (s.next_game + 1) as Uid, white_uid: c, black_uid: d },
            )
        }),
{
}

/// A player that waits alone and disconnects empties the waiting slot;
/// no game ends and no game is touched.
pub proof fn lemma_waiting_player_leaves(s: Lobby, p: Uid)
    requires
        s.wf(),
        s.waiting == Some(p),
    ensures
        disconnect_error(s, p) is None,
        disconnected(s, p).waiting is None,
        disconnected(s, p).games == s.games,
        !disconnected(s, p).players.contains_key(p),
        disconnect_notes(s, p) == seq![Notification::PlayerDisconnected(p)],
{
}

/// A player in a game that disconnects ends exactly that game; the opponent
/// is freed, and paired at once with the player waiting, if any, or else
/// with the next player to connect.
pub proof fn lemma_leaving_player_frees_opponent(s: Lobby, p: Uid, n: Uid)
    requires
        s.wf(),
        s.in_game(p),
        s.can_pair(),
    ensures
        ({
            let g = s.players[p].game->0;
            let o = s.games[g].opponent(p);
            let t = disconnected(s, p);
            &&& disconnect_error(s, p) is None
            &&& o != p && s.players.contains_key(o)
            &&& !t.players.contains_key(p)
            &&& t.players.contains_key(o)
            &&& s.waiting is None ==> {
                &&& t.waiting == Some(o)
                &&& t.games == s.games.remove(g)
            }
            &&& s.waiting matches Some(w) ==> t.games == s.games.remove(g).insert(
                s.next_game,
                Game { uid: s.next_game, white_uid: w, black_uid: o },
            )
            &&& s.waiting is None && !s.players.contains_key(n) && s.next_game < u32::MAX ==> {
                &&& connect_error(t, n) is None
                &&& connected(t, n).games == s.games.remove(g).insert(
                    s.next_game,
                    Game { uid: s.next_game, white_uid: o, black_uid: n },
                )
            }
        }),
{
    let g = s.players[p].game->0;
    let o = s.games[g].opponent(p);
    assert(s.players[o].game == Some(g));
    lemma_disconnected_wf(s, p);
}

/// After a player disconnects, nothing in the state refers to it.
pub proof fn lemma_no_trace_of_departed(s: Lobby, x: Uid)
    requires
        s.wf(),
        disconnect_error(s, x) is None,
    ensures
        ({
            let t = disconnected(s, x);
            &&& !t.players.contains_key(x)
            &&& t.waiting != Some(x)
            &&& forall|g: Uid| #[trigger] t.games.contains_key(g) ==> !t.games[g].has(x)
        }),
{
    lemma_disconnected_wf(s, x);
}

/// Two players connect and the first leaves: the second waits alone, and
/// the state holds no trace of the first or of their game.
pub proof fn lemma_join_join_leave(s: Lobby, x: Uid, y: Uid)
    requires
        s.wf(),
        s.waiting is None,
        s.next_game < u32::MAX,
        x != y,
        !s.players.contains_key(x),
        !s.players.contains_key(y),
    ensures
        ({
            let t1 = connected(s, x);
            let t2 = connected(t1, y);
            let t = disconnected(t2, x);
            &&& connect_error(s, x) is None
            &&& connect_error(t1, y) is None
            &&& disconnect_error(t2, x) is None
            &&& t.waiting == Some(y)
            &&& t.players == s.players.insert(y, Player { uid: y, game: None })
            &&& t.games == s.games
            &&& forall|g: Uid| #[trigger] t.games.contains_key(g) ==> !t.games[g].has(x)
        }),
{
    let t1 = connected(s, x);
    let t2 = connected(t1, y);
    let t = disconnected(t2, x);
    lemma_connected_wf(s, x);
    lemma_connected_wf(t1, y);
    lemma_no_trace_of_departed(t2, x);
    assert(!s.games.contains_key(s.next_game));
    assert(t.games =~= s.games);
    assert(t.players =~= s.players.insert(y, Player { uid: y, game: None }));
}

/// Pairs players into games, from a stream of connection events.
pub struct MatchMaker {
    hanging_player: Option<Uid>,
    games: HashMap<Uid, Game>,
    players: HashMap<Uid, Player>,
    next_game_uid: Uid,
}

impl View for MatchMaker {
    type V = Lobby;

    closed spec fn view(&self) -> Lobby {
        Lobby {
            waiting: self.hanging_player,
            players: self.players@,
            games: self.games@,
            next_game: self.next_game_uid,
        }
    }
}

impl MatchMaker {
    pub open spec fn wf(&self) -> bool {
        self@.wf()
    }

    pub fn new() -> (r: MatchMaker)
        ensures
            r@ == Lobby::initial(),
            r.wf(),
    {
        let r = MatchMaker {
            hanging_player: None,
            games: HashMap::new(),
            players: HashMap::new(),
            next_game_uid: 0,
        };
        assert(r@.players =~= Map::empty());
        assert(r@.games =~= Map::empty());
        r
    }

    fn build_player(&self, uid: Uid) -> (r: Player)
        ensures
            r == (Player { uid, game: None }),
    {
        Player { uid: uid, game: None }
    }

    fn create_game(&mut self, uid_white: Uid, uid_black: Uid) -> (r: Game)
        requires
            old(self).next_game_uid < u32::MAX,
        ensures
            r == (Game { uid: old(self).next_game_uid, white_uid: uid_white, black_uid: uid_black }),
            final(self).next_game_uid == old(self).next_game_uid + 1,
            final(self).hanging_player == old(self).hanging_player,
            final(self).games@ == old(self).games@,
            final(self).players@ == old(self).players@.insert(
                uid_white,
                Player { uid: uid_white, game: Some(r.uid) },
            ).insert(uid_black, Player { uid: uid_black, game: Some(r.uid) }),
    {
        let game = Game { uid: self.next_game_uid, white_uid: uid_white, black_uid: uid_black };
        self.next_game_uid = self.next_game_uid + 1;
        self.players.insert(game.white_uid, Player { uid: game.white_uid, game: Some(game.uid) });
        self.players.insert(game.black_uid, Player { uid: game.black_uid, game: Some(game.uid) });
        game
    }

    /// Registers a newly connected player and tries to pair it.
    pub fn on_new_player_connected(&mut self, uid: Uid) -> (r: Result<Vec<Notification>, MatchError>)
        requires
            old(self).wf(),
        ensures
            final(self).wf(),
            match r {
                Ok(notes) => {
                    &&& connect_error(old(self)@, uid) is None
                    &&& final(self)@ == connected(old(self)@, uid)
                    &&& notes@ == connect_notes(old(self)@, uid)
                },
                Err(e) => {
                    &&& connect_error(old(self)@, uid) == Some(e)
                    &&& final(self)@ == old(self)@
                },
            },
    {
        if self.players.contains_key(&uid) {
            return Err(MatchError::AlreadyConnected(uid));
        }
        if self.hanging_player.is_some() && self.next_game_uid == u32::MAX {
            return Err(MatchError::GameIdsExhausted);
        }
        proof {
            lemma_connected_wf(self@, uid);
        }
        let mut notes: Vec<Notification> = Vec::new();
        notes.push(Notification::PlayerConnected(uid));
        let new_player = self.build_player(uid);
        self.players.insert(uid, new_player);
        assert(self@ == joined(old(self)@, uid));
        let mut paired = self.matchmake(uid);
        notes.append(&mut paired);
        assert(notes@ =~= connect_notes(old(self)@, uid));
        Ok(notes)
    }

    /// Reports what a known player said; the state does not change.
    pub fn on_player_says(&self, uid: Uid, message: Vec<u8>) -> (r: Result<Notification, MatchError>)
        ensures
            r == if self@.players.contains_key(uid) {
                Ok::<Notification, MatchError>(Notification::PlayerSaid(uid, message))
            } else {
                Err(MatchError::UnknownPlayer(uid))
            },
    {
        if self.players.contains_key(&uid) {
            Ok(Notification::PlayerSaid(uid, message))
        } else {
            Err(MatchError::UnknownPlayer(uid))
        }
    }

    /// Reports a move of a known player; the state does not change.
    pub fn on_player_plays(&self, uid: Uid, x1: u8, y1: u8, x2: u8, y2: u8) -> (r: Result<
        Notification,
        MatchError,
    >)
        ensures
            r == if self@.players.contains_key(uid) {
                Ok::<Notification, MatchError>(Notification::PlayerPlayed(uid, x1, y1, x2, y2))
            } else {
                Err(MatchError::UnknownPlayer(uid))
            },
    {
        if self.players.contains_key(&uid) {
            Ok(Notification::PlayerPlayed(uid, x1, y1, x2, y2))
        } else {
            Err(MatchError::UnknownPlayer(uid))
        }
    }

    /// Removes a known player; its opponent, if any, wins and is paired again.
    pub fn on_player_disconnected(&mut self, uid: Uid) -> (r: Result<Vec<Notification>, MatchError>)
        requires
            old(self).wf(),
        ensures
            final(self).wf(),
            match r {
                Ok(notes) => {
                    &&& disconnect_error(old(self)@, uid) is None
                    &&& final(self)@ == disconnected(old(self)@, uid)
                    &&& notes@ == disconnect_notes(old(self)@, uid)
                },
                Err(e) => {
                    &&& disconnect_error(old(self)@, uid) == Some(e)
                    &&& final(self)@ == old(self)@
                },
            },
    {
        let player = match self.players.get(&uid) {
            Some(p) => *p,
            None => {
                return Err(MatchError::UnknownPlayer(uid));
            },
        };
        let mut notes: Vec<Notification> = Vec::new();
        notes.push(Notification::PlayerDisconnected(uid));
        match player.game {
            None => {
                // the player was the one waiting for an opponent
                self.hanging_player = None;
            },
            Some(game_uid) => {
                if self.hanging_player.is_some() && self.next_game_uid == u32::MAX {
                    return Err(MatchError::GameIdsExhausted);
                }
                let game = match self.games.get(&game_uid) {
                    Some(g) => *g,
                    // not reached: a player's game is always among the games
                    None => {
                        return Err(MatchError::UnknownPlayer(uid));
                    },
                };
                let winner_uid = if game.white_uid == uid {
                    game.black_uid
                } else {
                    game.white_uid
                };
                notes.push(self.game_end(game_uid, winner_uid, uid));
                self.games.remove(&game_uid);
                self.players.insert(winner_uid, Player { uid: winner_uid, game: None });
                self.destroy_player(uid);
                assert(game == old(self)@.games[game_uid] && game.has(uid));
                assert(self@.players =~= game_dropped(old(self)@, uid, game_uid).players);
                assert(self@.games =~= game_dropped(old(self)@, uid, game_uid).games);
                let mut paired = self.matchmake(winner_uid);
                notes.append(&mut paired);
                proof {
                    lemma_disconnected_wf(old(self)@, uid);
                }
                assert(notes@ =~= disconnect_notes(old(self)@, uid));
                return Ok(notes);
            },
        }
        self.destroy_player(uid);
        proof {
            lemma_disconnected_wf(old(self)@, uid);
        }
        assert(self@.players =~= disconnected(old(self)@, uid).players);
        assert(notes@ =~= disconnect_notes(old(self)@, uid));
        Ok(notes)
    }

    fn destroy_player(&mut self, uid: Uid)
        ensures
            final(self)@ == (Lobby { players: old(self)@.players.remove(uid), ..old(self)@ }),
    {
        self.players.remove(&uid);
    }

    fn game_end(&self, game_uid: Uid, uid_win: Uid, uid_lose: Uid) -> (r: Notification)
        ensures
            r == Notification::GameEnded(game_uid, uid_win, uid_lose),
    {
        Notification::GameEnded(game_uid, uid_win, uid_lose)
    }

    /// Handles one event of the connection registry: exactly one transition,
    /// or a refusal that leaves the state unchanged.
    pub fn handle_event(&mut self, event: EventType) -> (r: Result<Vec<Notification>, MatchError>)
        requires
            old(self).wf(),
        ensures
            final(self).wf(),
            final(self)@ == step(old(self)@, event),
            match r {
                Ok(notes) => event_error(old(self)@, event) is None && notes@ == event_notes(
                    old(self)@,
                    event,
                ),
                Err(e) => event_error(old(self)@, event) == Some(e),
            },
    {
        match event {
            EventType::PlayerConnect(uid) => self.on_new_player_connected(uid),
            EventType::PlayerDisconnect(uid) => self.on_player_disconnected(uid),
            EventType::PlayerSay(uid, message) => {
                let note = self.on_player_says(uid, message)?;
                let mut notes: Vec<Notification> = Vec::new();
                notes.push(note);
                assert(notes@ =~= event_notes(old(self)@, event));
                Ok(notes)
            },
            EventType::PlayerPlay(uid, x1, y1, x2, y2) => {
                let note = self.on_player_plays(uid, x1, y1, x2, y2)?;
                let mut notes: Vec<Notification> = Vec::new();
                notes.push(note);
                assert(notes@ =~= event_notes(old(self)@, event));
                Ok(notes)
            },
        }
    }

    /// The player waiting for an opponent, if any.
    pub fn hanging_player(&self) -> (r: Option<Uid>)
        ensures
            r == self@.waiting,
    {
        self.hanging_player
    }

    /// The record of a known player.
    pub fn player(&self, uid: Uid) -> (r: Option<Player>)
        ensures
            r == if self@.players.contains_key(uid) {
                Some(self@.players[uid])
            } else {
                None
            },
    {
        match self.players.get(&uid) {
            Some(p) => Some(*p),
            None => None,
        }
    }

    /// The game in progress with identifier `game_uid`, if any.
    pub fn game(&self, game_uid: Uid) -> (r: Option<Game>)
        ensures
            r == if self@.games.contains_key(game_uid) {
                Some(self@.games[game_uid])
            } else {
                None
            },
    {
        match self.games.get(&game_uid) {
            Some(g) => Some(*g),
            None => None,
        }
    }

    /// The number of known players.
    pub fn player_count(&self) -> (r: usize)
        ensures
            r == self@.players.len(),
    {
        self.players.len()
    }

    /// The number of games in progress.
    pub fn game_count(&self) -> (r: usize)
        ensures
            r == self@.games.len(),
    {
        self.games.len()
    }

    /// Places `uid` into the waiting slot, or pairs it with the player there.
    fn matchmake(&mut self, uid: Uid) -> (r: Vec<Notification>)
        requires
            old(self)@.can_pair(),
        ensures
            final(self)@ == matchmade(old(self)@, uid),
            r@ == pairing_notes(old(self)@, uid),
    {
        match self.hanging_player {
            None => {
                self.hanging_player = Some(uid);
                let r: Vec<Notification> = Vec::new();
                assert(r@ =~= pairing_notes(old(self)@, uid));
                r
            },
            Some(hanging_player) => {
                let game = self.create_game(hanging_player, uid);
                self.hanging_player = None;
                let mut r: Vec<Notification> = Vec::new();
                r.push(Notification::GameCreated(game.uid, game.white_uid, game.black_uid));
                self.games.insert(game.uid, game);
                assert(r@ =~= pairing_notes(old(self)@, uid));
                r
            },
        }
    }
}

} // verus!
