use chess_server::event_type::EventType;
use chess_server::matchmaker::{Game, MatchError, MatchMaker, Notification, Player};

fn connect(m: &mut MatchMaker, uid: u32) -> Vec<Notification> {
    m.on_new_player_connected(uid).expect("connect accepted")
}

fn disconnect(m: &mut MatchMaker, uid: u32) -> Vec<Notification> {
    m.on_player_disconnected(uid).expect("disconnect accepted")
}

/// Every known player is either waiting or in a game that names it.
fn check_consistent(m: &MatchMaker, known: &[u32]) {
    assert_eq!(m.player_count(), known.len());
    let mut waiting = 0;
    for &uid in known {
        let p = m.player(uid).expect("known player");
        assert_eq!(p.uid, uid);
        match p.game {
            None => {
                assert_eq!(m.hanging_player(), Some(uid));
                waiting += 1;
            }
            Some(g) => {
                assert_ne!(m.hanging_player(), Some(uid));
                let game = m.game(g).expect("game exists");
                assert!(game.white_uid == uid || game.black_uid == uid);
            }
        }
    }
    assert!(waiting <= 1);
    assert_eq!(m.game_count() * 2 + waiting, known.len());
}

#[test]
fn first_player_waits() {
    let mut m = MatchMaker::new();
    assert_eq!(connect(&mut m, 7), vec![Notification::PlayerConnected(7)]);
    assert_eq!(m.hanging_player(), Some(7));
    assert_eq!(m.player(7), Some(Player { uid: 7, game: None }));
    assert_eq!(m.game_count(), 0);
}

#[test]
fn pairing_is_first_come_first_served() {
    let mut m = MatchMaker::new();
    assert_eq!(connect(&mut m, 10), vec![Notification::PlayerConnected(10)]);
    assert_eq!(
        connect(&mut m, 11),
        vec![Notification::PlayerConnected(11), Notification::GameCreated(0, 10, 11)]
    );
    assert_eq!(connect(&mut m, 12), vec![Notification::PlayerConnected(12)]);
    assert_eq!(
        connect(&mut m, 13),
        vec![Notification::PlayerConnected(13), Notification::GameCreated(1, 12, 13)]
    );
    assert_eq!(m.game(0), Some(Game { uid: 0, white_uid: 10, black_uid: 11 }));
    assert_eq!(m.game(1), Some(Game { uid: 1, white_uid: 12, black_uid: 13 }));
    assert_eq!(m.hanging_player(), None);
    check_consistent(&m, &[10, 11, 12, 13]);
}

#[test]
fn waiting_player_disconnect_clears_slot() {
    let mut m = MatchMaker::new();
    connect(&mut m, 1);
    connect(&mut m, 2);
    connect(&mut m, 3);
    assert_eq!(m.hanging_player(), Some(3));
    let notes = disconnect(&mut m, 3);
    assert_eq!(notes, vec![Notification::PlayerDisconnected(3)]);
    assert!(!notes.iter().any(|n| matches!(n, Notification::GameEnded(..))));
    assert_eq!(m.hanging_player(), None);
    assert_eq!(m.player(3), None);
    assert_eq!(m.game(0), Some(Game { uid: 0, white_uid: 1, black_uid: 2 }));
    check_consistent(&m, &[1, 2]);
}

#[test]
fn in_game_disconnect_frees_opponent() {
    let mut m = MatchMaker::new();
    connect(&mut m, 1);
    connect(&mut m, 2);
    connect(&mut m, 3);
    connect(&mut m, 4);
    assert_eq!(
        disconnect(&mut m, 4),
        vec![Notification::PlayerDisconnected(4), Notification::GameEnded(1, 3, 4)]
    );
    assert_eq!(m.game(1), None);
    assert_eq!(m.game(0), Some(Game { uid: 0, white_uid: 1, black_uid: 2 }));
    assert_eq!(m.hanging_player(), Some(3));
    assert_eq!(m.player(3), Some(Player { uid: 3, game: None }));
    assert_eq!(
        connect(&mut m, 5),
        vec![Notification::PlayerConnected(5), Notification::GameCreated(2, 3, 5)]
    );
    check_consistent(&m, &[1, 2, 3, 5]);
}

#[test]
fn freed_opponent_pairs_with_waiting_player() {
    let mut m = MatchMaker::new();
    connect(&mut m, 1);
    connect(&mut m, 2);
    connect(&mut m, 3);
    assert_eq!(
        disconnect(&mut m, 2),
        vec![
            Notification::PlayerDisconnected(2),
            Notification::GameEnded(0, 1, 2),
            Notification::GameCreated(1, 3, 1),
        ]
    );
    assert_eq!(m.hanging_player(), None);
    assert_eq!(m.game(1), Some(Game { uid: 1, white_uid: 3, black_uid: 1 }));
    check_consistent(&m, &[1, 3]);
}

#[test]
fn connect_connect_disconnect_leaves_no_trace() {
    let mut m = MatchMaker::new();
    connect(&mut m, 100);
    connect(&mut m, 200);
    disconnect(&mut m, 100);
    assert_eq!(m.hanging_player(), Some(200));
    assert_eq!(m.player(200), Some(Player { uid: 200, game: None }));
    assert_eq!(m.player(100), None);
    assert_eq!(m.game(0), None);
    assert_eq!(m.game_count(), 0);
    assert_eq!(m.player_count(), 1);
}

#[test]
fn scenario_pair_leave_and_repair() {
    let mut m = MatchMaker::new();
    connect(&mut m, 1);
    assert_eq!(
        connect(&mut m, 2),
        vec![Notification::PlayerConnected(2), Notification::GameCreated(0, 1, 2)]
    );
    assert_eq!(m.game(0), Some(Game { uid: 0, white_uid: 1, black_uid: 2 }));
    assert_eq!(m.hanging_player(), None);
    assert_eq!(
        disconnect(&mut m, 1),
        vec![Notification::PlayerDisconnected(1), Notification::GameEnded(0, 2, 1)]
    );
    assert_eq!(m.game(0), None);
    assert_eq!(m.player(1), None);
    assert_eq!(m.hanging_player(), Some(2));
    assert_eq!(
        connect(&mut m, 3),
        vec![Notification::PlayerConnected(3), Notification::GameCreated(1, 2, 3)]
    );
    assert_eq!(m.game(1), Some(Game { uid: 1, white_uid: 2, black_uid: 3 }));
}

#[test]
fn every_player_waits_or_plays_along_a_run() {
    let mut m = MatchMaker::new();
    let events = [
        EventType::PlayerConnect(0),
        EventType::PlayerConnect(1),
        EventType::PlayerConnect(2),
        EventType::PlayerDisconnect(0),
        EventType::PlayerConnect(3),
        EventType::PlayerConnect(4),
        EventType::PlayerDisconnect(2),
        EventType::PlayerDisconnect(4),
        EventType::PlayerConnect(5),
        EventType::PlayerDisconnect(1),
        EventType::PlayerDisconnect(3),
    ];
    let mut known: Vec<u32> = Vec::new();
    for e in events.iter() {
        m.handle_event(e.clone()).expect("event accepted");
        match e {
            EventType::PlayerConnect(u) => known.push(*u),
            EventType::PlayerDisconnect(u) => known.retain(|k| k != u),
            _ => {}
        }
        check_consistent(&m, &known);
    }
    assert_eq!(known, vec![5]);
    assert_eq!(m.hanging_player(), Some(5));
}

#[test]
fn repeated_connect_is_refused() {
    let mut m = MatchMaker::new();
    connect(&mut m, 4);
    assert_eq!(m.on_new_player_connected(4), Err(MatchError::AlreadyConnected(4)));
    assert_eq!(m.hanging_player(), Some(4));
    assert_eq!(m.game_count(), 0);
    assert_eq!(m.player_count(), 1);
}

#[test]
fn unknown_player_is_refused() {
    let mut m = MatchMaker::new();
    connect(&mut m, 1);
    assert_eq!(m.on_player_disconnected(9), Err(MatchError::UnknownPlayer(9)));
    assert_eq!(m.on_player_says(9, vec![1]), Err(MatchError::UnknownPlayer(9)));
    assert_eq!(m.on_player_plays(9, 0, 1, 2, 3), Err(MatchError::UnknownPlayer(9)));
    assert_eq!(
        m.handle_event(EventType::PlayerDisconnect(9)),
        Err(MatchError::UnknownPlayer(9))
    );
    assert_eq!(m.hanging_player(), Some(1));
    assert_eq!(m.player_count(), 1);
}

#[test]
fn say_and_play_pass_through() {
    let mut m = MatchMaker::new();
    connect(&mut m, 1);
    connect(&mut m, 2);
    assert_eq!(
        m.handle_event(EventType::PlayerSay(1, b"hi".to_vec())),
        Ok(vec![Notification::PlayerSaid(1, b"hi".to_vec())])
    );
    assert_eq!(
        m.handle_event(EventType::PlayerPlay(2, 4, 1, 4, 3)),
        Ok(vec![Notification::PlayerPlayed(2, 4, 1, 4, 3)])
    );
    assert_eq!(m.game(0), Some(Game { uid: 0, white_uid: 1, black_uid: 2 }));
    check_consistent(&m, &[1, 2]);
}

#[test]
fn dispatch_matches_direct_handlers() {
    let mut a = MatchMaker::new();
    let mut b = MatchMaker::new();
    for uid in [3u32, 8, 5] {
        assert_eq!(a.handle_event(EventType::PlayerConnect(uid)), b.on_new_player_connected(uid));
    }
    assert_eq!(a.handle_event(EventType::PlayerDisconnect(8)), b.on_player_disconnected(8));
    assert_eq!(a.hanging_player(), b.hanging_player());
    assert_eq!(a.game(1), b.game(1));
    assert_eq!(a.game(1), Some(Game { uid: 1, white_uid: 5, black_uid: 3 }));
}
