use ws_gateway::analysis::OpeningDb;
use ws_gateway::dispatch::{startup_effects, App, CloseReason, Effect};
use ws_gateway::ipc::LilaOut;
use ws_gateway::model::{Endpoint, Sri, UserId};

fn publishes(effects: &[Effect]) -> Vec<String> {
    let mut out = Vec::new();
    for e in effects {
        if let Effect::Publish { line } = e {
            out.push(line.clone());
        }
    }
    out
}

fn sends(effects: &[Effect]) -> Vec<(u64, String)> {
    let mut out = Vec::new();
    for e in effects {
        if let Effect::Send { token, text } = e {
            out.push((*token, text.clone()));
        }
    }
    out
}

fn open_socket(app: &mut App, sid: u64, token: u64, endpoint: Endpoint, requested: bool) {
    let sri = Sri::new(&format!("sri{}", sid)).unwrap();
    app.connect_socket(sid, token, endpoint, sri, None, requested);
}

#[test]
fn disconnect_all_is_published_first() {
    let effects = startup_effects();
    assert_eq!(effects.len(), 1);
    match &effects[0] {
        Effect::Publish { line } => assert_eq!(line.as_str(), "disconnect/all"),
        _ => panic!("expected a publish"),
    }
}

#[test]
fn authenticated_ping_reports_lag() {
    let mut app = App::new(40);
    let db = OpeningDb::new();
    open_socket(&mut app, 1, 101, Endpoint::Site, true);
    let alice = UserId::new("Alice").unwrap();
    assert_eq!(alice.as_str(), "alice");
    let effects = app.set_user(1, Some(alice));
    assert_eq!(publishes(&effects), vec![String::from("connect alice")]);

    let effects = app.on_message(1, None, "{\"t\":\"p\",\"l\":37}", 0, &db);
    assert_eq!(publishes(&effects), vec![String::from("lag alice 37")]);
    assert_eq!(sends(&effects), vec![(101, String::from("0"))]);
}

#[test]
fn second_socket_of_a_user_publishes_nothing() {
    let mut app = App::new(40);
    open_socket(&mut app, 1, 101, Endpoint::Site, true);
    open_socket(&mut app, 2, 102, Endpoint::Site, true);
    let effects = app.set_user(1, Some(UserId::new("bob").unwrap()));
    assert_eq!(publishes(&effects), vec![String::from("connect bob")]);
    let effects = app.set_user(2, Some(UserId::new("bob").unwrap()));
    assert!(effects.is_empty());

    // the first close keeps the user; the second one disconnects them
    let effects = app.on_close(1);
    assert!(publishes(&effects).is_empty());
    let effects = app.on_close(2);
    assert_eq!(publishes(&effects), vec![String::from("disconnect bob")]);
}

#[test]
fn game_watch_fan_out() {
    let mut app = App::new(40);
    let db = OpeningDb::new();
    open_socket(&mut app, 1, 101, Endpoint::Site, false);
    open_socket(&mut app, 2, 102, Endpoint::Site, false);

    let e1 = app.on_message(1, None, "{\"t\":\"startWatching\",\"d\":\"abcdefgh\"}", 0, &db);
    assert_eq!(publishes(&e1), vec![String::from("watch abcdefgh")]);
    let e2 = app.on_message(2, None, "{\"t\":\"startWatching\",\"d\":\"abcdefgh\"}", 0, &db);
    assert!(publishes(&e2).is_empty(), "only the first watcher publishes");

    let mv = LilaOut::parse("move abcdefgh e2e4 rnbqkbnr/pppppppp/8/8/4P3/8/PPPP1PPP/RNBQKBNR")
        .expect("move line parses");
    let effects = app.received(&mv);
    let fen_frame = String::from(
        "{\"t\":\"fen\",\"d\":{\"id\":\"abcdefgh\",\"fen\":\"rnbqkbnr/pppppppp/8/8/4P3/8/PPPP1PPP/RNBQKBNR\",\"lm\":\"e2e4\"}}",
    );
    let mut got = sends(&effects);
    got.sort();
    assert_eq!(got, vec![(101, fen_frame.clone()), (102, fen_frame.clone())]);

    // a third watcher gets the cached state at once, and no second watch goes out
    open_socket(&mut app, 3, 103, Endpoint::Site, false);
    let e3 = app.on_message(3, None, "{\"t\":\"startWatching\",\"d\":\"abcdefgh\"}", 0, &db);
    assert!(publishes(&e3).is_empty());
    assert_eq!(sends(&e3), vec![(103, fen_frame)]);
}

#[test]
fn watching_twice_is_a_no_op() {
    let mut app = App::new(40);
    let db = OpeningDb::new();
    open_socket(&mut app, 1, 101, Endpoint::Site, false);
    let e1 = app.on_message(1, None, "{\"t\":\"startWatching\",\"d\":\"abcdefgh\"}", 0, &db);
    assert_eq!(publishes(&e1).len(), 1);
    let e2 = app.on_message(1, None, "{\"t\":\"startWatching\",\"d\":\"abcdefgh\"}", 0, &db);
    assert!(e2.is_empty(), "no duplicate watch, no duplicate frames");
}

#[test]
fn ping_replies_once() {
    let mut app = App::new(40);
    let db = OpeningDb::new();
    open_socket(&mut app, 1, 101, Endpoint::Site, false);
    let effects = app.on_message(1, None, "null", 0, &db);
    assert_eq!(sends(&effects), vec![(101, String::from("0"))]);
    let effects = app.on_message(1, None, "{\"t\":\"p\"}", 0, &db);
    assert_eq!(sends(&effects), vec![(101, String::from("0"))]);
}

#[test]
fn lobby_ping_carries_the_counters() {
    let mut app = App::new(40);
    let db = OpeningDb::new();
    open_socket(&mut app, 1, 101, Endpoint::Lobby, false);
    app.received(&LilaOut::RoundNb(7));
    app.received(&LilaOut::MemberNb(1234));
    let effects = app.on_message(1, None, "null", 0, &db);
    assert_eq!(
        sends(&effects),
        vec![(101, String::from("{\"t\":\"n\",\"r\":7,\"d\":1234}"))]
    );
    // the JSON ping form gets the same counters reply on the lobby endpoint
    let effects = app.on_message(1, None, "{\"t\":\"p\"}", 0, &db);
    assert_eq!(
        sends(&effects),
        vec![(101, String::from("{\"t\":\"n\",\"r\":7,\"d\":1234}"))]
    );
}

#[test]
fn duplicate_users_fan_out_once() {
    let mut app = App::new(40);
    open_socket(&mut app, 1, 101, Endpoint::Site, true);
    app.set_user(1, Some(UserId::new("iris").unwrap()));
    let msg = LilaOut::parse("tell/users iris,iris {\"z\":9}").unwrap();
    let effects = app.received(&msg);
    assert_eq!(sends(&effects), vec![(101, String::from("{\"z\":9}"))]);
}

#[test]
fn oversize_frame_closes_with_size() {
    let mut app = App::new(40);
    let db = OpeningDb::new();
    open_socket(&mut app, 1, 101, Endpoint::Site, false);
    let big = "x".repeat(2000);
    let effects = app.on_message(1, None, &big, 0, &db);
    assert_eq!(effects.len(), 1);
    assert!(matches!(
        &effects[0],
        Effect::Close { token: 101, reason: CloseReason::Size }
    ));
}

#[test]
fn oversize_is_counted_in_bytes() {
    let mut app = App::new(40);
    let db = OpeningDb::new();
    open_socket(&mut app, 1, 101, Endpoint::Site, false);
    // six hundred two-byte characters: over the byte bound
    let frame = "\u{e9}".repeat(600);
    let effects = app.on_message(1, None, &frame, 0, &db);
    assert!(matches!(
        &effects[0],
        Effect::Close { token: 101, reason: CloseReason::Size }
    ));
}

#[test]
fn unknown_tag_closes_with_protocol() {
    let mut app = App::new(40);
    let db = OpeningDb::new();
    open_socket(&mut app, 1, 101, Endpoint::Site, false);
    let effects = app.on_message(1, None, "{\"t\":\"nonsense\"}", 0, &db);
    assert!(matches!(
        &effects[0],
        Effect::Close { token: 101, reason: CloseReason::Protocol }
    ));
    let effects = app.on_message(1, None, "not json", 0, &db);
    assert!(matches!(
        &effects[0],
        Effect::Close { token: 101, reason: CloseReason::Protocol }
    ));
}

#[test]
fn rate_limit_drops_the_burst_tail() {
    let mut app = App::new(40);
    let db = OpeningDb::new();
    open_socket(&mut app, 1, 101, Endpoint::Site, false);
    let mut handled = 0;
    for _ in 0..100 {
        let effects = app.on_message(1, Some("10.0.0.1"), "null", 0, &db);
        if !effects.is_empty() {
            handled += 1;
        }
    }
    assert_eq!(handled, 40);
    // the socket stays open: another address still gets replies
    let effects = app.on_message(1, Some("10.0.0.2"), "null", 0, &db);
    assert_eq!(sends(&effects).len(), 1);
}

#[test]
fn tell_sri_reaches_each_session_once() {
    let mut app = App::new(40);
    app.connect_socket(1, 101, Endpoint::Site, Sri::new("s1").unwrap(), None, false);
    app.connect_socket(2, 102, Endpoint::Site, Sri::new("s2").unwrap(), None, false);
    let msg = LilaOut::parse("tell/sri s1 {\"x\":1}").unwrap();
    let effects = app.received(&msg);
    assert_eq!(sends(&effects), vec![(101, String::from("{\"x\":1}"))]);
}

#[test]
fn tell_users_reaches_authenticated_sockets() {
    let mut app = App::new(40);
    open_socket(&mut app, 1, 101, Endpoint::Site, true);
    open_socket(&mut app, 2, 102, Endpoint::Site, true);
    app.set_user(1, Some(UserId::new("carol").unwrap()));
    let msg = LilaOut::parse("tell/user carol {\"hello\":true}").unwrap();
    let effects = app.received(&msg);
    assert_eq!(sends(&effects), vec![(101, String::from("{\"hello\":true}"))]);
}

#[test]
fn disconnect_user_closes_their_sockets() {
    let mut app = App::new(40);
    open_socket(&mut app, 1, 101, Endpoint::Site, true);
    app.set_user(1, Some(UserId::new("dave").unwrap()));
    let msg = LilaOut::parse("disconnect/user dave").unwrap();
    let effects = app.received(&msg);
    assert_eq!(effects.len(), 1);
    assert!(matches!(
        &effects[0],
        Effect::Close { token: 101, reason: CloseReason::Normal }
    ));
}

#[test]
fn mlat_updates_watchers_and_reports_connections() {
    let mut app = App::new(40);
    let db = OpeningDb::new();
    open_socket(&mut app, 1, 101, Endpoint::Site, false);
    // subscribing sends the current reading at once
    let effects = app.on_message(1, None, "{\"t\":\"moveLat\",\"d\":true}", 0, &db);
    assert_eq!(sends(&effects).len(), 1);
    // a backend latency tick fans out and reports the connection count
    let effects = app.received(&LilaOut::MoveLatency(42));
    let pubs = publishes(&effects);
    assert_eq!(pubs, vec![String::from("connections 1")]);
    assert_eq!(
        sends(&effects),
        vec![(101, String::from("{\"t\":\"mlat\",\"d\":42}"))]
    );
    // unsubscribing stops the updates
    let effects = app.on_message(1, None, "{\"t\":\"moveLat\",\"d\":false}", 0, &db);
    assert!(effects.is_empty());
    let effects = app.received(&LilaOut::MoveLatency(43));
    assert!(sends(&effects).is_empty());
}

#[test]
fn deferred_notified_flushes_after_login() {
    let mut app = App::new(40);
    let db = OpeningDb::new();
    open_socket(&mut app, 1, 101, Endpoint::Site, true);
    // sent while the session lookup is outstanding: deferred
    let effects = app.on_message(1, None, "{\"t\":\"notified\"}", 0, &db);
    assert!(effects.is_empty());
    // the lookup finishing flushes it
    let effects = app.set_user(1, Some(UserId::new("erin").unwrap()));
    assert_eq!(
        publishes(&effects),
        vec![String::from("connect erin"), String::from("notified erin")]
    );
}

#[test]
fn eval_frames_are_forwarded_verbatim() {
    let mut app = App::new(40);
    let db = OpeningDb::new();
    app.connect_socket(1, 101, Endpoint::Site, Sri::new("mysri").unwrap(), None, false);
    let raw = "{\"t\":\"evalGet\",\"d\":{\"fen\":\"x\"}}";
    let effects = app.on_message(1, None, raw, 0, &db);
    assert_eq!(
        publishes(&effects),
        vec![format!("tell/sri mysri - {}", raw)]
    );
}

#[test]
fn close_unwatches_and_disconnects() {
    let mut app = App::new(40);
    let db = OpeningDb::new();
    open_socket(&mut app, 1, 101, Endpoint::Site, true);
    app.set_user(1, Some(UserId::new("faye").unwrap()));
    app.on_message(1, None, "{\"t\":\"startWatching\",\"d\":\"abcdefgh\"}", 0, &db);
    let effects = app.on_close(1);
    let pubs = publishes(&effects);
    assert!(pubs.contains(&String::from("disconnect faye")));
    assert!(pubs.contains(&String::from("unwatch abcdefgh")));
    assert_eq!(pubs.len(), 2);
}

#[test]
fn ana_move_replies_with_a_node() {
    let mut app = App::new(40);
    let db = OpeningDb::new();
    open_socket(&mut app, 1, 101, Endpoint::Site, false);
    let frame = "{\"t\":\"anaMove\",\"d\":{\"orig\":\"e2\",\"dest\":\"e4\",\
                 \"fen\":\"rnbqkbnr/pppppppp/8/8/8/8/PPPPPPPP/RNBQKBNR w KQkq - 0 1\",\
                 \"path\":\"\"}}";
    let effects = app.on_message(1, None, frame, 0, &db);
    let got = sends(&effects);
    assert_eq!(got.len(), 1);
    assert!(got[0].1.starts_with("{\"t\":\"node\""));
    assert!(got[0].1.contains("\"uci\":\"e2e4\""));
    assert!(got[0].1.contains("\"san\":\"e4\""));
    assert!(got[0].1.contains("\"ply\":1"));

    // an illegal move answers with the failure marker
    let bad = "{\"t\":\"anaMove\",\"d\":{\"orig\":\"e2\",\"dest\":\"e5\",\
               \"fen\":\"rnbqkbnr/pppppppp/8/8/8/8/PPPPPPPP/RNBQKBNR w KQkq - 0 1\",\
               \"path\":\"\"}}";
    let effects = app.on_message(1, None, bad, 0, &db);
    assert_eq!(sends(&effects), vec![(101, String::from("{\"t\":\"stepFailure\"}"))]);
}

#[test]
fn authenticated_eval_carries_the_user() {
    let mut app = App::new(40);
    let db = OpeningDb::new();
    app.connect_socket(1, 101, Endpoint::Site, Sri::new("sr").unwrap(), None, true);
    app.set_user(1, Some(UserId::new("gus").unwrap()));
    let raw = "{\"t\":\"evalPut\",\"d\":1}";
    let effects = app.on_message(1, None, raw, 0, &db);
    assert_eq!(publishes(&effects), vec![format!("tell/sri sr gus {}", raw)]);
}

#[test]
fn negative_lag_is_not_reported() {
    let mut app = App::new(40);
    let db = OpeningDb::new();
    open_socket(&mut app, 1, 101, Endpoint::Site, true);
    app.set_user(1, Some(UserId::new("hal").unwrap()));
    let effects = app.on_message(1, None, "{\"t\":\"p\",\"l\":-5}", 0, &db);
    assert!(publishes(&effects).is_empty());
    assert_eq!(sends(&effects), vec![(101, String::from("0"))]);
}
