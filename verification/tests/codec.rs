use ws_gateway::handshake::{parse_handshake, session_id_of};
use ws_gateway::ipc::{LilaIn, LilaOut};
use ws_gateway::json::{parse_json, Json};
use ws_gateway::limiter::RateLimiter;
use ws_gateway::model::{Endpoint, Flag, GameId, Sri, UserId};

#[test]
fn game_id_shape() {
    assert!(GameId::new("abcd1234").is_ok());
    assert!(GameId::new("abc").is_err());
    assert!(GameId::new("abcd123!").is_err());
    assert!(GameId::new("abcd12345").is_err());
}

#[test]
fn user_id_normalizes_case() {
    let u = UserId::new("Hans_Moleman-1").unwrap();
    assert_eq!(u.as_str(), "hans_moleman-1");
    assert!(UserId::new("").is_err());
    assert!(UserId::new("thirtyonecharacters31characters").is_err());
    assert!(UserId::new("bad space").is_err());
}

#[test]
fn sri_shape() {
    assert!(Sri::new("abcDEF123-_").is_ok());
    assert!(Sri::new("has space").is_err());
    assert!(Sri::new("thirteenchars").is_err());
}

#[test]
fn flags_and_endpoints_parse() {
    assert!(matches!(Flag::from_str("simul"), Ok(Flag::Simul)));
    assert!(matches!(Flag::from_str("tournament"), Ok(Flag::Tournament)));
    assert!(Flag::from_str("other").is_err());
    assert!(matches!(Endpoint::from_str("/socket/v4"), Ok(Endpoint::Site)));
    assert!(matches!(
        Endpoint::from_str("/lobby/socket/v4"),
        Ok(Endpoint::Lobby)
    ));
    assert!(Endpoint::from_str("/socket/v5").is_err());
}

#[test]
fn backend_lines_parse() {
    match LilaOut::parse("move abcd1234 e2e4 rnbq kbnr w KQkq").unwrap() {
        LilaOut::Move { game, last_uci, fen } => {
            assert_eq!(game.as_str(), "abcd1234");
            assert_eq!(last_uci.as_str(), "e2e4");
            assert_eq!(fen.as_str(), "rnbq kbnr w KQkq");
        }
        _ => panic!("expected a move"),
    }
    match LilaOut::parse("tell/users Alice,bob {\"x\":1}").unwrap() {
        LilaOut::TellUsers { users, payload } => {
            assert_eq!(users.len(), 2);
            assert_eq!(users[0].as_str(), "alice");
            assert_eq!(users[1].as_str(), "bob");
            assert_eq!(payload.as_str(), "{\"x\":1}");
        }
        _ => panic!("expected tell/users"),
    }
    match LilaOut::parse("tell/flag simul {\"y\":2}").unwrap() {
        LilaOut::TellFlag { flag, payload } => {
            assert!(matches!(flag, Flag::Simul));
            assert_eq!(payload.as_str(), "{\"y\":2}");
        }
        _ => panic!("expected tell/flag"),
    }
    match LilaOut::parse("mlat 123").unwrap() {
        LilaOut::MoveLatency(n) => assert_eq!(n, 123),
        _ => panic!("expected mlat"),
    }
    assert!(LilaOut::parse("move short e2e4 fen").is_err());
    assert!(LilaOut::parse("mlat notanumber").is_err());
    assert!(LilaOut::parse("unknowntag x").is_err());
    assert!(LilaOut::parse("tell/all").is_err());
}

#[test]
fn backend_lines_format() {
    assert_eq!(
        LilaIn::Connect(UserId::new("zoe").unwrap()).to_line().as_str(),
        "connect zoe"
    );
    assert_eq!(
        LilaIn::Watch(GameId::new("abcd1234").unwrap()).to_line().as_str(),
        "watch abcd1234"
    );
    assert_eq!(LilaIn::Connections(17).to_line().as_str(), "connections 17");
    assert_eq!(
        LilaIn::Lag(UserId::new("zoe").unwrap(), 250).to_line().as_str(),
        "lag zoe 250"
    );
    assert_eq!(
        LilaIn::Lags(vec![
            (UserId::new("a").unwrap(), 1),
            (UserId::new("b").unwrap(), 2),
        ])
        .to_line()
        .as_str(),
        "lags a:1,b:2,"
    );
    assert_eq!(
        LilaIn::TellSri(
            Sri::new("s1").unwrap(),
            None,
            String::from("{\"q\":0}")
        )
        .to_line()
        .as_str(),
        "tell/sri s1 - {\"q\":0}"
    );
}

#[test]
fn json_values_parse() {
    match parse_json("{\"a\":1,\"b\":[true,null,\"x\"]}").unwrap() {
        Json::Obj(_) => {}
        _ => panic!("expected an object"),
    }
    let j = parse_json("{\"t\":\"p\",\"l\":-3}").unwrap();
    match j.get("l") {
        Some(Json::Int(n)) => assert_eq!(*n, -3),
        _ => panic!("expected an int"),
    }
    let j = parse_json("{\"s\":\"a\\n\\u0041\\\"\"}").unwrap();
    match j.get("s") {
        Some(Json::Str(s)) => assert_eq!(s.as_str(), "a\nA\""),
        _ => panic!("expected a string"),
    }
    assert!(parse_json("{\"x\":1.5}").is_none(), "fractions are refused");
    assert!(parse_json("{\"x\":01}").is_none(), "leading zeros are refused");
    assert!(parse_json("{").is_none());
    assert!(parse_json("").is_none());
}

#[test]
fn handshake_parses_path_query_and_cookie() {
    let info = parse_handshake("/socket/v4?sri=abc123&flag=simul", None).unwrap();
    assert!(matches!(info.endpoint, Endpoint::Site));
    assert_eq!(info.sri.as_str(), "abc123");
    assert!(matches!(info.flag, Some(Flag::Simul)));
    assert!(info.session_id.is_none());

    let cookie = "other=1; lila2=prefix-sessionId=abc%20def&theme=dark";
    let info = parse_handshake("/lobby/socket/v4?sri=zzz", Some(cookie)).unwrap();
    assert!(matches!(info.endpoint, Endpoint::Lobby));
    assert_eq!(info.session_id.as_deref(), Some("abc def"));

    assert!(parse_handshake("/socket/v4", None).is_err(), "query required");
    assert!(
        parse_handshake("/socket/v4?flag=simul", None).is_err(),
        "sri required"
    );
    assert!(
        parse_handshake("/socket/v4?sri=abc&flag=woops", None).is_err(),
        "unknown flag"
    );
    assert!(parse_handshake("/elsewhere?sri=abc", None).is_err());
}

#[test]
fn session_cookie_without_prefix() {
    assert_eq!(
        session_id_of("lila2=sessionId=plain123").as_deref(),
        Some("plain123")
    );
    assert!(session_id_of("lila2=other=1").is_none());
    assert!(session_id_of("unrelated=x").is_none());
}

#[test]
fn limiter_grants_exactly_the_credits() {
    let mut limiter = RateLimiter::new(40);
    let mut allowed = 0;
    for _ in 0..100 {
        if limiter.check("1.2.3.4", 0) {
            allowed += 1;
        }
    }
    assert_eq!(allowed, 40);
    // an idle minute clears the key
    limiter.cleanup(100_000);
    assert!(limiter.check("1.2.3.4", 100_000));
}

#[test]
fn mlat_accepts_a_plus_sign() {
    match LilaOut::parse("mlat +7").unwrap() {
        LilaOut::MoveLatency(n) => assert_eq!(n, 7),
        _ => panic!("expected mlat"),
    }
}

#[test]
fn user_id_length_boundary() {
    assert!(UserId::new("abcdefghijklmnopqrstuvwxyz1234").is_ok());
    assert!(UserId::new("abcdefghijklmnopqrstuvwxyz12345").is_err());
}
