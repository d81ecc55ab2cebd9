use ws_gateway::analysis::{
    piotr, uci_char_pair, uci_string, GetDests, GetOpening, OpeningDb, PlayMove, PlayStep,
    PromotableRole, StepFailure, Uci, DroppableRole,
};

#[test]
fn test_piotr() {
    assert_eq!(piotr(0), 'a'); // a1
    assert_eq!(piotr(25), 'z'); // b4
    assert_eq!(piotr(26), 'A'); // c4
    assert_eq!(piotr(51), 'Z'); // d7
    assert_eq!(piotr(52), '0'); // e7
    assert_eq!(piotr(61), '9'); // f8
    assert_eq!(piotr(62), '!'); // g8
    assert_eq!(piotr(63), '?'); // h8
}

#[test]
fn test_uci_char_pair() {
    // regular moves
    let m = |from: u8, to: u8| Uci::Normal { from, to, promotion: None };
    assert_eq!(&uci_char_pair(&m(0, 1)), "#$"); // a1b1
    assert_eq!(&uci_char_pair(&m(0, 8)), "#+"); // a1a2
    assert_eq!(&uci_char_pair(&m(55, 63)), "Zb"); // h7h8

    // promotions
    let p = |from: u8, to: u8, r: PromotableRole| Uci::Normal { from, to, promotion: Some(r) };
    assert_eq!(&uci_char_pair(&p(49, 57, PromotableRole::Queen)), "Td"); // b7b8q
    assert_eq!(&uci_char_pair(&p(49, 58, PromotableRole::Queen)), "Te"); // b7c8q
    assert_eq!(&uci_char_pair(&p(49, 58, PromotableRole::Knight)), "T}"); // b7c8n

    // drops
    assert_eq!(
        &uci_char_pair(&Uci::Put { to: 0, role: DroppableRole::Pawn }),
        "#\u{8f}"
    );
    assert_eq!(
        &uci_char_pair(&Uci::Put { to: 63, role: DroppableRole::Queen }),
        "b\u{8b}"
    );
}

#[test]
fn uci_text_forms() {
    assert_eq!(
        &uci_string(&Uci::Normal { from: 12, to: 28, promotion: None }),
        "e2e4"
    );
    assert_eq!(
        &uci_string(&Uci::Normal { from: 49, to: 58, promotion: Some(PromotableRole::Queen) }),
        "b7c8q"
    );
    assert_eq!(
        &uci_string(&Uci::Put { to: 28, role: DroppableRole::Pawn }),
        "P@e4"
    );
    assert_eq!(&uci_string(&Uci::Null), "0000");
}

#[test]
fn promotion_step_encodes_move() {
    // a white pawn on b7 captures on c8 and promotes to a queen
    let db = OpeningDb::new();
    let req = PlayMove {
        orig: 49,
        dest: 58,
        variant: None,
        fen: String::from("2r4k/1P6/8/8/8/8/8/7K w - - 0 1"),
        path: String::from("xy"),
        promotion: Some(PromotableRole::Queen),
        chapter_id: None,
    };
    let node = PlayStep::from_move(req).respond(&db).expect("legal move");
    assert_eq!(node.node.id.as_str(), "Te");
    assert_eq!(node.node.uci.as_str(), "b7c8q");
    assert_eq!(node.path.as_str(), "xy");
    assert_eq!(node.node.ply, 1);
}

#[test]
fn illegal_move_is_a_step_failure() {
    let db = OpeningDb::new();
    let req = PlayMove {
        orig: 0,
        dest: 63,
        variant: None,
        fen: String::from("rnbqkbnr/pppppppp/8/8/8/8/PPPPPPPP/RNBQKBNR w KQkq - 0 1"),
        path: String::new(),
        promotion: None,
        chapter_id: None,
    };
    assert!(matches!(
        PlayStep::from_move(req).respond(&db),
        Err(StepFailure::IllegalMoveError)
    ));
}

#[test]
fn each_failure_stage_has_its_variant() {
    let db = OpeningDb::new();
    let step = |fen: &str| PlayMove {
        orig: 12,
        dest: 28,
        variant: None,
        fen: String::from(fen),
        path: String::new(),
        promotion: None,
        chapter_id: None,
    };
    assert!(matches!(
        PlayStep::from_move(step("not a fen")).respond(&db),
        Err(StepFailure::ParseFenError)
    ));
    // parses as a FEN but holds no kings: no legal position
    assert!(matches!(
        PlayStep::from_move(step("8/8/8/8/8/8/8/8 w - - 0 1")).respond(&db),
        Err(StepFailure::PositionError)
    ));
}

#[test]
fn bad_fen_is_a_dests_failure() {
    let db = OpeningDb::new();
    let req = GetDests {
        variant: None,
        fen: String::from("not a fen"),
        path: String::new(),
        chapter_id: None,
    };
    assert!(req.respond(&db).is_err());
}

#[test]
fn dests_of_starting_position() {
    let db = OpeningDb::new();
    let req = GetDests {
        variant: None,
        fen: String::from("rnbqkbnr/pppppppp/8/8/8/8/PPPPPPPP/RNBQKBNR w KQkq - 0 1"),
        path: String::from("p"),
        chapter_id: None,
    };
    let resp = req.respond(&db).expect("legal position");
    // 20 legal first moves: 16 pawn moves from 8 squares, 4 knight moves
    let groups: Vec<&str> = resp.dests.split(' ').collect();
    assert_eq!(groups.len(), 10);
    let total: usize = groups.iter().map(|g| g.len() - 1).sum();
    assert_eq!(total, 20);
    assert!(resp.drops.is_none());
    assert_eq!(resp.path.as_str(), "p");
}

#[test]
fn opening_lookup_uses_the_table() {
    let mut db = OpeningDb::new();
    db.add(
        String::from("rnbqkbnr/pppppppp/8/8/4P3/8/PPPP1PPP/RNBQKBNR b KQkq -"),
        String::from("B00"),
        String::from("King's Pawn"),
    );
    let req = GetOpening {
        variant: None,
        path: String::from("pp"),
        fen: String::from("rnbqkbnr/pppppppp/8/8/4P3/8/PPPP1PPP/RNBQKBNR b KQkq - 0 1"),
    };
    let resp = req.respond(&db).expect("known opening");
    assert_eq!(resp.opening.eco.as_str(), "B00");
    assert_eq!(resp.opening.name.as_str(), "King's Pawn");

    // an antichess position never reports an opening
    let req2 = GetOpening {
        variant: Some(ws_gateway::analysis::VariantKey::Antichess),
        path: String::new(),
        fen: String::from("rnbqkbnr/pppppppp/8/8/4P3/8/PPPP1PPP/RNBQKBNR b KQkq - 0 1"),
    };
    assert!(req2.respond(&db).is_none());
}
