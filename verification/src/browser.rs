//! The browser side of the gateway: classifying inbound JSON frames into
//! messages, and writing the outbound frames. A frame that is not a JSON
//! object with a known tag, or whose payload has the wrong shape, is a
//! protocol violation that closes the socket.
use vstd::prelude::*;

use crate::analysis::{
    spec_parse_square, DroppableRole, GetDests, GetOpening, Node, OpeningResponse, PlayDrop,
    PlayMove, PromotableRole, VariantKey, Branch, CrazyPocket, DestsResponse,
};
use crate::ipc::split_on;
use crate::json::{json_escaped, json_get, Json, JsonView, append_json_escaped};
use crate::model::{valid_game_id, GameId};
use crate::text::{append_dec, spec_dec};

verus! {

/// Messages received from browser clients.
pub enum SocketOut {
    Ping { lag: Option<i64> },
    Notified,
    StartWatching { games: Vec<GameId> },
    MoveLatency { watch: bool },
    FollowingOnlines,
    Opening { req: GetOpening },
    AnaDests { req: GetDests },
    AnaMove { req: PlayMove },
    AnaDrop { req: PlayDrop },
    EvalGet,
    EvalPut,
    ChallengePing,
}

#[derive(Clone, Debug)]
pub struct ProtocolViolation;

/// The `t` tag of a frame, when it is an object with a string there.
pub open spec fn tag_of(v: JsonView) -> Option<Seq<char>> {
    match json_get(v, "t"@) {
        Some(JsonView::Str(s)) => Some(s),
        _ => None,
    }
}

/// An optional field: absent or `null` both count as missing.
pub open spec fn opt_field(v: JsonView, k: Seq<char>) -> Option<JsonView> {
    match json_get(v, k) {
        Some(JsonView::Null) => None,
        other => other,
    }
}

pub open spec fn str_field_ok(v: JsonView, k: Seq<char>) -> bool {
    json_get(v, k) matches Some(JsonView::Str(_))
}

pub open spec fn str_field(v: JsonView, k: Seq<char>) -> Seq<char> {
    match json_get(v, k) {
        Some(JsonView::Str(s)) => s,
        _ => Seq::empty(),
    }
}

/// The game list of `startWatching`: every space-piece must be a valid game
/// id.
pub open spec fn spec_game_list(d: Seq<char>) -> Option<Seq<Seq<char>>> {
    if forall|i: int|
        0 <= i < split_on(d, ' ').len() ==> valid_game_id(#[trigger] split_on(d, ' ')[i]) {
        Some(split_on(d, ' '))
    } else {
        None
    }
}

pub open spec fn spec_variant_key(s: Seq<char>) -> Option<VariantKey> {
    if s == "standard"@ {
        Some(VariantKey::Standard)
    } else if s == "fromPosition"@ {
        Some(VariantKey::FromPosition)
    } else if s == "chess960"@ {
        Some(VariantKey::Chess960)
    } else if s == "antichess"@ {
        Some(VariantKey::Antichess)
    } else if s == "kingOfTheHill"@ {
        Some(VariantKey::KingOfTheHill)
    } else if s == "threeCheck"@ {
        Some(VariantKey::ThreeCheck)
    } else if s == "atomic"@ {
        Some(VariantKey::Atomic)
    } else if s == "horde"@ {
        Some(VariantKey::Horde)
    } else if s == "racingKings"@ {
        Some(VariantKey::RacingKings)
    } else if s == "crazyhouse"@ {
        Some(VariantKey::Crazyhouse)
    } else {
        None
    }
}

pub open spec fn spec_promotable(s: Seq<char>) -> Option<PromotableRole> {
    if s == "knight"@ {
        Some(PromotableRole::Knight)
    } else if s == "bishop"@ {
        Some(PromotableRole::Bishop)
    } else if s == "rook"@ {
        Some(PromotableRole::Rook)
    } else if s == "queen"@ {
        Some(PromotableRole::Queen)
    } else if s == "king"@ {
        Some(PromotableRole::King)
    } else {
        None
    }
}

pub open spec fn spec_droppable(s: Seq<char>) -> Option<DroppableRole> {
    if s == "pawn"@ {
        Some(DroppableRole::Pawn)
    } else if s == "knight"@ {
        Some(DroppableRole::Knight)
    } else if s == "bishop"@ {
        Some(DroppableRole::Bishop)
    } else if s == "rook"@ {
        Some(DroppableRole::Rook)
    } else if s == "queen"@ {
        Some(DroppableRole::Queen)
    } else {
        None
    }
}

/// A well-formed optional variant field.
pub open spec fn variant_field_ok(d: JsonView) -> bool {
    match opt_field(d, "variant"@) {
        None => true,
        Some(JsonView::Str(s)) => spec_variant_key(s) is Some,
        Some(_) => false,
    }
}

pub open spec fn chapter_field_ok(d: JsonView) -> bool {
    match opt_field(d, "ch"@) {
        None => true,
        Some(JsonView::Str(_)) => true,
        Some(_) => false,
    }
}

pub open spec fn wf_get_opening(d: JsonView) -> bool {
    &&& d is Obj
    &&& str_field_ok(d, "path"@)
    &&& str_field_ok(d, "fen"@)
    &&& variant_field_ok(d)
}

pub open spec fn wf_get_dests(d: JsonView) -> bool {
    &&& wf_get_opening(d)
    &&& chapter_field_ok(d)
}

pub open spec fn square_field_ok(d: JsonView, k: Seq<char>) -> bool {
    match json_get(d, k) {
        Some(JsonView::Str(s)) => spec_parse_square(s) is Some,
        _ => false,
    }
}

pub open spec fn wf_play_move(d: JsonView) -> bool {
    &&& wf_get_dests(d)
    &&& square_field_ok(d, "orig"@)
    &&& square_field_ok(d, "dest"@)
    &&& match opt_field(d, "promotion"@) {
        None => true,
        Some(JsonView::Str(s)) => spec_promotable(s) is Some,
        Some(_) => false,
    }
}

pub open spec fn wf_play_drop(d: JsonView) -> bool {
    &&& wf_get_dests(d)
    &&& square_field_ok(d, "pos"@)
    &&& match json_get(d, "role"@) {
        Some(JsonView::Str(s)) => spec_droppable(s) is Some,
        _ => false,
    }
}

/// The variant a payload picks, defaulting to standard chess.
pub open spec fn req_variant_key(d: JsonView) -> Option<VariantKey> {
    match opt_field(d, "variant"@) {
        Some(JsonView::Str(s)) => spec_variant_key(s),
        _ => None,
    }
}

/// The optional chapter id of a payload.
pub open spec fn req_chapter(d: JsonView) -> Option<Seq<char>> {
    match opt_field(d, "ch"@) {
        Some(JsonView::Str(s)) => Some(s),
        _ => None,
    }
}

/// A square field of a payload, as its index.
pub open spec fn req_square(d: JsonView, k: Seq<char>) -> int {
    match json_get(d, k) {
        Some(JsonView::Str(s)) => spec_parse_square(s).unwrap(),
        _ => 0,
    }
}

/// The optional promotion role of a move payload.
pub open spec fn req_promotion(d: JsonView) -> Option<PromotableRole> {
    match opt_field(d, "promotion"@) {
        Some(JsonView::Str(s)) => spec_promotable(s),
        _ => None,
    }
}

/// The dropped role of a drop payload.
pub open spec fn req_role(d: JsonView) -> Option<DroppableRole> {
    match json_get(d, "role"@) {
        Some(JsonView::Str(s)) => spec_droppable(s),
        _ => None,
    }
}

/// What counts as a well-formed client frame, by tag.
pub open spec fn wf_client_frame(v: JsonView) -> bool {
    match tag_of(v) {
        None => false,
        Some(t) => {
            if t == "p"@ {
                match opt_field(v, "l"@) {
                    None => true,
                    Some(JsonView::Int(_)) => true,
                    Some(_) => false,
                }
            } else if t == "notified"@ {
                true
            } else if t == "startWatching"@ {
                match json_get(v, "d"@) {
                    Some(JsonView::Str(d)) => spec_game_list(d) is Some,
                    _ => false,
                }
            } else if t == "moveLat"@ {
                json_get(v, "d"@) matches Some(JsonView::Bool(_))
            } else if t == "following_onlines"@ {
                true
            } else if t == "opening"@ {
                match json_get(v, "d"@) {
                    Some(d) => wf_get_opening(d),
                    None => false,
                }
            } else if t == "anaDests"@ {
                match json_get(v, "d"@) {
                    Some(d) => wf_get_dests(d),
                    None => false,
                }
            } else if t == "anaMove"@ {
                match json_get(v, "d"@) {
                    Some(d) => wf_play_move(d),
                    None => false,
                }
            } else if t == "anaDrop"@ {
                match json_get(v, "d"@) {
                    Some(d) => wf_play_drop(d),
                    None => false,
                }
            } else if t == "evalGet"@ {
                true
            } else if t == "evalPut"@ {
                true
            } else if t == "ping"@ {
                true
            } else {
                false
            }
        },
    }
}

fn variant_key_exec(s: &str) -> (r: Option<VariantKey>)
    ensures
        r == spec_variant_key(s@),
{
    if crate::model::str_eq(s, "standard") {
        Some(VariantKey::Standard)
    } else if crate::model::str_eq(s, "fromPosition") {
        Some(VariantKey::FromPosition)
    } else if crate::model::str_eq(s, "chess960") {
        Some(VariantKey::Chess960)
    } else if crate::model::str_eq(s, "antichess") {
        Some(VariantKey::Antichess)
    } else if crate::model::str_eq(s, "kingOfTheHill") {
        Some(VariantKey::KingOfTheHill)
    } else if crate::model::str_eq(s, "threeCheck") {
        Some(VariantKey::ThreeCheck)
    } else if crate::model::str_eq(s, "atomic") {
        Some(VariantKey::Atomic)
    } else if crate::model::str_eq(s, "horde") {
        Some(VariantKey::Horde)
    } else if crate::model::str_eq(s, "racingKings") {
        Some(VariantKey::RacingKings)
    } else if crate::model::str_eq(s, "crazyhouse") {
        Some(VariantKey::Crazyhouse)
    } else {
        None
    }
}

/// Reads an optional field, treating `null` as missing.
fn get_opt<'a>(j: &'a Json, k: &str) -> (r: Option<&'a Json>)
    ensures
        match r {
            Some(f) => opt_field(j@, k@) == Some(f@) && !(f@ is Null),
            None => opt_field(j@, k@) is None,
        },
{
    match j.get(k) {
        Some(f) => match f {
            Json::Null => None,
            other => Some(other),
        },
        None => None,
    }
}

/// The optional variant of an analysis payload; `Err` when present but not
/// a known name.
fn variant_of(d: &Json) -> (r: Result<Option<VariantKey>, ProtocolViolation>)
    ensures
        match r {
            Ok(ov) => variant_field_ok(d@) && match ov {
                Some(k) => opt_field(d@, "variant"@) matches Some(JsonView::Str(s))
                    && spec_variant_key(s) == Some(k),
                None => opt_field(d@, "variant"@) is None,
            },
            Err(_) => !variant_field_ok(d@),
        },
{
    match get_opt(d, "variant") {
        None => Ok(None),
        Some(f) => match f {
            Json::Str(s) => match variant_key_exec(s.as_str()) {
                Some(k) => Ok(Some(k)),
                None => Err(ProtocolViolation),
            },
            _ => Err(ProtocolViolation),
        },
    }
}

/// An optional string field (the chapter id); `Err` on a non-string value.
fn chapter_of(d: &Json) -> (r: Result<Option<String>, ProtocolViolation>)
    ensures
        match r {
            Ok(oc) => chapter_field_ok(d@) && match oc {
                Some(c) => opt_field(d@, "ch"@) == Some(JsonView::Str(c@)),
                None => opt_field(d@, "ch"@) is None,
            },
            Err(_) => !chapter_field_ok(d@),
        },
{
    match get_opt(d, "ch") {
        None => Ok(None),
        Some(f) => match f {
            Json::Str(s) => Ok(Some(s.clone())),
            _ => Err(ProtocolViolation),
        },
    }
}

/// A required string field.
fn str_of<'a>(d: &'a Json, k: &str) -> (r: Result<&'a String, ProtocolViolation>)
    ensures
        match r {
            Ok(s) => str_field_ok(d@, k@) && str_field(d@, k@) == s@,
            Err(_) => !str_field_ok(d@, k@),
        },
{
    match d.get(k) {
        Some(f) => match f {
            Json::Str(s) => Ok(s),
            _ => Err(ProtocolViolation),
        },
        None => Err(ProtocolViolation),
    }
}

/// A required square field, as its index.
fn square_of(d: &Json, k: &str) -> (r: Result<u8, ProtocolViolation>)
    ensures
        match r {
            Ok(sq) => square_field_ok(d@, k@) && sq < 64 && (json_get(d@, k@) matches Some(
                JsonView::Str(s),
            ) && spec_parse_square(s) == Some(sq as int)),
            Err(_) => !square_field_ok(d@, k@),
        },
{
    match d.get(k) {
        Some(f) => match f {
            Json::Str(s) => match crate::analysis::parse_square(s.as_str()) {
                Some(sq) => Ok(sq),
                None => Err(ProtocolViolation),
            },
            _ => Err(ProtocolViolation),
        },
        None => Err(ProtocolViolation),
    }
}

fn get_opening_of(d: &Json) -> (r: Result<GetOpening, ProtocolViolation>)
    ensures
        match r {
            Ok(req) => wf_get_opening(d@) && req.path@ == str_field(d@, "path"@) && req.fen@
                == str_field(d@, "fen"@) && req.variant == req_variant_key(d@),
            Err(_) => !wf_get_opening(d@),
        },
{
    if !matches!(d, Json::Obj(_)) {
        return Err(ProtocolViolation);
    }
    let variant = variant_of(d)?;
    let path = str_of(d, "path")?;
    let fen = str_of(d, "fen")?;
    Ok(GetOpening { variant, path: path.clone(), fen: fen.clone() })
}

fn get_dests_of(d: &Json) -> (r: Result<GetDests, ProtocolViolation>)
    ensures
        match r {
            Ok(req) => wf_get_dests(d@) && req.path@ == str_field(d@, "path"@) && req.fen@
                == str_field(d@, "fen"@) && req.variant == req_variant_key(d@)
                && crate::analysis::opt_str_view(req.chapter_id) == req_chapter(d@),
            Err(_) => !wf_get_dests(d@),
        },
{
    if !matches!(d, Json::Obj(_)) {
        return Err(ProtocolViolation);
    }
    let variant = variant_of(d)?;
    let path = str_of(d, "path")?;
    let fen = str_of(d, "fen")?;
    let chapter_id = chapter_of(d)?;
    Ok(GetDests { variant, fen: fen.clone(), path: path.clone(), chapter_id })
}

fn play_move_of(d: &Json) -> (r: Result<PlayMove, ProtocolViolation>)
    ensures
        match r {
            Ok(req) => wf_play_move(d@) && req.path@ == str_field(d@, "path"@) && req.fen@
                == str_field(d@, "fen"@) && req.orig < 64 && req.dest < 64 && req.variant
                == req_variant_key(d@) && crate::analysis::opt_str_view(req.chapter_id)
                == req_chapter(d@) && req.orig as int == req_square(d@, "orig"@) && req.dest
                as int == req_square(d@, "dest"@) && req.promotion == req_promotion(d@),
            Err(_) => !wf_play_move(d@),
        },
{
    if !matches!(d, Json::Obj(_)) {
        return Err(ProtocolViolation);
    }
    let variant = variant_of(d)?;
    let path = str_of(d, "path")?;
    let fen = str_of(d, "fen")?;
    let chapter_id = chapter_of(d)?;
    let orig = square_of(d, "orig")?;
    let dest = square_of(d, "dest")?;
    let promotion = match get_opt(d, "promotion") {
        None => None,
        Some(f) => match f {
            Json::Str(s) => {
                if crate::model::str_eq(s.as_str(), "knight") {
                    Some(PromotableRole::Knight)
                } else if crate::model::str_eq(s.as_str(), "bishop") {
                    Some(PromotableRole::Bishop)
                } else if crate::model::str_eq(s.as_str(), "rook") {
                    Some(PromotableRole::Rook)
                } else if crate::model::str_eq(s.as_str(), "queen") {
                    Some(PromotableRole::Queen)
                } else if crate::model::str_eq(s.as_str(), "king") {
                    Some(PromotableRole::King)
                } else {
                    return Err(ProtocolViolation);
                }
            },
            _ => {
                return Err(ProtocolViolation);
            },
        },
    };
    Ok(PlayMove {
        orig,
        dest,
        variant,
        fen: fen.clone(),
        path: path.clone(),
        promotion,
        chapter_id,
    })
}

fn play_drop_of(d: &Json) -> (r: Result<PlayDrop, ProtocolViolation>)
    ensures
        match r {
            Ok(req) => wf_play_drop(d@) && req.path@ == str_field(d@, "path"@) && req.fen@
                == str_field(d@, "fen"@) && req.pos < 64 && req.variant == req_variant_key(d@)
                && crate::analysis::opt_str_view(req.chapter_id) == req_chapter(d@) && req.pos
                as int == req_square(d@, "pos"@) && Some(req.role) == req_role(d@),
            Err(_) => !wf_play_drop(d@),
        },
{
    if !matches!(d, Json::Obj(_)) {
        return Err(ProtocolViolation);
    }
    let variant = variant_of(d)?;
    let path = str_of(d, "path")?;
    let fen = str_of(d, "fen")?;
    let chapter_id = chapter_of(d)?;
    let pos = square_of(d, "pos")?;
    let role = match d.get("role") {
        Some(f) => match f {
            Json::Str(s) => {
                if crate::model::str_eq(s.as_str(), "pawn") {
                    DroppableRole::Pawn
                } else if crate::model::str_eq(s.as_str(), "knight") {
                    DroppableRole::Knight
                } else if crate::model::str_eq(s.as_str(), "bishop") {
                    DroppableRole::Bishop
                } else if crate::model::str_eq(s.as_str(), "rook") {
                    DroppableRole::Rook
                } else if crate::model::str_eq(s.as_str(), "queen") {
                    DroppableRole::Queen
                } else {
                    return Err(ProtocolViolation);
                }
            },
            _ => {
                return Err(ProtocolViolation);
            },
        },
        None => {
            return Err(ProtocolViolation);
        },
    };
    Ok(PlayDrop {
        role,
        pos,
        variant,
        fen: fen.clone(),
        path: path.clone(),
        chapter_id,
    })
}

fn game_list_of(d: &str) -> (r: Option<Vec<GameId>>)
    ensures
        match r {
            Some(games) => spec_game_list(d@) == Some(games@.map_values(|g: GameId| g@)),
            None => spec_game_list(d@) is None,
        },
{
    let v = crate::text::chars_of(d);
    let mut games: Vec<GameId> = Vec::new();
    let mut rest: Vec<char> = v;
    proof {
        assert(rest@ =~= d@);
        assert(Seq::<Seq<char>>::empty() + split_on(d@, ' ') =~= split_on(d@, ' '));
    }
    let ghost mut done: Seq<Seq<char>> = Seq::empty();
    loop
        invariant
            split_on(d@, ' ') =~= done + split_on(rest@, ' '),
            games@.len() == done.len(),
            forall|i: int| 0 <= i < done.len() ==> valid_game_id(#[trigger] done[i]),
            forall|i: int| 0 <= i < done.len() ==> #[trigger] games@[i]@ == done[i],
        decreases rest@.len(),
    {
        let c = crate::ipc::find_from(rest.as_slice(), 0, ' ');
        let piece = crate::ipc::range_string(rest.as_slice(), 0, c);
        proof {
            if c == rest@.len() {
                assert(piece@ =~= rest@);
                assert(split_on(rest@, ' ') =~= seq![rest@]);
            }
        }
        match GameId::new(piece.as_str()) {
            Ok(g) => {
                games.push(g);
                proof {
                    done = done.push(piece@);
                }
            },
            Err(_) => {
                proof {
                    let all = split_on(d@, ' ');
                    assert(all[done.len() as int] == piece@);
                    assert(!valid_game_id(all[done.len() as int]));
                }
                return None;
            },
        }
        if c == rest.len() {
            proof {
                assert(split_on(rest@, ' ') =~= seq![piece@]);
                assert(split_on(d@, ' ') =~= done);
                let all = split_on(d@, ' ');
                assert(games@.map_values(|g: GameId| g@) =~= all);
            }
            return Some(games);
        }
        let next = crate::ipc::subvec(rest.as_slice(), c + 1, rest.len());
        proof {
            assert(split_on(rest@, ' ') =~= seq![piece@] + split_on(next@, ' '));
            assert(done + split_on(next@, ' ') =~= split_on(d@, ' '));
        }
        rest = next;
    }
}

impl SocketOut {
    /// Classifies one parsed frame; `Err` closes the socket with a protocol
    /// code.
    pub fn parse(j: &Json) -> (r: Result<SocketOut, ProtocolViolation>)
        ensures
            r is Err <==> !wf_client_frame(j@),
            match r {
                Ok(m) => match m {
                    SocketOut::Ping { lag } => tag_of(j@) == Some("p"@) && match lag {
                        Some(n) => opt_field(j@, "l"@) == Some(JsonView::Int(n as int)),
                        None => opt_field(j@, "l"@) is None,
                    },
                    SocketOut::Notified => tag_of(j@) == Some("notified"@),
                    SocketOut::StartWatching { games } => tag_of(j@) == Some("startWatching"@)
                        && (json_get(j@, "d"@) matches Some(JsonView::Str(d)) && spec_game_list(
                        d,
                    ) == Some(games@.map_values(|g: GameId| g@))),
                    SocketOut::MoveLatency { watch } => tag_of(j@) == Some("moveLat"@)
                        && json_get(j@, "d"@) == Some(JsonView::Bool(watch)),
                    SocketOut::FollowingOnlines => tag_of(j@) == Some("following_onlines"@),
                    SocketOut::Opening { req } => tag_of(j@) == Some("opening"@) && (json_get(
                        j@,
                        "d"@,
                    ) matches Some(d) && req.path@ == str_field(d, "path"@) && req.fen@
                        == str_field(d, "fen"@) && req.variant == req_variant_key(d)),
                    SocketOut::AnaDests { req } => tag_of(j@) == Some("anaDests"@) && (
                    json_get(j@, "d"@) matches Some(d) && req.path@ == str_field(d, "path"@)
                        && req.fen@ == str_field(d, "fen"@) && req.variant == req_variant_key(
                        d,
                    ) && crate::analysis::opt_str_view(req.chapter_id) == req_chapter(d)),
                    SocketOut::AnaMove { req } => tag_of(j@) == Some("anaMove"@) && req.orig
                        < 64 && req.dest < 64 && (json_get(j@, "d"@) matches Some(d)
                        && req.path@ == str_field(d, "path"@) && req.fen@ == str_field(
                        d,
                        "fen"@,
                    ) && req.variant == req_variant_key(d) && crate::analysis::opt_str_view(
                        req.chapter_id,
                    ) == req_chapter(d) && req.orig as int == req_square(d, "orig"@)
                        && req.dest as int == req_square(d, "dest"@) && req.promotion
                        == req_promotion(d)),
                    SocketOut::AnaDrop { req } => tag_of(j@) == Some("anaDrop"@) && req.pos
                        < 64 && (json_get(j@, "d"@) matches Some(d) && req.path@ == str_field(
                        d,
                        "path"@,
                    ) && req.fen@ == str_field(d, "fen"@) && req.variant == req_variant_key(d)
                        && crate::analysis::opt_str_view(req.chapter_id) == req_chapter(d)
                        && req.pos as int == req_square(d, "pos"@) && Some(req.role)
                        == req_role(d)),
                    SocketOut::EvalGet => tag_of(j@) == Some("evalGet"@),
                    SocketOut::EvalPut => tag_of(j@) == Some("evalPut"@),
                    SocketOut::ChallengePing => tag_of(j@) == Some("ping"@),
                },
                Err(_) => true,
            },
    {
        let t = match str_of(j, "t") {
            Ok(s) => s,
            Err(_) => {
                return Err(ProtocolViolation);
            },
        };
        if crate::model::str_eq(t.as_str(), "p") {
            match get_opt(j, "l") {
                None => Ok(SocketOut::Ping { lag: None }),
                Some(f) => match f {
                    Json::Int(n) => Ok(SocketOut::Ping { lag: Some(*n) }),
                    _ => Err(ProtocolViolation),
                },
            }
        } else if crate::model::str_eq(t.as_str(), "notified") {
            Ok(SocketOut::Notified)
        } else if crate::model::str_eq(t.as_str(), "startWatching") {
            match j.get("d") {
                Some(f) => match f {
                    Json::Str(d) => match game_list_of(d.as_str()) {
                        Some(games) => Ok(SocketOut::StartWatching { games }),
                        None => Err(ProtocolViolation),
                    },
                    _ => Err(ProtocolViolation),
                },
                None => Err(ProtocolViolation),
            }
        } else if crate::model::str_eq(t.as_str(), "moveLat") {
            match j.get("d") {
                Some(f) => match f {
                    Json::Bool(b) => Ok(SocketOut::MoveLatency { watch: *b }),
                    _ => Err(ProtocolViolation),
                },
                None => Err(ProtocolViolation),
            }
        } else if crate::model::str_eq(t.as_str(), "following_onlines") {
            Ok(SocketOut::FollowingOnlines)
        } else if crate::model::str_eq(t.as_str(), "opening") {
            match j.get("d") {
                Some(d) => match get_opening_of(d) {
                    Ok(req) => Ok(SocketOut::Opening { req }),
                    Err(e) => Err(e),
                },
                None => Err(ProtocolViolation),
            }
        } else if crate::model::str_eq(t.as_str(), "anaDests") {
            match j.get("d") {
                Some(d) => match get_dests_of(d) {
                    Ok(req) => Ok(SocketOut::AnaDests { req }),
                    Err(e) => Err(e),
                },
                None => Err(ProtocolViolation),
            }
        } else if crate::model::str_eq(t.as_str(), "anaMove") {
            match j.get("d") {
                Some(d) => match play_move_of(d) {
                    Ok(req) => Ok(SocketOut::AnaMove { req }),
                    Err(e) => Err(e),
                },
                None => Err(ProtocolViolation),
            }
        } else if crate::model::str_eq(t.as_str(), "anaDrop") {
            match j.get("d") {
                Some(d) => match play_drop_of(d) {
                    Ok(req) => Ok(SocketOut::AnaDrop { req }),
                    Err(e) => Err(e),
                },
                None => Err(ProtocolViolation),
            }
        } else if crate::model::str_eq(t.as_str(), "evalGet") {
            Ok(SocketOut::EvalGet)
        } else if crate::model::str_eq(t.as_str(), "evalPut") {
            Ok(SocketOut::EvalPut)
        } else if crate::model::str_eq(t.as_str(), "ping") {
            Ok(SocketOut::ChallengePing)
        } else {
            Err(ProtocolViolation)
        }
    }
}

/// The `fen` frame fanned out to watchers.
pub open spec fn spec_fen_msg(id: Seq<char>, fen: Seq<char>, lm: Seq<char>) -> Seq<char> {
    "{\"t\":\"fen\",\"d\":{\"id\":\""@ + json_escaped(id) + "\",\"fen\":\""@ + json_escaped(fen)
        + "\",\"lm\":\""@ + json_escaped(lm) + "\"}}"@
}

pub fn fen_msg(id: &GameId, fen: &str, lm: &str) -> (s: String)
    ensures
        s@ == spec_fen_msg(id@, fen@, lm@),
{
    let mut s = String::from_str("{\"t\":\"fen\",\"d\":{\"id\":\"");
    append_json_escaped(&mut s, id.as_str());
    s.append("\",\"fen\":\"");
    append_json_escaped(&mut s, fen);
    s.append("\",\"lm\":\"");
    append_json_escaped(&mut s, lm);
    s.append("\"}}");
    proof {
        assert(s@ =~= spec_fen_msg(id@, fen@, lm@));
    }
    s
}

/// Escaping leaves alphanumeric text unchanged.
pub proof fn lemma_json_escaped_alnum(s: Seq<char>)
    requires
        forall|i: int| 0 <= i < s.len() ==> crate::text::is_ascii_alnum(#[trigger] s[i]),
    ensures
        json_escaped(s) == s,
    decreases s.len(),
{
    if s.len() == 0 {
        assert(json_escaped(s) =~= s);
    } else {
        lemma_json_escaped_alnum(s.drop_last());
        assert(crate::text::is_ascii_alnum(s[s.len() - 1]));
        assert(crate::json::esc_char(s.last()) =~= seq![s.last()]);
        assert(json_escaped(s) =~= s.drop_last() + seq![s.last()]);
        assert(s.drop_last() + seq![s.last()] =~= s);
    }
}

/// Two `fen` frames agree only when their game ids do: the id sits at a
/// fixed offset and game ids have a fixed length.
pub proof fn lemma_fen_msg_game_inj(
    g1: Seq<char>,
    f1: Seq<char>,
    l1: Seq<char>,
    g2: Seq<char>,
    f2: Seq<char>,
    l2: Seq<char>,
)
    requires
        valid_game_id(g1),
        valid_game_id(g2),
        spec_fen_msg(g1, f1, l1) == spec_fen_msg(g2, f2, l2),
    ensures
        g1 == g2,
{
    lemma_json_escaped_alnum(g1);
    lemma_json_escaped_alnum(g2);
    let p = "{\"t\":\"fen\",\"d\":{\"id\":\""@;
    let pl = p.len() as int;
    assert forall|i: int| 0 <= i < 8 implies g1[i] == g2[i] by {
        assert((p + g1)[pl + i] == g1[i]);
        assert((p + g2)[pl + i] == g2[i]);
        assert(spec_fen_msg(g1, f1, l1)[pl + i] == g1[i]);
        assert(spec_fen_msg(g2, f2, l2)[pl + i] == g2[i]);
    }
    assert(g1 =~= g2);
}

/// The move-latency frame.
pub open spec fn spec_mlat_msg(n: u32) -> Seq<char> {
    "{\"t\":\"mlat\",\"d\":"@ + spec_dec(n as nat) + "}"@
}

pub fn mlat_msg(n: u32) -> (s: String)
    ensures
        s@ == spec_mlat_msg(n),
{
    let mut s = String::from_str("{\"t\":\"mlat\",\"d\":");
    append_dec(&mut s, n as u64);
    s.append("}");
    proof {
        assert(s@ =~= spec_mlat_msg(n));
    }
    s
}

/// The lobby ping reply, carrying the round and member counters.
pub open spec fn spec_lobby_pong(rounds: u32, members: u32) -> Seq<char> {
    "{\"t\":\"n\",\"r\":"@ + spec_dec(rounds as nat) + ",\"d\":"@ + spec_dec(members as nat)
        + "}"@
}

pub fn lobby_pong(rounds: u32, members: u32) -> (s: String)
    ensures
        s@ == spec_lobby_pong(rounds, members),
{
    let mut s = String::from_str("{\"t\":\"n\",\"r\":");
    append_dec(&mut s, rounds as u64);
    s.append(",\"d\":");
    append_dec(&mut s, members as u64);
    s.append("}");
    proof {
        assert(s@ =~= spec_lobby_pong(rounds, members));
    }
    s
}

pub open spec fn spec_opening_json(eco: Seq<char>, name: Seq<char>) -> Seq<char> {
    "{\"eco\":\""@ + json_escaped(eco) + "\",\"name\":\""@ + json_escaped(name) + "\"}"@
}

fn append_opening(s: &mut String, op: &crate::analysis::Opening)
    ensures
        final(s)@ == old(s)@ + spec_opening_json(op.eco@, op.name@),
{
    s.append("{\"eco\":\"");
    append_json_escaped(s, op.eco.as_str());
    s.append("\",\"name\":\"");
    append_json_escaped(s, op.name.as_str());
    s.append("\"}");
    proof {
        assert(s@ =~= old(s)@ + spec_opening_json(op.eco@, op.name@));
    }
}

/// The opening reply.
pub open spec fn spec_opening_msg(path: Seq<char>, eco: Seq<char>, name: Seq<char>) -> Seq<
    char,
> {
    "{\"t\":\"opening\",\"d\":{\"path\":\""@ + json_escaped(path) + "\",\"opening\":"@
        + spec_opening_json(eco, name) + "}}"@
}

pub fn opening_msg(resp: &OpeningResponse) -> (s: String)
    ensures
        s@ == spec_opening_msg(resp.path@, resp.opening.eco@, resp.opening.name@),
{
    let mut s = String::from_str("{\"t\":\"opening\",\"d\":{\"path\":\"");
    append_json_escaped(&mut s, resp.path.as_str());
    s.append("\",\"opening\":");
    append_opening(&mut s, &resp.opening);
    s.append("}}");
    proof {
        assert(s@ =~= spec_opening_msg(resp.path@, resp.opening.eco@, resp.opening.name@));
    }
    s
}

pub fn dests_failure_msg() -> (s: String)
    ensures
        s@ == "{\"t\":\"destsFailure\"}"@,
{
    String::from_str("{\"t\":\"destsFailure\"}")
}

pub fn step_failure_msg() -> (s: String)
    ensures
        s@ == "{\"t\":\"stepFailure\"}"@,
{
    String::from_str("{\"t\":\"stepFailure\"}")
}

pub open spec fn spec_opt_drops(drops: Option<Seq<char>>) -> Seq<char> {
    match drops {
        Some(d) => ",\"drops\":\""@ + json_escaped(d) + "\""@,
        None => Seq::empty(),
    }
}

pub open spec fn spec_opt_opening(op: Option<(Seq<char>, Seq<char>)>) -> Seq<char> {
    match op {
        Some(o) => ",\"opening\":"@ + spec_opening_json(o.0, o.1),
        None => Seq::empty(),
    }
}

pub open spec fn spec_opt_ch(ch: Option<Seq<char>>) -> Seq<char> {
    match ch {
        Some(c) => ",\"ch\":\""@ + json_escaped(c) + "\""@,
        None => Seq::empty(),
    }
}

pub open spec fn view_opening(op: Option<crate::analysis::Opening>) -> Option<
    (Seq<char>, Seq<char>),
> {
    match op {
        Some(o) => Some((o.eco@, o.name@)),
        None => None,
    }
}

pub open spec fn view_opt_str(o: Option<String>) -> Option<Seq<char>> {
    match o {
        Some(s) => Some(s@),
        None => None,
    }
}

/// The legal-destinations reply.
pub open spec fn spec_dests_msg(
    path: Seq<char>,
    dests: Seq<char>,
    drops: Option<Seq<char>>,
    opening: Option<(Seq<char>, Seq<char>)>,
    ch: Option<Seq<char>>,
) -> Seq<char> {
    "{\"t\":\"dests\",\"d\":{\"path\":\""@ + json_escaped(path) + "\",\"dests\":\""@
        + json_escaped(dests) + "\""@ + spec_opt_drops(drops) + spec_opt_opening(opening)
        + spec_opt_ch(ch) + "}}"@
}

fn append_opt_drops(s: &mut String, drops: &Option<String>)
    ensures
        final(s)@ == old(s)@ + spec_opt_drops(view_opt_str(*drops)),
{
    match drops {
        Some(d) => {
            s.append(",\"drops\":\"");
            append_json_escaped(s, d.as_str());
            s.append("\"");
            proof {
                assert(s@ =~= old(s)@ + spec_opt_drops(view_opt_str(*drops)));
            }
        },
        None => {
            proof {
                assert(s@ =~= old(s)@ + spec_opt_drops(view_opt_str(*drops)));
            }
        },
    }
}

fn append_opt_opening(s: &mut String, op: &Option<crate::analysis::Opening>)
    ensures
        final(s)@ == old(s)@ + spec_opt_opening(view_opening(*op)),
{
    match op {
        Some(o) => {
            s.append(",\"opening\":");
            append_opening(s, o);
            proof {
                assert(s@ =~= old(s)@ + spec_opt_opening(view_opening(*op)));
            }
        },
        None => {
            proof {
                assert(s@ =~= old(s)@ + spec_opt_opening(view_opening(*op)));
            }
        },
    }
}

fn append_opt_ch(s: &mut String, ch: &Option<String>)
    ensures
        final(s)@ == old(s)@ + spec_opt_ch(view_opt_str(*ch)),
{
    match ch {
        Some(c) => {
            s.append(",\"ch\":\"");
            append_json_escaped(s, c.as_str());
            s.append("\"");
            proof {
                assert(s@ =~= old(s)@ + spec_opt_ch(view_opt_str(*ch)));
            }
        },
        None => {
            proof {
                assert(s@ =~= old(s)@ + spec_opt_ch(view_opt_str(*ch)));
            }
        },
    }
}

pub fn dests_msg(resp: &DestsResponse) -> (s: String)
    ensures
        s@ == spec_dests_msg(
            resp.path@,
            resp.dests@,
            view_opt_str(resp.drops),
            view_opening(resp.opening),
            view_opt_str(resp.chapter_id),
        ),
{
    let mut s = String::from_str("{\"t\":\"dests\",\"d\":{\"path\":\"");
    append_json_escaped(&mut s, resp.path.as_str());
    s.append("\",\"dests\":\"");
    append_json_escaped(&mut s, resp.dests.as_str());
    s.append("\"");
    append_opt_drops(&mut s, &resp.drops);
    append_opt_opening(&mut s, &resp.opening);
    append_opt_ch(&mut s, &resp.chapter_id);
    s.append("}}");
    proof {
        assert(s@ =~= spec_dests_msg(
            resp.path@,
            resp.dests@,
            view_opt_str(resp.drops),
            view_opening(resp.opening),
            view_opt_str(resp.chapter_id),
        ));
    }
    s
}

pub open spec fn spec_pocket_field(name: Seq<char>, n: u8, first: bool) -> Seq<char> {
    if n == 0 {
        Seq::empty()
    } else {
        (if first {
            Seq::<char>::empty()
        } else {
            ","@
        }) + "\""@ + name + "\":"@ + spec_dec(n as nat)
    }
}

/// One pocket as JSON, zero counts left out.
pub open spec fn spec_pocket_json(p: CrazyPocket) -> Seq<char> {
    "{"@ + spec_pocket_field("pawn"@, p.pawn, true) + spec_pocket_field(
        "knight"@,
        p.knight,
        p.pawn == 0,
    ) + spec_pocket_field("bishop"@, p.bishop, p.pawn == 0 && p.knight == 0)
        + spec_pocket_field("rook"@, p.rook, p.pawn == 0 && p.knight == 0 && p.bishop == 0)
        + spec_pocket_field(
        "queen"@,
        p.queen,
        p.pawn == 0 && p.knight == 0 && p.bishop == 0 && p.rook == 0,
    ) + "}"@
}

fn append_pocket_field(s: &mut String, name: &str, n: u8, first: bool)
    ensures
        final(s)@ == old(s)@ + spec_pocket_field(name@, n, first),
{
    if n > 0 {
        if !first {
            s.append(",");
        }
        s.append("\"");
        s.append(name);
        s.append("\":");
        append_dec(s, n as u64);
    }
    proof {
        assert(s@ =~= old(s)@ + spec_pocket_field(name@, n, first));
    }
}

fn append_pocket(s: &mut String, p: &CrazyPocket)
    ensures
        final(s)@ == old(s)@ + spec_pocket_json(*p),
{
    s.append("{");
    append_pocket_field(s, "pawn", p.pawn, true);
    append_pocket_field(s, "knight", p.knight, p.pawn == 0);
    append_pocket_field(s, "bishop", p.bishop, p.pawn == 0 && p.knight == 0);
    append_pocket_field(s, "rook", p.rook, p.pawn == 0 && p.knight == 0 && p.bishop == 0);
    append_pocket_field(
        s,
        "queen",
        p.queen,
        p.pawn == 0 && p.knight == 0 && p.bishop == 0 && p.rook == 0,
    );
    s.append("}");
    proof {
        assert(s@ =~= old(s)@ + spec_pocket_json(*p));
    }
}

pub open spec fn spec_opt_crazy(c: Option<crate::analysis::CrazyData>) -> Seq<char> {
    match c {
        Some(data) => ",\"crazy\":{\"pockets\":["@ + spec_pocket_json(data.white) + ","@
            + spec_pocket_json(data.black) + "]}"@,
        None => Seq::empty(),
    }
}

pub open spec fn spec_opt_check(check: bool) -> Seq<char> {
    if check {
        ",\"check\":true"@
    } else {
        Seq::empty()
    }
}

pub open spec fn spec_branch_head(b: Branch) -> Seq<char> {
    "{\"id\":\""@ + json_escaped(b.id@) + "\",\"uci\":\""@ + json_escaped(b.uci@)
        + "\",\"san\":\""@ + json_escaped(b.san@) + "\",\"children\":[],\"ply\":"@ + spec_dec(
        b.ply as nat,
    ) + ",\"fen\":\""@ + json_escaped(b.fen@) + "\""@ + spec_opt_check(b.check)
}

pub open spec fn spec_branch_tail(b: Branch) -> Seq<char> {
    ",\"dests\":\""@ + json_escaped(b.dests@) + "\""@ + spec_opt_opening(
        view_opening(b.opening),
    ) + spec_opt_drops(view_opt_str(b.drops)) + spec_opt_crazy(b.crazy) + "}"@
}

/// One analysis node as sent in a `node` frame.
pub open spec fn spec_branch_json(b: Branch) -> Seq<char> {
    spec_branch_head(b) + spec_branch_tail(b)
}

pub open spec fn spec_node_msg(n: Node) -> Seq<char> {
    "{\"t\":\"node\",\"d\":{\"node\":"@ + spec_branch_json(n.node) + ",\"path\":\""@
        + json_escaped(n.path@) + "\""@ + spec_opt_ch(view_opt_str(n.chapter_id)) + "}}"@
}

fn append_opt_crazy(s: &mut String, c: &Option<crate::analysis::CrazyData>)
    ensures
        final(s)@ == old(s)@ + spec_opt_crazy(*c),
{
    match c {
        Some(data) => {
            s.append(",\"crazy\":{\"pockets\":[");
            append_pocket(s, &data.white);
            s.append(",");
            append_pocket(s, &data.black);
            s.append("]}");
            proof {
                assert(s@ =~= old(s)@ + spec_opt_crazy(*c));
            }
        },
        None => {
            proof {
                assert(s@ =~= old(s)@ + spec_opt_crazy(*c));
            }
        },
    }
}

fn append_opt_check(s: &mut String, check: bool)
    ensures
        final(s)@ == old(s)@ + spec_opt_check(check),
{
    if check {
        s.append(",\"check\":true");
    }
    proof {
        assert(s@ =~= old(s)@ + spec_opt_check(check));
    }
}

#[verifier::rlimit(50)]
fn append_branch_head(s: &mut String, b: &Branch)
    ensures
        final(s)@ == old(s)@ + spec_branch_head(*b),
{
    s.append("{\"id\":\"");
    append_json_escaped(s, b.id.as_str());
    s.append("\",\"uci\":\"");
    append_json_escaped(s, b.uci.as_str());
    s.append("\",\"san\":\"");
    append_json_escaped(s, b.san.as_str());
    s.append("\",\"children\":[],\"ply\":");
    append_dec(s, b.ply as u64);
    s.append(",\"fen\":\"");
    append_json_escaped(s, b.fen.as_str());
    s.append("\"");
    append_opt_check(s, b.check);
    proof {
        assert(s@ =~= old(s)@ + spec_branch_head(*b));
    }
}

#[verifier::rlimit(50)]
fn append_branch_tail(s: &mut String, b: &Branch)
    ensures
        final(s)@ == old(s)@ + spec_branch_tail(*b),
{
    s.append(",\"dests\":\"");
    append_json_escaped(s, b.dests.as_str());
    s.append("\"");
    append_opt_opening(s, &b.opening);
    append_opt_drops(s, &b.drops);
    append_opt_crazy(s, &b.crazy);
    s.append("}");
    proof {
        assert(s@ =~= old(s)@ + spec_branch_tail(*b));
    }
}

fn append_branch(s: &mut String, b: &Branch)
    ensures
        final(s)@ == old(s)@ + spec_branch_json(*b),
{
    append_branch_head(s, b);
    append_branch_tail(s, b);
    proof {
        assert(s@ =~= old(s)@ + spec_branch_json(*b));
    }
}

pub fn node_msg(n: &Node) -> (s: String)
    ensures
        s@ == spec_node_msg(*n),
{
    let mut s = String::from_str("{\"t\":\"node\",\"d\":{\"node\":");
    append_branch(&mut s, &n.node);
    s.append(",\"path\":\"");
    append_json_escaped(&mut s, n.path.as_str());
    s.append("\"");
    append_opt_ch(&mut s, &n.chapter_id);
    s.append("}}");
    proof {
        assert(s@ =~= spec_node_msg(*n));
    }
    s
}

} // verus!
