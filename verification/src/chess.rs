//! Trusted boundary to the chessboard library. Each function wraps one call
//! and converts between the library's plain values (square indexes, role
//! enums, counts) and the chess engine's opaque types. Positions, setups and
//! moves stay opaque; everything the analysis logic reads crosses this
//! boundary as plain values.
//!
//! Every wrapped call computes a function of its arguments alone, so each
//! result carries an uninterpreted name (`parsed_setup`, `position_of`,
//! `san_of`, …). The names make the responders deterministic to the
//! verifier and let their contracts say exactly when they succeed and what
//! they hand back, without writing the chess engine's algorithms out as
//! specifications.
use vstd::prelude::*;

use crate::analysis::{CrazyData, CrazyPocket, DroppableRole, PromotableRole, Uci, Variant};
use shakmaty::Position;

verus! {

#[verifier::external_type_specification]
#[verifier::external_body]
pub struct ExSetup(shakmaty::Setup);

#[verifier::external_type_specification]
#[verifier::external_body]
pub struct ExVariantPosition(shakmaty::variant::VariantPosition);

#[verifier::external_type_specification]
#[verifier::external_body]
pub struct ExMove(shakmaty::Move);

#[verifier::external_type_specification]
#[verifier::external_body]
pub struct ExUci(shakmaty::uci::UciMove);

#[verifier::external_type_specification]
#[verifier::external_body]
pub struct ExRole(shakmaty::Role);

/// Whether a FEN text parses.
pub uninterp spec fn fen_ok(s: Seq<char>) -> bool;

/// The setup a FEN text parses to.
pub uninterp spec fn parsed_setup(s: Seq<char>) -> shakmaty::Setup;

/// The setup with its castling rights cleared.
pub uninterp spec fn cleared_setup(st: shakmaty::Setup) -> shakmaty::Setup;

/// The setup with its unusable castling rights discarded.
pub uninterp spec fn filtered_setup(st: shakmaty::Setup) -> shakmaty::Setup;

/// Whether a setup is a legal position of a variant.
pub uninterp spec fn position_ok(v: Variant, st: shakmaty::Setup) -> bool;

/// The position a legal setup yields for a variant.
pub uninterp spec fn position_of(v: Variant, st: shakmaty::Setup) -> shakmaty::variant::VariantPosition;

/// Whether black is to move.
pub uninterp spec fn turn_black_of(pos: shakmaty::variant::VariantPosition) -> bool;

/// The fullmove number of a position.
pub uninterp spec fn fullmoves_of(pos: shakmaty::variant::VariantPosition) -> u32;

/// Whether the side to move is in check.
pub uninterp spec fn is_check_of(pos: shakmaty::variant::VariantPosition) -> bool;

/// The squares of the side to move's pieces, ascending.
pub uninterp spec fn own_squares_of(pos: shakmaty::variant::VariantPosition) -> Seq<u8>;

/// The legal moves as (origin, destination) square pairs, in list order;
/// a drop has no origin.
pub uninterp spec fn legal_moves_of(pos: shakmaty::variant::VariantPosition) -> Seq<
    (Option<u8>, u8),
>;

/// The squares of the pieces giving check.
pub uninterp spec fn checkers_of(pos: shakmaty::variant::VariantPosition) -> Seq<u8>;

/// The square of the side to move's king, if any.
pub uninterp spec fn king_sq_of(pos: shakmaty::variant::VariantPosition) -> Option<u8>;

/// The pocket counts (pawn, knight, bishop, rook, queen) for white and
/// black, if the variant tracks pockets.
pub uninterp spec fn pockets_counts_of(pos: shakmaty::variant::VariantPosition) -> Option<
    ((u8, u8, u8, u8, u8), (u8, u8, u8, u8, u8)),
>;

/// The squares strictly between two squares, empty when not aligned.
pub uninterp spec fn between_of(a: u8, b: u8) -> Seq<u8>;

/// Whether a move text, in the library's long coordinate form, is legal in
/// a position.
pub uninterp spec fn uci_playable(pos: shakmaty::variant::VariantPosition, uci_text: Seq<char>) -> bool;

/// The move a legal move text resolves to.
pub uninterp spec fn move_of(pos: shakmaty::variant::VariantPosition, uci_text: Seq<char>) -> shakmaty::Move;

/// Whether a resolved move is legal in a position; guards replaying it.
pub uninterp spec fn move_legal_in(m: shakmaty::Move, pos: shakmaty::variant::VariantPosition) -> bool;

/// The standard algebraic notation of a move, written for the position it
/// is played in.
pub uninterp spec fn san_of(pos: shakmaty::variant::VariantPosition, m: shakmaty::Move) -> Seq<
    char,
>;

/// The position after a legal move.
pub uninterp spec fn played_position(
    pos: shakmaty::variant::VariantPosition,
    m: shakmaty::Move,
) -> shakmaty::variant::VariantPosition;

/// The FEN text of a position.
pub uninterp spec fn fen_text_of(pos: shakmaty::variant::VariantPosition) -> Seq<char>;

/// The setup of a position.
pub uninterp spec fn setup_from(pos: shakmaty::variant::VariantPosition) -> shakmaty::Setup;

/// The EPD text of a setup, pockets and check counters cleared.
pub uninterp spec fn epd_of_setup(st: shakmaty::Setup) -> Seq<char>;

/// Relies on `shakmaty::fen::Fen::from_ascii`: parses a FEN or EPD text,
/// `Err` on any syntactically invalid part; the result depends on the text
/// alone.
#[verifier::external_body]
pub fn parse_fen(s: &str) -> (r: Option<shakmaty::Setup>)
    ensures
        r is Some <==> fen_ok(s@),
        r matches Some(st) ==> st == parsed_setup(s@),
{
    shakmaty::fen::Fen::from_ascii(s.as_bytes()).ok().map(shakmaty::fen::Fen::into_setup)
}

/// Relies on `shakmaty::Bitboard` being a set of squares: assigning the
/// empty board clears every castling right.
#[verifier::external_body]
pub fn clear_castling(setup: &mut shakmaty::Setup)
    ensures
        *final(setup) == cleared_setup(*old(setup)),
{
    setup.castling_rights = shakmaty::Bitboard::EMPTY;
}

/// Relies on `shakmaty::Castles::from_setup`: the `Err` value carries the
/// castling rights with the unusable ones discarded; they are written back.
#[verifier::external_body]
pub fn filter_castles(setup: &mut shakmaty::Setup)
    ensures
        *final(setup) == filtered_setup(*old(setup)),
{
    let mode = shakmaty::CastlingMode::detect(setup);
    if let Err(castles) = shakmaty::Castles::from_setup(setup, mode) {
        setup.castling_rights = castles.castling_rights();
    }
}

/// Relies on `shakmaty::variant::VariantPosition::from_setup`: builds a legal
/// position of the chosen variant, `Err` on an illegal setup; the result
/// depends on the variant and setup alone.
#[verifier::external_body]
pub fn position_for(variant: &Variant, setup: &shakmaty::Setup) -> (r: Result<
    shakmaty::variant::VariantPosition,
    (),
>)
    ensures
        r is Ok <==> position_ok(*variant, *setup),
        r matches Ok(p) ==> p == position_of(*variant, *setup),
{
    let v = match variant {
        Variant::Chess => shakmaty::variant::Variant::Chess,
        Variant::Antichess => shakmaty::variant::Variant::Antichess,
        Variant::KingOfTheHill => shakmaty::variant::Variant::KingOfTheHill,
        Variant::ThreeCheck => shakmaty::variant::Variant::ThreeCheck,
        Variant::Atomic => shakmaty::variant::Variant::Atomic,
        Variant::Horde => shakmaty::variant::Variant::Horde,
        Variant::RacingKings => shakmaty::variant::Variant::RacingKings,
        Variant::Crazyhouse => shakmaty::variant::Variant::Crazyhouse,
    };
    let mode = shakmaty::CastlingMode::detect(setup);
    shakmaty::variant::VariantPosition::from_setup(v, setup.clone(), mode).map_err(|_| ())
}

/// Relies on `shakmaty::Position::turn`.
#[verifier::external_body]
pub fn turn_is_black(pos: &shakmaty::variant::VariantPosition) -> (r: bool)
    ensures
        r == turn_black_of(*pos),
{
    pos.turn() == shakmaty::Color::Black
}

/// Relies on `shakmaty::Position::fullmoves`, a `NonZeroU32`.
#[verifier::external_body]
pub fn fullmoves(pos: &shakmaty::variant::VariantPosition) -> (r: u32)
    ensures
        r == fullmoves_of(*pos),
        r >= 1,
{
    pos.fullmoves().get()
}

/// Relies on `shakmaty::Position::is_check`.
#[verifier::external_body]
pub fn is_check(pos: &shakmaty::variant::VariantPosition) -> (r: bool)
    ensures
        r == is_check_of(*pos),
{
    pos.is_check()
}

/// Relies on `shakmaty::Position::us` and the bitboard iterator, which pops
/// squares from the lowest index up: the indexes come out strictly ascending,
/// each below 64.
#[verifier::external_body]
pub fn own_squares(pos: &shakmaty::variant::VariantPosition) -> (r: Vec<u8>)
    ensures
        r@ == own_squares_of(*pos),
        forall|i: int| 0 <= i < r@.len() ==> #[trigger] r@[i] < 64,
        forall|i: int, j: int| 0 <= i < j < r@.len() ==> r@[i] < r@[j],
{
    pos.us().into_iter().map(|sq| sq as u8).collect()
}

/// Relies on `shakmaty::Position::legal_moves`: each move becomes its origin
/// square (none for a drop) and destination square, in list order.
#[verifier::external_body]
pub fn legal_moves_plain(pos: &shakmaty::variant::VariantPosition) -> (r: Vec<(Option<u8>, u8)>)
    ensures
        r@ == legal_moves_of(*pos),
        forall|i: int|
            0 <= i < r@.len() ==> (#[trigger] r@[i]).1 < 64 && match r@[i].0 {
                Some(f) => f < 64,
                None => true,
            },
{
    pos.legal_moves().iter().map(|m| (m.from().map(|sq| sq as u8), m.to() as u8)).collect()
}

/// Relies on `shakmaty::Position::checkers`: the squares giving check.
#[verifier::external_body]
pub fn checker_squares(pos: &shakmaty::variant::VariantPosition) -> (r: Vec<u8>)
    ensures
        r@ == checkers_of(*pos),
        forall|i: int| 0 <= i < r@.len() ==> #[trigger] r@[i] < 64,
{
    pos.checkers().into_iter().map(|sq| sq as u8).collect()
}

/// Relies on `shakmaty::Board::king_of`: the square of the side to move's
/// king, if any.
#[verifier::external_body]
pub fn king_of_turn(pos: &shakmaty::variant::VariantPosition) -> (r: Option<u8>)
    ensures
        r == king_sq_of(*pos),
        r matches Some(k) ==> k < 64,
{
    pos.board().king_of(pos.turn()).map(|sq| sq as u8)
}

/// Relies on `shakmaty::Position::pockets`: copies the pocket piece counts
/// out, if the variant tracks pockets.
#[verifier::external_body]
pub fn pockets_of(pos: &shakmaty::variant::VariantPosition) -> (r: Option<CrazyData>)
    ensures
        r is Some <==> pockets_counts_of(*pos) is Some,
        r matches Some(d) ==> pockets_counts_of(*pos) == Some(
            (
                (d.white.pawn, d.white.knight, d.white.bishop, d.white.rook, d.white.queen),
                (d.black.pawn, d.black.knight, d.black.bishop, d.black.rook, d.black.queen),
            ),
        ),
{
    let side = |s: &shakmaty::ByRole<u8>| CrazyPocket {
        pawn: s.pawn, knight: s.knight, bishop: s.bishop, rook: s.rook, queen: s.queen,
    };
    pos.pockets().map(|p| CrazyData { white: side(&p.white), black: side(&p.black) })
}

/// Relies on `shakmaty::attacks::between`: the squares strictly between two
/// squares, empty when they are not aligned.
#[verifier::external_body]
pub fn between_squares(a: u8, b: u8) -> (r: Vec<u8>)
    requires
        a < 64,
        b < 64,
    ensures
        r@ == between_of(a, b),
        forall|i: int| 0 <= i < r@.len() ==> #[trigger] r@[i] < 64,
{
    shakmaty::attacks::between(
        shakmaty::Square::new(a as u32),
        shakmaty::Square::new(b as u32),
    ).into_iter().map(|sq| sq as u8).collect()
}

/// Builds the engine's role value; pure conversion.
#[verifier::external_body]
pub fn promotable_role(r: PromotableRole) -> (s: shakmaty::Role)
{
    match r {
        PromotableRole::Knight => shakmaty::Role::Knight,
        PromotableRole::Bishop => shakmaty::Role::Bishop,
        PromotableRole::Rook => shakmaty::Role::Rook,
        PromotableRole::Queen => shakmaty::Role::Queen,
        PromotableRole::King => shakmaty::Role::King,
    }
}

/// Builds the engine's role value; pure conversion.
#[verifier::external_body]
pub fn droppable_role(r: DroppableRole) -> (s: shakmaty::Role)
{
    match r {
        DroppableRole::Pawn => shakmaty::Role::Pawn,
        DroppableRole::Knight => shakmaty::Role::Knight,
        DroppableRole::Bishop => shakmaty::Role::Bishop,
        DroppableRole::Rook => shakmaty::Role::Rook,
        DroppableRole::Queen => shakmaty::Role::Queen,
    }
}

/// Relies on `shakmaty::uci::UciMove::to_move`: resolves the move against
/// the position, `Err` if it is not legal there. The move text written by
/// `spec_uci_string` determines the move value handed over, so the result is
/// a function of the position and that text.
#[verifier::external_body]
pub fn uci_to_move(pos: &shakmaty::variant::VariantPosition, uci: &Uci) -> (r: Result<
    shakmaty::Move,
    (),
>)
    requires
        uci.wf(),
    ensures
        r is Ok <==> uci_playable(*pos, crate::analysis::spec_uci_string(*uci)),
        r matches Ok(m) ==> m == move_of(*pos, crate::analysis::spec_uci_string(*uci))
            && move_legal_in(m, *pos),
{
    let m = match *uci {
        Uci::Normal { from, to, promotion } => shakmaty::uci::UciMove::Normal {
            from: shakmaty::Square::new(from as u32),
            to: shakmaty::Square::new(to as u32),
            promotion: promotion.map(promotable_role),
        },
        Uci::Put { to, role } => shakmaty::uci::UciMove::Put {
            role: droppable_role(role),
            to: shakmaty::Square::new(to as u32),
        },
        Uci::Null => shakmaty::uci::UciMove::Null,
    };
    m.to_move(pos).map_err(|_| ())
}

/// Relies on `shakmaty::san::SanPlus::from_move_and_play_unchecked`: writes
/// the move in standard algebraic notation for the position before the move,
/// then plays it on the position. Playing an illegal move may corrupt the
/// position or panic, so a caller must hold a move this position resolved.
#[verifier::external_body]
pub fn san_and_play(pos: &mut shakmaty::variant::VariantPosition, m: shakmaty::Move) -> (r:
    String)
    requires
        move_legal_in(m, *old(pos)),
    ensures
        r@ == san_of(*old(pos), m),
        *final(pos) == played_position(*old(pos), m),
{
    shakmaty::san::SanPlus::from_move_and_play_unchecked(pos, m).to_string()
}

/// Relies on `shakmaty::fen::Fen::from_position`: the FEN text of the
/// position, pockets and promoted pieces included.
#[verifier::external_body]
pub fn fen_of(pos: &shakmaty::variant::VariantPosition) -> (r: String)
    ensures
        r@ == fen_text_of(*pos),
{
    shakmaty::fen::Fen::from_position(pos, shakmaty::EnPassantMode::Legal).to_string()
}

/// Relies on `shakmaty::Position::to_setup`: the setup of the position.
#[verifier::external_body]
pub fn setup_of(pos: &shakmaty::variant::VariantPosition) -> (r: shakmaty::Setup)
    ensures
        r == setup_from(*pos),
{
    pos.to_setup(shakmaty::EnPassantMode::Legal)
}

/// Relies on `shakmaty::fen::Epd`: the first four FEN fields of the setup,
/// with pockets and check counters cleared first, as the opening table keys
/// positions.
#[verifier::external_body]
pub fn epd_of(setup: &shakmaty::Setup) -> (r: String)
    ensures
        r@ == epd_of_setup(*setup),
{
    let mut s = setup.clone();
    s.pockets = None;
    s.remaining_checks = None;
    shakmaty::fen::Epd::try_from_setup(s).unwrap_or_else(shakmaty::fen::LossyFenError::ignore)
        .to_string()
}

} // verus!
