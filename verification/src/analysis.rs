//! The chess analysis responder: opening lookup, legal-destination
//! computation and move or drop application over a fixed set of variants.
//! All requests are pure: given the inputs and the opening table they
//! deterministically produce an output. The chessboard library works behind
//! the trusted boundary in `chess`; everything computed here from plain
//! values (square encodings, the destination string, the ply) is verified.
use vstd::prelude::*;

use crate::chess;
use crate::text::{byte_char, push_char, string_of_chars};

verus! {

/// A chess variant as the engine distinguishes them.
#[derive(Debug, Copy, Clone, PartialEq, Eq, Structural)]
pub enum Variant {
    Chess,
    Antichess,
    KingOfTheHill,
    ThreeCheck,
    Atomic,
    Horde,
    RacingKings,
    Crazyhouse,
}

/// A variant name as the browser protocol spells them.
#[derive(Debug, Copy, Clone, PartialEq, Eq, Structural)]
pub enum VariantKey {
    Standard,
    FromPosition,
    Chess960,
    Antichess,
    KingOfTheHill,
    ThreeCheck,
    Atomic,
    Horde,
    RacingKings,
    Crazyhouse,
}

pub open spec fn spec_variant_of(k: VariantKey) -> Variant {
    match k {
        VariantKey::Standard => Variant::Chess,
        VariantKey::FromPosition => Variant::Chess,
        VariantKey::Chess960 => Variant::Chess,
        VariantKey::Antichess => Variant::Antichess,
        VariantKey::KingOfTheHill => Variant::KingOfTheHill,
        VariantKey::ThreeCheck => Variant::ThreeCheck,
        VariantKey::Atomic => Variant::Atomic,
        VariantKey::Horde => Variant::Horde,
        VariantKey::RacingKings => Variant::RacingKings,
        VariantKey::Crazyhouse => Variant::Crazyhouse,
    }
}

/// The variant of a request, defaulting to standard chess.
pub open spec fn spec_request_variant(k: Option<VariantKey>) -> Variant {
    match k {
        Some(key) => spec_variant_of(key),
        None => Variant::Chess,
    }
}

impl VariantKey {
    pub fn to_variant(self) -> (r: Variant)
        ensures
            r == spec_variant_of(self),
    {
        match self {
            VariantKey::Standard => Variant::Chess,
            VariantKey::FromPosition => Variant::Chess,
            VariantKey::Chess960 => Variant::Chess,
            VariantKey::Antichess => Variant::Antichess,
            VariantKey::KingOfTheHill => Variant::KingOfTheHill,
            VariantKey::ThreeCheck => Variant::ThreeCheck,
            VariantKey::Atomic => Variant::Atomic,
            VariantKey::Horde => Variant::Horde,
            VariantKey::RacingKings => Variant::RacingKings,
            VariantKey::Crazyhouse => Variant::Crazyhouse,
        }
    }
}

pub fn request_variant(k: &Option<VariantKey>) -> (r: Variant)
    ensures
        r == spec_request_variant(*k),
{
    match k {
        Some(key) => key.to_variant(),
        None => Variant::Chess,
    }
}

/// Openings are looked up only for variants that share standard opening
/// theory.
pub open spec fn spec_opening_sensible(v: Variant) -> bool {
    v == Variant::Chess || v == Variant::Crazyhouse || v == Variant::ThreeCheck || v
        == Variant::KingOfTheHill
}

pub fn is_opening_sensible(v: Variant) -> (r: bool)
    ensures
        r == spec_opening_sensible(v),
{
    match v {
        Variant::Chess => true,
        Variant::Crazyhouse => true,
        Variant::ThreeCheck => true,
        Variant::KingOfTheHill => true,
        _ => false,
    }
}

#[derive(Debug, Copy, Clone, PartialEq, Eq, Structural)]
pub enum PromotableRole {
    Knight,
    Bishop,
    Rook,
    Queen,
    King,
}

#[derive(Debug, Copy, Clone, PartialEq, Eq, Structural)]
pub enum DroppableRole {
    Pawn,
    Knight,
    Bishop,
    Rook,
    Queen,
}

/// A move in coordinate notation: squares are indexes 0 (a1) to 63 (h8).
#[derive(Debug, Copy, Clone, PartialEq, Eq, Structural)]
pub enum Uci {
    Normal { from: u8, to: u8, promotion: Option<PromotableRole> },
    Put { to: u8, role: DroppableRole },
    Null,
}

impl Uci {
    pub open spec fn wf(&self) -> bool {
        match *self {
            Uci::Normal { from, to, promotion } => from < 64 && to < 64,
            Uci::Put { to, role } => to < 64,
            Uci::Null => true,
        }
    }
}

/// The compact square encoding: square index plus 35.
pub open spec fn spec_square_id(sq: int) -> char {
    (sq + 35) as char
}

fn square_id(sq: u8) -> (c: char)
    requires
        sq < 64,
    ensures
        c == spec_square_id(sq as int),
{
    byte_char(sq + 35)
}

pub open spec fn spec_promo_rank(r: PromotableRole) -> int {
    match r {
        PromotableRole::Queen => 0,
        PromotableRole::Rook => 1,
        PromotableRole::Bishop => 2,
        PromotableRole::Knight => 3,
        PromotableRole::King => 4,
    }
}

/// A promotion is encoded from its destination file and the promoted role.
pub open spec fn spec_promotion_id(file: int, r: PromotableRole) -> char {
    (35 + 64 + spec_promo_rank(r) * 8 + file) as char
}

fn promotion_id(file: u8, r: PromotableRole) -> (c: char)
    requires
        file < 8,
    ensures
        c == spec_promotion_id(file as int, r),
{
    let rank: u8 = match r {
        PromotableRole::Queen => 0,
        PromotableRole::Rook => 1,
        PromotableRole::Bishop => 2,
        PromotableRole::Knight => 3,
        PromotableRole::King => 4,
    };
    byte_char(35 + 64 + rank * 8 + file)
}

pub open spec fn spec_drop_rank(r: DroppableRole) -> int {
    match r {
        DroppableRole::Queen => 0,
        DroppableRole::Rook => 1,
        DroppableRole::Bishop => 2,
        DroppableRole::Knight => 3,
        DroppableRole::Pawn => 4,
    }
}

/// A drop is encoded from the dropped role alone.
pub open spec fn spec_drop_role_id(r: DroppableRole) -> char {
    (35 + 64 + 40 + spec_drop_rank(r)) as char
}

fn drop_role_id(r: DroppableRole) -> (c: char)
    ensures
        c == spec_drop_role_id(r),
{
    let rank: u8 = match r {
        DroppableRole::Queen => 0,
        DroppableRole::Rook => 1,
        DroppableRole::Bishop => 2,
        DroppableRole::Knight => 3,
        DroppableRole::Pawn => 4,
    };
    byte_char(35 + 64 + 40 + rank)
}

/// The two-character move id sent to the browser.
pub open spec fn spec_uci_char_pair(u: Uci) -> Seq<char> {
    match u {
        Uci::Normal { from, to, promotion } => match promotion {
            None => seq![spec_square_id(from as int), spec_square_id(to as int)],
            Some(r) => seq![
                spec_square_id(from as int),
                spec_promotion_id(to as int % 8, r),
            ],
        },
        Uci::Put { to, role } => seq![spec_square_id(to as int), spec_drop_role_id(role)],
        Uci::Null => seq!['#', '#'],
    }
}

pub fn uci_char_pair(u: &Uci) -> (s: String)
    requires
        u.wf(),
    ensures
        s@ == spec_uci_char_pair(*u),
{
    let mut s = String::new();
    match *u {
        Uci::Normal { from, to, promotion } => {
            push_char(&mut s, square_id(from));
            match promotion {
                None => push_char(&mut s, square_id(to)),
                Some(r) => push_char(&mut s, promotion_id(to % 8, r)),
            }
        },
        Uci::Put { to, role } => {
            push_char(&mut s, square_id(to));
            push_char(&mut s, drop_role_id(role));
        },
        Uci::Null => {
            push_char(&mut s, '#');
            push_char(&mut s, '#');
        },
    }
    proof {
        assert(s@ =~= spec_uci_char_pair(*u));
    }
    s
}

/// One printable character for a square index: `a`..`z`, then `A`..`Z`,
/// then `0`..`9`, then `!` and `?`.
pub open spec fn spec_piotr(sq: int) -> char {
    if sq < 26 {
        ('a' as int + sq) as char
    } else if sq < 52 {
        ('A' as int + (sq - 26)) as char
    } else if sq < 62 {
        ('0' as int + (sq - 52)) as char
    } else if sq == 62 {
        '!'
    } else {
        '?'
    }
}

pub fn piotr(sq: u8) -> (c: char)
    requires
        sq < 64,
    ensures
        c == spec_piotr(sq as int),
{
    if sq < 26 {
        byte_char(97 + sq)
    } else if sq < 52 {
        byte_char(65 + (sq - 26))
    } else if sq < 62 {
        byte_char(48 + (sq - 52))
    } else if sq == 62 {
        '!'
    } else {
        '?'
    }
}

/// A square's coordinate name, `a1` to `h8`.
pub open spec fn spec_square_name(sq: int) -> Seq<char> {
    seq![('a' as int + sq % 8) as char, ('1' as int + sq / 8) as char]
}

pub fn square_name(sq: u8) -> (s: [char; 2])
    requires
        sq < 64,
    ensures
        s@ == spec_square_name(sq as int),
{
    let s = [byte_char(97 + sq % 8), byte_char(49 + sq / 8)];
    proof {
        assert(s@ =~= spec_square_name(sq as int));
    }
    s
}

/// A coordinate name read back as a square index.
pub open spec fn spec_parse_square(s: Seq<char>) -> Option<int> {
    if s.len() == 2 && 'a' <= s[0] && s[0] <= 'h' && '1' <= s[1] && s[1] <= '8' {
        Some((s[0] as int - 'a' as int) + 8 * (s[1] as int - '1' as int))
    } else {
        None
    }
}

pub fn parse_square(s: &str) -> (r: Option<u8>)
    ensures
        match r {
            Some(sq) => spec_parse_square(s@) == Some(sq as int) && sq < 64,
            None => spec_parse_square(s@) is None,
        },
{
    let n = s.unicode_len();
    if n != 2 {
        return None;
    }
    let f = s.get_char(0);
    let k = s.get_char(1);
    if 'a' <= f && f <= 'h' && '1' <= k && k <= '8' {
        Some(((f as u32 - 'a' as u32) + 8 * (k as u32 - '1' as u32)) as u8)
    } else {
        None
    }
}

pub open spec fn spec_promo_char(r: PromotableRole) -> char {
    match r {
        PromotableRole::Queen => 'q',
        PromotableRole::Rook => 'r',
        PromotableRole::Bishop => 'b',
        PromotableRole::Knight => 'n',
        PromotableRole::King => 'k',
    }
}

pub open spec fn spec_drop_char(r: DroppableRole) -> char {
    match r {
        DroppableRole::Queen => 'Q',
        DroppableRole::Rook => 'R',
        DroppableRole::Bishop => 'B',
        DroppableRole::Knight => 'N',
        DroppableRole::Pawn => 'P',
    }
}

/// The long coordinate text of a move: `e2e4`, `b7c8q`, `P@e4`, `0000`.
pub open spec fn spec_uci_string(u: Uci) -> Seq<char> {
    match u {
        Uci::Normal { from, to, promotion } => spec_square_name(from as int)
            + spec_square_name(to as int) + match promotion {
            Some(r) => seq![spec_promo_char(r)],
            None => Seq::empty(),
        },
        Uci::Put { to, role } => seq![spec_drop_char(role), '@'] + spec_square_name(
            to as int,
        ),
        Uci::Null => seq!['0', '0', '0', '0'],
    }
}

pub fn uci_string(u: &Uci) -> (s: String)
    requires
        u.wf(),
    ensures
        s@ == spec_uci_string(*u),
{
    let mut s = String::new();
    match *u {
        Uci::Normal { from, to, promotion } => {
            let fs = square_name(from);
            let ts = square_name(to);
            push_char(&mut s, fs[0]);
            push_char(&mut s, fs[1]);
            push_char(&mut s, ts[0]);
            push_char(&mut s, ts[1]);
            match promotion {
                Some(r) => {
                    let c = match r {
                        PromotableRole::Queen => 'q',
                        PromotableRole::Rook => 'r',
                        PromotableRole::Bishop => 'b',
                        PromotableRole::Knight => 'n',
                        PromotableRole::King => 'k',
                    };
                    push_char(&mut s, c);
                },
                None => {},
            }
        },
        Uci::Put { to, role } => {
            let c = match role {
                DroppableRole::Queen => 'Q',
                DroppableRole::Rook => 'R',
                DroppableRole::Bishop => 'B',
                DroppableRole::Knight => 'N',
                DroppableRole::Pawn => 'P',
            };
            push_char(&mut s, c);
            push_char(&mut s, '@');
            let ts = square_name(to);
            push_char(&mut s, ts[0]);
            push_char(&mut s, ts[1]);
        },
        Uci::Null => {
            push_char(&mut s, '0');
            push_char(&mut s, '0');
            push_char(&mut s, '0');
            push_char(&mut s, '0');
        },
    }
    proof {
        assert(s@ =~= spec_uci_string(*u));
    }
    s
}

/// The destinations reachable from one origin square, in move-list order.
pub open spec fn tos_of(moves: Seq<(Option<u8>, u8)>, sq: u8) -> Seq<char>
    decreases moves.len(),
{
    if moves.len() == 0 {
        Seq::empty()
    } else {
        let rest = tos_of(moves.drop_first(), sq);
        if moves[0].0 == Some(sq) {
            seq![spec_piotr(moves[0].1 as int)] + rest
        } else {
            rest
        }
    }
}

/// One group per origin square that has at least one move: the origin's
/// encoding followed by its destinations.
pub open spec fn group_strs(own: Seq<u8>, moves: Seq<(Option<u8>, u8)>) -> Seq<Seq<char>>
    decreases own.len(),
{
    if own.len() == 0 {
        Seq::empty()
    } else {
        let tos = tos_of(moves, own[0]);
        let rest = group_strs(own.drop_first(), moves);
        if tos.len() == 0 {
            rest
        } else {
            seq![seq![spec_piotr(own[0] as int)] + tos] + rest
        }
    }
}

/// Groups joined with single spaces.
pub open spec fn join_space(gs: Seq<Seq<char>>) -> Seq<char>
    decreases gs.len(),
{
    if gs.len() == 0 {
        Seq::empty()
    } else if gs.len() == 1 {
        gs[0]
    } else {
        gs[0] + seq![' '] + join_space(gs.drop_first())
    }
}

/// The movable-squares string: origin squares in board order, each followed
/// by its legal destinations, groups separated by spaces.
pub open spec fn spec_dests(own: Seq<u8>, moves: Seq<(Option<u8>, u8)>) -> Seq<char> {
    join_space(group_strs(own, moves))
}

proof fn lemma_tos_snoc(moves: Seq<(Option<u8>, u8)>, m: (Option<u8>, u8), sq: u8)
    ensures
        tos_of(moves.push(m), sq) == tos_of(moves, sq) + if m.0 == Some(sq) {
            seq![spec_piotr(m.1 as int)]
        } else {
            Seq::<char>::empty()
        },
    decreases moves.len(),
{
    reveal_with_fuel(tos_of, 3);
    let ext = if m.0 == Some(sq) {
        seq![spec_piotr(m.1 as int)]
    } else {
        Seq::<char>::empty()
    };
    if moves.len() == 0 {
        assert(moves.push(m)[0] == m);
        assert(moves.push(m).drop_first() =~= Seq::<(Option<u8>, u8)>::empty());
        assert(tos_of(moves.push(m), sq) =~= tos_of(moves, sq) + ext);
    } else {
        lemma_tos_snoc(moves.drop_first(), m, sq);
        assert(moves.push(m)[0] == moves[0]);
        assert(moves.push(m).len() == moves.len() + 1);
        assert(moves.push(m).drop_first() =~= moves.drop_first().push(m));
        if moves[0].0 == Some(sq) {
            assert(tos_of(moves, sq) == seq![spec_piotr(moves[0].1 as int)] + tos_of(
                moves.drop_first(),
                sq,
            ));
            assert(tos_of(moves.push(m), sq) == seq![spec_piotr(moves[0].1 as int)] + tos_of(
                moves.drop_first().push(m),
                sq,
            ));
            assert(tos_of(moves.push(m), sq) == seq![spec_piotr(moves[0].1 as int)] + (tos_of(
                moves.drop_first(),
                sq,
            ) + ext));
            assert(seq![spec_piotr(moves[0].1 as int)] + (tos_of(moves.drop_first(), sq) + ext)
                =~= (seq![spec_piotr(moves[0].1 as int)] + tos_of(moves.drop_first(), sq))
                + ext);
        } else {
            assert(tos_of(moves, sq) == tos_of(moves.drop_first(), sq));
            assert(tos_of(moves.push(m), sq) == tos_of(moves.drop_first().push(m), sq));
        }
        assert(tos_of(moves.push(m), sq) =~= tos_of(moves, sq) + ext);
    }
}

proof fn lemma_group_snoc(own: Seq<u8>, moves: Seq<(Option<u8>, u8)>, sq: u8)
    ensures
        group_strs(own.push(sq), moves) == group_strs(own, moves) + if tos_of(moves, sq).len()
            == 0 {
            Seq::<Seq<char>>::empty()
        } else {
            seq![seq![spec_piotr(sq as int)] + tos_of(moves, sq)]
        },
    decreases own.len(),
{
    reveal_with_fuel(group_strs, 3);
    let ext = if tos_of(moves, sq).len() == 0 {
        Seq::<Seq<char>>::empty()
    } else {
        seq![seq![spec_piotr(sq as int)] + tos_of(moves, sq)]
    };
    if own.len() == 0 {
        assert(own.push(sq)[0] == sq);
        assert(own.push(sq).drop_first() =~= Seq::<u8>::empty());
        assert(group_strs(own.push(sq), moves) =~= group_strs(own, moves) + ext);
    } else {
        lemma_group_snoc(own.drop_first(), moves, sq);
        assert(own.push(sq)[0] == own[0]);
        assert(own.push(sq).len() == own.len() + 1);
        assert(own.push(sq).drop_first() =~= own.drop_first().push(sq));
        if tos_of(moves, own[0]).len() != 0 {
            let g0 = seq![seq![spec_piotr(own[0] as int)] + tos_of(moves, own[0])];
            assert(group_strs(own, moves) == g0 + group_strs(own.drop_first(), moves));
            assert(group_strs(own.push(sq), moves) == g0 + group_strs(
                own.drop_first().push(sq),
                moves,
            ));
            assert(group_strs(own.push(sq), moves) == g0 + (group_strs(own.drop_first(), moves)
                + ext));
            assert(g0 + (group_strs(own.drop_first(), moves) + ext) =~= (g0 + group_strs(
                own.drop_first(),
                moves,
            )) + ext);
        } else {
            assert(group_strs(own, moves) == group_strs(own.drop_first(), moves));
            assert(group_strs(own.push(sq), moves) == group_strs(
                own.drop_first().push(sq),
                moves,
            ));
        }
        assert(group_strs(own.push(sq), moves) =~= group_strs(own, moves) + ext);
    }
}

proof fn lemma_join_snoc(gs: Seq<Seq<char>>, g: Seq<char>)
    ensures
        join_space(gs.push(g)) == if gs.len() == 0 {
            g
        } else {
            join_space(gs) + seq![' '] + g
        },
    decreases gs.len(),
{
    reveal_with_fuel(join_space, 3);
    if gs.len() == 0 {
        assert(gs.push(g) =~= seq![g]);
        assert(join_space(gs.push(g)) =~= g);
    } else if gs.len() == 1 {
        assert(gs.push(g)[0] == gs[0]);
        assert(gs.push(g).drop_first() =~= seq![g]);
        assert(join_space(gs.push(g)) =~= join_space(gs) + seq![' '] + g);
    } else {
        lemma_join_snoc(gs.drop_first(), g);
        assert(gs.push(g)[0] == gs[0]);
        assert(gs.push(g).len() == gs.len() + 1);
        assert(gs.push(g).drop_first() =~= gs.drop_first().push(g));
        assert(join_space(gs) == gs[0] + seq![' '] + join_space(gs.drop_first()));
        assert(join_space(gs.push(g)) == gs[0] + seq![' '] + join_space(
            gs.drop_first().push(g),
        ));
        assert(join_space(gs.push(g)) == gs[0] + seq![' '] + (join_space(gs.drop_first())
            + seq![' '] + g));
        assert(gs[0] + seq![' '] + (join_space(gs.drop_first()) + seq![' '] + g) =~= (gs[0]
            + seq![' '] + join_space(gs.drop_first())) + seq![' '] + g);
        assert(join_space(gs.push(g)) =~= join_space(gs) + seq![' '] + g);
    }
}

/// Builds the destination string from the origin squares and the legal
/// moves.
#[verifier::loop_isolation(false)]
pub fn dests_string(own: &Vec<u8>, moves: &Vec<(Option<u8>, u8)>) -> (s: String)
    requires
        forall|i: int| 0 <= i < own@.len() ==> #[trigger] own@[i] < 64,
        forall|i: int|
            0 <= i < moves@.len() ==> (#[trigger] moves@[i]).1 < 64,
    ensures
        s@ == spec_dests(own@, moves@),
{
    let mut s = String::new();
    let mut first = true;
    let ghost mut gs: Seq<Seq<char>> = Seq::empty();
    let mut i: usize = 0;
    proof {
        assert(own@.subrange(0, 0) =~= Seq::<u8>::empty());
    }
    while i < own.len()
        invariant
            i <= own@.len(),
            gs == group_strs(own@.subrange(0, i as int), moves@),
            first <==> gs.len() == 0,
            s@ == join_space(gs),
        decreases own@.len() - i,
    {
        let sq = own[i];
        let mut tos: Vec<char> = Vec::new();
        let mut k: usize = 0;
        proof {
            assert(moves@.subrange(0, 0) =~= Seq::<(Option<u8>, u8)>::empty());
        }
        while k < moves.len()
            invariant
                k <= moves@.len(),
                tos@ == tos_of(moves@.subrange(0, k as int), sq),
            decreases moves@.len() - k,
        {
            let (from, to) = moves[k];
            let is_from = match from {
                Some(f) => f == sq,
                None => false,
            };
            if is_from {
                tos.push(piotr(to));
            }
            k += 1;
            proof {
                assert(moves@.subrange(0, k as int).drop_last() =~= moves@.subrange(
                    0,
                    k - 1,
                ));
                lemma_tos_snoc(moves@.subrange(0, k - 1), moves@[k - 1], sq);
                assert(moves@.subrange(0, k - 1).push(moves@[k - 1]) =~= moves@.subrange(
                    0,
                    k as int,
                ));
            }
        }
        proof {
            assert(moves@.subrange(0, moves@.len() as int) =~= moves@);
        }
        if tos.len() > 0 {
            if !first {
                push_char(&mut s, ' ');
            }
            push_char(&mut s, piotr(sq));
            let mut t: usize = 0;
            let ghost base = s@;
            while t < tos.len()
                invariant
                    t <= tos@.len(),
                    s@ == base + tos@.subrange(0, t as int),
                decreases tos@.len() - t,
            {
                push_char(&mut s, tos[t]);
                t += 1;
                proof {
                    assert(base + tos@.subrange(0, t - 1) + seq![tos@[t - 1]] =~= base
                        + tos@.subrange(0, t as int));
                }
            }
            proof {
                assert(tos@.subrange(0, tos@.len() as int) =~= tos@);
            }
            first = false;
            proof {
                let g = seq![spec_piotr(sq as int)] + tos@;
                lemma_join_snoc(gs, g);
                if gs.len() == 0 {
                    assert(s@ =~= g);
                } else {
                    assert(s@ =~= join_space(gs) + seq![' '] + g);
                }
                gs = gs.push(g);
            }
        }
        i += 1;
        proof {
            lemma_group_snoc(own@.subrange(0, i - 1), moves@, sq);
            assert(own@.subrange(0, i - 1).push(sq) =~= own@.subrange(0, i as int));
        }
    }
    proof {
        assert(own@.subrange(0, own@.len() as int) =~= own@);
    }
    s
}

/// The squares where a blocking drop may land, written as concatenated
/// coordinate names.
pub open spec fn spec_squares_concat(v: Seq<u8>) -> Seq<char>
    decreases v.len(),
{
    if v.len() == 0 {
        Seq::empty()
    } else {
        spec_squares_concat(v.drop_last()) + spec_square_name(v.last() as int)
    }
}

#[verifier::loop_isolation(false)]
pub fn squares_concat(v: &Vec<u8>) -> (s: String)
    requires
        forall|i: int| 0 <= i < v@.len() ==> #[trigger] v@[i] < 64,
    ensures
        s@ == spec_squares_concat(v@),
{
    let mut s = String::new();
    let mut i: usize = 0;
    proof {
        assert(v@.subrange(0, 0) =~= Seq::<u8>::empty());
    }
    while i < v.len()
        invariant
            i <= v@.len(),
            s@ == spec_squares_concat(v@.subrange(0, i as int)),
        decreases v@.len() - i,
    {
        let name = square_name(v[i]);
        push_char(&mut s, name[0]);
        push_char(&mut s, name[1]);
        i += 1;
        proof {
            assert(v@.subrange(0, i as int).drop_last() =~= v@.subrange(0, i - 1));
            assert(s@ =~= spec_squares_concat(v@.subrange(0, i as int)));
        }
    }
    proof {
        assert(v@.subrange(0, v@.len() as int) =~= v@);
    }
    s
}

/// The half-move count of a position: two per completed full move, plus one
/// when black is to move. Saturates at the integer limit.
pub open spec fn spec_ply(fullmoves: int, black: bool) -> int {
    (fullmoves - 1) * 2 + if black {
        1int
    } else {
        0int
    }
}

pub fn ply_of(fullmoves: u32, black: bool) -> (r: u32)
    requires
        fullmoves >= 1,
    ensures
        spec_ply(fullmoves as int, black) <= u32::MAX ==> r == spec_ply(
            fullmoves as int,
            black,
        ),
        spec_ply(fullmoves as int, black) > u32::MAX ==> r == u32::MAX,
{
    let add: u64 = if black {
        1
    } else {
        0
    };
    let base: u64 = (fullmoves as u64 - 1) * 2 + add;
    if base > 0xffff_ffff {
        u32::MAX
    } else {
        base as u32
    }
}

/// An opening name with its classification code.
#[derive(Debug)]
pub struct Opening {
    pub eco: String,
    pub name: String,
}

impl Opening {
    pub fn clone_opening(&self) -> (r: Opening)
        ensures
            r.eco@ == self.eco@,
            r.name@ == self.name@,
    {
        Opening { eco: self.eco.clone(), name: self.name.clone() }
    }
}

/// The opening table: positions keyed by their EPD (the first four FEN
/// fields). Loaded once at startup and read-only afterwards.
pub struct OpeningDb {
    entries: Vec<(String, Opening)>,
}

/// First entry with the given key.
pub open spec fn db_lookup(entries: Seq<(Seq<char>, (Seq<char>, Seq<char>))>, k: Seq<char>) ->
    Option<(Seq<char>, Seq<char>)>
    decreases entries.len(),
{
    if entries.len() == 0 {
        None
    } else if entries[0].0 == k {
        Some(entries[0].1)
    } else {
        db_lookup(entries.drop_first(), k)
    }
}

impl OpeningDb {
    pub closed spec fn view(&self) -> Seq<(Seq<char>, (Seq<char>, Seq<char>))> {
        self.entries@.map_values(
            |e: (String, Opening)| (e.0@, (e.1.eco@, e.1.name@)),
        )
    }

    pub fn new() -> (r: OpeningDb)
        ensures
            r@ == Seq::<(Seq<char>, (Seq<char>, Seq<char>))>::empty(),
    {
        let r = OpeningDb { entries: Vec::new() };
        proof {
            assert(r@ =~= Seq::<(Seq<char>, (Seq<char>, Seq<char>))>::empty());
        }
        r
    }

    pub fn add(&mut self, epd: String, eco: String, name: String)
        ensures
            final(self)@ == old(self)@.push((epd@, (eco@, name@))),
    {
        self.entries.push((epd, Opening { eco, name }));
        proof {
            assert(self@ =~= old(self)@.push(
                (self.entries@.last().0@, (self.entries@.last().1.eco@,
                self.entries@.last().1.name@)),
            ));
        }
    }

    /// Finds the first opening recorded for this EPD.
    #[verifier::loop_isolation(false)]
    pub fn lookup<'a>(&'a self, epd: &str) -> (r: Option<&'a Opening>)
        ensures
            match r {
                Some(op) => db_lookup(self@, epd@) == Some((op.eco@, op.name@)),
                None => db_lookup(self@, epd@) is None,
            },
    {
        let mut i: usize = 0;
        while i < self.entries.len()
            invariant
                i <= self.entries@.len(),
                forall|q: int| 0 <= q < i ==> #[trigger] self.entries@[q].0@ != epd@,
            decreases self.entries@.len() - i,
        {
            if crate::model::str_eq(self.entries[i].0.as_str(), epd) {
                proof {
                    lemma_db_lookup_at(self@, epd@, i as int);
                }
                return Some(&self.entries[i].1);
            }
            i += 1;
        }
        proof {
            lemma_db_lookup_none(self@, epd@);
        }
        None
    }
}

proof fn lemma_db_lookup_at(
    entries: Seq<(Seq<char>, (Seq<char>, Seq<char>))>,
    k: Seq<char>,
    i: int,
)
    requires
        0 <= i < entries.len(),
        forall|q: int| 0 <= q < i ==> entries[q].0 != k,
        entries[i].0 == k,
    ensures
        db_lookup(entries, k) == Some(entries[i].1),
    decreases i,
{
    if i > 0 {
        lemma_db_lookup_at(entries.drop_first(), k, i - 1);
    }
}

proof fn lemma_db_lookup_none(entries: Seq<(Seq<char>, (Seq<char>, Seq<char>))>, k: Seq<char>)
    requires
        forall|q: int| 0 <= q < entries.len() ==> entries[q].0 != k,
    ensures
        db_lookup(entries, k) is None,
    decreases entries.len(),
{
    if entries.len() > 0 {
        lemma_db_lookup_none(entries.drop_first(), k);
    }
}

/// Pocket piece counts for one side in crazyhouse.
#[derive(Debug, Copy, Clone, PartialEq, Eq, Structural)]
pub struct CrazyPocket {
    pub pawn: u8,
    pub knight: u8,
    pub bishop: u8,
    pub rook: u8,
    pub queen: u8,
}

impl CrazyPocket {
    pub open spec fn spec_is_empty(&self) -> bool {
        self.pawn == 0 && self.knight == 0 && self.bishop == 0 && self.rook == 0 && self.queen
            == 0
    }

    pub fn is_empty(&self) -> (r: bool)
        ensures
            r == self.spec_is_empty(),
    {
        self.pawn == 0 && self.knight == 0 && self.bishop == 0 && self.rook == 0 && self.queen
            == 0
    }
}

/// Both pockets of a crazyhouse position.
#[derive(Debug, Copy, Clone, PartialEq, Eq, Structural)]
pub struct CrazyData {
    pub white: CrazyPocket,
    pub black: CrazyPocket,
}

pub open spec fn opt_str_view(o: Option<String>) -> Option<Seq<char>> {
    match o {
        Some(s) => Some(s@),
        None => None,
    }
}

/// The setup a request's FEN yields after the castling clean-up.
pub open spec fn spec_fixed_setup(variant: Variant, fen: Seq<char>) -> shakmaty::Setup {
    if variant == Variant::RacingKings {
        chess::cleared_setup(chess::parsed_setup(fen))
    } else {
        chess::filtered_setup(chess::parsed_setup(fen))
    }
}

/// Whether a request's FEN parses and yields a legal position of the
/// variant after the castling clean-up.
pub open spec fn spec_position_ready(variant: Variant, fen: Seq<char>) -> bool {
    chess::fen_ok(fen) && chess::position_ok(variant, spec_fixed_setup(variant, fen))
}

/// The position a ready request works on.
pub open spec fn spec_request_position(variant: Variant, fen: Seq<char>) -> shakmaty::variant::VariantPosition {
    chess::position_of(variant, spec_fixed_setup(variant, fen))
}

/// The destination string of a position.
pub open spec fn spec_dests_of(pos: shakmaty::variant::VariantPosition) -> Seq<char> {
    spec_dests(chess::own_squares_of(pos), chess::legal_moves_of(pos))
}

/// The opening recorded for a setup, when the variant shares opening theory.
pub open spec fn spec_opening_at(
    dbv: Seq<(Seq<char>, (Seq<char>, Seq<char>))>,
    variant: Variant,
    st: shakmaty::Setup,
) -> Option<(Seq<char>, Seq<char>)> {
    if spec_opening_sensible(variant) {
        db_lookup(dbv, chess::epd_of_setup(st))
    } else {
        None
    }
}

/// Whether the side to move's pocket is empty or absent.
pub open spec fn spec_pocket_empty(
    pc: Option<((u8, u8, u8, u8, u8), (u8, u8, u8, u8, u8))>,
    black: bool,
) -> bool {
    match pc {
        Some(p) => {
            let side = if black {
                p.1
            } else {
                p.0
            };
            side.0 == 0 && side.1 == 0 && side.2 == 0 && side.3 == 0 && side.4 == 0
        },
        None => true,
    }
}

/// The blocking-drop string of a position: nothing unless the side to move
/// is in check with pocket material; the squares between the single checker
/// and the king; empty under double check (no drop blocks two lines).
pub open spec fn spec_drops(pos: shakmaty::variant::VariantPosition) -> Option<Seq<char>> {
    let checkers = chess::checkers_of(pos);
    if checkers.len() == 0 || spec_pocket_empty(
        chess::pockets_counts_of(pos),
        chess::turn_black_of(pos),
    ) {
        None
    } else if checkers.len() == 1 {
        match chess::king_sq_of(pos) {
            Some(k) => Some(spec_squares_concat(chess::between_of(checkers[0], k))),
            None => Some(Seq::empty()),
        }
    } else {
        Some(Seq::empty())
    }
}

/// The opening lookup request.
pub struct GetOpening {
    pub variant: Option<VariantKey>,
    pub path: String,
    pub fen: String,
}

pub struct OpeningResponse {
    pub path: String,
    pub opening: Opening,
}

impl GetOpening {
    /// Answers with the opening recorded for the given position, if the
    /// variant shares opening theory, the FEN parses, and the table knows
    /// the position.
    pub fn respond(self, db: &OpeningDb) -> (r: Option<OpeningResponse>)
        ensures
            r is Some <==> chess::fen_ok(self.fen@) && spec_opening_sensible(
                spec_request_variant(self.variant),
            ) && db_lookup(
                db@,
                chess::epd_of_setup(chess::parsed_setup(self.fen@)),
            ) is Some,
            r matches Some(resp) ==> resp.path@ == self.path@ && db_lookup(
                db@,
                chess::epd_of_setup(chess::parsed_setup(self.fen@)),
            ) == Some((resp.opening.eco@, resp.opening.name@)),
    {
        let variant = request_variant(&self.variant);
        match chess::parse_fen(self.fen.as_str()) {
            Some(setup) => {
                if is_opening_sensible(variant) {
                    let epd = chess::epd_of(&setup);
                    match db.lookup(epd.as_str()) {
                        Some(op) => {
                            let resp = OpeningResponse {
                                path: self.path,
                                opening: op.clone_opening(),
                            };
                            proof {
                                assert(db_lookup(db@, epd@) == Some(
                                    (resp.opening.eco@, resp.opening.name@),
                                ));
                            }
                            Some(resp)
                        },
                        None => None,
                    }
                } else {
                    None
                }
            },
            None => None,
        }
    }
}

/// The legal-destinations request.
pub struct GetDests {
    pub variant: Option<VariantKey>,
    pub fen: String,
    pub path: String,
    pub chapter_id: Option<String>,
}

pub struct DestsResponse {
    pub path: String,
    pub dests: String,
    pub drops: Option<String>,
    pub opening: Option<Opening>,
    pub chapter_id: Option<String>,
}

/// Discards castling rights a position cannot use: racing kings has none at
/// all, elsewhere unusable rights are dropped.
fn fix_castles(variant: Variant, setup: &mut shakmaty::Setup)
    ensures
        *final(setup) == (if variant == Variant::RacingKings {
            chess::cleared_setup(*old(setup))
        } else {
            chess::filtered_setup(*old(setup))
        }),
{
    if variant == Variant::RacingKings {
        chess::clear_castling(setup);
    } else {
        chess::filter_castles(setup);
    }
}

/// The opening for a position reached during analysis, if the variant is
/// sensible and the table knows it.
fn opening_for(db: &OpeningDb, variant: Variant, setup: &shakmaty::Setup) -> (r: Option<
    Opening,
>)
    ensures
        match r {
            Some(op) => spec_opening_at(db@, variant, *setup) == Some((op.eco@, op.name@)),
            None => spec_opening_at(db@, variant, *setup) is None,
        },
{
    if is_opening_sensible(variant) {
        let epd = chess::epd_of(setup);
        match db.lookup(epd.as_str()) {
            Some(op) => Some(op.clone_opening()),
            None => None,
        }
    } else {
        None
    }
}

/// The blocking-drop string: `None` when not in check or with an empty
/// pocket; the squares between the single checker and the king when there is
/// exactly one checker; empty (no drop helps) under double check.
fn drops_for(pos: &shakmaty::variant::VariantPosition) -> (r: Option<String>)
    ensures
        opt_str_view(r) == spec_drops(*pos),
{
    let checkers = chess::checker_squares(pos);
    let pocket_empty = match chess::pockets_of(pos) {
        Some(data) => {
            if chess::turn_is_black(pos) {
                data.black.is_empty()
            } else {
                data.white.is_empty()
            }
        },
        None => true,
    };
    if checkers.len() == 0 || pocket_empty {
        None
    } else if checkers.len() == 1 {
        match chess::king_of_turn(pos) {
            Some(king) => {
                let between = chess::between_squares(checkers[0], king);
                Some(squares_concat(&between))
            },
            None => Some(String::new()),
        }
    } else {
        Some(String::new())
    }
}

#[derive(Debug)]
pub enum StepFailure {
    ParseFenError,
    PositionError,
    IllegalMoveError,
}

impl GetDests {
    /// Computes the movable squares of the position, with drops, the opening
    /// and the chapter id carried through.
    pub fn respond(self, db: &OpeningDb) -> (r: Result<DestsResponse, StepFailure>)
        ensures
            r is Ok <==> spec_position_ready(spec_request_variant(self.variant), self.fen@),
            r matches Err(e) ==> (if !chess::fen_ok(self.fen@) {
                e is ParseFenError
            } else {
                e is PositionError
            }),
            r matches Ok(resp) ==> ({
                let v = spec_request_variant(self.variant);
                let p = spec_request_position(v, self.fen@);
                &&& resp.path@ == self.path@
                &&& opt_str_view(resp.chapter_id) == opt_str_view(self.chapter_id)
                &&& resp.dests@ == spec_dests_of(p)
                &&& opt_str_view(resp.drops) == spec_drops(p)
                &&& match resp.opening {
                    Some(op) => spec_opening_at(db@, v, spec_fixed_setup(v, self.fen@))
                        == Some((op.eco@, op.name@)),
                    None => spec_opening_at(db@, v, spec_fixed_setup(v, self.fen@)) is None,
                }
            }),
    {
        let variant = request_variant(&self.variant);
        match chess::parse_fen(self.fen.as_str()) {
            Some(mut setup) => {
                fix_castles(variant, &mut setup);
                match chess::position_for(&variant, &setup) {
                    Ok(pos) => {
                        let own = chess::own_squares(&pos);
                        let moves = chess::legal_moves_plain(&pos);
                        let dests = dests_string(&own, &moves);
                        let resp = DestsResponse {
                            path: self.path,
                            dests,
                            drops: drops_for(&pos),
                            opening: opening_for(db, variant, &setup),
                            chapter_id: self.chapter_id,
                        };
                        Ok(resp)
                    },
                    Err(_) => Err(StepFailure::PositionError),
                }
            },
            None => Err(StepFailure::ParseFenError),
        }
    }
}

/// A move request from the browser.
pub struct PlayMove {
    pub orig: u8,
    pub dest: u8,
    pub variant: Option<VariantKey>,
    pub fen: String,
    pub path: String,
    pub promotion: Option<PromotableRole>,
    pub chapter_id: Option<String>,
}

/// A drop request from the browser.
pub struct PlayDrop {
    pub role: DroppableRole,
    pub pos: u8,
    pub variant: Option<VariantKey>,
    pub fen: String,
    pub path: String,
    pub chapter_id: Option<String>,
}

/// A move or drop to apply to a position.
pub struct PlayStep {
    pub uci: Uci,
    pub variant: Option<VariantKey>,
    pub fen: String,
    pub path: String,
    pub chapter_id: Option<String>,
}

impl PlayStep {
    pub open spec fn wf(&self) -> bool {
        self.uci.wf()
    }

    pub fn from_move(d: PlayMove) -> (r: PlayStep)
        ensures
            r.uci == (Uci::Normal { from: d.orig, to: d.dest, promotion: d.promotion }),
            r.variant == d.variant,
            r.fen@ == d.fen@,
            r.path@ == d.path@,
            opt_str_view(r.chapter_id) == opt_str_view(d.chapter_id),
            d.orig < 64 && d.dest < 64 ==> r.wf(),
    {
        PlayStep {
            uci: Uci::Normal { from: d.orig, to: d.dest, promotion: d.promotion },
            variant: d.variant,
            fen: d.fen,
            path: d.path,
            chapter_id: d.chapter_id,
        }
    }

    pub fn from_drop(d: PlayDrop) -> (r: PlayStep)
        ensures
            r.uci == (Uci::Put { to: d.pos, role: d.role }),
            r.variant == d.variant,
            r.fen@ == d.fen@,
            r.path@ == d.path@,
            opt_str_view(r.chapter_id) == opt_str_view(d.chapter_id),
            d.pos < 64 ==> r.wf(),
    {
        PlayStep {
            uci: Uci::Put { to: d.pos, role: d.role },
            variant: d.variant,
            fen: d.fen,
            path: d.path,
            chapter_id: d.chapter_id,
        }
    }

    /// Applies the move to the position and describes the resulting node:
    /// the two-character id and long text of the move, the notation of the
    /// move, and the new position's fen, check state, destinations, drops,
    /// opening and pockets.
    pub fn respond(self, db: &OpeningDb) -> (r: Result<Node, StepFailure>)
        requires
            self.wf(),
        ensures
            r is Ok <==> spec_position_ready(spec_request_variant(self.variant), self.fen@)
                && chess::uci_playable(
                spec_request_position(spec_request_variant(self.variant), self.fen@),
                spec_uci_string(self.uci),
            ),
            r matches Err(e) ==> (if !chess::fen_ok(self.fen@) {
                e is ParseFenError
            } else if !chess::position_ok(
                spec_request_variant(self.variant),
                spec_fixed_setup(spec_request_variant(self.variant), self.fen@),
            ) {
                e is PositionError
            } else {
                e is IllegalMoveError
            }),
            r matches Ok(node) ==> ({
                let v = spec_request_variant(self.variant);
                let p0 = spec_request_position(v, self.fen@);
                let m = chess::move_of(p0, spec_uci_string(self.uci));
                let p1 = chess::played_position(p0, m);
                &&& node.path@ == self.path@
                &&& opt_str_view(node.chapter_id) == opt_str_view(self.chapter_id)
                &&& node.node.id@ == spec_uci_char_pair(self.uci)
                &&& node.node.uci@ == spec_uci_string(self.uci)
                &&& node.node.san@ == chess::san_of(p0, m)
                &&& node.node.fen@ == chess::fen_text_of(p1)
                &&& node.node.check == chess::is_check_of(p1)
                &&& (spec_ply(chess::fullmoves_of(p1) as int, chess::turn_black_of(p1))
                    <= u32::MAX ==> node.node.ply == spec_ply(
                    chess::fullmoves_of(p1) as int,
                    chess::turn_black_of(p1),
                ))
                &&& (spec_ply(chess::fullmoves_of(p1) as int, chess::turn_black_of(p1))
                    > u32::MAX ==> node.node.ply == u32::MAX)
                &&& node.node.dests@ == spec_dests_of(p1)
                &&& opt_str_view(node.node.drops) == spec_drops(p1)
                &&& match node.node.crazy {
                    Some(d) => chess::pockets_counts_of(p1) == Some(
                        (
                            (
                                d.white.pawn,
                                d.white.knight,
                                d.white.bishop,
                                d.white.rook,
                                d.white.queen,
                            ),
                            (
                                d.black.pawn,
                                d.black.knight,
                                d.black.bishop,
                                d.black.rook,
                                d.black.queen,
                            ),
                        ),
                    ),
                    None => chess::pockets_counts_of(p1) is None,
                }
                &&& match node.node.opening {
                    Some(op) => spec_opening_at(db@, v, chess::setup_from(p1)) == Some(
                        (op.eco@, op.name@),
                    ),
                    None => spec_opening_at(db@, v, chess::setup_from(p1)) is None,
                }
            }),
    {
        let variant = request_variant(&self.variant);
        match chess::parse_fen(self.fen.as_str()) {
            Some(mut setup) => {
                fix_castles(variant, &mut setup);
                match chess::position_for(&variant, &setup) {
                    Ok(mut pos) => {
                        match chess::uci_to_move(&pos, &self.uci) {
                            Ok(m) => {
                                let san = chess::san_and_play(&mut pos, m);
                                let after = chess::setup_of(&pos);
                                let own = chess::own_squares(&pos);
                                let moves = chess::legal_moves_plain(&pos);
                                let node = Branch {
                                    id: uci_char_pair(&self.uci),
                                    uci: uci_string(&self.uci),
                                    san,
                                    ply: ply_of(
                                        chess::fullmoves(&pos),
                                        chess::turn_is_black(&pos),
                                    ),
                                    fen: chess::fen_of(&pos),
                                    check: chess::is_check(&pos),
                                    dests: dests_string(&own, &moves),
                                    opening: opening_for(db, variant, &after),
                                    drops: drops_for(&pos),
                                    crazy: chess::pockets_of(&pos),
                                };
                                Ok(Node { node, path: self.path, chapter_id: self.chapter_id })
                            },
                            Err(_) => Err(StepFailure::IllegalMoveError),
                        }
                    },
                    Err(_) => Err(StepFailure::PositionError),
                }
            },
            None => Err(StepFailure::ParseFenError),
        }
    }
}

/// One analysis step as sent to the browser.
pub struct Branch {
    pub id: String,
    pub uci: String,
    pub san: String,
    pub ply: u32,
    pub fen: String,
    pub check: bool,
    pub dests: String,
    pub opening: Option<Opening>,
    pub drops: Option<String>,
    pub crazy: Option<CrazyData>,
}

pub struct Node {
    pub node: Branch,
    pub path: String,
    pub chapter_id: Option<String>,
}

} // verus!
