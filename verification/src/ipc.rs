//! The backend line protocol: whitespace-delimited tagged messages received
//! from the main server (`LilaOut`) and sent to it (`LilaIn`).
use vstd::prelude::*;

use crate::model::{valid_game_id, valid_sri, valid_user_id, lower_seq, Flag, GameId, Sri, UserId};
use crate::text::{
    all_digits, append_dec, chars_of, dec_val, spec_dec, string_of_chars,
};

verus! {

#[derive(Clone, Debug)]
pub struct IpcError;

/// Messages we receive from the main server.
pub enum LilaOut {
    Move { game: GameId, last_uci: String, fen: String },
    TellUsers { users: Vec<UserId>, payload: String },
    TellAll { payload: String },
    TellFlag { flag: Flag, payload: String },
    TellSri { sri: Sri, payload: String },
    DisconnectUser { uid: UserId },
    MoveLatency(u32),
    RoundNb(u32),
    MemberNb(u32),
}

/// The mathematical shape of a `LilaOut` message.
pub enum LilaOutView {
    Move { game: Seq<char>, last_uci: Seq<char>, fen: Seq<char> },
    TellUsers { users: Seq<Seq<char>>, payload: Seq<char> },
    TellAll { payload: Seq<char> },
    TellFlag { flag: Flag, payload: Seq<char> },
    TellSri { sri: Seq<char>, payload: Seq<char> },
    DisconnectUser { uid: Seq<char> },
    MoveLatency(u32),
    RoundNb(u32),
    MemberNb(u32),
}

impl View for LilaOut {
    type V = LilaOutView;

    open spec fn view(&self) -> LilaOutView {
        match self {
            LilaOut::Move { game, last_uci, fen } => LilaOutView::Move {
                game: game@,
                last_uci: last_uci@,
                fen: fen@,
            },
            LilaOut::TellUsers { users, payload } => LilaOutView::TellUsers {
                users: users@.map_values(|u: UserId| u@),
                payload: payload@,
            },
            LilaOut::TellAll { payload } => LilaOutView::TellAll { payload: payload@ },
            LilaOut::TellFlag { flag, payload } => LilaOutView::TellFlag {
                flag: *flag,
                payload: payload@,
            },
            LilaOut::TellSri { sri, payload } => LilaOutView::TellSri {
                sri: sri@,
                payload: payload@,
            },
            LilaOut::DisconnectUser { uid } => LilaOutView::DisconnectUser { uid: uid@ },
            LilaOut::MoveLatency(n) => LilaOutView::MoveLatency(*n),
            LilaOut::RoundNb(n) => LilaOutView::RoundNb(*n),
            LilaOut::MemberNb(n) => LilaOutView::MemberNb(*n),
        }
    }
}

/// Index of the first occurrence of `c` at or after `from`, or `s.len()`.
pub open spec fn find_char(s: Seq<char>, from: int, c: char) -> int
    decreases s.len() - from,
{
    if from < 0 || from >= s.len() {
        s.len() as int
    } else if s[from] == c {
        from
    } else {
        find_char(s, from + 1, c)
    }
}

proof fn lemma_find_char_at(s: Seq<char>, from: int, i: int, c: char)
    requires
        0 <= from <= i <= s.len(),
        forall|j: int| from <= j < i ==> s[j] != c,
        i == s.len() || s[i] == c,
    ensures
        find_char(s, from, c) == i,
    decreases i - from,
{
    if from < i {
        lemma_find_char_at(s, from + 1, i, c);
    }
}

/// The pieces of `s` split on every occurrence of `c`.
pub open spec fn split_on(s: Seq<char>, c: char) -> Seq<Seq<char>>
    decreases s.len(),
{
    let i = find_char(s, 0, c);
    if 0 <= i < s.len() {
        seq![s.subrange(0, i)] + split_on(s.subrange(i + 1, s.len() as int), c)
    } else {
        seq![s]
    }
}

/// The user list of a `tell/users` message: every comma-piece must be a valid
/// user id; the result holds the lowercased pieces.
pub open spec fn spec_parse_users(s: Seq<char>) -> Option<Seq<Seq<char>>> {
    if forall|i: int|
        0 <= i < split_on(s, ',').len() ==> valid_user_id(#[trigger] split_on(s, ',')[i]) {
        Some(split_on(s, ',').map_values(|p: Seq<char>| lower_seq(p)))
    } else {
        None
    }
}

/// The backend line grammar: `tag arg1 arg2 rest…`, with the split limit of
/// each tag as the protocol fixes it.
pub open spec fn spec_parse_lila_out(s: Seq<char>) -> Option<LilaOutView> {
    let sp = find_char(s, 0, ' ');
    if sp == s.len() {
        None
    } else {
        let tag = s.subrange(0, sp);
        let args = s.subrange(sp + 1, s.len() as int);
        if tag == "move"@ {
            spec_parse_move(args)
        } else if tag == "tell/user"@ || tag == "tell/users"@ {
            spec_parse_tell_users(args)
        } else if tag == "tell/all"@ {
            Some(LilaOutView::TellAll { payload: args })
        } else if tag == "tell/flag"@ {
            spec_parse_tell_flag(args)
        } else if tag == "tell/sri"@ {
            spec_parse_tell_sri(args)
        } else if tag == "disconnect/user"@ {
            if valid_user_id(args) {
                Some(LilaOutView::DisconnectUser { uid: lower_seq(args) })
            } else {
                None
            }
        } else if tag == "mlat"@ {
            let digits = if args.len() > 0 && args[0] == '+' {
                args.subrange(1, args.len() as int)
            } else {
                args
            };
            if digits.len() > 0 && all_digits(digits) && dec_val(digits) <= u32::MAX {
                Some(LilaOutView::MoveLatency(dec_val(digits) as u32))
            } else {
                None
            }
        } else {
            None
        }
    }
}

pub open spec fn spec_parse_move(args: Seq<char>) -> Option<LilaOutView> {
    let s1 = find_char(args, 0, ' ');
    if s1 == args.len() {
        None
    } else {
        let game = args.subrange(0, s1);
        let rest = args.subrange(s1 + 1, args.len() as int);
        let s2 = find_char(rest, 0, ' ');
        if s2 == rest.len() {
            None
        } else if valid_game_id(game) {
            Some(LilaOutView::Move {
                game: game,
                last_uci: rest.subrange(0, s2),
                fen: rest.subrange(s2 + 1, rest.len() as int),
            })
        } else {
            None
        }
    }
}

pub open spec fn spec_parse_tell_users(args: Seq<char>) -> Option<LilaOutView> {
    let s1 = find_char(args, 0, ' ');
    if s1 == args.len() {
        None
    } else {
        match spec_parse_users(args.subrange(0, s1)) {
            Some(users) => Some(LilaOutView::TellUsers {
                users: users,
                payload: args.subrange(s1 + 1, args.len() as int),
            }),
            None => None,
        }
    }
}

pub open spec fn spec_parse_tell_flag(args: Seq<char>) -> Option<LilaOutView> {
    let s1 = find_char(args, 0, ' ');
    if s1 == args.len() {
        None
    } else {
        let flag_str = args.subrange(0, s1);
        let payload = args.subrange(s1 + 1, args.len() as int);
        if flag_str == "simul"@ {
            Some(LilaOutView::TellFlag { flag: Flag::Simul, payload: payload })
        } else if flag_str == "tournament"@ {
            Some(LilaOutView::TellFlag { flag: Flag::Tournament, payload: payload })
        } else {
            None
        }
    }
}

pub open spec fn spec_parse_tell_sri(args: Seq<char>) -> Option<LilaOutView> {
    let s1 = find_char(args, 0, ' ');
    if s1 == args.len() {
        None
    } else {
        let sri = args.subrange(0, s1);
        if valid_sri(sri) {
            Some(LilaOutView::TellSri {
                sri: sri,
                payload: args.subrange(s1 + 1, args.len() as int),
            })
        } else {
            None
        }
    }
}

/// Index of the first occurrence of `c` at or after `from`, or the length.
pub(crate) fn find_from(v: &[char], from: usize, c: char) -> (r: usize)
    requires
        from <= v@.len(),
    ensures
        r == find_char(v@, from as int, c),
        from <= r <= v@.len(),
{
    let mut i = from;
    while i < v.len()
        invariant
            from <= i <= v@.len(),
            forall|j: int| from <= j < i ==> v@[j] != c,
        decreases v@.len() - i,
    {
        if v[i] == c {
            proof {
                lemma_find_char_at(v@, from as int, i as int, c);
            }
            return i;
        }
        i += 1;
    }
    proof {
        lemma_find_char_at(v@, from as int, v@.len() as int, c);
    }
    v.len()
}

/// Copies the range `[a, b)`.
pub(crate) fn subvec(v: &[char], a: usize, b: usize) -> (r: Vec<char>)
    requires
        a <= b <= v@.len(),
    ensures
        r@ == v@.subrange(a as int, b as int),
{
    let mut r: Vec<char> = Vec::new();
    let mut i = a;
    while i < b
        invariant
            a <= i <= b <= v@.len(),
            r@ == v@.subrange(a as int, i as int),
        decreases b - i,
    {
        r.push(v[i]);
        i += 1;
        proof {
            assert(r@ =~= v@.subrange(a as int, i as int));
        }
    }
    r
}

pub(crate) fn range_string(v: &[char], a: usize, b: usize) -> (r: String)
    requires
        a <= b <= v@.len(),
    ensures
        r@ == v@.subrange(a as int, b as int),
{
    let piece = subvec(v, a, b);
    string_of_chars(piece.as_slice())
}

impl LilaOut {
    /// Parses one line of the backend protocol.
    pub fn parse(s: &str) -> (r: Result<LilaOut, IpcError>)
        ensures
            match r {
                Ok(m) => spec_parse_lila_out(s@) == Some(m@),
                Err(_) => spec_parse_lila_out(s@) is None,
            },
    {
        let v = chars_of(s);
        let sp = find_from(v.as_slice(), 0, ' ');
        if sp == v.len() {
            return Err(IpcError);
        }
        let tag = range_string(v.as_slice(), 0, sp);
        let args = subvec(v.as_slice(), sp + 1, v.len());
        proof {
            assert(tag@ == s@.subrange(0, find_char(s@, 0, ' ')));
            assert(args@ == s@.subrange(find_char(s@, 0, ' ') + 1, s@.len() as int));
        }
        if crate::model::str_eq(tag.as_str(), "move") {
            Self::parse_move(&args)
        } else if crate::model::str_eq(tag.as_str(), "tell/user") || crate::model::str_eq(
            tag.as_str(),
            "tell/users",
        ) {
            Self::parse_tell_users(&args)
        } else if crate::model::str_eq(tag.as_str(), "tell/all") {
            Ok(LilaOut::TellAll { payload: string_of_chars(args.as_slice()) })
        } else if crate::model::str_eq(tag.as_str(), "tell/flag") {
            Self::parse_tell_flag(&args)
        } else if crate::model::str_eq(tag.as_str(), "tell/sri") {
            Self::parse_tell_sri(&args)
        } else if crate::model::str_eq(tag.as_str(), "disconnect/user") {
            let arg_str = string_of_chars(args.as_slice());
            match UserId::new(arg_str.as_str()) {
                Ok(uid) => Ok(LilaOut::DisconnectUser { uid }),
                Err(_) => Err(IpcError),
            }
        } else if crate::model::str_eq(tag.as_str(), "mlat") {
            let digits: Vec<char> = if args.len() > 0 && args[0] == '+' {
                subvec(args.as_slice(), 1, args.len())
            } else {
                subvec(args.as_slice(), 0, args.len())
            };
            proof {
                if !(args@.len() > 0 && args@[0] == '+') {
                    assert(digits@ =~= args@);
                }
            }
            match crate::text::parse_u32(digits.as_slice()) {
                Some(n) => Ok(LilaOut::MoveLatency(n)),
                None => Err(IpcError),
            }
        } else {
            Err(IpcError)
        }
    }

    fn parse_move(args: &Vec<char>) -> (r: Result<LilaOut, IpcError>)
        ensures
            match r {
                Ok(m) => spec_parse_move(args@) == Some(m@),
                Err(_) => spec_parse_move(args@) is None,
            },
    {
        let s1 = find_from(args.as_slice(), 0, ' ');
        if s1 == args.len() {
            return Err(IpcError);
        }
        let game_str = range_string(args.as_slice(), 0, s1);
        let rest = subvec(args.as_slice(), s1 + 1, args.len());
        let s2 = find_from(rest.as_slice(), 0, ' ');
        if s2 == rest.len() {
            return Err(IpcError);
        }
        match GameId::new(game_str.as_str()) {
            Ok(game) => Ok(LilaOut::Move {
                game,
                last_uci: range_string(rest.as_slice(), 0, s2),
                fen: range_string(rest.as_slice(), s2 + 1, rest.len()),
            }),
            Err(_) => Err(IpcError),
        }
    }

    fn parse_tell_users(args: &Vec<char>) -> (r: Result<LilaOut, IpcError>)
        ensures
            match r {
                Ok(m) => spec_parse_tell_users(args@) == Some(m@),
                Err(_) => spec_parse_tell_users(args@) is None,
            },
    {
        let s1 = find_from(args.as_slice(), 0, ' ');
        if s1 == args.len() {
            return Err(IpcError);
        }
        let users_part = subvec(args.as_slice(), 0, s1);
        let payload = range_string(args.as_slice(), s1 + 1, args.len());
        match Self::parse_users(&users_part) {
            Some(users) => Ok(LilaOut::TellUsers { users, payload }),
            None => Err(IpcError),
        }
    }

    fn parse_users(part: &Vec<char>) -> (r: Option<Vec<UserId>>)
        ensures
            match r {
                Some(users) => spec_parse_users(part@) == Some(
                    users@.map_values(|u: UserId| u@),
                ),
                None => spec_parse_users(part@) is None,
            },
    {
        let mut users: Vec<UserId> = Vec::new();
        let mut rest: Vec<char> = subvec(part.as_slice(), 0, part.len());
        proof {
            assert(rest@ =~= part@);
            assert(seq![] + split_on(part@, ',') =~= split_on(part@, ','));
        }
        let ghost mut done: Seq<Seq<char>> = seq![];
        loop
            invariant
                split_on(part@, ',') =~= done + split_on(rest@, ','),
                users@.len() == done.len(),
                forall|i: int| 0 <= i < done.len() ==> valid_user_id(#[trigger] done[i]),
                forall|i: int|
                    0 <= i < done.len() ==> #[trigger] users@[i]@ == lower_seq(done[i]),
            decreases rest@.len(),
        {
            let c = find_from(rest.as_slice(), 0, ',');
            let piece = range_string(rest.as_slice(), 0, c);
            proof {
                if c == rest@.len() {
                    assert(piece@ =~= rest@);
                    assert(split_on(rest@, ',') =~= seq![rest@]);
                }
            }
            match UserId::new(piece.as_str()) {
                Ok(uid) => {
                    users.push(uid);
                    proof {
                        done = done.push(piece@);
                    }
                },
                Err(_) => {
                    proof {
                        let all = split_on(part@, ',');
                        assert(all[done.len() as int] == piece@);
                        assert(!valid_user_id(all[done.len() as int]));
                    }
                    return None;
                },
            }
            if c == rest.len() {
                proof {
                    assert(split_on(rest@, ',') =~= seq![piece@]);
                    assert(split_on(part@, ',') =~= done);
                    let all = split_on(part@, ',');
                    assert forall|i: int| 0 <= i < all.len() implies valid_user_id(
                        #[trigger] all[i],
                    ) by {}
                    assert(users@.map_values(|u: UserId| u@) =~= all.map_values(
                        |p: Seq<char>| lower_seq(p),
                    ));
                }
                return Some(users);
            }
            let next = subvec(rest.as_slice(), c + 1, rest.len());
            proof {
                assert(split_on(rest@, ',') =~= seq![piece@] + split_on(next@, ','));
                assert(done + split_on(next@, ',') =~= split_on(part@, ','));
            }
            rest = next;
        }
    }

    fn parse_tell_flag(args: &Vec<char>) -> (r: Result<LilaOut, IpcError>)
        ensures
            match r {
                Ok(m) => spec_parse_tell_flag(args@) == Some(m@),
                Err(_) => spec_parse_tell_flag(args@) is None,
            },
    {
        let s1 = find_from(args.as_slice(), 0, ' ');
        if s1 == args.len() {
            return Err(IpcError);
        }
        let flag_str = range_string(args.as_slice(), 0, s1);
        let payload = range_string(args.as_slice(), s1 + 1, args.len());
        proof {
            reveal_strlit("simul");
            reveal_strlit("tournament");
            assert("simul"@.len() == 5);
            assert("tournament"@.len() == 10);
            assert("simul"@ != "tournament"@);
            assert(flag_str@ == args@.subrange(0, find_char(args@, 0, ' ')));
        }
        match Flag::from_str(flag_str.as_str()) {
            Ok(flag) => Ok(LilaOut::TellFlag { flag, payload }),
            Err(_) => Err(IpcError),
        }
    }

    fn parse_tell_sri(args: &Vec<char>) -> (r: Result<LilaOut, IpcError>)
        ensures
            match r {
                Ok(m) => spec_parse_tell_sri(args@) == Some(m@),
                Err(_) => spec_parse_tell_sri(args@) is None,
            },
    {
        let s1 = find_from(args.as_slice(), 0, ' ');
        if s1 == args.len() {
            return Err(IpcError);
        }
        let sri_str = range_string(args.as_slice(), 0, s1);
        let payload = range_string(args.as_slice(), s1 + 1, args.len());
        match Sri::new(sri_str.as_str()) {
            Ok(sri) => Ok(LilaOut::TellSri { sri, payload }),
            Err(_) => Err(IpcError),
        }
    }
}

/// Messages we send to the main server.
pub enum LilaIn {
    Connect(UserId),
    Disconnect(UserId),
    DisconnectAll,
    Notified(UserId),
    Watch(GameId),
    Unwatch(GameId),
    Connections(u32),
    Lag(UserId, u32),
    Lags(Vec<(UserId, u32)>),
    Friends(UserId),
    TellSri(Sri, Option<UserId>, String),
}

/// The `lags` body: `uid:lag,` for each pair, in order.
pub open spec fn lags_view(ps: Seq<(UserId, u32)>) -> Seq<char>
    decreases ps.len(),
{
    if ps.len() == 0 {
        Seq::empty()
    } else {
        lags_view(ps.drop_last()) + ps.last().0@ + ":"@ + spec_dec(ps.last().1 as nat) + ","@
    }
}

impl LilaIn {
    /// The exact line sent over the wire for this message.
    pub open spec fn line_view(&self) -> Seq<char> {
        match self {
            LilaIn::Connect(uid) => "connect "@ + uid@,
            LilaIn::Disconnect(uid) => "disconnect "@ + uid@,
            LilaIn::DisconnectAll => "disconnect/all"@,
            LilaIn::Notified(uid) => "notified "@ + uid@,
            LilaIn::Watch(game) => "watch "@ + game@,
            LilaIn::Unwatch(game) => "unwatch "@ + game@,
            LilaIn::Connections(n) => "connections "@ + spec_dec(*n as nat),
            LilaIn::Lag(uid, n) => "lag "@ + uid@ + " "@ + spec_dec(*n as nat),
            LilaIn::Lags(ps) => "lags "@ + lags_view(ps@),
            LilaIn::Friends(uid) => "friends "@ + uid@,
            LilaIn::TellSri(sri, uid, payload) => "tell/sri "@ + sri@ + " "@ + match uid {
                Some(u) => u@,
                None => "-"@,
            } + " "@ + payload@,
        }
    }

    /// Formats the message as one backend protocol line.
    pub fn to_line(&self) -> (s: String)
        ensures
            s@ == self.line_view(),
    {
        match self {
            LilaIn::Connect(uid) => {
                let mut s = String::from_str("connect ");
                s.append(uid.as_str());
                s
            },
            LilaIn::Disconnect(uid) => {
                let mut s = String::from_str("disconnect ");
                s.append(uid.as_str());
                s
            },
            LilaIn::DisconnectAll => String::from_str("disconnect/all"),
            LilaIn::Notified(uid) => {
                let mut s = String::from_str("notified ");
                s.append(uid.as_str());
                s
            },
            LilaIn::Watch(game) => {
                let mut s = String::from_str("watch ");
                s.append(game.as_str());
                s
            },
            LilaIn::Unwatch(game) => {
                let mut s = String::from_str("unwatch ");
                s.append(game.as_str());
                s
            },
            LilaIn::Connections(n) => {
                let mut s = String::from_str("connections ");
                append_dec(&mut s, *n as u64);
                s
            },
            LilaIn::Lag(uid, n) => {
                let mut s = String::from_str("lag ");
                s.append(uid.as_str());
                s.append(" ");
                append_dec(&mut s, *n as u64);
                s
            },
            LilaIn::Lags(ps) => {
                let mut s = String::from_str("lags ");
                let mut i: usize = 0;
                while i < ps.len()
                    invariant
                        i <= ps@.len(),
                        s@ == "lags "@ + lags_view(ps@.subrange(0, i as int)),
                    decreases ps@.len() - i,
                {
                    s.append(ps[i].0.as_str());
                    s.append(":");
                    append_dec(&mut s, ps[i].1 as u64);
                    s.append(",");
                    i += 1;
                    proof {
                        assert(ps@.subrange(0, i as int).drop_last() =~= ps@.subrange(
                            0,
                            i - 1,
                        ));
                    }
                }
                proof {
                    assert(ps@.subrange(0, ps@.len() as int) =~= ps@);
                }
                s
            },
            LilaIn::Friends(uid) => {
                let mut s = String::from_str("friends ");
                s.append(uid.as_str());
                s
            },
            LilaIn::TellSri(sri, uid, payload) => {
                let mut s = String::from_str("tell/sri ");
                s.append(sri.as_str());
                s.append(" ");
                match uid {
                    Some(u) => s.append(u.as_str()),
                    None => s.append("-"),
                }
                s.append(" ");
                s.append(payload.as_str());
                s
            },
        }
    }
}

} // verus!
