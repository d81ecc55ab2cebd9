//! Typed identifiers used as keys throughout the gateway, each validated at
//! construction: game ids, user ids, page-session ids (sri), opt-in flag
//! channels and socket endpoints.
use vstd::prelude::*;

use crate::text::{ascii_alnum, chars_of, is_ascii_alnum, lower_char, spec_lower, string_of_chars};

verus! {

/// An 8 character game id.
#[derive(Clone, Debug)]
pub struct GameId {
    inner: String,
}

#[derive(Clone, Debug)]
pub struct InvalidGameId;

pub open spec fn valid_game_id(s: Seq<char>) -> bool {
    s.len() == 8 && forall|i: int| 0 <= i < s.len() ==> is_ascii_alnum(#[trigger] s[i])
}

impl View for GameId {
    type V = Seq<char>;

    closed spec fn view(&self) -> Seq<char> {
        self.inner@
    }
}

impl GameId {
    pub closed spec fn wf(&self) -> bool {
        valid_game_id(self.inner@)
    }

    /// Accepts exactly 8 ASCII alphanumerics.
    pub fn new(inner: &str) -> (r: Result<GameId, InvalidGameId>)
        ensures
            match r {
                Ok(id) => valid_game_id(inner@) && id@ == inner@ && id.wf(),
                Err(_) => !valid_game_id(inner@),
            },
    {
        let cs = chars_of(inner);
        if cs.len() != 8 {
            return Err(InvalidGameId);
        }
        let mut i: usize = 0;
        while i < cs.len()
            invariant
                i <= cs@.len(),
                cs@ == inner@,
                forall|j: int| 0 <= j < i ==> is_ascii_alnum(#[trigger] cs@[j]),
            decreases cs@.len() - i,
        {
            if !ascii_alnum(cs[i]) {
                return Err(InvalidGameId);
            }
            i += 1;
        }
        Ok(GameId { inner: String::from_str(inner) })
    }

    pub fn as_str(&self) -> (r: &str)
        ensures
            r@ == self@,
    {
        self.inner.as_str()
    }

    pub fn clone_id(&self) -> (r: GameId)
        ensures
            r@ == self@,
            r.wf() == self.wf(),
    {
        GameId { inner: self.inner.clone() }
    }
}

/// Username, normalized to lowercase.
#[derive(Clone, Debug)]
pub struct UserId {
    inner: String,
}

#[derive(Clone, Debug)]
pub struct InvalidUserId;

pub open spec fn is_user_id_char(c: char) -> bool {
    is_ascii_alnum(c) || c == '-' || c == '_'
}

/// What `UserId::new` accepts: 1 to 30 characters, ASCII alphanumerics plus
/// `-` and `_`, in either case.
pub open spec fn valid_user_id(s: Seq<char>) -> bool {
    1 <= s.len() <= 30 && forall|i: int| 0 <= i < s.len() ==> is_user_id_char(#[trigger] s[i])
}

/// The canonical (lowercased) form of a user id.
pub open spec fn lower_seq(s: Seq<char>) -> Seq<char> {
    s.map_values(|c: char| spec_lower(c))
}

impl View for UserId {
    type V = Seq<char>;

    closed spec fn view(&self) -> Seq<char> {
        self.inner@
    }
}

impl UserId {
    pub closed spec fn wf(&self) -> bool {
        valid_user_id(self.inner@) && self.inner@ == lower_seq(self.inner@)
    }

    /// Accepts 1 to 30 characters, ASCII alphanumerics plus `-` and `_`;
    /// the stored id is the lowercased form.
    pub fn new(inner: &str) -> (r: Result<UserId, InvalidUserId>)
        ensures
            match r {
                Ok(id) => valid_user_id(inner@) && id@ == lower_seq(inner@) && id.wf(),
                Err(_) => !valid_user_id(inner@),
            },
    {
        let cs = chars_of(inner);
        if cs.len() == 0 || cs.len() > 30 {
            return Err(InvalidUserId);
        }
        let mut low: Vec<char> = Vec::new();
        let mut i: usize = 0;
        while i < cs.len()
            invariant
                i <= cs@.len(),
                1 <= cs@.len() <= 30,
                cs@ == inner@,
                forall|j: int| 0 <= j < i ==> is_user_id_char(#[trigger] cs@[j]),
                low@ =~= cs@.subrange(0, i as int).map_values(|c: char| spec_lower(c)),
            decreases cs@.len() - i,
        {
            let c = cs[i];
            if !(ascii_alnum(c) || c == '-' || c == '_') {
                return Err(InvalidUserId);
            }
            low.push(lower_char(c));
            i += 1;
            proof {
                assert(low@ =~= cs@.subrange(0, i as int).map_values(|c: char| spec_lower(c)));
            }
        }
        proof {
            assert(cs@.subrange(0, cs@.len() as int) =~= cs@);
            assert forall|j: int| 0 <= j < low@.len() implies is_user_id_char(#[trigger] low@[j])
                && low@[j] == spec_lower(low@[j]) by {
                assert(low@[j] == spec_lower(inner@[j]));
            }
        }
        let s = string_of_chars(low.as_slice());
        proof {
            assert(lower_seq(s@) =~= s@);
        }
        Ok(UserId { inner: s })
    }

    pub fn as_str(&self) -> (r: &str)
        ensures
            r@ == self@,
    {
        self.inner.as_str()
    }

    pub fn clone_id(&self) -> (r: UserId)
        ensures
            r@ == self@,
            r.wf() == self.wf(),
    {
        UserId { inner: self.inner.clone() }
    }
}

/// Uniquely identifies a page view. The sri stays the same across reconnects
/// on the same page, but changes when navigating to a different page.
#[derive(Clone, Debug)]
pub struct Sri {
    inner: String,
}

#[derive(Clone, Debug)]
pub struct InvalidSri;

pub open spec fn valid_sri(s: Seq<char>) -> bool {
    s.len() <= 12 && forall|i: int| 0 <= i < s.len() ==> #[trigger] s[i] != ' '
}

impl View for Sri {
    type V = Seq<char>;

    closed spec fn view(&self) -> Seq<char> {
        self.inner@
    }
}

impl Sri {
    pub closed spec fn wf(&self) -> bool {
        valid_sri(self.inner@)
    }

    /// Accepts at most 12 characters, none of them a space.
    pub fn new(inner: &str) -> (r: Result<Sri, InvalidSri>)
        ensures
            match r {
                Ok(id) => valid_sri(inner@) && id@ == inner@ && id.wf(),
                Err(_) => !valid_sri(inner@),
            },
    {
        let cs = chars_of(inner);
        if cs.len() > 12 {
            return Err(InvalidSri);
        }
        let mut i: usize = 0;
        while i < cs.len()
            invariant
                i <= cs@.len(),
                cs@ == inner@,
                cs@.len() <= 12,
                forall|j: int| 0 <= j < i ==> #[trigger] cs@[j] != ' ',
            decreases cs@.len() - i,
        {
            if cs[i] == ' ' {
                return Err(InvalidSri);
            }
            i += 1;
        }
        Ok(Sri { inner: String::from_str(inner) })
    }

    pub fn as_str(&self) -> (r: &str)
        ensures
            r@ == self@,
    {
        self.inner.as_str()
    }

    pub fn clone_id(&self) -> (r: Sri)
        ensures
            r@ == self@,
            r.wf() == self.wf(),
    {
        Sri { inner: self.inner.clone() }
    }
}

/// Channels for server sent updates.
#[derive(Debug, Copy, Clone, PartialEq, Eq, Structural)]
pub enum Flag {
    Simul,
    Tournament,
}

#[derive(Clone, Debug)]
pub struct UnknownFlag;

impl Flag {
    /// Accepts exactly "simul" and "tournament".
    pub fn from_str(s: &str) -> (r: Result<Flag, UnknownFlag>)
        ensures
            match r {
                Ok(f) => (f == Flag::Simul && s@ == "simul"@) || (f == Flag::Tournament && s@
                    == "tournament"@),
                Err(_) => s@ != "simul"@ && s@ != "tournament"@,
            },
    {
        if str_eq(s, "simul") {
            Ok(Flag::Simul)
        } else if str_eq(s, "tournament") {
            Ok(Flag::Tournament)
        } else {
            Err(UnknownFlag)
        }
    }
}

/// The type of socket.
#[derive(Debug, Copy, Clone, PartialEq, Eq, Structural)]
pub enum Endpoint {
    Site,
    Lobby,
}

#[derive(Clone, Debug)]
pub struct UnknownEndpoint;

impl Endpoint {
    /// Accepts exactly the two socket paths.
    pub fn from_str(s: &str) -> (r: Result<Endpoint, UnknownEndpoint>)
        ensures
            match r {
                Ok(e) => (e == Endpoint::Site && s@ == "/socket/v4"@) || (e == Endpoint::Lobby
                    && s@ == "/lobby/socket/v4"@),
                Err(_) => s@ != "/socket/v4"@ && s@ != "/lobby/socket/v4"@,
            },
    {
        if str_eq(s, "/socket/v4") {
            Ok(Endpoint::Site)
        } else if str_eq(s, "/lobby/socket/v4") {
            Ok(Endpoint::Lobby)
        } else {
            Err(UnknownEndpoint)
        }
    }
}

/// Character-wise string comparison.
pub fn str_eq(a: &str, b: &str) -> (r: bool)
    ensures
        r == (a@ == b@),
{
    let na = a.unicode_len();
    let nb = b.unicode_len();
    if na != nb {
        proof {
            assert(a@.len() != b@.len());
        }
        return false;
    }
    let mut i: usize = 0;
    while i < na
        invariant
            i <= na,
            na == a@.len(),
            na == b@.len(),
            forall|j: int| 0 <= j < i ==> a@[j] == b@[j],
        decreases na - i,
    {
        if a.get_char(i) != b.get_char(i) {
            return false;
        }
        i += 1;
    }
    proof {
        assert(a@ =~= b@);
    }
    true
}

} // verus!
