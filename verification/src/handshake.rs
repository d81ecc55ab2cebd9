//! Parsing of the WebSocket handshake: the request path picks the endpoint,
//! the query string carries the required page-session id and the optional
//! flag channel, and the session cookie carries an URL-encoded payload whose
//! `sessionId` field keys the session lookup.
use vstd::prelude::*;

use crate::ipc::{find_char, split_on};
use crate::json::{hex_val, is_hex_digit};
use crate::model::{Endpoint, Flag, Sri};
use crate::text::{chars_of, string_of_chars};

verus! {

/// URL percent-decoding, ASCII only: `%XX` with a code below 128 becomes
/// that character, `+` becomes a space; a bad or non-ASCII escape fails.
pub open spec fn spec_pct_decode(s: Seq<char>) -> Option<Seq<char>>
    decreases s.len(),
{
    if s.len() == 0 {
        Some(Seq::empty())
    } else if s[0] == '%' {
        if s.len() >= 3 && is_hex_digit(s[1]) && is_hex_digit(s[2]) && hex_val(s[1]) * 16
            + hex_val(s[2]) < 0x80 {
            match spec_pct_decode(s.subrange(3, s.len() as int)) {
                Some(rest) => Some(
                    seq![(hex_val(s[1]) * 16 + hex_val(s[2])) as char] + rest,
                ),
                None => None,
            }
        } else {
            None
        }
    } else if s[0] == '+' {
        match spec_pct_decode(s.drop_first()) {
            Some(rest) => Some(seq![' '] + rest),
            None => None,
        }
    } else {
        match spec_pct_decode(s.drop_first()) {
            Some(rest) => Some(seq![s[0]] + rest),
            None => None,
        }
    }
}

fn exec_pct_decode(v: &[char], i: usize) -> (r: Option<Vec<char>>)
    requires
        i <= v@.len(),
    ensures
        match r {
            Some(cs) => spec_pct_decode(v@.subrange(i as int, v@.len() as int)) == Some(cs@),
            None => spec_pct_decode(v@.subrange(i as int, v@.len() as int)) is None,
        },
    decreases v@.len() - i,
{
    let ghost tail = v@.subrange(i as int, v@.len() as int);
    if i >= v.len() {
        proof {
            assert(tail =~= Seq::<char>::empty());
        }
        return Some(Vec::new());
    }
    let c = v[i];
    proof {
        assert(tail[0] == c);
        assert(tail.drop_first() =~= v@.subrange(i + 1, v@.len() as int));
    }
    if c == '%' {
        if v.len() - i >= 3 {
            let h1 = crate::json::hex_pair_val(v[i + 1], v[i + 2]);
            proof {
                assert(tail[1] == v@[i + 1]);
                assert(tail[2] == v@[i + 2]);
                assert(tail.subrange(3, tail.len() as int) =~= v@.subrange(
                    i + 3,
                    v@.len() as int,
                ));
            }
            match h1 {
                Some(code) => {
                    if code < 0x80 {
                        let decoded = crate::text::byte_char(code as u8);
                        match exec_pct_decode(v, i + 3) {
                            Some(rest) => Some(crate::json::prepend_char(decoded, rest)),
                            None => None,
                        }
                    } else {
                        None
                    }
                },
                None => None,
            }
        } else {
            proof {
                assert(tail.len() < 3);
            }
            None
        }
    } else if c == '+' {
        match exec_pct_decode(v, i + 1) {
            Some(rest) => Some(crate::json::prepend_char(' ', rest)),
            None => None,
        }
    } else {
        match exec_pct_decode(v, i + 1) {
            Some(rest) => Some(crate::json::prepend_char(c, rest)),
            None => None,
        }
    }
}

/// One `key=value` piece of a form: split at the first `=`, both sides
/// percent-decoded; a piece without `=` has an empty value.
pub open spec fn spec_form_pair(p: Seq<char>) -> Option<(Seq<char>, Seq<char>)> {
    let e = find_char(p, 0, '=');
    let key_raw = p.subrange(0, e);
    let val_raw = if e < p.len() {
        p.subrange(e + 1, p.len() as int)
    } else {
        Seq::empty()
    };
    match (spec_pct_decode(key_raw), spec_pct_decode(val_raw)) {
        (Some(k), Some(v)) => Some((k, v)),
        _ => None,
    }
}

/// All pieces decoded, in order.
pub open spec fn spec_form_pairs(ps: Seq<Seq<char>>) -> Option<Seq<(Seq<char>, Seq<char>)>>
    decreases ps.len(),
{
    if ps.len() == 0 {
        Some(Seq::empty())
    } else {
        match (spec_form_pair(ps[0]), spec_form_pairs(ps.drop_first())) {
            (Some(kv), Some(rest)) => Some(seq![kv] + rest),
            _ => None,
        }
    }
}

/// An URL-encoded form, split on `&`.
pub open spec fn spec_form(s: Seq<char>) -> Option<Seq<(Seq<char>, Seq<char>)>> {
    spec_form_pairs(split_on(s, '&'))
}

/// The first value recorded for a key.
pub open spec fn spec_form_get(pairs: Seq<(Seq<char>, Seq<char>)>, k: Seq<char>) -> Option<
    Seq<char>,
>
    decreases pairs.len(),
{
    if pairs.len() == 0 {
        None
    } else if pairs[0].0 == k {
        Some(pairs[0].1)
    } else {
        spec_form_get(pairs.drop_first(), k)
    }
}

fn exec_form_pair(p: &[char]) -> (r: Option<(String, String)>)
    ensures
        match r {
            Some(kv) => spec_form_pair(p@) == Some((kv.0@, kv.1@)),
            None => spec_form_pair(p@) is None,
        },
{
    let e = crate::ipc::find_from(p, 0, '=');
    let key_raw = crate::ipc::subvec(p, 0, e);
    let val_raw = if e < p.len() {
        crate::ipc::subvec(p, e + 1, p.len())
    } else {
        Vec::new()
    };
    proof {
        assert(key_raw@ =~= p@.subrange(0, find_char(p@, 0, '=')));
        if !(find_char(p@, 0, '=') < p@.len()) {
            assert(val_raw@ =~= Seq::<char>::empty());
        }
        assert(key_raw@.subrange(0, key_raw@.len() as int) =~= key_raw@);
        assert(val_raw@.subrange(0, val_raw@.len() as int) =~= val_raw@);
    }
    match exec_pct_decode(key_raw.as_slice(), 0) {
        Some(k) => match exec_pct_decode(val_raw.as_slice(), 0) {
            Some(v) => Some(
                (string_of_chars(k.as_slice()), string_of_chars(v.as_slice())),
            ),
            None => None,
        },
        None => None,
    }
}

/// Parses an URL-encoded form into its key and value pairs.
pub fn parse_form(s: &str) -> (r: Option<Vec<(String, String)>>)
    ensures
        match r {
            Some(pairs) => spec_form(s@) == Some(
                pairs@.map_values(|kv: (String, String)| (kv.0@, kv.1@)),
            ),
            None => spec_form(s@) is None,
        },
{
    let v = chars_of(s);
    let mut pairs: Vec<(String, String)> = Vec::new();
    let mut rest: Vec<char> = v;
    proof {
        assert(rest@ =~= s@);
        assert(Seq::<Seq<char>>::empty() + split_on(s@, '&') =~= split_on(s@, '&'));
    }
    let ghost mut done: Seq<Seq<char>> = Seq::empty();
    loop
        invariant
            split_on(s@, '&') =~= done + split_on(rest@, '&'),
            pairs@.len() == done.len(),
            spec_form_pairs(done) == Some(
                pairs@.map_values(|kv: (String, String)| (kv.0@, kv.1@)),
            ),
        decreases rest@.len(),
    {
        let c = crate::ipc::find_from(rest.as_slice(), 0, '&');
        let piece = crate::ipc::subvec(rest.as_slice(), 0, c);
        proof {
            if c == rest@.len() {
                assert(piece@ =~= rest@);
                assert(split_on(rest@, '&') =~= seq![rest@]);
            }
        }
        match exec_form_pair(piece.as_slice()) {
            Some(kv) => {
                let ghost prev_done = done;
                let ghost prev_views = pairs@.map_values(
                    |kv: (String, String)| (kv.0@, kv.1@),
                );
                pairs.push(kv);
                proof {
                    done = done.push(piece@);
                    lemma_form_pairs_snoc(prev_done, piece@);
                    assert(pairs@.map_values(|kv: (String, String)| (kv.0@, kv.1@))
                        =~= prev_views.push(
                        (pairs@.last().0@, pairs@.last().1@),
                    ));
                    assert(spec_form_pairs(done) == Some(
                        pairs@.map_values(|kv: (String, String)| (kv.0@, kv.1@)),
                    ));
                }
            },
            None => {
                proof {
                    lemma_form_pairs_piece_bad(done, split_on(rest@, '&'), piece@);
                }
                return None;
            },
        }
        if c == rest.len() {
            proof {
                assert(split_on(rest@, '&') =~= seq![piece@]);
                assert(split_on(s@, '&') =~= done);
            }
            return Some(pairs);
        }
        let next = crate::ipc::subvec(rest.as_slice(), c + 1, rest.len());
        proof {
            assert(split_on(rest@, '&') =~= seq![piece@] + split_on(next@, '&'));
            assert(done + split_on(next@, '&') =~= split_on(s@, '&'));
        }
        rest = next;
    }
}

proof fn lemma_form_pairs_snoc(done: Seq<Seq<char>>, p: Seq<char>)
    requires
        spec_form_pairs(done) is Some,
        spec_form_pair(p) is Some,
    ensures
        spec_form_pairs(done.push(p)) == Some(
            spec_form_pairs(done).unwrap().push(spec_form_pair(p).unwrap()),
        ),
    decreases done.len(),
{
    reveal_with_fuel(spec_form_pairs, 3);
    if done.len() == 0 {
        assert(done.push(p)[0] == p);
        assert(done.push(p).drop_first() =~= Seq::<Seq<char>>::empty());
        assert(seq![spec_form_pair(p).unwrap()] + Seq::<(Seq<char>, Seq<char>)>::empty()
            =~= spec_form_pairs(done).unwrap().push(spec_form_pair(p).unwrap()));
    } else {
        assert(done.push(p)[0] == done[0]);
        assert(done.push(p).drop_first() =~= done.drop_first().push(p));
        lemma_form_pairs_snoc(done.drop_first(), p);
        assert(spec_form_pairs(done.push(p)).unwrap() =~= spec_form_pairs(
            done,
        ).unwrap().push(spec_form_pair(p).unwrap()));
    }
}

proof fn lemma_form_pairs_piece_bad(done: Seq<Seq<char>>, rest: Seq<Seq<char>>, p: Seq<char>)
    requires
        rest.len() > 0,
        rest[0] == p,
        spec_form_pair(p) is None,
    ensures
        spec_form_pairs(done + rest) is None,
    decreases done.len(),
{
    if done.len() == 0 {
        assert((done + rest)[0] == p);
        assert(done + rest =~= rest);
    } else {
        assert((done + rest)[0] == done[0]);
        assert((done + rest).drop_first() =~= done.drop_first() + rest);
        lemma_form_pairs_piece_bad(done.drop_first(), rest, p);
    }
}

/// Finds the first value recorded for a key.
pub fn form_get<'a>(pairs: &'a Vec<(String, String)>, k: &str) -> (r: Option<&'a String>)
    ensures
        match r {
            Some(v) => spec_form_get(
                pairs@.map_values(|kv: (String, String)| (kv.0@, kv.1@)),
                k@,
            ) == Some(v@),
            None => spec_form_get(
                pairs@.map_values(|kv: (String, String)| (kv.0@, kv.1@)),
                k@,
            ) is None,
        },
{
    let ghost view = pairs@.map_values(|kv: (String, String)| (kv.0@, kv.1@));
    let mut i: usize = 0;
    while i < pairs.len()
        invariant
            i <= pairs@.len(),
            view == pairs@.map_values(|kv: (String, String)| (kv.0@, kv.1@)),
            forall|j: int| 0 <= j < i ==> #[trigger] view[j].0 != k@,
        decreases pairs@.len() - i,
    {
        if crate::model::str_eq(pairs[i].0.as_str(), k) {
            proof {
                lemma_form_get_at(view, k@, i as int);
            }
            return Some(&pairs[i].1);
        }
        i += 1;
    }
    proof {
        lemma_form_get_none(view, k@);
    }
    None
}

proof fn lemma_form_get_at(pairs: Seq<(Seq<char>, Seq<char>)>, k: Seq<char>, i: int)
    requires
        0 <= i < pairs.len(),
        forall|j: int| 0 <= j < i ==> pairs[j].0 != k,
        pairs[i].0 == k,
    ensures
        spec_form_get(pairs, k) == Some(pairs[i].1),
    decreases i,
{
    if i > 0 {
        lemma_form_get_at(pairs.drop_first(), k, i - 1);
    }
}

proof fn lemma_form_get_none(pairs: Seq<(Seq<char>, Seq<char>)>, k: Seq<char>)
    requires
        forall|j: int| 0 <= j < pairs.len() ==> pairs[j].0 != k,
    ensures
        spec_form_get(pairs, k) is None,
    decreases pairs.len(),
{
    if pairs.len() > 0 {
        lemma_form_get_none(pairs.drop_first(), k);
    }
}

/// Leading and trailing spaces removed.
pub open spec fn spec_trim(s: Seq<char>) -> Seq<char>
    decreases s.len(),
{
    if s.len() == 0 {
        s
    } else if s[0] == ' ' {
        spec_trim(s.drop_first())
    } else if s.last() == ' ' {
        spec_trim(s.drop_last())
    } else {
        s
    }
}

fn exec_trim(v: Vec<char>) -> (r: Vec<char>)
    ensures
        r@ == spec_trim(v@),
    decreases v@.len(),
{
    if v.len() == 0 {
        v
    } else if v[0] == ' ' {
        let rest = crate::ipc::subvec(v.as_slice(), 1, v.len());
        proof {
            assert(rest@ =~= v@.drop_first());
        }
        exec_trim(rest)
    } else if v[v.len() - 1] == ' ' {
        let rest = crate::ipc::subvec(v.as_slice(), 0, v.len() - 1);
        proof {
            assert(rest@ =~= v@.drop_last());
        }
        exec_trim(rest)
    } else {
        v
    }
}

pub open spec fn starts_with(s: Seq<char>, p: Seq<char>) -> bool {
    s.len() >= p.len() && s.subrange(0, p.len() as int) == p
}

/// The session id carried by a cookie header: the first `;`-piece naming the
/// session cookie, its value stripped of any prefix before the first `-`,
/// read as an URL-encoded form, field `sessionId`.
pub open spec fn spec_session_of_pieces(pieces: Seq<Seq<char>>) -> Option<Seq<char>>
    decreases pieces.len(),
{
    if pieces.len() == 0 {
        None
    } else {
        let p = spec_trim(pieces[0]);
        if starts_with(p, "lila2="@) {
            let value = p.subrange(6, p.len() as int);
            let d = find_char(value, 0, '-');
            let payload = if d < value.len() {
                value.subrange(d + 1, value.len() as int)
            } else {
                value
            };
            match spec_form(payload) {
                Some(pairs) => spec_form_get(pairs, "sessionId"@),
                None => None,
            }
        } else {
            spec_session_of_pieces(pieces.drop_first())
        }
    }
}

pub open spec fn spec_session_id(header: Seq<char>) -> Option<Seq<char>> {
    spec_session_of_pieces(split_on(header, ';'))
}

/// Extracts the session id from a cookie header, if one is there.
pub fn session_id_of(header: &str) -> (r: Option<String>)
    ensures
        match r {
            Some(sid) => spec_session_id(header@) == Some(sid@),
            None => spec_session_id(header@) is None,
        },
{
    let v = chars_of(header);
    let mut rest: Vec<char> = v;
    proof {
        assert(rest@ =~= header@);
    }
    loop
        invariant
            spec_session_id(header@) == spec_session_of_pieces(split_on(rest@, ';')),
        decreases rest@.len(),
    {
        let c = crate::ipc::find_from(rest.as_slice(), 0, ';');
        let piece = crate::ipc::subvec(rest.as_slice(), 0, c);
        proof {
            if c == rest@.len() {
                assert(piece@ =~= rest@);
                assert(split_on(rest@, ';') =~= seq![rest@]);
            } else {
                assert(split_on(rest@, ';') =~= seq![piece@] + split_on(
                    rest@.subrange(c as int + 1, rest@.len() as int),
                    ';',
                ));
            }
        }
        let trimmed = exec_trim(piece);
        let prefix = ['l', 'i', 'l', 'a', '2', '='];
        proof {
            reveal_strlit("lila2=");
            assert(prefix@ =~= "lila2="@);
        }
        let is_match = trimmed.len() >= 6 && {
            let mut eq = true;
            let mut k: usize = 0;
            while k < 6
                invariant
                    k <= 6,
                    trimmed@.len() >= 6,
                    prefix@ =~= "lila2="@,
                    eq == (forall|m: int| 0 <= m < k ==> trimmed@[m] == prefix@[m]),
                decreases 6 - k,
            {
                if trimmed[k] != prefix[k] {
                    eq = false;
                    proof {
                        assert(trimmed@[k as int] != prefix@[k as int]);
                    }
                }
                k += 1;
            }
            eq
        };
        proof {
            if is_match {
                assert(trimmed@.subrange(0, 6) =~= "lila2="@);
            } else {
                if trimmed@.len() >= 6 && trimmed@.subrange(0, 6) == "lila2="@ {
                    assert(forall|m: int|
                        0 <= m < 6 ==> trimmed@[m] == #[trigger] trimmed@.subrange(0, 6)[m]);
                    assert(false);
                }
            }
        }
        if is_match {
            proof {
                let pieces = split_on(rest@, ';');
                assert(pieces[0] == piece@);
                assert(spec_trim(pieces[0]) == trimmed@);
                assert(starts_with(trimmed@, "lila2="@));
            }
            let value = crate::ipc::subvec(trimmed.as_slice(), 6, trimmed.len());
            proof {
                assert(value@ =~= spec_trim(split_on(rest@, ';')[0]).subrange(
                    6,
                    spec_trim(split_on(rest@, ';')[0]).len() as int,
                ));
            }
            let d = crate::ipc::find_from(value.as_slice(), 0, '-');
            let payload = if d < value.len() {
                crate::ipc::subvec(value.as_slice(), d + 1, value.len())
            } else {
                value
            };
            let ghost pieces = split_on(rest@, ';');
            let ghost spec_value = spec_trim(pieces[0]).subrange(
                6,
                spec_trim(pieces[0]).len() as int,
            );
            proof {
                let sd = find_char(spec_value, 0, '-');
                if sd < spec_value.len() {
                    assert(payload@ =~= spec_value.subrange(sd + 1, spec_value.len() as int));
                } else {
                    assert(payload@ =~= spec_value);
                }
            }
            let payload_str = string_of_chars(payload.as_slice());
            match parse_form(payload_str.as_str()) {
                Some(pairs) => {
                    match form_get(&pairs, "sessionId") {
                        Some(sid) => {
                            proof {
                                assert(spec_session_of_pieces(pieces) == Some(sid@));
                            }
                            return Some(sid.clone());
                        },
                        None => {
                            proof {
                                assert(spec_session_of_pieces(pieces) is None);
                            }
                            return None;
                        },
                    }
                },
                None => {
                    proof {
                        assert(spec_session_of_pieces(pieces) is None);
                    }
                    return None;
                },
            }
        }
        if c == rest.len() {
            proof {
                let pieces = split_on(rest@, ';');
                assert(pieces[0] == piece@);
                assert(!starts_with(spec_trim(pieces[0]), "lila2="@));
                assert(pieces.drop_first() =~= Seq::<Seq<char>>::empty());
                reveal_with_fuel(spec_session_of_pieces, 3);
                assert(spec_session_of_pieces(Seq::<Seq<char>>::empty()) is None);
                assert(spec_session_of_pieces(pieces) is None);
            }
            return None;
        }
        let next = crate::ipc::subvec(rest.as_slice(), c + 1, rest.len());
        proof {
            let pieces = split_on(rest@, ';');
            assert(pieces[0] == piece@);
            assert(!starts_with(spec_trim(pieces[0]), "lila2="@));
            assert(pieces.drop_first() =~= split_on(next@, ';'));
        }
        rest = next;
    }
}

/// Everything learned from a handshake.
pub struct HandshakeInfo {
    pub endpoint: Endpoint,
    pub sri: Sri,
    pub flag: Option<Flag>,
    pub session_id: Option<String>,
}

#[derive(Clone, Debug)]
pub struct HandshakeError;

/// What a handshake query must hold: a well-formed form, a valid `sri`,
/// and, when present, a known `flag`.
pub open spec fn spec_query_ok(q: Seq<char>) -> bool {
    &&& spec_form(q) is Some
    &&& (spec_form_get(spec_form(q).unwrap(), "sri"@) matches Some(s)
        && crate::model::valid_sri(s))
    &&& (match spec_form_get(spec_form(q).unwrap(), "flag"@) {
        None => true,
        Some(f) => f == "simul"@ || f == "tournament"@,
    })
}

/// The query of a handshake: `sri` is required and must be valid; `flag` is
/// optional but must be a known channel when present.
pub fn parse_query(q: &str) -> (r: Result<(Sri, Option<Flag>), HandshakeError>)
    ensures
        r is Ok <==> spec_query_ok(q@),
        match r {
            Ok((sri, flag)) => {
                let pairs = spec_form(q@).unwrap();
                &&& sri.wf()
                &&& spec_form_get(pairs, "sri"@) == Some(sri@)
                &&& match flag {
                    Some(Flag::Simul) => spec_form_get(pairs, "flag"@) == Some("simul"@),
                    Some(Flag::Tournament) => spec_form_get(pairs, "flag"@) == Some(
                        "tournament"@,
                    ),
                    None => spec_form_get(pairs, "flag"@) is None,
                }
            },
            Err(_) => true,
        },
{
    let pairs = match parse_form(q) {
        Some(p) => p,
        None => {
            return Err(HandshakeError);
        },
    };
    let sri = match form_get(&pairs, "sri") {
        Some(s) => match Sri::new(s.as_str()) {
            Ok(sri) => sri,
            Err(_) => {
                return Err(HandshakeError);
            },
        },
        None => {
            return Err(HandshakeError);
        },
    };
    let flag = match form_get(&pairs, "flag") {
        Some(f) => match Flag::from_str(f.as_str()) {
            Ok(flag) => Some(flag),
            Err(_) => {
                return Err(HandshakeError);
            },
        },
        None => None,
    };
    Ok((sri, flag))
}

/// Parses the whole handshake: the resource is `path?query`; the path picks
/// the endpoint, the query carries `sri` and `flag`, and the cookie header,
/// when given, may carry a session id.
/// What a handshake resource must hold: a `?`, a known path before it, and
/// a well-formed query after it.
pub open spec fn spec_resource_ok(res: Seq<char>) -> bool {
    let q = find_char(res, 0, '?');
    &&& q < res.len()
    &&& (res.subrange(0, q) == "/socket/v4"@ || res.subrange(0, q) == "/lobby/socket/v4"@)
    &&& spec_query_ok(res.subrange(q + 1, res.len() as int))
}

pub fn parse_handshake(resource: &str, cookie_header: Option<&str>) -> (r: Result<
    HandshakeInfo,
    HandshakeError,
>)
    ensures
        r is Ok <==> spec_resource_ok(resource@),
        match r {
            Ok(info) => {
                let q = find_char(resource@, 0, '?');
                let path = resource@.subrange(0, q);
                &&& info.sri.wf()
                &&& q < resource@.len()
                &&& (info.endpoint == Endpoint::Site && path == "/socket/v4"@ || (
                info.endpoint == Endpoint::Lobby && path == "/lobby/socket/v4"@))
                &&& match info.session_id {
                    Some(sid) => cookie_header matches Some(h) && spec_session_id(h@) == Some(
                        sid@,
                    ),
                    None => cookie_header is None || spec_session_id(
                        cookie_header.unwrap()@,
                    ) is None,
                }
            },
            Err(_) => true,
        },
{
    let v = chars_of(resource);
    let q = crate::ipc::find_from(v.as_slice(), 0, '?');
    if q == v.len() {
        return Err(HandshakeError);
    }
    let path = crate::ipc::range_string(v.as_slice(), 0, q);
    let query = crate::ipc::range_string(v.as_slice(), q + 1, v.len());
    let endpoint = match Endpoint::from_str(path.as_str()) {
        Ok(e) => e,
        Err(_) => {
            return Err(HandshakeError);
        },
    };
    let (sri, flag) = match parse_query(query.as_str()) {
        Ok(x) => x,
        Err(_) => {
            return Err(HandshakeError);
        },
    };
    let session_id = match cookie_header {
        Some(h) => session_id_of(h),
        None => None,
    };
    Ok(HandshakeInfo { endpoint, sri, flag, session_id })
}

} // verus!
