//! The browser protocol carries JSON objects. This module holds a small JSON
//! codec: a parser for the subset the gateway accepts (all JSON values, with
//! integer-only numbers) and string escaping for the frames the gateway emits.
//!
//! The grammar is stated by the `spec_*` functions, which descend with a fuel
//! bound of twice the input length; every recursive step consumes at least one
//! input character per two units of fuel, so the bound is never the reason a
//! well-formed value is refused.
use vstd::prelude::*;

use crate::model::str_eq;
use crate::text::{dec_val, digit_val, is_dec_digit, push_char, string_of_chars};

verus! {

/// A parsed JSON value. Numbers are integers; a fractional or exponent part
/// is a parse error. Children are held as lists so that every traversal is
/// structural.
pub enum Json {
    Null,
    Bool(bool),
    Int(i64),
    Str(String),
    Arr(Box<JsonList>),
    Obj(Box<JsonMembers>),
}

pub enum JsonList {
    Nil,
    Cons(Json, Box<JsonList>),
}

pub enum JsonMembers {
    Nil,
    Cons(String, Json, Box<JsonMembers>),
}

/// The mathematical shape of a JSON value.
pub enum JsonView {
    Null,
    Bool(bool),
    Int(int),
    Str(Seq<char>),
    Arr(Seq<JsonView>),
    Obj(Seq<(Seq<char>, JsonView)>),
}

pub open spec fn json_view(j: Json) -> JsonView
    decreases j,
{
    match j {
        Json::Null => JsonView::Null,
        Json::Bool(b) => JsonView::Bool(b),
        Json::Int(n) => JsonView::Int(n as int),
        Json::Str(s) => JsonView::Str(s@),
        Json::Arr(items) => JsonView::Arr(json_list_view(*items)),
        Json::Obj(members) => JsonView::Obj(json_members_view(*members)),
    }
}

pub open spec fn json_list_view(l: JsonList) -> Seq<JsonView>
    decreases l,
{
    match l {
        JsonList::Nil => Seq::empty(),
        JsonList::Cons(head, tail) => seq![json_view(head)] + json_list_view(*tail),
    }
}

pub open spec fn json_members_view(m: JsonMembers) -> Seq<(Seq<char>, JsonView)>
    decreases m,
{
    match m {
        JsonMembers::Nil => Seq::empty(),
        JsonMembers::Cons(key, value, tail) => seq![(key@, json_view(value))]
            + json_members_view(*tail),
    }
}

impl View for Json {
    type V = JsonView;

    open spec fn view(&self) -> JsonView {
        json_view(*self)
    }
}

pub open spec fn is_json_ws(c: char) -> bool {
    c == ' ' || c == '\t' || c == '\n' || c == '\r'
}

/// First index at or after `i` holding a non-whitespace character, or the
/// length.
pub open spec fn skip_ws(s: Seq<char>, i: int) -> int
    decreases s.len() - i,
{
    if 0 <= i < s.len() && is_json_ws(s[i]) {
        skip_ws(s, i + 1)
    } else {
        i
    }
}

/// First index at or after `i` holding a non-digit, or the length.
pub open spec fn digits_end(s: Seq<char>, i: int) -> int
    decreases s.len() - i,
{
    if 0 <= i < s.len() && is_dec_digit(s[i]) {
        digits_end(s, i + 1)
    } else {
        i
    }
}

proof fn lemma_digits_end_bounds(s: Seq<char>, i: int)
    requires
        0 <= i <= s.len(),
    ensures
        i <= digits_end(s, i) <= s.len(),
        digits_end(s, i) < s.len() ==> !is_dec_digit(s[digits_end(s, i)]),
        forall|j: int| i <= j < digits_end(s, i) ==> is_dec_digit(s[j]),
    decreases s.len() - i,
{
    if i < s.len() && is_dec_digit(s[i]) {
        lemma_digits_end_bounds(s, i + 1);
    }
}

pub open spec fn is_hex_digit(c: char) -> bool {
    is_dec_digit(c) || ('a' <= c && c <= 'f') || ('A' <= c && c <= 'F')
}

pub open spec fn hex_val(c: char) -> int {
    if is_dec_digit(c) {
        digit_val(c)
    } else if 'a' <= c && c <= 'f' {
        c as int - 'a' as int + 10
    } else {
        c as int - 'A' as int + 10
    }
}

/// The value of the four hex digits at `i`.
pub open spec fn hex4_val(s: Seq<char>, i: int) -> int {
    hex_val(s[i]) * 4096 + hex_val(s[i + 1]) * 256 + hex_val(s[i + 2]) * 16 + hex_val(s[i + 3])
}

pub open spec fn has_hex4(s: Seq<char>, i: int) -> bool {
    i + 4 <= s.len() && is_hex_digit(s[i]) && is_hex_digit(s[i + 1]) && is_hex_digit(s[i + 2])
        && is_hex_digit(s[i + 3])
}

pub open spec fn simple_escape(c: char) -> Option<char> {
    if c == '"' {
        Some('"')
    } else if c == '\\' {
        Some('\\')
    } else if c == '/' {
        Some('/')
    } else if c == 'b' {
        Some('\u{8}')
    } else if c == 'f' {
        Some('\u{c}')
    } else if c == 'n' {
        Some('\n')
    } else if c == 'r' {
        Some('\r')
    } else if c == 't' {
        Some('\t')
    } else {
        None
    }
}

/// The characters of a JSON string body starting at `i` (just after the
/// opening quote), up to and including the closing quote. Supports the simple
/// escapes and `\uXXXX`, with surrogate pairs combined and lone surrogates
/// refused.
pub open spec fn spec_string_body(s: Seq<char>, i: int) -> Option<(Seq<char>, int)>
    decreases s.len() - i,
{
    if i < 0 || i >= s.len() {
        None
    } else if s[i] == '"' {
        Some((Seq::empty(), i + 1))
    } else if s[i] == '\\' {
        if i + 1 >= s.len() {
            None
        } else if simple_escape(s[i + 1]) is Some {
            match spec_string_body(s, i + 2) {
                Some((rest, j)) => Some((seq![simple_escape(s[i + 1]).unwrap()] + rest, j)),
                None => None,
            }
        } else if s[i + 1] == 'u' && has_hex4(s, i + 2) {
            let code = hex4_val(s, i + 2);
            if 0xD800 <= code < 0xDC00 {
                // high surrogate: a low surrogate escape must follow
                if i + 12 <= s.len() && s[i + 6] == '\\' && s[i + 7] == 'u' && has_hex4(s, i + 8)
                    && 0xDC00 <= hex4_val(s, i + 8) < 0xE000 {
                    let combined = 0x10000 + (code - 0xD800) * 1024 + (hex4_val(s, i + 8)
                        - 0xDC00);
                    match spec_string_body(s, i + 12) {
                        Some((rest, j)) => Some((seq![combined as char] + rest, j)),
                        None => None,
                    }
                } else {
                    None
                }
            } else if 0xDC00 <= code < 0xE000 {
                None
            } else {
                match spec_string_body(s, i + 6) {
                    Some((rest, j)) => Some((seq![code as char] + rest, j)),
                    None => None,
                }
            }
        } else {
            None
        }
    } else if ' ' > s[i] {
        // unescaped control characters are refused
        None
    } else {
        match spec_string_body(s, i + 1) {
            Some((rest, j)) => Some((seq![s[i]] + rest, j)),
            None => None,
        }
    }
}

/// An integer literal at `i`: an optional minus sign and a digit run without
/// a leading zero, not followed by a fractional or exponent part, with a
/// value that fits an `i64`.
pub open spec fn spec_number(s: Seq<char>, i: int) -> Option<(int, int)> {
    let start = if 0 <= i < s.len() && s[i] == '-' {
        i + 1
    } else {
        i
    };
    let j = digits_end(s, start);
    if j == start {
        None
    } else if j < s.len() && (s[j] == '.' || s[j] == 'e' || s[j] == 'E') {
        None
    } else if s[start] == '0' && j > start + 1 {
        None
    } else {
        let v = dec_val(s.subrange(start, j)) as int;
        let signed = if start == i {
            v
        } else {
            -v
        };
        if v <= i64::MAX {
            Some((signed, j))
        } else {
            None
        }
    }
}

pub open spec fn lit_at(s: Seq<char>, i: int, lit: Seq<char>) -> bool {
    0 <= i && i + lit.len() <= s.len() && s.subrange(i, i + lit.len() as int) == lit
}

/// A JSON value at `i`; returns the value and the index just after it.
pub open spec fn spec_value(s: Seq<char>, i: int, fuel: nat) -> Option<(JsonView, int)>
    decreases fuel,
{
    if fuel == 0 || i < 0 || i >= s.len() {
        None
    } else {
        let c = s[i];
        if c == 'n' {
            if lit_at(s, i, "null"@) {
                Some((JsonView::Null, i + 4))
            } else {
                None
            }
        } else if c == 't' {
            if lit_at(s, i, "true"@) {
                Some((JsonView::Bool(true), i + 4))
            } else {
                None
            }
        } else if c == 'f' {
            if lit_at(s, i, "false"@) {
                Some((JsonView::Bool(false), i + 5))
            } else {
                None
            }
        } else if c == '"' {
            match spec_string_body(s, i + 1) {
                Some((cs, j)) => Some((JsonView::Str(cs), j)),
                None => None,
            }
        } else if c == '-' || is_dec_digit(c) {
            match spec_number(s, i) {
                Some((n, j)) => Some((JsonView::Int(n), j)),
                None => None,
            }
        } else if c == '[' {
            let j = skip_ws(s, i + 1);
            if j < s.len() && s[j] == ']' {
                Some((JsonView::Arr(Seq::empty()), j + 1))
            } else {
                match spec_array_items(s, j, (fuel - 1) as nat) {
                    Some((items, k)) => Some((JsonView::Arr(items), k)),
                    None => None,
                }
            }
        } else if c == '{' {
            let j = skip_ws(s, i + 1);
            if j < s.len() && s[j] == '}' {
                Some((JsonView::Obj(Seq::empty()), j + 1))
            } else {
                match spec_members(s, j, (fuel - 1) as nat) {
                    Some((members, k)) => Some((JsonView::Obj(members), k)),
                    None => None,
                }
            }
        } else {
            None
        }
    }
}

/// One or more array items at `i` (whitespace already skipped), separated by
/// commas, up to and including the closing bracket.
pub open spec fn spec_array_items(s: Seq<char>, i: int, fuel: nat) -> Option<(Seq<JsonView>, int)>
    decreases fuel,
{
    if fuel == 0 {
        None
    } else {
        match spec_value(s, i, (fuel - 1) as nat) {
            Some((v, j)) => {
                let k = skip_ws(s, j);
                if k < s.len() && s[k] == ']' {
                    Some((seq![v], k + 1))
                } else if k < s.len() && s[k] == ',' {
                    match spec_array_items(s, skip_ws(s, k + 1), (fuel - 1) as nat) {
                        Some((rest, m)) => Some((seq![v] + rest, m)),
                        None => None,
                    }
                } else {
                    None
                }
            },
            None => None,
        }
    }
}

/// One or more object members at `i` (whitespace already skipped), up to and
/// including the closing brace.
pub open spec fn spec_members(s: Seq<char>, i: int, fuel: nat) -> Option<
    (Seq<(Seq<char>, JsonView)>, int),
>
    decreases fuel,
{
    if fuel == 0 {
        None
    } else if !(0 <= i < s.len() && s[i] == '"') {
        None
    } else {
        match spec_string_body(s, i + 1) {
            Some((key, j)) => {
                let colon = skip_ws(s, j);
                if !(colon < s.len() && s[colon] == ':') {
                    None
                } else {
                    match spec_value(s, skip_ws(s, colon + 1), (fuel - 1) as nat) {
                        Some((v, k)) => {
                            let m = skip_ws(s, k);
                            if m < s.len() && s[m] == '}' {
                                Some((seq![(key, v)], m + 1))
                            } else if m < s.len() && s[m] == ',' {
                                match spec_members(s, skip_ws(s, m + 1), (fuel - 1) as nat) {
                                    Some((rest, e)) => Some((seq![(key, v)] + rest, e)),
                                    None => None,
                                }
                            } else {
                                None
                            }
                        },
                        None => None,
                    }
                }
            },
            None => None,
        }
    }
}

/// A whole text: one JSON value with nothing but whitespace around it.
pub open spec fn spec_parse_json(s: Seq<char>) -> Option<JsonView> {
    match spec_value(s, skip_ws(s, 0), (2 * s.len() + 4) as nat) {
        Some((v, j)) => {
            if skip_ws(s, j) == s.len() {
                Some(v)
            } else {
                None
            }
        },
        None => None,
    }
}

/// Relies on the definition of `char` in Rust: casting one to `u32` yields
/// its code point.
#[verifier::external_body]
fn char_code(c: char) -> (r: u32)
    ensures
        r == c as int,
{
    c as u32
}

/// Relies on `char::from_u32`: `Some` exactly for valid scalar values
/// (below the surrogate range, or between it and `0x10FFFF`), and the
/// returned character has the given code.
#[verifier::external_body]
fn char_from_u32(c: u32) -> (r: Option<char>)
    ensures
        r is Some <==> (c < 0xD800 || (0xE000 <= c && c <= 0x10FFFF)),
        r is Some ==> r.unwrap() == c as char,
{
    char::from_u32(c)
}

fn exec_skip_ws(v: &[char], i: usize) -> (r: usize)
    requires
        i <= v@.len(),
    ensures
        r == skip_ws(v@, i as int),
        i <= r <= v@.len(),
{
    let mut k = i;
    loop
        invariant
            i <= k <= v@.len(),
            skip_ws(v@, i as int) == skip_ws(v@, k as int),
        decreases v@.len() - k,
    {
        if k < v.len() {
            let c = v[k];
            if c == ' ' || c == '\t' || c == '\n' || c == '\r' {
                k += 1;
                continue ;
            }
        }
        return k;
    }
}

fn exec_digits_end(v: &[char], i: usize) -> (r: usize)
    requires
        i <= v@.len(),
    ensures
        r == digits_end(v@, i as int),
        i <= r <= v@.len(),
{
    let mut k = i;
    loop
        invariant
            i <= k <= v@.len(),
            digits_end(v@, i as int) == digits_end(v@, k as int),
        decreases v@.len() - k,
    {
        if k < v.len() {
            let c = v[k];
            if '0' <= c && c <= '9' {
                k += 1;
                continue ;
            }
        }
        return k;
    }
}

fn exec_hex_val(c: char) -> (r: Option<u32>)
    ensures
        match r {
            Some(n) => is_hex_digit(c) && n == hex_val(c) && n < 16,
            None => !is_hex_digit(c),
        },
{
    if '0' <= c && c <= '9' {
        Some(c as u32 - '0' as u32)
    } else if 'a' <= c && c <= 'f' {
        Some(c as u32 - 'a' as u32 + 10)
    } else if 'A' <= c && c <= 'F' {
        Some(c as u32 - 'A' as u32 + 10)
    } else {
        None
    }
}

fn exec_hex4(v: &[char], i: usize) -> (r: Option<u32>)
    ensures
        match r {
            Some(n) => has_hex4(v@, i as int) && n == hex4_val(v@, i as int) && n < 0x10000,
            None => !has_hex4(v@, i as int),
        },
{
    if i >= v.len() || v.len() - i < 4 {
        return None;
    }
    let d0 = exec_hex_val(v[i]);
    let d1 = exec_hex_val(v[i + 1]);
    let d2 = exec_hex_val(v[i + 2]);
    let d3 = exec_hex_val(v[i + 3]);
    match (d0, d1, d2, d3) {
        (Some(a), Some(b), Some(c), Some(d)) => Some(a * 4096 + b * 256 + c * 16 + d),
        _ => None,
    }
}

/// Two hex digits read as one byte value.
pub(crate) fn hex_pair_val(a: char, b: char) -> (r: Option<u32>)
    ensures
        match r {
            Some(n) => is_hex_digit(a) && is_hex_digit(b) && n == hex_val(a) * 16 + hex_val(b)
                && n < 256,
            None => !(is_hex_digit(a) && is_hex_digit(b)),
        },
{
    match (exec_hex_val(a), exec_hex_val(b)) {
        (Some(x), Some(y)) => Some(x * 16 + y),
        _ => None,
    }
}

/// Parses a string body starting just after the opening quote; returns the
/// decoded characters and the index just after the closing quote.
fn exec_string_body(v: &[char], i: usize) -> (r: Option<(Vec<char>, usize)>)
    requires
        i <= v@.len(),
    ensures
        match r {
            Some((cs, j)) => spec_string_body(v@, i as int) == Some((cs@, j as int)) && i < j
                <= v@.len(),
            None => spec_string_body(v@, i as int) is None,
        },
    decreases v@.len() - i,
{
    if i >= v.len() {
        return None;
    }
    let c = v[i];
    if c == '"' {
        return Some((Vec::new(), i + 1));
    }
    if c == '\\' {
        if i + 1 >= v.len() {
            return None;
        }
        let e = v[i + 1];
        let simple = if e == '"' {
            Some('"')
        } else if e == '\\' {
            Some('\\')
        } else if e == '/' {
            Some('/')
        } else if e == 'b' {
            Some('\u{8}')
        } else if e == 'f' {
            Some('\u{c}')
        } else if e == 'n' {
            Some('\n')
        } else if e == 'r' {
            Some('\r')
        } else if e == 't' {
            Some('\t')
        } else {
            None
        };
        proof {
            assert(simple == simple_escape(v@[i + 1]));
        }
        match simple {
            Some(decoded) => {
                match exec_string_body(v, i + 2) {
                    Some((rest, j)) => {
                        return Some((prepend_char(decoded, rest), j));
                    },
                    None => {
                        return None;
                    },
                }
            },
            None => {},
        }
        if e == 'u' {
            match exec_hex4(v, i + 2) {
                Some(code) => {
                    if 0xD800 <= code && code < 0xDC00 {
                        // high surrogate: require a low surrogate escape
                        if v.len() >= 12 && i <= v.len() - 12 && v[i + 6] == '\\' && v[i + 7]
                            == 'u' {
                            match exec_hex4(v, i + 8) {
                                Some(low) => {
                                    if 0xDC00 <= low && low < 0xE000 {
                                        let combined: u32 = 0x10000 + (code - 0xD800) * 1024 + (
                                        low - 0xDC00);
                                        let decoded = match char_from_u32(combined) {
                                            Some(ch) => ch,
                                            None => {
                                                proof {
                                                    assert(false);
                                                }
                                                ' '
                                            },
                                        };
                                        match exec_string_body(v, i + 12) {
                                            Some((rest, j)) => {
                                                return Some((prepend_char(decoded, rest), j));
                                            },
                                            None => {
                                                return None;
                                            },
                                        }
                                    } else {
                                        return None;
                                    }
                                },
                                None => {
                                    return None;
                                },
                            }
                        } else {
                            return None;
                        }
                    } else if 0xDC00 <= code && code < 0xE000 {
                        return None;
                    } else {
                        let decoded = match char_from_u32(code) {
                            Some(ch) => ch,
                            None => {
                                proof {
                                    assert(false);
                                }
                                ' '
                            },
                        };
                        match exec_string_body(v, i + 6) {
                            Some((rest, j)) => {
                                return Some((prepend_char(decoded, rest), j));
                            },
                            None => {
                                return None;
                            },
                        }
                    }
                },
                None => {
                    return None;
                },
            }
        }
        return None;
    }
    if ' ' > c {
        return None;
    }
    match exec_string_body(v, i + 1) {
        Some((rest, j)) => Some((prepend_char(c, rest), j)),
        None => None,
    }
}

pub(crate) fn prepend_char(c: char, rest: Vec<char>) -> (r: Vec<char>)
    ensures
        r@ == seq![c] + rest@,
{
    let mut cs: Vec<char> = Vec::new();
    cs.push(c);
    let mut k: usize = 0;
    while k < rest.len()
        invariant
            k <= rest@.len(),
            cs@ == seq![c] + rest@.subrange(0, k as int),
        decreases rest@.len() - k,
    {
        cs.push(rest[k]);
        k += 1;
        proof {
            assert(cs@ =~= seq![c] + rest@.subrange(0, k as int));
        }
    }
    proof {
        assert(cs@ =~= seq![c] + rest@);
    }
    cs
}

#[verifier::loop_isolation(false)]
fn exec_number(v: &[char], i: usize) -> (r: Option<(i64, usize)>)
    requires
        i < v@.len(),
    ensures
        match r {
            Some((n, j)) => spec_number(v@, i as int) == Some((n as int, j as int)) && i < j
                <= v@.len(),
            None => spec_number(v@, i as int) is None,
        },
{
    let neg = v[i] == '-';
    let start = if neg {
        i + 1
    } else {
        i
    };
    let j = exec_digits_end(v, start);
    if j == start {
        return None;
    }
    if j < v.len() {
        let c = v[j];
        if c == '.' || c == 'e' || c == 'E' {
            return None;
        }
    }
    if v[start] == '0' && j > start + 1 {
        return None;
    }
    // accumulate the digit run, watching for overflow
    let ghost digits = v@.subrange(start as int, j as int);
    let mut acc: u64 = 0;
    let mut k = start;
    proof {
        lemma_digits_end_bounds(v@, start as int);
        assert(digits.subrange(0, 0) =~= Seq::<char>::empty());
    }
    while k < j
        invariant
            start <= k <= j,
            acc == dec_val(digits.subrange(0, k - start)),
            acc <= i64::MAX,
        decreases j - k,
    {
        let c = v[k];
        proof {
            assert(is_dec_digit(v@[k as int]));
            assert(digits[k - start] == v@[k as int]);
        }
        let d: u64 = (c as u64) - ('0' as u64);
        if acc > 0x0fff_ffff_ffff_ffff {
            // cannot stay within i64 from here; check the exact bound
            if acc > (0x7fff_ffff_ffff_ffff - d) / 10 {
                proof {
                    let pre = digits.subrange(0, k - start + 1);
                    assert(pre.drop_last() =~= digits.subrange(0, k - start));
                    assert(pre.last() == v@[k as int]);
                    assert(dec_val(pre) == acc * 10 + d);
                    assert(acc * 10 + d > 0x7fff_ffff_ffff_ffff) by (nonlinear_arith)
                        requires
                            acc > (0x7fff_ffff_ffff_ffff - d) / 10,
                            d < 10,
                    ;
                    crate::text::lemma_dec_val_prefix_mono(digits, k - start + 1);
                    assert(dec_val(digits) > i64::MAX);
                    assert(spec_number(v@, i as int) is None);
                }
                return None;
            }
        }
        proof {
            assert(acc * 10 + d <= u64::MAX) by (nonlinear_arith)
                requires
                    acc <= (0x7fff_ffff_ffff_ffff - d) / 10 || acc <= 0x0fff_ffff_ffff_ffff,
                    d < 10,
            ;
        }
        acc = acc * 10 + d;
        k += 1;
        proof {
            let pre = digits.subrange(0, k - start);
            assert(pre.drop_last() =~= digits.subrange(0, k - start - 1));
            assert(pre.last() == v@[k - 1]);
        }
        if acc > 0x7fff_ffff_ffff_ffff {
            proof {
                crate::text::lemma_dec_val_prefix_mono(digits, k - start);
                assert(dec_val(digits) > i64::MAX);
                assert(spec_number(v@, i as int) is None);
            }
            return None;
        }
    }
    proof {
        assert(digits.subrange(0, j - start) =~= digits);
    }
    if neg {
        let n: i64 = -(acc as i64);
        Some((n, j))
    } else {
        Some((acc as i64, j))
    }
}

#[verifier::loop_isolation(false)]
fn lit_check(v: &[char], i: usize, lit: &[char]) -> (r: bool)
    requires
        i <= v@.len(),
    ensures
        r == lit_at(v@, i as int, lit@),
{
    if v.len() - i < lit.len() {
        return false;
    }
    let mut k: usize = 0;
    while k < lit.len()
        invariant
            k <= lit@.len(),
            forall|m: int| 0 <= m < k ==> v@[i + m] == lit@[m],
        decreases lit@.len() - k,
    {
        if v[i + k] != lit[k] {
            proof {
                assert(v@.subrange(i as int, i + lit@.len())[k as int] == v@[i + k]);
            }
            return false;
        }
        k += 1;
    }
    proof {
        assert(v@.subrange(i as int, i + lit@.len()) =~= lit@);
    }
    true
}

/// Parses a JSON value at `i`.
fn exec_value(v: &[char], i: usize, fuel: usize) -> (r: Option<(Json, usize)>)
    requires
        i <= v@.len(),
    ensures
        match r {
            Some((j, k)) => spec_value(v@, i as int, fuel as nat) == Some((j@, k as int)) && k
                <= v@.len(),
            None => spec_value(v@, i as int, fuel as nat) is None,
        },
    decreases fuel,
{
    if fuel == 0 || i >= v.len() {
        return None;
    }
    let c = v[i];
    if c == 'n' {
        let lit = ['n', 'u', 'l', 'l'];
        proof {
            reveal_strlit("null");
            assert(lit@ =~= "null"@);
        }
        if lit_check(v, i, &lit) {
            Some((Json::Null, i + 4))
        } else {
            None
        }
    } else if c == 't' {
        let lit = ['t', 'r', 'u', 'e'];
        proof {
            reveal_strlit("true");
            assert(lit@ =~= "true"@);
        }
        if lit_check(v, i, &lit) {
            Some((Json::Bool(true), i + 4))
        } else {
            None
        }
    } else if c == 'f' {
        let lit = ['f', 'a', 'l', 's', 'e'];
        proof {
            reveal_strlit("false");
            assert(lit@ =~= "false"@);
        }
        if lit_check(v, i, &lit) {
            Some((Json::Bool(false), i + 5))
        } else {
            None
        }
    } else if c == '"' {
        match exec_string_body(v, i + 1) {
            Some((cs, j)) => Some((Json::Str(string_of_chars(cs.as_slice())), j)),
            None => None,
        }
    } else if c == '-' || ('0' <= c && c <= '9') {
        match exec_number(v, i) {
            Some((n, j)) => Some((Json::Int(n), j)),
            None => None,
        }
    } else if c == '[' {
        let j = exec_skip_ws(v, i + 1);
        if j < v.len() && v[j] == ']' {
            proof {
                assert(json_list_view(JsonList::Nil) =~= Seq::<JsonView>::empty());
            }
            Some((Json::Arr(Box::new(JsonList::Nil)), j + 1))
        } else {
            match exec_array_items(v, j, fuel - 1) {
                Some((items, k)) => Some((Json::Arr(Box::new(items)), k)),
                None => None,
            }
        }
    } else if c == '{' {
        let j = exec_skip_ws(v, i + 1);
        if j < v.len() && v[j] == '}' {
            proof {
                assert(json_members_view(JsonMembers::Nil) =~= Seq::<
                    (Seq<char>, JsonView),
                >::empty());
            }
            Some((Json::Obj(Box::new(JsonMembers::Nil)), j + 1))
        } else {
            match exec_members(v, j, fuel - 1) {
                Some((members, k)) => Some((Json::Obj(Box::new(members)), k)),
                None => None,
            }
        }
    } else {
        None
    }
}

fn exec_array_items(v: &[char], i: usize, fuel: usize) -> (r: Option<(JsonList, usize)>)
    requires
        i <= v@.len(),
    ensures
        match r {
            Some((items, k)) => spec_array_items(v@, i as int, fuel as nat) == Some(
                (json_list_view(items), k as int),
            ) && k <= v@.len(),
            None => spec_array_items(v@, i as int, fuel as nat) is None,
        },
    decreases fuel,
{
    if fuel == 0 {
        return None;
    }
    match exec_value(v, i, fuel - 1) {
        Some((item, j)) => {
            let k = exec_skip_ws(v, j);
            if k < v.len() && v[k] == ']' {
                let ghost iv = json_view(item);
                let items = JsonList::Cons(item, Box::new(JsonList::Nil));
                proof {
                    reveal_with_fuel(json_list_view, 2);
                    assert(json_list_view(items) =~= seq![iv]);
                }
                Some((items, k + 1))
            } else if k < v.len() && v[k] == ',' {
                let next = exec_skip_ws(v, k + 1);
                match exec_array_items(v, next, fuel - 1) {
                    Some((rest, m)) => Some((JsonList::Cons(item, Box::new(rest)), m)),
                    None => None,
                }
            } else {
                None
            }
        },
        None => None,
    }
}

fn exec_members(v: &[char], i: usize, fuel: usize) -> (r: Option<(JsonMembers, usize)>)
    requires
        i <= v@.len(),
    ensures
        match r {
            Some((members, k)) => spec_members(v@, i as int, fuel as nat) == Some(
                (json_members_view(members), k as int),
            ) && k <= v@.len(),
            None => spec_members(v@, i as int, fuel as nat) is None,
        },
    decreases fuel,
{
    if fuel == 0 {
        return None;
    }
    if !(i < v.len() && v[i] == '"') {
        return None;
    }
    match exec_string_body(v, i + 1) {
        Some((key_chars, j)) => {
            let key = string_of_chars(key_chars.as_slice());
            let colon = exec_skip_ws(v, j);
            if !(colon < v.len() && v[colon] == ':') {
                return None;
            }
            let vstart = exec_skip_ws(v, colon + 1);
            match exec_value(v, vstart, fuel - 1) {
                Some((value, k)) => {
                    let m = exec_skip_ws(v, k);
                    if m < v.len() && v[m] == '}' {
                        let ghost kv = key@;
                        let ghost vv = json_view(value);
                        let members = JsonMembers::Cons(key, value, Box::new(JsonMembers::Nil));
                        proof {
                            reveal_with_fuel(json_members_view, 2);
                            assert(json_members_view(members) =~= seq![(kv, vv)]);
                        }
                        Some((members, m + 1))
                    } else if m < v.len() && v[m] == ',' {
                        let next = exec_skip_ws(v, m + 1);
                        match exec_members(v, next, fuel - 1) {
                            Some((rest, e)) => Some(
                                (JsonMembers::Cons(key, value, Box::new(rest)), e),
                            ),
                            None => None,
                        }
                    } else {
                        None
                    }
                },
                None => None,
            }
        },
        None => None,
    }
}

/// Parses a complete JSON text. The length bound keeps the fuel computation
/// inside `usize`; every frame the gateway parses is far below it.
pub fn parse_json(s: &str) -> (r: Option<Json>)
    requires
        2 * s@.len() + 4 <= usize::MAX,
    ensures
        match r {
            Some(j) => spec_parse_json(s@) == Some(j@),
            None => spec_parse_json(s@) is None,
        },
{
    let v = crate::text::chars_of(s);
    let start = exec_skip_ws(v.as_slice(), 0);
    let fuel = 2 * v.len() + 4;
    match exec_value(v.as_slice(), start, fuel) {
        Some((j, k)) => {
            if exec_skip_ws(v.as_slice(), k) == v.len() {
                Some(j)
            } else {
                None
            }
        },
        None => None,
    }
}

/// First member with the given key.
pub open spec fn obj_lookup(ms: Seq<(Seq<char>, JsonView)>, k: Seq<char>) -> Option<JsonView>
    decreases ms.len(),
{
    if ms.len() == 0 {
        None
    } else if ms[0].0 == k {
        Some(ms[0].1)
    } else {
        obj_lookup(ms.drop_first(), k)
    }
}

/// The member `k` of an object value; `None` for any other value.
pub open spec fn json_get(v: JsonView, k: Seq<char>) -> Option<JsonView> {
    match v {
        JsonView::Obj(ms) => obj_lookup(ms, k),
        _ => None,
    }
}

fn members_get<'a>(m: &'a JsonMembers, key: &str) -> (r: Option<&'a Json>)
    ensures
        match r {
            Some(j) => obj_lookup(json_members_view(*m), key@) == Some(j@),
            None => obj_lookup(json_members_view(*m), key@) is None,
        },
    decreases *m,
{
    match m {
        JsonMembers::Nil => None,
        JsonMembers::Cons(k, v, tail) => {
            proof {
                assert(json_members_view(*m).drop_first() =~= json_members_view(**tail));
            }
            if str_eq(k.as_str(), key) {
                Some(v)
            } else {
                members_get(tail, key)
            }
        },
    }
}

impl Json {
    /// Looks up the first member with the given key, if this is an object.
    pub fn get<'a>(&'a self, key: &str) -> (r: Option<&'a Json>)
        ensures
            match r {
                Some(j) => json_get(self@, key@) == Some(j@),
                None => json_get(self@, key@) is None,
            },
    {
        match self {
            Json::Obj(members) => members_get(members, key),
            _ => None,
        }
    }
}

pub open spec fn spec_hex_char(d: int) -> char {
    if d < 10 {
        crate::text::spec_digit_char(d)
    } else if d == 10 {
        'a'
    } else if d == 11 {
        'b'
    } else if d == 12 {
        'c'
    } else if d == 13 {
        'd'
    } else if d == 14 {
        'e'
    } else {
        'f'
    }
}

/// How one character is written inside a JSON string.
pub open spec fn esc_char(c: char) -> Seq<char> {
    if c == '"' {
        seq!['\\', '"']
    } else if c == '\\' {
        seq!['\\', '\\']
    } else if c == '\n' {
        seq!['\\', 'n']
    } else if c == '\r' {
        seq!['\\', 'r']
    } else if c == '\t' {
        seq!['\\', 't']
    } else if c == '\u{8}' {
        seq!['\\', 'b']
    } else if c == '\u{c}' {
        seq!['\\', 'f']
    } else if ' ' > c {
        seq!['\\', 'u', '0', '0', spec_hex_char(c as int / 16), spec_hex_char(c as int % 16)]
    } else {
        seq![c]
    }
}

/// A string as written inside JSON quotes.
pub open spec fn json_escaped(s: Seq<char>) -> Seq<char>
    decreases s.len(),
{
    if s.len() == 0 {
        Seq::empty()
    } else {
        json_escaped(s.drop_last()) + esc_char(s.last())
    }
}

fn hex_char(d: u32) -> (c: char)
    requires
        d < 16,
    ensures
        c == spec_hex_char(d as int),
{
    match d {
        0 => '0',
        1 => '1',
        2 => '2',
        3 => '3',
        4 => '4',
        5 => '5',
        6 => '6',
        7 => '7',
        8 => '8',
        9 => '9',
        10 => 'a',
        11 => 'b',
        12 => 'c',
        13 => 'd',
        14 => 'e',
        _ => 'f',
    }
}

/// Appends `s` escaped for inclusion in a JSON string literal.
#[verifier::loop_isolation(false)]
pub fn append_json_escaped(out: &mut String, s: &str)
    ensures
        final(out)@ == old(out)@ + json_escaped(s@),
{
    let cs = crate::text::chars_of(s);
    let mut i: usize = 0;
    proof {
        assert(json_escaped(s@.subrange(0, 0)) =~= Seq::<char>::empty());
        assert(old(out)@ + Seq::<char>::empty() =~= old(out)@);
    }
    while i < cs.len()
        invariant
            i <= cs@.len(),
            cs@ == s@,
            out@ == old(out)@ + json_escaped(s@.subrange(0, i as int)),
        decreases cs@.len() - i,
    {
        let c = cs[i];
        let ghost before = out@;
        if c == '"' {
            out.append("\\\"");
            proof {
                reveal_strlit("\\\"");
                assert(out@ =~= before + esc_char(c));
            }
        } else if c == '\\' {
            out.append("\\\\");
            proof {
                reveal_strlit("\\\\");
                assert(out@ =~= before + esc_char(c));
            }
        } else if c == '\n' {
            out.append("\\n");
            proof {
                reveal_strlit("\\n");
                assert(out@ =~= before + esc_char(c));
            }
        } else if c == '\r' {
            out.append("\\r");
            proof {
                reveal_strlit("\\r");
                assert(out@ =~= before + esc_char(c));
            }
        } else if c == '\t' {
            out.append("\\t");
            proof {
                reveal_strlit("\\t");
                assert(out@ =~= before + esc_char(c));
            }
        } else if c == '\u{8}' {
            out.append("\\b");
            proof {
                reveal_strlit("\\b");
                assert(out@ =~= before + esc_char(c));
            }
        } else if c == '\u{c}' {
            out.append("\\f");
            proof {
                reveal_strlit("\\f");
                assert(out@ =~= before + esc_char(c));
            }
        } else if ' ' > c {
            let code = char_code(c);
            out.append("\\u00");
            push_char(out, hex_char(code / 16));
            push_char(out, hex_char(code % 16));
            proof {
                reveal_strlit("\\u00");
                assert(out@ =~= before + esc_char(c));
            }
        } else {
            push_char(out, c);
            proof {
                assert(out@ =~= before + esc_char(c));
            }
        }
        i += 1;
        proof {
            assert(s@.subrange(0, i as int).drop_last() =~= s@.subrange(0, i - 1));
            assert(s@.subrange(0, i as int).last() == c);
            assert(out@ =~= old(out)@ + json_escaped(s@.subrange(0, i as int)));
        }
    }
    proof {
        assert(s@.subrange(0, s@.len() as int) =~= s@);
    }
}

} // verus!
