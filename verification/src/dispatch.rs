//! The dispatch and subscription engine: the shared indexes mapping users,
//! games and page sessions to live socket senders, the per-socket
//! authentication state machine, and the handlers for browser frames and
//! backend messages. Handlers are pure state transitions over [`App`]: the
//! sends, closes and publishes they decide come back as a list of effects
//! for the I/O layer to perform, so every rule here is verified.
use vstd::prelude::*;
use vstd::string::StringSliceAdditionalSpecFns;

use crate::analysis::OpeningDb;
use crate::browser::{self, SocketOut};
use crate::cache::GameCache;
use crate::ipc::{LilaIn, LilaOut};
use crate::limiter::RateLimiter;
use crate::model::{valid_game_id, Endpoint, Flag, GameId, Sri, UserId};

verus! {

/// Why a socket is being closed.
#[derive(Debug, Copy, Clone, PartialEq, Eq, Structural)]
pub enum CloseReason {
    Normal,
    Away,
    Size,
    Protocol,
}

/// One side effect a handler asks the I/O layer to perform.
pub enum Effect {
    /// Send a text frame to the socket holding this sender token.
    Send { token: u64, text: String },
    /// Send a text frame to every open socket.
    Broadcast { text: String },
    /// Close the socket holding this sender token.
    Close { token: u64, reason: CloseReason },
    /// Publish one line to the backend over the outbound queue.
    Publish { line: String },
}

pub enum EffectView {
    Send { token: u64, text: Seq<char> },
    Broadcast { text: Seq<char> },
    Close { token: u64, reason: CloseReason },
    Publish { line: Seq<char> },
}

impl View for Effect {
    type V = EffectView;

    open spec fn view(&self) -> EffectView {
        match self {
            Effect::Send { token, text } => EffectView::Send { token: *token, text: text@ },
            Effect::Broadcast { text } => EffectView::Broadcast { text: text@ },
            Effect::Close { token, reason } => EffectView::Close {
                token: *token,
                reason: *reason,
            },
            Effect::Publish { line } => EffectView::Publish { line: line@ },
        }
    }
}

pub open spec fn effect_views(v: Vec<Effect>) -> Seq<EffectView> {
    v@.map_values(|e: Effect| e@)
}

/// A set of sender tokens.
pub struct TokenSet {
    items: Vec<u64>,
}

impl TokenSet {
    pub closed spec fn has(&self, t: u64) -> bool {
        self.items@.contains(t)
    }

    pub closed spec fn seq(&self) -> Seq<u64> {
        self.items@
    }

    pub closed spec fn wf(&self) -> bool {
        forall|a: int, b: int| 0 <= a < b < self.items@.len() ==> self.items@[a] != self.items@[b]
    }

    pub fn new() -> (r: TokenSet)
        ensures
            r.wf(),
            forall|t: u64| !#[trigger] r.has(t),
            r.seq() == Seq::<u64>::empty(),
    {
        TokenSet { items: Vec::new() }
    }

    /// Adds a token; says whether it was new.
    #[verifier::loop_isolation(false)]
    pub fn insert(&mut self, t: u64) -> (added: bool)
        requires
            old(self).wf(),
        ensures
            final(self).wf(),
            added == !old(self).has(t),
            forall|t2: u64| #[trigger] final(self).has(t2) <==> old(self).has(t2) || t2 == t,
    {
        let mut i: usize = 0;
        while i < self.items.len()
            invariant
                i <= self.items@.len(),
                forall|j: int| 0 <= j < i ==> self.items@[j] != t,
                *self == *old(self),
            decreases self.items@.len() - i,
        {
            if self.items[i] == t {
                return false;
            }
            i += 1;
        }
        self.items.push(t);
        proof {
            assert(!old(self).items@.contains(t));
            assert forall|t2: u64| #[trigger] self.items@.contains(t2) <==> old(self).items@.contains(t2) || t2 == t by {
                if self.items@.contains(t2) {
                    let j = choose|j: int|
                        0 <= j < self.items@.len() && self.items@[j] == t2;
                    if j < old(self).items@.len() {
                        assert(old(self).items@[j] == t2);
                    }
                } else {
                    assert(!old(self).items@.contains(t2) && t2 != t) by {
                        if old(self).items@.contains(t2) {
                            let j = choose|j: int|
                                0 <= j < old(self).items@.len() && old(self).items@[j] == t2;
                            assert(self.items@[j] == t2);
                        }
                        assert(self.items@[self.items@.len() - 1] == t);
                    }
                }
            }
        }
        true
    }

    /// Removes a token if present.
    #[verifier::loop_isolation(false)]
    pub fn remove(&mut self, t: u64)
        requires
            old(self).wf(),
        ensures
            final(self).wf(),
            forall|t2: u64| #[trigger] final(self).has(t2) <==> old(self).has(t2) && t2 != t,
    {
        let mut i: usize = 0;
        while i < self.items.len()
            invariant
                i <= self.items@.len(),
                forall|j: int| 0 <= j < i ==> self.items@[j] != t,
                *self == *old(self),
            decreases self.items@.len() - i,
        {
            if self.items[i] == t {
                self.items.swap_remove(i);
                proof {
                    let pre = old(self).items@;
                    let post = self.items@;
                    assert forall|t2: u64| #[trigger] post.contains(t2) <==> pre.contains(t2)
                        && t2 != t by {
                        if post.contains(t2) {
                            let j = choose|j: int| 0 <= j < post.len() && post[j] == t2;
                            if j == i {
                                assert(pre[pre.len() - 1] == t2);
                            } else {
                                assert(pre[j] == t2);
                            }
                            assert(t2 != t) by {
                                if j == i {
                                    assert(pre[pre.len() - 1] == t2);
                                    if i < pre.len() - 1 {
                                        assert(pre[i as int] == t);
                                    }
                                } else {
                                    assert(pre[j] == t2);
                                }
                            }
                        } else {
                            if pre.contains(t2) && t2 != t {
                                let j = choose|j: int| 0 <= j < pre.len() && pre[j] == t2;
                                assert(j != i);
                                if j == pre.len() - 1 {
                                    if i < pre.len() - 1 {
                                        assert(post[i as int] == t2);
                                    }
                                } else {
                                    assert(post[j] == t2);
                                }
                            }
                        }
                    }
                    assert forall|a: int, b: int|
                        0 <= a < b < post.len() implies post[a] != post[b] by {
                        if a == i {
                            assert(post[a] == pre[pre.len() - 1]);
                            assert(post[b] == pre[b]);
                        } else if b == i {
                            assert(post[b] == pre[pre.len() - 1]);
                            assert(post[a] == pre[a]);
                        } else {
                            assert(post[a] == pre[a] && post[b] == pre[b]);
                        }
                    }
                }
                return ;
            }
            i += 1;
        }
        proof {
            assert(!old(self).items@.contains(t)) by {
                if old(self).items@.contains(t) {
                    let j = choose|j: int|
                        0 <= j < old(self).items@.len() && old(self).items@[j] == t;
                }
            }
        }
    }

    /// The tokens, for fanning a frame out.
    pub fn to_vec(&self) -> (r: Vec<u64>)
        ensures
            r@ == self.seq(),
    {
        let mut r: Vec<u64> = Vec::new();
        let mut i: usize = 0;
        while i < self.items.len()
            invariant
                i <= self.items@.len(),
                r@ == self.items@.subrange(0, i as int),
            decreases self.items@.len() - i,
        {
            r.push(self.items[i]);
            i += 1;
            proof {
                assert(r@ =~= self.items@.subrange(0, i as int));
            }
        }
        proof {
            assert(r@ =~= self.items@);
        }
        r
    }
}

/// Position of a token in a list.
#[verifier::loop_isolation(false)]
fn find_token(v: &Vec<u64>, t: u64) -> (r: Option<usize>)
    ensures
        match r {
            Some(i) => i < v@.len() && v@[i as int] == t,
            None => !v@.contains(t),
        },
{
    let mut i: usize = 0;
    while i < v.len()
        invariant
            i <= v@.len(),
            forall|j: int| 0 <= j < i ==> v@[j] != t,
        decreases v@.len() - i,
    {
        if v[i] == t {
            return Some(i);
        }
        i += 1;
    }
    proof {
        if v@.contains(t) {
            let j = choose|j: int| 0 <= j < v@.len() && v@[j] == t;
        }
    }
    None
}

/// An index from a string key to the distinct sender tokens joined under it.
/// A key is present exactly while it has at least one token.
pub struct Index {
    entries: Vec<(String, Vec<u64>)>,
}

impl Index {
    pub closed spec fn contains_key(&self, k: Seq<char>) -> bool {
        exists|i: int| 0 <= i < self.entries@.len() && self.entries@[i].0@ == k
    }

    pub closed spec fn has_token(&self, k: Seq<char>, t: u64) -> bool {
        exists|i: int|
            0 <= i < self.entries@.len() && self.entries@[i].0@ == k
                && self.entries@[i].1@.contains(t)
    }

    pub closed spec fn wf(&self) -> bool {
        &&& forall|i: int, j: int|
            0 <= i < j < self.entries@.len() ==> self.entries@[i].0@ != self.entries@[j].0@
        &&& forall|i: int|
            0 <= i < self.entries@.len() ==> (#[trigger] self.entries@[i]).1@.len() >= 1
        &&& forall|i: int, a: int, b: int|
            0 <= i < self.entries@.len() && 0 <= a < b < self.entries@[i].1@.len()
                ==> #[trigger] self.entries@[i].1@[a] != #[trigger] self.entries@[i].1@[b]
    }

    pub fn new() -> (r: Index)
        ensures
            r.wf(),
            forall|k: Seq<char>| !#[trigger] r.contains_key(k),
            forall|k: Seq<char>, t: u64| !#[trigger] r.has_token(k, t),
    {
        Index { entries: Vec::new() }
    }

    #[verifier::loop_isolation(false)]
    fn find(&self, k: &str) -> (r: Option<usize>)
        ensures
            match r {
                Some(i) => i < self.entries@.len() && self.entries@[i as int].0@ == k@,
                None => forall|j: int|
                    0 <= j < self.entries@.len() ==> self.entries@[j].0@ != k@,
            },
    {
        let mut i: usize = 0;
        while i < self.entries.len()
            invariant
                i <= self.entries@.len(),
                forall|j: int| 0 <= j < i ==> self.entries@[j].0@ != k@,
            decreases self.entries@.len() - i,
        {
            if crate::model::str_eq(self.entries[i].0.as_str(), k) {
                return Some(i);
            }
            i += 1;
        }
        None
    }

    /// Joins a token under a key; says whether the key is new (the first
    /// token joined it).
    pub fn add(&mut self, k: &str, t: u64) -> (created: bool)
        requires
            old(self).wf(),
            !old(self).has_token(k@, t),
        ensures
            final(self).wf(),
            created == !old(self).contains_key(k@),
            forall|k2: Seq<char>|
                #[trigger] final(self).contains_key(k2) <==> old(self).contains_key(k2) || k2
                    == k@,
            forall|k2: Seq<char>, t2: u64|
                #[trigger] final(self).has_token(k2, t2) <==> old(self).has_token(k2, t2) || (
                k2 == k@ && t2 == t),
    {
        match self.find(k) {
            Some(i) => {
                let mut pair = self.entries.remove(i);
                let ghost old_toks = pair.1@;
                pair.1.push(t);
                self.entries.insert(i, pair);
                proof {
                    assert(self.entries@ =~= old(self).entries@.update(
                        i as int,
                        (old(self).entries@[i as int].0, self.entries@[i as int].1),
                    ));
                    assert(self.entries@[i as int].1@ == old_toks.push(t));
                    assert(!old_toks.contains(t)) by {
                        if old_toks.contains(t) {
                            assert(old(self).has_token(k@, t));
                        }
                    }
                    assert forall|k2: Seq<char>, t2: u64| #[trigger] self.has_token(k2, t2)
                        <==> old(self).has_token(k2, t2) || (k2 == k@ && t2 == t) by {
                        lemma_index_update_token(
                            old(self).entries@,
                            self.entries@,
                            i as int,
                            k@,
                            t,
                            k2,
                            t2,
                        );
                    }
                    assert forall|k2: Seq<char>| #[trigger] self.contains_key(k2) <==> old(self).contains_key(k2) || k2 == k@ by {
                        lemma_index_update_token(
                            old(self).entries@,
                            self.entries@,
                            i as int,
                            k@,
                            t,
                            k2,
                            t,
                        );
                        if k2 == k@ {
                            assert(old(self).entries@[i as int].0@ == k@);
                        }
                    }
                    assert(self.wf()) by {
                        lemma_index_update_token(
                            old(self).entries@,
                            self.entries@,
                            i as int,
                            k@,
                            t,
                            k@,
                            t,
                        );
                    }
                    assert(old(self).contains_key(k@));
                }
                false
            },
            None => {
                let mut toks: Vec<u64> = Vec::new();
                toks.push(t);
                let key = crate::text::string_of_chars(
                    crate::text::chars_of(k).as_slice(),
                );
                self.entries.push((key, toks));
                proof {
                    let pre = old(self).entries@;
                    let post = self.entries@;
                    assert(post =~= pre.push(post[post.len() - 1]));
                    assert(post[post.len() - 1].0@ == k@);
                    assert(post[post.len() - 1].1@ =~= seq![t]);
                    assert(!old(self).contains_key(k@));
                    assert forall|k2: Seq<char>|
                        #[trigger] self.contains_key(k2) <==> old(self).contains_key(k2) || k2
                            == k@ by {
                        if self.contains_key(k2) {
                            let j = choose|j: int|
                                0 <= j < post.len() && post[j].0@ == k2;
                            if j < pre.len() {
                                assert(pre[j].0@ == k2);
                            }
                        } else {
                            if old(self).contains_key(k2) {
                                let j = choose|j: int|
                                    0 <= j < pre.len() && pre[j].0@ == k2;
                                assert(post[j].0@ == k2);
                            }
                            assert(post[post.len() - 1].0@ == k@);
                        }
                    }
                    assert forall|k2: Seq<char>, t2: u64|
                        #[trigger] self.has_token(k2, t2) <==> old(self).has_token(k2, t2) || (
                        k2 == k@ && t2 == t) by {
                        if self.has_token(k2, t2) {
                            let j = choose|j: int|
                                0 <= j < post.len() && post[j].0@ == k2 && post[j].1@.contains(
                                    t2,
                                );
                            if j < pre.len() {
                                assert(pre[j].0@ == k2 && pre[j].1@.contains(t2));
                            } else {
                                assert(post[j].1@ =~= seq![t]);
                                assert(post[j].1@[0] == t);
                                let m = choose|m: int|
                                    0 <= m < post[j].1@.len() && post[j].1@[m] == t2;
                                assert(t2 == t);
                            }
                        } else {
                            if old(self).has_token(k2, t2) {
                                let j = choose|j: int|
                                    0 <= j < pre.len() && pre[j].0@ == k2 && pre[
                                    j].1@.contains(t2);
                                assert(post[j].0@ == k2 && post[j].1@.contains(t2));
                            }
                            if k2 == k@ && t2 == t {
                                assert(post[post.len() - 1].1@[0] == t);
                                assert(post[post.len() - 1].1@.contains(t));
                            }
                        }
                    }
                }
                true
            },
        }
    }

    /// Withdraws a token from a key; says whether the key left with it (its
    /// last token).
    pub fn remove(&mut self, k: &str, t: u64) -> (removed_key: bool)
        requires
            old(self).wf(),
            old(self).has_token(k@, t),
        ensures
            final(self).wf(),
            removed_key == !final(self).contains_key(k@),
            forall|k2: Seq<char>|
                #[trigger] final(self).contains_key(k2) <==> old(self).contains_key(k2) && !(
                k2 == k@ && removed_key),
            forall|k2: Seq<char>, t2: u64|
                #[trigger] final(self).has_token(k2, t2) <==> old(self).has_token(k2, t2) && !(
                k2 == k@ && t2 == t),
    {
        let i = match self.find(k) {
            Some(i) => i,
            None => {
                proof {
                    assert(false);
                }
                0
            },
        };
        let mut pair = self.entries.remove(i);
        let ghost old_toks = pair.1@;
        proof {
            assert(old(self).entries@[i as int].1@.contains(t)) by {
                let j = choose|j: int|
                    0 <= j < old(self).entries@.len() && old(self).entries@[j].0@ == k@ && old(self).entries@[j].1@.contains(t);
                assert(j == i);
            }
        }
        let w = match find_token(&pair.1, t) {
            Some(w) => w,
            None => {
                proof {
                    assert(false);
                }
                0
            },
        };
        pair.1.swap_remove(w);
        proof {
            let pre_t = old_toks;
            let post_t = pair.1@;
            assert forall|t2: u64| #[trigger] post_t.contains(t2) <==> pre_t.contains(t2) && t2
                != t by {
                lemma_swap_remove_contains(
                    pre_t,
                    post_t,
                    w as int,
                    t,
                    t2,
                    old(self).entries@,
                    i as int,
                );
            }
            assert forall|a: int, b: int|
                0 <= a < b < post_t.len() implies post_t[a] != post_t[b] by {
                assert(old(self).entries@[i as int].1@ == pre_t);
                if a == w {
                    assert(post_t[a] == pre_t[pre_t.len() - 1]);
                    assert(post_t[b] == pre_t[b]);
                } else if b == w {
                    assert(post_t[b] == pre_t[pre_t.len() - 1]);
                    assert(post_t[a] == pre_t[a]);
                } else {
                    assert(post_t[a] == pre_t[a] && post_t[b] == pre_t[b]);
                }
            }
        }
        if pair.1.len() == 0 {
            // the key leaves with its last token
            proof {
                let pre = old(self).entries@;
                let mid = self.entries@;
                assert(mid =~= pre.subrange(0, i as int) + pre.subrange(
                    i + 1,
                    pre.len() as int,
                ));
                assert forall|k2: Seq<char>|
                    #[trigger] self.contains_key(k2) <==> old(self).contains_key(k2) && !(k2
                        == k@) by {
                    if self.contains_key(k2) {
                        let j = choose|j: int| 0 <= j < mid.len() && mid[j].0@ == k2;
                        if j < i {
                            assert(pre[j].0@ == k2);
                            assert(k2 != k@) by {
                                if k2 == k@ {
                                    assert(pre[i as int].0@ == k@);
                                }
                            }
                        } else {
                            assert(pre[j + 1].0@ == k2);
                            assert(k2 != k@) by {
                                if k2 == k@ {
                                    assert(pre[i as int].0@ == k@);
                                }
                            }
                        }
                    } else {
                        if old(self).contains_key(k2) && k2 != k@ {
                            let j = choose|j: int| 0 <= j < pre.len() && pre[j].0@ == k2;
                            assert(j != i);
                            if j < i {
                                assert(mid[j].0@ == k2);
                            } else {
                                assert(mid[j - 1].0@ == k2);
                            }
                        }
                    }
                }
                assert forall|k2: Seq<char>, t2: u64|
                    #[trigger] self.has_token(k2, t2) <==> old(self).has_token(k2, t2) && !(k2
                        == k@ && t2 == t) by {
                    if self.has_token(k2, t2) {
                        let j = choose|j: int|
                            0 <= j < mid.len() && mid[j].0@ == k2 && mid[j].1@.contains(t2);
                        if j < i {
                            assert(pre[j].0@ == k2 && pre[j].1@.contains(t2));
                            if k2 == k@ {
                                assert(pre[i as int].0@ == k@);
                                assert(false);
                            }
                        } else {
                            assert(pre[j + 1].0@ == k2 && pre[j + 1].1@.contains(t2));
                            if k2 == k@ {
                                assert(pre[i as int].0@ == k@);
                                assert(false);
                            }
                        }
                    } else {
                        if old(self).has_token(k2, t2) && !(k2 == k@ && t2 == t) {
                            let j = choose|j: int|
                                0 <= j < pre.len() && pre[j].0@ == k2 && pre[j].1@.contains(
                                    t2,
                                );
                            if j == i {
                                assert(k2 == k@);
                                assert(pre[i as int].1@ == old_toks);
                                assert(old_toks.len() == 1);
                                assert(old_toks[0] == t) by {
                                    if w != 0 {
                                        assert(false);
                                    }
                                }
                                let m = choose|m: int|
                                    0 <= m < old_toks.len() && old_toks[m] == t2;
                                assert(t2 == t);
                                assert(false);
                            } else if j < i {
                                assert(mid[j].0@ == k2 && mid[j].1@.contains(t2));
                            } else {
                                assert(mid[j - 1].0@ == k2 && mid[j - 1].1@.contains(t2));
                            }
                        }
                    }
                }
            }
            return true;
        }
        let ghost new_toks = pair.1@;
        self.entries.insert(i, pair);
        proof {
            assert(self.entries@ =~= old(self).entries@.update(
                i as int,
                (old(self).entries@[i as int].0, self.entries@[i as int].1),
            ));
            assert(self.entries@[i as int].1@ == new_toks);
            assert(self.entries@[i as int].1@.len() >= 1);
            assert forall|k2: Seq<char>, t2: u64| #[trigger] self.has_token(k2, t2) <==> old(self).has_token(k2, t2) && !(k2 == k@ && t2 == t) by {
                lemma_index_update_remove_token(
                    old(self).entries@,
                    self.entries@,
                    i as int,
                    k@,
                    t,
                    k2,
                    t2,
                );
            }
            assert forall|k2: Seq<char>| #[trigger] self.contains_key(k2) <==> old(self).contains_key(k2) by {
                lemma_index_update_remove_token(
                    old(self).entries@,
                    self.entries@,
                    i as int,
                    k@,
                    t,
                    k2,
                    t,
                );
            }
            assert(self.wf()) by {
                lemma_index_update_remove_token(
                    old(self).entries@,
                    self.entries@,
                    i as int,
                    k@,
                    t,
                    k@,
                    t,
                );
            }
            assert(self.contains_key(k@)) by {
                assert(self.entries@[i as int].0@ == k@);
            }
        }
        false
    }

    /// The tokens joined under a key, in index order; empty when the key is
    /// absent.
    pub fn tokens_of(&self, k: &str) -> (r: Vec<u64>)
        requires
            self.wf(),
        ensures
            forall|t: u64| #[trigger] r@.contains(t) <==> self.has_token(k@, t),
            forall|a: int, b: int| 0 <= a < b < r@.len() ==> r@[a] != r@[b],
            r@.len() >= 1 <==> self.contains_key(k@),
    {
        match self.find(k) {
            Some(i) => {
                let mut r: Vec<u64> = Vec::new();
                let n = self.entries[i].1.len();
                let mut w: usize = 0;
                while w < n
                    invariant
                        w <= n,
                        i < self.entries@.len(),
                        self.entries@[i as int].0@ == k@,
                        n == self.entries@[i as int].1@.len(),
                        r@ == self.entries@[i as int].1@.subrange(0, w as int),
                    decreases n - w,
                {
                    r.push(self.entries[i].1[w]);
                    w += 1;
                    proof {
                        assert(r@ =~= self.entries@[i as int].1@.subrange(0, w as int));
                    }
                }
                proof {
                    assert(r@ =~= self.entries@[i as int].1@);
                    assert forall|t: u64| #[trigger] r@.contains(t) <==> self.has_token(
                        k@,
                        t,
                    ) by {
                        if r@.contains(t) {
                            assert(self.entries@[i as int].1@.contains(t));
                        }
                        if self.has_token(k@, t) {
                            let j = choose|j: int|
                                0 <= j < self.entries@.len() && self.entries@[j].0@ == k@
                                    && self.entries@[j].1@.contains(t);
                            assert(j == i);
                        }
                    }
                    assert(self.entries@[i as int].1@.len() >= 1);
                }
                r
            },
            None => {
                let r: Vec<u64> = Vec::new();
                proof {
                    assert forall|t: u64| !(#[trigger] self.has_token(k@, t)) by {
                        if self.has_token(k@, t) {
                            let j = choose|j: int|
                                0 <= j < self.entries@.len() && self.entries@[j].0@ == k@
                                    && self.entries@[j].1@.contains(t);
                        }
                    }
                    assert(!self.contains_key(k@)) by {
                        if self.contains_key(k@) {
                            let j = choose|j: int|
                                0 <= j < self.entries@.len() && self.entries@[j].0@ == k@;
                        }
                    }
                }
                r
            },
        }
    }
}

/// With nonempty token lists, a key is present exactly while some token is
/// joined under it.
pub proof fn lemma_contains_iff_token(idx: &Index, k: Seq<char>)
    requires
        idx.wf(),
    ensures
        idx.contains_key(k) <==> exists|t: u64| idx.has_token(k, t),
{
    if idx.contains_key(k) {
        let i = choose|i: int| 0 <= i < idx.entries@.len() && idx.entries@[i].0@ == k;
        assert(idx.entries@[i].1@.len() >= 1);
        let t0 = idx.entries@[i].1@[0];
        assert(idx.entries@[i].1@.contains(t0));
        assert(idx.has_token(k, t0));
    }
    if exists|t: u64| idx.has_token(k, t) {
        let t = choose|t: u64| idx.has_token(k, t);
        lemma_has_token_contains_key(idx, k, t);
    }
}

/// A key with a token is a present key.
pub proof fn lemma_has_token_contains_key(idx: &Index, k: Seq<char>, t: u64)
    requires
        idx.has_token(k, t),
    ensures
        idx.contains_key(k),
{
    let i = choose|i: int|
        0 <= i < idx.entries@.len() && idx.entries@[i].0@ == k && idx.entries@[i].1@.contains(
            t,
        );
    assert(idx.entries@[i].0@ == k);
}

/// After updating entry `i` by appending `t` to its tokens, membership
/// changes exactly by `(k, t)`.
proof fn lemma_index_update_token(
    pre: Seq<(String, Vec<u64>)>,
    post: Seq<(String, Vec<u64>)>,
    i: int,
    k: Seq<char>,
    t: u64,
    k2: Seq<char>,
    t2: u64,
)
    requires
        0 <= i < pre.len(),
        post.len() == pre.len(),
        pre[i].0@ == k,
        post[i].0 == pre[i].0,
        post[i].1@ == pre[i].1@.push(t),
        forall|j: int| 0 <= j < pre.len() && j != i ==> post[j] == pre[j],
        forall|a: int, b: int| 0 <= a < b < pre.len() ==> pre[a].0@ != pre[b].0@,
        forall|a: int| 0 <= a < pre.len() ==> (#[trigger] pre[a]).1@.len() >= 1,
        forall|a: int, x: int, y: int|
            0 <= a < pre.len() && 0 <= x < y < pre[a].1@.len() ==> #[trigger] pre[a].1@[x]
                != #[trigger] pre[a].1@[y],
        !pre[i].1@.contains(t),
    ensures
        forall|a: int, b: int| 0 <= a < b < post.len() ==> post[a].0@ != post[b].0@,
        forall|a: int| 0 <= a < post.len() ==> (#[trigger] post[a]).1@.len() >= 1,
        forall|a: int, x: int, y: int|
            0 <= a < post.len() && 0 <= x < y < post[a].1@.len() ==> #[trigger] post[a].1@[x]
                != #[trigger] post[a].1@[y],
        (exists|j: int| 0 <= j < post.len() && #[trigger] post[j].0@ == k2) <==> (exists|
        j: int|
            0 <= j < pre.len() && #[trigger] pre[j].0@ == k2),
        (exists|j: int|
            0 <= j < post.len() && post[j].0@ == k2 && #[trigger] post[j].1@.contains(t2))
            <==> ((exists|j: int|
            0 <= j < pre.len() && pre[j].0@ == k2 && #[trigger] pre[j].1@.contains(t2)) || (k2
            == k && t2 == t)),
{
    assert forall|a: int, x: int, y: int|
        0 <= a < post.len() && 0 <= x < y < post[a].1@.len() implies #[trigger] post[a].1@[x]
        != #[trigger] post[a].1@[y] by {
        if a == i {
            if y == post[a].1@.len() - 1 {
                assert(post[a].1@[y] == t);
                assert(post[a].1@[x] == pre[i].1@[x]);
                assert(pre[i].1@.contains(pre[i].1@[x]));
            } else {
                assert(post[a].1@[x] == pre[i].1@[x] && post[a].1@[y] == pre[i].1@[y]);
            }
        }
    }
    assert((exists|j: int|
        0 <= j < post.len() && post[j].0@ == k2 && #[trigger] post[j].1@.contains(t2)) <==> ((
    exists|j: int|
        0 <= j < pre.len() && pre[j].0@ == k2 && #[trigger] pre[j].1@.contains(t2)) || (k2 == k
        && t2 == t))) by {
        if exists|j: int|
            0 <= j < post.len() && post[j].0@ == k2 && #[trigger] post[j].1@.contains(t2) {
            let j = choose|j: int|
                0 <= j < post.len() && post[j].0@ == k2 && post[j].1@.contains(t2);
            if j == i {
                let m = choose|m: int|
                    0 <= m < post[i].1@.len() && post[i].1@[m] == t2;
                if m < pre[i].1@.len() {
                    assert(pre[i].1@[m] == t2);
                    assert(pre[i].1@.contains(t2));
                } else {
                    assert(t2 == t && k2 == k);
                }
            }
        }
        if (exists|j: int|
            0 <= j < pre.len() && pre[j].0@ == k2 && #[trigger] pre[j].1@.contains(t2)) {
            let j = choose|j: int|
                0 <= j < pre.len() && pre[j].0@ == k2 && pre[j].1@.contains(t2);
            if j == i {
                let m = choose|m: int| 0 <= m < pre[i].1@.len() && pre[i].1@[m] == t2;
                assert(post[i].1@[m] == t2);
                assert(post[i].1@.contains(t2));
            } else {
                assert(post[j].0@ == k2 && post[j].1@.contains(t2));
            }
        }
        if k2 == k && t2 == t {
            assert(post[i].1@[post[i].1@.len() - 1] == t);
            assert(post[i].1@.contains(t));
        }
    }
}

/// After removing token `t` from entry `i` (which keeps at least one other
/// token), membership shrinks exactly by `(k, t)`.
proof fn lemma_index_update_remove_token(
    pre: Seq<(String, Vec<u64>)>,
    post: Seq<(String, Vec<u64>)>,
    i: int,
    k: Seq<char>,
    t: u64,
    k2: Seq<char>,
    t2: u64,
)
    requires
        0 <= i < pre.len(),
        post.len() == pre.len(),
        pre[i].0@ == k,
        post[i].0 == pre[i].0,
        post[i].1@.len() >= 1,
        forall|t2: u64|
            #[trigger] post[i].1@.contains(t2) <==> pre[i].1@.contains(t2) && t2 != t,
        forall|x: int, y: int|
            0 <= x < y < post[i].1@.len() ==> post[i].1@[x] != post[i].1@[y],
        forall|j: int| 0 <= j < pre.len() && j != i ==> post[j] == pre[j],
        forall|a: int, b: int| 0 <= a < b < pre.len() ==> pre[a].0@ != pre[b].0@,
        forall|a: int| 0 <= a < pre.len() ==> (#[trigger] pre[a]).1@.len() >= 1,
        forall|a: int, x: int, y: int|
            0 <= a < pre.len() && 0 <= x < y < pre[a].1@.len() ==> #[trigger] pre[a].1@[x]
                != #[trigger] pre[a].1@[y],
    ensures
        forall|a: int, b: int| 0 <= a < b < post.len() ==> post[a].0@ != post[b].0@,
        forall|a: int| 0 <= a < post.len() ==> (#[trigger] post[a]).1@.len() >= 1,
        forall|a: int, x: int, y: int|
            0 <= a < post.len() && 0 <= x < y < post[a].1@.len() ==> #[trigger] post[a].1@[x]
                != #[trigger] post[a].1@[y],
        (exists|j: int| 0 <= j < post.len() && #[trigger] post[j].0@ == k2) <==> (exists|
        j: int|
            0 <= j < pre.len() && #[trigger] pre[j].0@ == k2),
        (exists|j: int|
            0 <= j < post.len() && post[j].0@ == k2 && #[trigger] post[j].1@.contains(t2))
            <==> ((exists|j: int|
            0 <= j < pre.len() && pre[j].0@ == k2 && #[trigger] pre[j].1@.contains(t2)) && !(
        k2 == k && t2 == t)),
{
    assert((exists|j: int|
        0 <= j < post.len() && post[j].0@ == k2 && #[trigger] post[j].1@.contains(t2)) <==> ((
    exists|j: int|
        0 <= j < pre.len() && pre[j].0@ == k2 && #[trigger] pre[j].1@.contains(t2)) && !(k2
        == k && t2 == t))) by {
        if exists|j: int|
            0 <= j < post.len() && post[j].0@ == k2 && #[trigger] post[j].1@.contains(t2) {
            let j = choose|j: int|
                0 <= j < post.len() && post[j].0@ == k2 && post[j].1@.contains(t2);
            if j == i {
                assert(pre[i].1@.contains(t2) && t2 != t);
            } else {
                assert(pre[j].0@ == k2 && pre[j].1@.contains(t2));
                if k2 == k && t2 == t {
                    assert(pre[i].0@ == k);
                    assert(false);
                }
            }
        }
        if (exists|j: int|
            0 <= j < pre.len() && pre[j].0@ == k2 && #[trigger] pre[j].1@.contains(t2)) && !(k2
            == k && t2 == t) {
            let j = choose|j: int|
                0 <= j < pre.len() && pre[j].0@ == k2 && pre[j].1@.contains(t2);
            if j == i {
                assert(k2 == k);
                assert(t2 != t);
                assert(post[i].1@.contains(t2));
            } else {
                assert(post[j].0@ == k2 && post[j].1@.contains(t2));
            }
        }
    }
}

/// Used by `TokenSet::remove` and `Index::remove`: membership after a
/// swap-remove of position `w` holding `t`.
proof fn lemma_swap_remove_contains(
    pre: Seq<u64>,
    post: Seq<u64>,
    w: int,
    t: u64,
    t2: u64,
    entries: Seq<(String, Vec<u64>)>,
    i: int,
)
    requires
        0 <= w < pre.len(),
        pre[w] == t,
        post =~= pre.update(w, pre.last()).drop_last(),
        forall|x: int, y: int| 0 <= x < y < pre.len() ==> pre[x] != pre[y],
    ensures
        post.contains(t2) <==> pre.contains(t2) && t2 != t,
{
    if post.contains(t2) {
        let j = choose|j: int| 0 <= j < post.len() && post[j] == t2;
        if j == w {
            assert(pre[pre.len() - 1] == t2);
            assert(pre.contains(t2));
            if t2 == t {
                if w < pre.len() - 1 {
                    assert(pre[w] == t && pre[pre.len() - 1] == t);
                    assert(false);
                }
            }
        } else {
            assert(pre[j] == t2);
            assert(pre.contains(t2));
            assert(t2 != t) by {
                if t2 == t {
                    assert(pre[j] == t && pre[w] == t);
                    assert(false);
                }
            }
        }
    }
    if pre.contains(t2) && t2 != t {
        let j = choose|j: int| 0 <= j < pre.len() && pre[j] == t2;
        assert(j != w);
        if j == pre.len() - 1 {
            assert(w < pre.len() - 1);
            assert(post[w] == t2);
        } else {
            assert(post[j] == t2);
        }
    }
}


/// The authentication state of one socket.
pub enum SocketAuth {
    Requested,
    Authenticated(UserId),
    Anonymous,
}

/// The user a state authenticates, if any.
pub open spec fn auth_view(a: SocketAuth) -> Option<Seq<char>> {
    match a {
        SocketAuth::Authenticated(u) => Some(u@),
        _ => None,
    }
}

pub open spec fn watching_has(ws: Seq<GameId>, g: Seq<char>) -> bool {
    exists|j: int| 0 <= j < ws.len() && ws[j]@ == g
}

/// A socket record never lists the same game twice.
pub open spec fn sock_ok(us: UserSocket) -> bool {
    forall|a: int, b: int|
        0 <= a < b < us.watching@.len() ==> (#[trigger] us.watching@[a])@ != (
        #[trigger] us.watching@[b])@
}

/// One socket's shared record, held for its whole lifetime.
pub struct UserSocket {
    pub token: u64,
    pub sri: Sri,
    pub endpoint: Endpoint,
    pub flag: Option<Flag>,
    pub auth: SocketAuth,
    pub pending_notified: bool,
    pub pending_following_onlines: bool,
    pub watching: Vec<GameId>,
}

/// The registry of open sockets by socket id.
pub struct Sockets {
    entries: Vec<(u64, UserSocket)>,
}

impl Sockets {
    pub closed spec fn contains(&self, sid: u64) -> bool {
        exists|i: int| 0 <= i < self.entries@.len() && self.entries@[i].0 == sid
    }

    pub closed spec fn idx_of(&self, sid: u64) -> int {
        choose|i: int| 0 <= i < self.entries@.len() && self.entries@[i].0 == sid
    }

    /// The record of an open socket.
    pub closed spec fn at(&self, sid: u64) -> UserSocket {
        self.entries@[self.idx_of(sid)].1
    }

    /// A socket holding token `t` is authenticated as `u`.
    pub closed spec fn auth_token(&self, u: Seq<char>, t: u64) -> bool {
        exists|i: int|
            0 <= i < self.entries@.len() && (#[trigger] self.entries@[i]).1.token == t
                && auth_view(self.entries@[i].1.auth) == Some(u)
    }

    /// A socket holding token `t` is watching game `g`.
    pub closed spec fn watch_token(&self, g: Seq<char>, t: u64) -> bool {
        exists|i: int|
            0 <= i < self.entries@.len() && (#[trigger] self.entries@[i]).1.token == t
                && watching_has(self.entries@[i].1.watching@, g)
    }

    /// A socket holding token `t` has page session `s`.
    pub closed spec fn sri_token(&self, s: Seq<char>, t: u64) -> bool {
        exists|i: int|
            0 <= i < self.entries@.len() && (#[trigger] self.entries@[i]).1.token == t
                && self.entries@[i].1.sri@ == s
    }

    pub closed spec fn token_used(&self, t: u64) -> bool {
        exists|i: int|
            0 <= i < self.entries@.len() && (#[trigger] self.entries@[i]).1.token == t
    }

    pub closed spec fn wf(&self) -> bool {
        &&& forall|i: int, j: int|
            0 <= i < j < self.entries@.len() ==> self.entries@[i].0 != self.entries@[j].0
        &&& forall|i: int, j: int|
            0 <= i < j < self.entries@.len() ==> (#[trigger] self.entries@[i]).1.token != (
            #[trigger] self.entries@[j]).1.token
        &&& forall|i: int|
            0 <= i < self.entries@.len() ==> sock_ok((#[trigger] self.entries@[i]).1)
    }

    pub fn new() -> (r: Sockets)
        ensures
            r.wf(),
            forall|sid: u64| !#[trigger] r.contains(sid),
            forall|t: u64| !#[trigger] r.token_used(t),
            forall|u: Seq<char>, t: u64| !#[trigger] r.auth_token(u, t),
            forall|g: Seq<char>, t: u64| !#[trigger] r.watch_token(g, t),
            forall|s: Seq<char>, t: u64| !#[trigger] r.sri_token(s, t),
    {
        Sockets { entries: Vec::new() }
    }

    #[verifier::loop_isolation(false)]
    fn find(&self, sid: u64) -> (r: Option<usize>)
        ensures
            match r {
                Some(i) => i < self.entries@.len() && self.entries@[i as int].0 == sid,
                None => !self.contains(sid),
            },
    {
        let mut i: usize = 0;
        while i < self.entries.len()
            invariant
                i <= self.entries@.len(),
                forall|j: int| 0 <= j < i ==> self.entries@[j].0 != sid,
            decreases self.entries@.len() - i,
        {
            if self.entries[i].0 == sid {
                return Some(i);
            }
            i += 1;
        }
        proof {
            if self.contains(sid) {
                let j = choose|j: int|
                    0 <= j < self.entries@.len() && self.entries@[j].0 == sid;
            }
        }
        None
    }

    /// A shared view of an open socket's record.
    pub fn get(&self, sid: u64) -> (r: &UserSocket)
        requires
            self.wf(),
            self.contains(sid),
        ensures
            *r == self.at(sid),
    {
        match self.find(sid) {
            Some(i) => {
                proof {
                    assert(self.idx_of(sid) == i) by {
                        let j = self.idx_of(sid);
                        assert(0 <= j < self.entries@.len() && self.entries@[j].0 == sid);
                    }
                }
                &self.entries[i].1
            },
            None => {
                proof {
                    assert(false);
                }
                &self.entries[0].1
            },
        }
    }

    /// Registers a fresh socket.
    pub fn insert(&mut self, sid: u64, us: UserSocket)
        requires
            old(self).wf(),
            !old(self).contains(sid),
            !old(self).token_used(us.token),
            sock_ok(us),
        ensures
            final(self).wf(),
            final(self).contains(sid),
            final(self).at(sid) == us,
            forall|sid2: u64|
                #[trigger] final(self).contains(sid2) <==> old(self).contains(sid2) || sid2
                    == sid,
            forall|sid2: u64|
                sid2 != sid && old(self).contains(sid2) ==> #[trigger] final(self).at(sid2)
                    == old(self).at(sid2),
            forall|t: u64|
                #[trigger] final(self).token_used(t) <==> old(self).token_used(t) || t
                    == us.token,
            forall|u: Seq<char>, t: u64|
                #[trigger] final(self).auth_token(u, t) <==> old(self).auth_token(u, t) || (t
                    == us.token && auth_view(us.auth) == Some(u)),
            forall|g: Seq<char>, t: u64|
                #[trigger] final(self).watch_token(g, t) <==> old(self).watch_token(g, t) || (t
                    == us.token && watching_has(us.watching@, g)),
            forall|sq: Seq<char>, t: u64|
                #[trigger] final(self).sri_token(sq, t) <==> old(self).sri_token(sq, t) || (t
                    == us.token && us.sri@ == sq),
    {
        let ghost token = us.token;
        let ghost usg = us;
        self.entries.push((sid, us));
        proof {
            let pre = old(self).entries@;
            let post = self.entries@;
            let n = pre.len() as int;
            assert(post =~= pre.push(post[n]));
            assert(post[n].0 == sid);
            assert(post[n].1 == usg);
            assert(!(exists|i: int|
                0 <= i < pre.len() && (#[trigger] pre[i]).1.token == post[n].1.token));
            lemma_sockets_push(pre, post, sid);
            assert forall|i: int|
                0 <= i < post.len() implies sock_ok((#[trigger] post[i]).1) by {
                if i < n {
                    assert(post[i] == pre[i]);
                    assert(sock_ok(pre[i].1));
                }
            }
            assert(self.contains(sid)) by {
                assert(post[n].0 == sid);
            }
            assert(self.at(sid) == post[n].1) by {
                let j = self.idx_of(sid);
                assert(0 <= j < post.len() && post[j].0 == sid);
                if j < n {
                    assert(pre[j].0 == sid);
                    assert(old(self).contains(sid));
                    assert(false);
                }
            }
            assert forall|sid2: u64|
                #[trigger] self.contains(sid2) <==> old(self).contains(sid2) || sid2 == sid by {
                if self.contains(sid2) {
                    let i = choose|i: int| 0 <= i < post.len() && post[i].0 == sid2;
                    if i < n {
                        assert(pre[i].0 == sid2);
                    }
                }
                if old(self).contains(sid2) {
                    let i = choose|i: int| 0 <= i < pre.len() && pre[i].0 == sid2;
                    assert(post[i].0 == sid2);
                }
            }
            assert forall|sid2: u64|
                sid2 != sid && old(self).contains(sid2) implies #[trigger] self.at(sid2) == old(self).at(sid2) by {
                let i = choose|i: int| 0 <= i < pre.len() && pre[i].0 == sid2;
                assert(post[i].0 == sid2);
                assert(old(self).idx_of(sid2) == i) by {
                    let j = old(self).idx_of(sid2);
                    assert(0 <= j < pre.len() && pre[j].0 == sid2);
                }
                assert(self.idx_of(sid2) == i) by {
                    let j = self.idx_of(sid2);
                    assert(0 <= j < post.len() && post[j].0 == sid2);
                    if j == n {
                        assert(post[n].0 == sid);
                    }
                }
            }
            assert forall|t: u64|
                #[trigger] self.token_used(t) <==> old(self).token_used(t) || t == usg.token by {
                if self.token_used(t) {
                    let i = choose|i: int|
                        0 <= i < post.len() && (#[trigger] post[i]).1.token == t;
                    if i < n {
                        assert(pre[i].1.token == t);
                    }
                }
                if old(self).token_used(t) {
                    let i = choose|i: int|
                        0 <= i < pre.len() && (#[trigger] pre[i]).1.token == t;
                    assert(post[i].1.token == t);
                }
                if t == usg.token {
                    assert(post[n].1.token == t);
                }
            }
            assert forall|u: Seq<char>, t: u64|
                #[trigger] self.auth_token(u, t) <==> old(self).auth_token(u, t) || (t
                    == usg.token && auth_view(usg.auth) == Some(u)) by {
                if self.auth_token(u, t) {
                    let i = choose|i: int|
                        0 <= i < post.len() && (#[trigger] post[i]).1.token == t && auth_view(
                            post[i].1.auth,
                        ) == Some(u);
                    if i < n {
                        assert(pre[i].1.token == t && auth_view(pre[i].1.auth) == Some(u));
                    }
                }
                if old(self).auth_token(u, t) {
                    let i = choose|i: int|
                        0 <= i < pre.len() && (#[trigger] pre[i]).1.token == t && auth_view(
                            pre[i].1.auth,
                        ) == Some(u);
                    assert(post[i].1.token == t && auth_view(post[i].1.auth) == Some(u));
                }
                if t == usg.token && auth_view(usg.auth) == Some(u) {
                    assert(post[n].1.token == t && auth_view(post[n].1.auth) == Some(u));
                }
            }
            assert forall|g: Seq<char>, t: u64|
                #[trigger] self.watch_token(g, t) <==> old(self).watch_token(g, t) || (t
                    == usg.token && watching_has(usg.watching@, g)) by {
                if self.watch_token(g, t) {
                    let i = choose|i: int|
                        0 <= i < post.len() && (#[trigger] post[i]).1.token == t
                            && watching_has(post[i].1.watching@, g);
                    if i < n {
                        assert(pre[i].1.token == t && watching_has(pre[i].1.watching@, g));
                    }
                }
                if old(self).watch_token(g, t) {
                    let i = choose|i: int|
                        0 <= i < pre.len() && (#[trigger] pre[i]).1.token == t && watching_has(
                            pre[i].1.watching@,
                            g,
                        );
                    assert(post[i].1.token == t && watching_has(post[i].1.watching@, g));
                }
                if t == usg.token && watching_has(usg.watching@, g) {
                    assert(post[n].1.token == t && watching_has(post[n].1.watching@, g));
                }
            }
            assert forall|sq: Seq<char>, t: u64|
                #[trigger] self.sri_token(sq, t) <==> old(self).sri_token(sq, t) || (t
                    == usg.token && usg.sri@ == sq) by {
                if self.sri_token(sq, t) {
                    let i = choose|i: int|
                        0 <= i < post.len() && (#[trigger] post[i]).1.token == t && post[
                        i].1.sri@ == sq;
                    if i < n {
                        assert(pre[i].1.token == t && pre[i].1.sri@ == sq);
                    }
                }
                if old(self).sri_token(sq, t) {
                    let i = choose|i: int|
                        0 <= i < pre.len() && (#[trigger] pre[i]).1.token == t && pre[i].1.sri@
                            == sq;
                    assert(post[i].1.token == t && post[i].1.sri@ == sq);
                }
                if t == usg.token && usg.sri@ == sq {
                    assert(post[n].1.token == t && post[n].1.sri@ == sq);
                }
            }
        }
    }

    /// Withdraws a socket, handing its record back.
    pub fn remove(&mut self, sid: u64) -> (us: UserSocket)
        requires
            old(self).wf(),
            old(self).contains(sid),
        ensures
            final(self).wf(),
            us == old(self).at(sid),
            sock_ok(us),
            forall|sid2: u64|
                #[trigger] final(self).contains(sid2) <==> old(self).contains(sid2) && sid2
                    != sid,
            forall|sid2: u64|
                sid2 != sid && old(self).contains(sid2) ==> #[trigger] final(self).at(sid2)
                    == old(self).at(sid2),
            forall|t: u64|
                #[trigger] final(self).token_used(t) <==> old(self).token_used(t) && t
                    != us.token,
            forall|u: Seq<char>, t: u64|
                #[trigger] final(self).auth_token(u, t) <==> old(self).auth_token(u, t) && t
                    != us.token,
            forall|g: Seq<char>, t: u64|
                #[trigger] final(self).watch_token(g, t) <==> old(self).watch_token(g, t) && t
                    != us.token,
            forall|sq: Seq<char>, t: u64|
                #[trigger] final(self).sri_token(sq, t) <==> old(self).sri_token(sq, t) && t
                    != us.token,
    {
        let i = match self.find(sid) {
            Some(i) => i,
            None => {
                proof {
                    assert(false);
                }
                0
            },
        };
        proof {
            assert(old(self).idx_of(sid) == i) by {
                let j = old(self).idx_of(sid);
                assert(0 <= j < self.entries@.len() && self.entries@[j].0 == sid);
            }
        }
        let pair = self.entries.remove(i);
        proof {
            let pre = old(self).entries@;
            let post = self.entries@;
            assert(post =~= pre.subrange(0, i as int) + pre.subrange(i + 1, pre.len() as int));
            lemma_sockets_remove(pre, post, i as int, sid);
            assert forall|a: int|
                0 <= a < post.len() implies sock_ok((#[trigger] post[a]).1) by {
                if a < i {
                    assert(post[a] == pre[a]);
                    assert(sock_ok(pre[a].1));
                } else {
                    assert(post[a] == pre[a + 1]);
                    assert(sock_ok(pre[a + 1].1));
                }
            }
            let tok = pre[i as int].1.token;
            assert(pair.1 == old(self).at(sid));
            assert forall|sid2: u64|
                #[trigger] self.contains(sid2) <==> old(self).contains(sid2) && sid2 != sid by {
                if self.contains(sid2) {
                    let a = choose|a: int| 0 <= a < post.len() && post[a].0 == sid2;
                    if a < i {
                        assert(pre[a].0 == sid2);
                        if sid2 == sid {
                            assert(pre[i as int].0 == sid);
                        }
                    } else {
                        assert(pre[a + 1].0 == sid2);
                        if sid2 == sid {
                            assert(pre[i as int].0 == sid);
                        }
                    }
                }
                if old(self).contains(sid2) && sid2 != sid {
                    let a = choose|a: int| 0 <= a < pre.len() && pre[a].0 == sid2;
                    assert(a != i);
                    if a < i {
                        assert(post[a].0 == sid2);
                    } else {
                        assert(post[a - 1].0 == sid2);
                    }
                }
            }
            assert forall|sid2: u64|
                sid2 != sid && old(self).contains(sid2) implies #[trigger] self.at(sid2) == old(self).at(sid2) by {
                let a = choose|a: int| 0 <= a < pre.len() && pre[a].0 == sid2;
                assert(a != i);
                let b: int = if a < i {
                    a
                } else {
                    a - 1
                };
                assert(post[b].0 == sid2 && post[b].1 == pre[a].1);
                assert(old(self).idx_of(sid2) == a) by {
                    let j = old(self).idx_of(sid2);
                    assert(0 <= j < pre.len() && pre[j].0 == sid2);
                }
                assert(self.idx_of(sid2) == b) by {
                    let j = self.idx_of(sid2);
                    assert(0 <= j < post.len() && post[j].0 == sid2);
                    if j != b {
                        assert(post[j].0 != post[b].0);
                    }
                }
            }
            assert forall|t: u64|
                #[trigger] self.token_used(t) <==> old(self).token_used(t) && t != tok by {
                if self.token_used(t) {
                    let a = choose|a: int|
                        0 <= a < post.len() && (#[trigger] post[a]).1.token == t;
                    if a < i {
                        assert(pre[a].1.token == t);
                        if t == tok {
                            assert(pre[a].1.token == pre[i as int].1.token);
                        }
                    } else {
                        assert(pre[a + 1].1.token == t);
                        if t == tok {
                            assert(pre[a + 1].1.token == pre[i as int].1.token);
                        }
                    }
                }
                if old(self).token_used(t) && t != tok {
                    let a = choose|a: int|
                        0 <= a < pre.len() && (#[trigger] pre[a]).1.token == t;
                    assert(a != i);
                    if a < i {
                        assert(post[a].1.token == t);
                    } else {
                        assert(post[a - 1].1.token == t);
                    }
                }
            }
            assert forall|u: Seq<char>, t: u64|
                #[trigger] self.auth_token(u, t) <==> old(self).auth_token(u, t) && t != tok by {
                if self.auth_token(u, t) {
                    let a = choose|a: int|
                        0 <= a < post.len() && (#[trigger] post[a]).1.token == t && auth_view(
                            post[a].1.auth,
                        ) == Some(u);
                    if a < i {
                        assert(pre[a].1.token == t && auth_view(pre[a].1.auth) == Some(u));
                        if t == tok {
                            assert(pre[a].1.token == pre[i as int].1.token);
                        }
                    } else {
                        assert(pre[a + 1].1.token == t && auth_view(pre[a + 1].1.auth) == Some(
                            u,
                        ));
                        if t == tok {
                            assert(pre[a + 1].1.token == pre[i as int].1.token);
                        }
                    }
                }
                if old(self).auth_token(u, t) && t != tok {
                    let a = choose|a: int|
                        0 <= a < pre.len() && (#[trigger] pre[a]).1.token == t && auth_view(
                            pre[a].1.auth,
                        ) == Some(u);
                    assert(a != i);
                    if a < i {
                        assert(post[a].1.token == t && auth_view(post[a].1.auth) == Some(u));
                    } else {
                        assert(post[a - 1].1.token == t && auth_view(post[a - 1].1.auth)
                            == Some(u));
                    }
                }
            }
            assert forall|g: Seq<char>, t: u64|
                #[trigger] self.watch_token(g, t) <==> old(self).watch_token(g, t) && t
                    != tok by {
                if self.watch_token(g, t) {
                    let a = choose|a: int|
                        0 <= a < post.len() && (#[trigger] post[a]).1.token == t
                            && watching_has(post[a].1.watching@, g);
                    if a < i {
                        assert(pre[a].1.token == t && watching_has(pre[a].1.watching@, g));
                        if t == tok {
                            assert(pre[a].1.token == pre[i as int].1.token);
                        }
                    } else {
                        assert(pre[a + 1].1.token == t && watching_has(
                            pre[a + 1].1.watching@,
                            g,
                        ));
                        if t == tok {
                            assert(pre[a + 1].1.token == pre[i as int].1.token);
                        }
                    }
                }
                if old(self).watch_token(g, t) && t != tok {
                    let a = choose|a: int|
                        0 <= a < pre.len() && (#[trigger] pre[a]).1.token == t && watching_has(
                            pre[a].1.watching@,
                            g,
                        );
                    assert(a != i);
                    if a < i {
                        assert(post[a].1.token == t && watching_has(post[a].1.watching@, g));
                    } else {
                        assert(post[a - 1].1.token == t && watching_has(
                            post[a - 1].1.watching@,
                            g,
                        ));
                    }
                }
            }
            assert forall|sq: Seq<char>, t: u64|
                #[trigger] self.sri_token(sq, t) <==> old(self).sri_token(sq, t) && t != tok by {
                if self.sri_token(sq, t) {
                    let a = choose|a: int|
                        0 <= a < post.len() && (#[trigger] post[a]).1.token == t && post[
                        a].1.sri@ == sq;
                    if a < i {
                        assert(pre[a].1.token == t && pre[a].1.sri@ == sq);
                        if t == tok {
                            assert(pre[a].1.token == pre[i as int].1.token);
                        }
                    } else {
                        assert(pre[a + 1].1.token == t && pre[a + 1].1.sri@ == sq);
                        if t == tok {
                            assert(pre[a + 1].1.token == pre[i as int].1.token);
                        }
                    }
                }
                if old(self).sri_token(sq, t) && t != tok {
                    let a = choose|a: int|
                        0 <= a < pre.len() && (#[trigger] pre[a]).1.token == t && pre[a].1.sri@
                            == sq;
                    assert(a != i);
                    if a < i {
                        assert(post[a].1.token == t && post[a].1.sri@ == sq);
                    } else {
                        assert(post[a - 1].1.token == t && post[a - 1].1.sri@ == sq);
                    }
                }
            }
        }
        pair.1
    }
}

/// Distinctness is preserved by pushing a fresh socket record.
proof fn lemma_sockets_push(pre: Seq<(u64, UserSocket)>, post: Seq<(u64, UserSocket)>, sid: u64)
    requires
        post.len() == pre.len() + 1,
        forall|j: int| 0 <= j < pre.len() ==> post[j] == pre[j],
        post[pre.len() as int].0 == sid,
        forall|i: int, j: int| 0 <= i < j < pre.len() ==> pre[i].0 != pre[j].0,
        forall|i: int, j: int|
            0 <= i < j < pre.len() ==> (#[trigger] pre[i]).1.token != (#[trigger] pre[j]).1.token,
        !(exists|i: int| 0 <= i < pre.len() && pre[i].0 == sid),
        !(exists|i: int|
            0 <= i < pre.len() && (#[trigger] pre[i]).1.token == post[pre.len() as int].1.token),
    ensures
        forall|i: int, j: int| 0 <= i < j < post.len() ==> post[i].0 != post[j].0,
        forall|i: int, j: int|
            0 <= i < j < post.len() ==> (#[trigger] post[i]).1.token != (
            #[trigger] post[j]).1.token,
{
    let n = pre.len() as int;
    assert forall|i: int, j: int| 0 <= i < j < post.len() implies post[i].0 != post[j].0 by {
        if j == n {
            if post[i].0 == sid {
                assert(pre[i].0 == sid);
            }
        }
    }
    assert forall|i: int, j: int|
        0 <= i < j < post.len() implies (#[trigger] post[i]).1.token != (
    #[trigger] post[j]).1.token by {
        if j == n {
            if post[i].1.token == post[n].1.token {
                assert(pre[i].1.token == post[n].1.token);
            }
        }
    }
}

/// Distinctness is preserved by removing the socket at `i`.
proof fn lemma_sockets_remove(
    pre: Seq<(u64, UserSocket)>,
    post: Seq<(u64, UserSocket)>,
    i: int,
    sid: u64,
)
    requires
        0 <= i < pre.len(),
        pre[i].0 == sid,
        post.len() == pre.len() - 1,
        forall|j: int| 0 <= j < i ==> post[j] == pre[j],
        forall|j: int| i <= j < post.len() ==> post[j] == pre[j + 1],
        forall|a: int, b: int| 0 <= a < b < pre.len() ==> pre[a].0 != pre[b].0,
        forall|a: int, b: int|
            0 <= a < b < pre.len() ==> (#[trigger] pre[a]).1.token != (#[trigger] pre[b]).1.token,
    ensures
        forall|a: int, b: int| 0 <= a < b < post.len() ==> post[a].0 != post[b].0,
        forall|a: int, b: int|
            0 <= a < b < post.len() ==> (#[trigger] post[a]).1.token != (
            #[trigger] post[b]).1.token,
{
    assert forall|a: int, b: int| 0 <= a < b < post.len() implies post[a].0 != post[b].0 by {
        if b < i {
        } else if a < i {
            assert(post[a] == pre[a] && post[b] == pre[b + 1]);
        } else {
            assert(post[a] == pre[a + 1] && post[b] == pre[b + 1]);
        }
    }
    assert forall|a: int, b: int|
        0 <= a < b < post.len() implies (#[trigger] post[a]).1.token != (
    #[trigger] post[b]).1.token by {
        if b < i {
        } else if a < i {
            assert(post[a] == pre[a] && post[b] == pre[b + 1]);
        } else {
            assert(post[a] == pre[a + 1] && post[b] == pre[b + 1]);
        }
    }
}


/// Facts tied to one socket's token: with distinct tokens, what the registry
/// says of a token is what that socket's record says.
impl Sockets {
    pub proof fn lemma_by_token(&self, sid: u64)
        requires
            self.wf(),
            self.contains(sid),
        ensures
            self.token_used(self.at(sid).token),
            forall|u: Seq<char>|
                #[trigger] self.auth_token(u, self.at(sid).token) <==> auth_view(
                    self.at(sid).auth,
                ) == Some(u),
            forall|g: Seq<char>|
                #[trigger] self.watch_token(g, self.at(sid).token) <==> watching_has(
                    self.at(sid).watching@,
                    g,
                ),
            forall|sq: Seq<char>|
                #[trigger] self.sri_token(sq, self.at(sid).token) <==> self.at(sid).sri@ == sq,
            sock_ok(self.at(sid)),
    {
        let i = self.idx_of(sid);
        assert(0 <= i < self.entries@.len() && self.entries@[i].0 == sid);
        let t = self.at(sid).token;
        assert(self.entries@[i].1.token == t);
        assert(self.token_used(t));
        assert forall|u: Seq<char>| #[trigger] self.auth_token(u, t) <==> auth_view(
            self.at(sid).auth,
        ) == Some(u) by {
            if self.auth_token(u, t) {
                let j = choose|j: int|
                    0 <= j < self.entries@.len() && (#[trigger] self.entries@[j]).1.token == t
                        && auth_view(self.entries@[j].1.auth) == Some(u);
                if j != i {
                    assert(self.entries@[j].1.token != self.entries@[i].1.token);
                }
            }
        }
        assert forall|g: Seq<char>| #[trigger] self.watch_token(g, t) <==> watching_has(
            self.at(sid).watching@,
            g,
        ) by {
            if self.watch_token(g, t) {
                let j = choose|j: int|
                    0 <= j < self.entries@.len() && (#[trigger] self.entries@[j]).1.token == t
                        && watching_has(self.entries@[j].1.watching@, g);
                if j != i {
                    assert(self.entries@[j].1.token != self.entries@[i].1.token);
                }
            }
        }
        assert forall|sq: Seq<char>| #[trigger] self.sri_token(sq, t) <==> self.at(sid).sri@
            == sq by {
            if self.sri_token(sq, t) {
                let j = choose|j: int|
                    0 <= j < self.entries@.len() && (#[trigger] self.entries@[j]).1.token == t
                        && self.entries@[j].1.sri@ == sq;
                if j != i {
                    assert(self.entries@[j].1.token != self.entries@[i].1.token);
                }
            }
        }
        assert(sock_ok(self.entries@[i].1));
    }

    /// Whether any open socket holds this sender token.
    #[verifier::loop_isolation(false)]
    pub fn token_used_exec(&self, t: u64) -> (r: bool)
        ensures
            r == self.token_used(t),
    {
        let mut i: usize = 0;
        while i < self.entries.len()
            invariant
                i <= self.entries@.len(),
                forall|j: int| 0 <= j < i ==> (#[trigger] self.entries@[j]).1.token != t,
            decreases self.entries@.len() - i,
        {
            if self.entries[i].1.token == t {
                return true;
            }
            i += 1;
        }
        proof {
            if self.token_used(t) {
                let j = choose|j: int|
                    0 <= j < self.entries@.len() && (#[trigger] self.entries@[j]).1.token == t;
            }
        }
        false
    }

    /// Whether a socket id is registered.
    pub fn contains_exec(&self, sid: u64) -> (r: bool)
        ensures
            r == self.contains(sid),
    {
        match self.find(sid) {
            Some(_) => true,
            None => {
                proof {
                    if self.contains(sid) {
                    }
                }
                false
            },
        }
    }
}

pub open spec fn uid_view(o: Option<UserId>) -> Option<Seq<char>> {
    match o {
        Some(u) => Some(u@),
        None => None,
    }
}

pub open spec fn connect_line(u: Seq<char>) -> Seq<char> {
    "connect "@ + u
}

pub open spec fn disconnect_line(u: Seq<char>) -> Seq<char> {
    "disconnect "@ + u
}

pub open spec fn notified_line(u: Seq<char>) -> Seq<char> {
    "notified "@ + u
}

pub open spec fn friends_line(u: Seq<char>) -> Seq<char> {
    "friends "@ + u
}

pub open spec fn watch_line(g: Seq<char>) -> Seq<char> {
    "watch "@ + g
}

pub open spec fn unwatch_line(g: Seq<char>) -> Seq<char> {
    "unwatch "@ + g
}

/// The shared state of the gateway.
pub struct App {
    pub by_user: Index,
    pub by_game: Index,
    pub by_sri: Index,
    pub sockets: Sockets,
    pub watched_games: GameCache,
    pub flag_simul: TokenSet,
    pub flag_tournament: TokenSet,
    pub watching_mlat: TokenSet,
    pub limiter: RateLimiter,
    pub mlat: u32,
    pub round_count: u32,
    pub member_count: u32,
    pub connection_count: i64,
}

/// The capacity of the watched-games cache.
pub const WATCHED_GAMES_CAP: usize = 5000;

impl App {
    /// The engine invariant: a user or game is indexed under a sender token
    /// exactly while an open socket with that token is authenticated as that
    /// user or watching that game, and likewise for page sessions.
    pub open spec fn inv(&self) -> bool {
        &&& self.by_user.wf()
        &&& self.by_game.wf()
        &&& self.by_sri.wf()
        &&& self.sockets.wf()
        &&& self.flag_simul.wf()
        &&& self.flag_tournament.wf()
        &&& self.watching_mlat.wf()
        &&& self.limiter.wf()
        &&& forall|u: Seq<char>, t: u64|
            #![trigger self.by_user.has_token(u, t)]
            #![trigger self.sockets.auth_token(u, t)]
            self.by_user.has_token(u, t) <==> self.sockets.auth_token(u, t)
        &&& forall|g: Seq<char>, t: u64|
            #![trigger self.by_game.has_token(g, t)]
            #![trigger self.sockets.watch_token(g, t)]
            self.by_game.has_token(g, t) <==> self.sockets.watch_token(g, t)
        &&& forall|sq: Seq<char>, t: u64|
            #![trigger self.by_sri.has_token(sq, t)]
            #![trigger self.sockets.sri_token(sq, t)]
            self.by_sri.has_token(sq, t) <==> self.sockets.sri_token(sq, t)
    }

    /// A fresh gateway with no sockets and empty indexes.
    pub fn new(rate_credits: u64) -> (r: App)
        requires
            rate_credits >= 1,
        ensures
            r.inv(),
            forall|sid: u64| !#[trigger] r.sockets.contains(sid),
            forall|t: u64| !#[trigger] r.sockets.token_used(t),
            forall|k: Seq<char>| !#[trigger] r.by_user.contains_key(k),
            forall|k: Seq<char>| !#[trigger] r.by_game.contains_key(k),
            forall|k: Seq<char>| !#[trigger] r.by_sri.contains_key(k),
            (crate::cache::cache_contents(r.watched_games.inner) == Map::<
                Seq<char>,
                (Seq<char>, Seq<char>),
            >::empty()),
            r.watched_games.cap() == WATCHED_GAMES_CAP,
            r.mlat == u32::MAX,
            r.round_count == 0,
            r.member_count == 0,
            r.connection_count == 0,
            r.limiter.credits() == rate_credits,
            forall|k: Seq<char>| #[trigger] r.limiter.tat_of(k) == 0,
    {
        App {
            by_user: Index::new(),
            by_game: Index::new(),
            by_sri: Index::new(),
            sockets: Sockets::new(),
            watched_games: GameCache::new(WATCHED_GAMES_CAP),
            flag_simul: TokenSet::new(),
            flag_tournament: TokenSet::new(),
            watching_mlat: TokenSet::new(),
            limiter: RateLimiter::new(rate_credits),
            mlat: u32::MAX,
            round_count: 0,
            member_count: 0,
            connection_count: 0,
        }
    }
}

/// Published once at process start: tells the backend to drop every
/// connection and subscription carried over from the previous process.
pub fn startup_effects() -> (effects: Vec<Effect>)
    ensures
        effect_views(effects) =~= seq![
            EffectView::Publish { line: "disconnect/all"@ },
        ],
{
    let mut effects: Vec<Effect> = Vec::new();
    effects.push(Effect::Publish { line: LilaIn::DisconnectAll.to_line() });
    effects
}

impl App {
    /// Registers a freshly opened socket after its handshake: into the
    /// socket registry and the page-session index, onto its flag channel,
    /// and into the connection count. The session lookup, if one was
    /// requested, runs outside; its result comes back through [`App::set_user`].
    pub fn connect_socket(
        &mut self,
        sid: u64,
        token: u64,
        endpoint: Endpoint,
        sri: Sri,
        flag: Option<Flag>,
        requested: bool,
    )
        requires
            old(self).inv(),
            !old(self).sockets.contains(sid),
            !old(self).sockets.token_used(token),
            old(self).connection_count < i64::MAX,
        ensures
            final(self).inv(),
            final(self).sockets.contains(sid),
            final(self).sockets.at(sid).token == token,
            final(self).sockets.at(sid).sri@ == sri@,
            final(self).sockets.at(sid).endpoint == endpoint,
            final(self).sockets.at(sid).flag == flag,
            auth_view(final(self).sockets.at(sid).auth) is None,
            (final(self).sockets.at(sid).auth is Requested) == requested,
            final(self).sockets.at(sid).watching@.len() == 0,
            forall|sid2: u64|
                #[trigger] final(self).sockets.contains(sid2) <==> old(self).sockets.contains(
                    sid2,
                ) || sid2 == sid,
            forall|sid2: u64|
                sid2 != sid && old(self).sockets.contains(sid2) ==> #[trigger] final(self).sockets.at(sid2) == old(self).sockets.at(sid2),
            forall|u: Seq<char>, t: u64|
                #[trigger] final(self).by_user.has_token(u, t) <==> old(self).by_user.has_token(
                    u,
                    t,
                ),
            forall|g: Seq<char>, t: u64|
                #[trigger] final(self).by_game.has_token(g, t) <==> old(self).by_game.has_token(
                    g,
                    t,
                ),
            forall|sq: Seq<char>, t: u64|
                #[trigger] final(self).by_sri.has_token(sq, t) <==> old(self).by_sri.has_token(
                    sq,
                    t,
                ) || (sq == sri@ && t == token),
            forall|t: u64|
                #[trigger] final(self).flag_simul.has(t) <==> old(self).flag_simul.has(t) || (
                flag == Some(Flag::Simul) && t == token),
            forall|t: u64|
                #[trigger] final(self).flag_tournament.has(t) <==> old(self).flag_tournament.has(t) || (flag == Some(Flag::Tournament) && t == token),
            final(self).connection_count == old(self).connection_count + 1,
            final(self).watching_mlat == old(self).watching_mlat,
            final(self).watched_games == old(self).watched_games,
            final(self).limiter == old(self).limiter,
            final(self).mlat == old(self).mlat,
            final(self).round_count == old(self).round_count,
            final(self).member_count == old(self).member_count,
    {
        self.connection_count = self.connection_count + 1;
        let sri_str = crate::text::string_of_chars(
            crate::text::chars_of(sri.as_str()).as_slice(),
        );
        let us = UserSocket {
            token,
            sri,
            endpoint,
            flag,
            auth: if requested {
                SocketAuth::Requested
            } else {
                SocketAuth::Anonymous
            },
            pending_notified: false,
            pending_following_onlines: false,
            watching: Vec::new(),
        };
        proof {
            assert(sock_ok(us));
        }
        self.sockets.insert(sid, us);
        proof {
            assert(!old(self).by_sri.has_token(sri_str@, token)) by {
                if old(self).by_sri.has_token(sri_str@, token) {
                    assert(old(self).sockets.sri_token(sri_str@, token));
                    assert(old(self).sockets.token_used(token));
                }
            }
        }
        self.by_sri.add(sri_str.as_str(), token);
        match flag {
            Some(Flag::Simul) => {
                self.flag_simul.insert(token);
            },
            Some(Flag::Tournament) => {
                self.flag_tournament.insert(token);
            },
            None => {},
        }
    }

    /// Finishes or clears a socket's authentication: the result of the
    /// session lookup (or the sign-out on close). A user enters `by_user`
    /// with their first authenticated socket and a `connect` line goes out;
    /// the `disconnect` line goes out with the last one leaving. A `notified`
    /// or `friends` request deferred while the lookup was outstanding is
    /// flushed once it succeeds.
    pub fn set_user(&mut self, sid: u64, maybe_uid: Option<UserId>) -> (effects: Vec<Effect>)
        requires
            old(self).inv(),
        ensures
            final(self).inv(),
            !old(self).sockets.contains(sid) ==> *final(self) == *old(self) && effect_views(
                effects,
            ) =~= Seq::<EffectView>::empty(),
            forall|sid2: u64|
                #[trigger] final(self).sockets.contains(sid2) <==> old(self).sockets.contains(
                    sid2,
                ),
            final(self).by_game == old(self).by_game,
            final(self).by_sri == old(self).by_sri,
            final(self).flag_simul == old(self).flag_simul,
            final(self).flag_tournament == old(self).flag_tournament,
            final(self).watching_mlat == old(self).watching_mlat,
            final(self).watched_games == old(self).watched_games,
            final(self).limiter == old(self).limiter,
            final(self).mlat == old(self).mlat,
            final(self).round_count == old(self).round_count,
            final(self).member_count == old(self).member_count,
            final(self).connection_count == old(self).connection_count,
            old(self).sockets.contains(sid) ==> ({
                let sock = old(self).sockets.at(sid);
                let old_a = auth_view(sock.auth);
                let new_a = uid_view(maybe_uid);
                let connected = new_a is Some && old_a != new_a && !old(self).by_user.contains_key(new_a.unwrap());
                let disconnected = old_a is Some && old_a != new_a && !final(self).by_user.contains_key(old_a.unwrap());
                let flush_notified = sock.auth is Requested && sock.pending_notified && new_a
                    is Some;
                let flush_friends = sock.auth is Requested && sock.pending_following_onlines
                    && new_a is Some;
                &&& final(self).sockets.at(sid).token == sock.token
                &&& final(self).sockets.at(sid).sri == sock.sri
                &&& final(self).sockets.at(sid).endpoint == sock.endpoint
                &&& final(self).sockets.at(sid).flag == sock.flag
                &&& final(self).sockets.at(sid).watching == sock.watching
                &&& auth_view(final(self).sockets.at(sid).auth) == new_a
                &&& (new_a is None ==> final(self).sockets.at(sid).auth
                    is Anonymous)
                &&& !final(self).sockets.at(sid).pending_notified
                &&& !final(self).sockets.at(sid).pending_following_onlines
                &&& (forall|sid2: u64|
                    sid2 != sid && old(self).sockets.contains(sid2) ==> #[trigger] final(self).sockets.at(sid2) == old(self).sockets.at(sid2))
                &&& (forall|u2: Seq<char>, t2: u64|
                    #[trigger] final(self).by_user.has_token(u2, t2) <==> ((old(self).by_user.has_token(u2, t2) && !(t2 == sock.token && Some(u2) == old_a
                        && old_a != new_a)) || (Some(u2) == new_a && t2 == sock.token)))
                &&& effect_views(effects) =~= (if connected {
                    seq![EffectView::Publish { line: connect_line(new_a.unwrap()) }]
                } else {
                    Seq::<EffectView>::empty()
                }) + (if disconnected {
                    seq![
                        EffectView::Publish { line: disconnect_line(old_a.unwrap()) },
                    ]
                } else {
                    Seq::<EffectView>::empty()
                }) + (if flush_notified {
                    seq![EffectView::Publish { line: notified_line(new_a.unwrap()) }]
                } else {
                    Seq::<EffectView>::empty()
                }) + (if flush_friends {
                    seq![EffectView::Publish { line: friends_line(new_a.unwrap()) }]
                } else {
                    Seq::<EffectView>::empty()
                })
            }),
    {
        let mut effects: Vec<Effect> = Vec::new();
        if !self.sockets.contains_exec(sid) {
            return effects;
        }
        proof {
            old(self).sockets.lemma_by_token(sid);
        }
        let mut us = self.sockets.remove(sid);
        let ghost sock = old(self).sockets.at(sid);
        let ghost old_a = auth_view(sock.auth);
        let ghost new_a = uid_view(maybe_uid);
        let was_requested = matches!(us.auth, SocketAuth::Requested);
        // an unchanged authentication is a no-op
        let same = match (&us.auth, &maybe_uid) {
            (SocketAuth::Authenticated(v), Some(u)) => crate::model::str_eq(
                v.as_str(),
                u.as_str(),
            ),
            _ => false,
        };
        if same {
            let flush_n = us.pending_notified;
            let flush_f = us.pending_following_onlines;
            us.pending_notified = false;
            us.pending_following_onlines = false;
            self.sockets.insert(sid, us);
            proof {
                assert(final(self).sockets.at(sid).token == sock.token);
                assert(auth_view(self.sockets.at(sid).auth) == new_a);
                assert forall|u2: Seq<char>, t2: u64|
                    #[trigger] self.by_user.has_token(u2, t2) <==> ((old(self).by_user.has_token(u2, t2) && !(t2 == sock.token && Some(u2) == old_a
                        && old_a != new_a)) || (Some(u2) == new_a && t2 == sock.token)) by {
                    if Some(u2) == new_a && t2 == sock.token {
                        assert(old(self).sockets.auth_token(u2, t2));
                        assert(old(self).by_user.has_token(u2, t2));
                    }
                }
                assert forall|u2: Seq<char>, t2: u64|
                    #[trigger] self.by_user.has_token(u2, t2) <==> self.sockets.auth_token(
                        u2,
                        t2,
                    ) by {
                    assert(old(self).by_user.has_token(u2, t2) <==> old(self).sockets.auth_token(u2, t2));
                }
                assert(effect_views(effects) =~= Seq::<EffectView>::empty());
                assert(self.sockets.at(sid).sri == sock.sri);
                assert(self.sockets.at(sid).watching == sock.watching);
                assert(self.sockets.at(sid).endpoint == sock.endpoint);
                assert(self.sockets.at(sid).flag == sock.flag);
                assert(!self.sockets.at(sid).pending_notified);
                assert(!self.sockets.at(sid).pending_following_onlines);
                assert(old_a == new_a);
                assert(forall|sid2: u64|
                    sid2 != sid && old(self).sockets.contains(sid2) ==> #[trigger] self.sockets.at(
                        sid2,
                    ) == old(self).sockets.at(sid2));
                assert(effect_views(effects) =~= Seq::<EffectView>::empty() + Seq::<
                    EffectView,
                >::empty() + Seq::<EffectView>::empty() + Seq::<EffectView>::empty());
            }
            return effects;
        }
        // join the new user's senders first
        match &maybe_uid {
            Some(u) => {
                proof {
                    assert(!old(self).by_user.has_token(u@, sock.token)) by {
                        if old(self).by_user.has_token(u@, sock.token) {
                            assert(old(self).sockets.auth_token(u@, sock.token));
                        }
                    }
                }
                let created = self.by_user.add(u.as_str(), us.token);
                if created {
                    effects.push(
                        Effect::Publish { line: LilaIn::Connect(u.clone_id()).to_line() },
                    );
                }
            },
            None => {},
        }
        // leave the old user's senders
        let mut old_uid: Option<UserId> = None;
        match &us.auth {
            SocketAuth::Authenticated(v) => {
                proof {
                    assert(old(self).by_user.has_token(v@, sock.token)) by {
                        assert(old(self).sockets.auth_token(v@, sock.token));
                    }
                    assert(self.by_user.has_token(v@, sock.token)) by {
                        assert(!(Some(v@) == new_a));
                    }
                }
                let last = self.by_user.remove(v.as_str(), us.token);
                if last {
                    effects.push(
                        Effect::Publish { line: LilaIn::Disconnect(v.clone_id()).to_line() },
                    );
                }
                old_uid = Some(v.clone_id());
            },
            _ => {},
        }
        // flush requests deferred while the lookup was outstanding
        let flush_n = was_requested && us.pending_notified && matches!(maybe_uid, Some(_));
        let flush_f = was_requested && us.pending_following_onlines && matches!(
            maybe_uid,
            Some(_),
        );
        us.pending_notified = false;
        us.pending_following_onlines = false;
        match &maybe_uid {
            Some(u) => {
                if flush_n {
                    effects.push(
                        Effect::Publish { line: LilaIn::Notified(u.clone_id()).to_line() },
                    );
                }
                if flush_f {
                    effects.push(
                        Effect::Publish { line: LilaIn::Friends(u.clone_id()).to_line() },
                    );
                }
            },
            None => {},
        }
        us.auth = match maybe_uid {
            Some(u) => SocketAuth::Authenticated(u),
            None => SocketAuth::Anonymous,
        };
        self.sockets.insert(sid, us);
        proof {
            assert(auth_view(self.sockets.at(sid).auth) == new_a);
            assert forall|u2: Seq<char>, t2: u64|
                #[trigger] self.by_user.has_token(u2, t2) <==> self.sockets.auth_token(
                    u2,
                    t2,
                ) by {
                assert(old(self).by_user.has_token(u2, t2) <==> old(self).sockets.auth_token(
                    u2,
                    t2,
                ));
                if t2 == sock.token {
                    assert(old(self).sockets.auth_token(u2, t2) <==> old_a == Some(u2));
                }
            }
        }
        effects
    }
}


pub open spec fn lag_line(u: Seq<char>, n: u32) -> Seq<char> {
    "lag "@ + u + " "@ + crate::text::spec_dec(n as nat)
}

pub open spec fn connections_line(n: u32) -> Seq<char> {
    "connections "@ + crate::text::spec_dec(n as nat)
}

pub open spec fn tell_sri_line(sri: Seq<char>, uid: Option<Seq<char>>, payload: Seq<char>) ->
    Seq<char> {
    "tell/sri "@ + sri + " "@ + (match uid {
        Some(u) => u,
        None => "-"@,
    }) + " "@ + payload
}

/// Two texts with a common prefix are equal only when the suffixes are.
proof fn lemma_prefix_inj(p: Seq<char>, a: Seq<char>, b: Seq<char>)
    requires
        p + a == p + b,
    ensures
        a == b,
{
    assert((p + a).subrange(p.len() as int, (p + a).len() as int) =~= a);
    assert((p + b).subrange(p.len() as int, (p + b).len() as int) =~= b);
}

/// A `disconnect` line never spells an `unwatch` line.
proof fn lemma_close_lines_distinct(u: Seq<char>, g: Seq<char>)
    ensures
        disconnect_line(u) != unwatch_line(g),
{
    reveal_strlit("disconnect ");
    reveal_strlit("unwatch ");
    assert(disconnect_line(u)[0] == 'd');
    assert(unwatch_line(g)[0] == 'u');
}

impl App {
    /// The user-presence law: a user is indexed under some token exactly
    /// while at least one open socket is authenticated as that user.
    pub proof fn lemma_user_presence(&self, u: Seq<char>)
        requires
            self.inv(),
        ensures
            self.by_user.contains_key(u) <==> exists|t: u64| self.sockets.auth_token(u, t),
    {
        lemma_contains_iff_token(&self.by_user, u);
        assert forall|t: u64| #[trigger] self.by_user.has_token(u, t)
            <==> self.sockets.auth_token(u, t) by {}
        if exists|t: u64| self.sockets.auth_token(u, t) {
            let t = choose|t: u64| self.sockets.auth_token(u, t);
            assert(self.by_user.has_token(u, t));
        }
        if exists|t: u64| self.by_user.has_token(u, t) {
            let t = choose|t: u64| self.by_user.has_token(u, t);
            assert(self.sockets.auth_token(u, t));
        }
    }

    /// The game-watch law: a game is indexed under some token exactly while
    /// at least one open socket is watching it.
    pub proof fn lemma_game_watch_presence(&self, g: Seq<char>)
        requires
            self.inv(),
        ensures
            self.by_game.contains_key(g) <==> exists|t: u64| self.sockets.watch_token(g, t),
    {
        lemma_contains_iff_token(&self.by_game, g);
        if exists|t: u64| self.sockets.watch_token(g, t) {
            let t = choose|t: u64| self.sockets.watch_token(g, t);
            assert(self.by_game.has_token(g, t));
        }
        if exists|t: u64| self.by_game.has_token(g, t) {
            let t = choose|t: u64| self.by_game.has_token(g, t);
            assert(self.sockets.watch_token(g, t));
        }
    }

    /// Closes a socket: it leaves every index it joined, with an `unwatch`
    /// line per game losing its last watcher and a `disconnect` line when
    /// its user loses their last authenticated socket.
    #[verifier::loop_isolation(false)]
    pub fn on_close(&mut self, sid: u64) -> (effects: Vec<Effect>)
        requires
            old(self).inv(),
            old(self).sockets.contains(sid),
            old(self).connection_count > i64::MIN,
        ensures
            final(self).inv(),
            forall|sid2: u64|
                #[trigger] final(self).sockets.contains(sid2) <==> old(self).sockets.contains(
                    sid2,
                ) && sid2 != sid,
            forall|sid2: u64|
                sid2 != sid && old(self).sockets.contains(sid2) ==> #[trigger] final(self).sockets.at(sid2) == old(self).sockets.at(sid2),
            final(self).connection_count == old(self).connection_count - 1,
            final(self).watched_games == old(self).watched_games,
            final(self).limiter == old(self).limiter,
            final(self).mlat == old(self).mlat,
            final(self).round_count == old(self).round_count,
            final(self).member_count == old(self).member_count,
            ({
                let sock = old(self).sockets.at(sid);
                let old_a = auth_view(sock.auth);
                &&& (forall|sq: Seq<char>, t: u64|
                    #[trigger] final(self).by_sri.has_token(sq, t) <==> old(self).by_sri.has_token(sq, t) && t != sock.token)
                &&& (forall|u: Seq<char>, t: u64|
                    #[trigger] final(self).by_user.has_token(u, t) <==> old(self).by_user.has_token(u, t) && t != sock.token)
                &&& (forall|g: Seq<char>, t: u64|
                    #[trigger] final(self).by_game.has_token(g, t) <==> old(self).by_game.has_token(g, t) && t != sock.token)
                &&& (forall|t: u64|
                    #[trigger] final(self).flag_simul.has(t) <==> old(self).flag_simul.has(t)
                        && t != sock.token)
                &&& (forall|t: u64|
                    #[trigger] final(self).flag_tournament.has(t) <==> old(self).flag_tournament.has(t) && t != sock.token)
                &&& (forall|t: u64|
                    #[trigger] final(self).watching_mlat.has(t) <==> old(self).watching_mlat.has(t) && t != sock.token)
                &&& (forall|i: int|
                    0 <= i < effect_views(effects).len() ==> #[trigger] effect_views(
                        effects,
                    )[i] is Publish)
                &&& (forall|u: Seq<char>|
                    effect_views(effects).contains(
                        EffectView::Publish { line: #[trigger] disconnect_line(u) },
                    ) <==> (old_a == Some(u) && !final(self).by_user.contains_key(u)))
                &&& (forall|g: Seq<char>|
                    effect_views(effects).contains(
                        EffectView::Publish { line: #[trigger] unwatch_line(g) },
                    ) <==> (watching_has(sock.watching@, g) && !final(self).by_game.contains_key(g)))
                &&& (forall|i: int, j: int|
                    0 <= i < j < effect_views(effects).len() ==> #[trigger] effect_views(
                        effects,
                    )[i] != #[trigger] effect_views(effects)[j])
            }),
    {
        let mut effects: Vec<Effect> = Vec::new();
        proof {
            old(self).sockets.lemma_by_token(sid);
        }
        self.connection_count = self.connection_count - 1;
        let us = self.sockets.remove(sid);
        let ghost sock = old(self).sockets.at(sid);
        let ghost old_a = auth_view(sock.auth);
        // leave the page-session index
        proof {
            assert(old(self).by_sri.has_token(us.sri@, us.token)) by {
                assert(old(self).sockets.sri_token(sock.sri@, sock.token));
            }
        }
        self.by_sri.remove(us.sri.as_str(), us.token);
        // leave the user index
        match &us.auth {
            SocketAuth::Authenticated(v) => {
                proof {
                    assert(old(self).by_user.has_token(v@, us.token)) by {
                        assert(old(self).sockets.auth_token(v@, sock.token));
                    }
                }
                let last = self.by_user.remove(v.as_str(), us.token);
                if last {
                    effects.push(
                        Effect::Publish { line: LilaIn::Disconnect(v.clone_id()).to_line() },
                    );
                    proof {
                        assert(effect_views(effects) =~= seq![
                            EffectView::Publish { line: disconnect_line(v@) },
                        ]);
                    }
                } else {
                    proof {
                        assert(effect_views(effects) =~= Seq::<EffectView>::empty());
                    }
                }
            },
            _ => {
                proof {
                    assert(effect_views(effects) =~= Seq::<EffectView>::empty());
                }
            },
        }
        proof {
            assert forall|u: Seq<char>|
                effect_views(effects).contains(
                    EffectView::Publish { line: #[trigger] disconnect_line(u) },
                ) <==> (old_a == Some(u) && !self.by_user.contains_key(u)) by {
                if effect_views(effects).contains(
                    EffectView::Publish { line: disconnect_line(u) },
                ) {
                    let i = choose|i: int|
                        0 <= i < effect_views(effects).len() && effect_views(effects)[i]
                            == (EffectView::Publish { line: disconnect_line(u) });
                    assert(old_a is Some);
                    lemma_prefix_inj("disconnect "@, old_a.unwrap(), u);
                }
                if old_a == Some(u) && !self.by_user.contains_key(u) {
                    assert(effect_views(effects)[0] == (EffectView::Publish {
                        line: disconnect_line(u),
                    }));
                }
            }
        }
        proof {
            assert forall|g: Seq<char>|
                !effect_views(effects).contains(
                    EffectView::Publish { line: #[trigger] unwatch_line(g) },
                ) by {
                if old_a is Some {
                    lemma_close_lines_distinct(old_a.unwrap(), g);
                }
                if effect_views(effects).contains(
                    EffectView::Publish { line: unwatch_line(g) },
                ) {
                    let i = choose|i: int|
                        0 <= i < effect_views(effects).len() && effect_views(effects)[i]
                            == (EffectView::Publish { line: unwatch_line(g) });
                }
            }
        }
        let ghost evs0 = effect_views(effects);
        let ghost bu_done = *self;
        // leave the game index, one unwatch per game losing its last watcher
        let mut gi: usize = 0;
        let n = us.watching.len();
        while gi < n
            invariant
                gi <= n,
                n == us.watching@.len(),
                self.by_game.wf(),
                self.by_user == bu_done.by_user,
                self.by_sri == bu_done.by_sri,
                self.sockets == bu_done.sockets,
                self.flag_simul == bu_done.flag_simul,
                self.flag_tournament == bu_done.flag_tournament,
                self.watching_mlat == bu_done.watching_mlat,
                self.watched_games == bu_done.watched_games,
                self.limiter == bu_done.limiter,
                self.mlat == bu_done.mlat,
                self.round_count == bu_done.round_count,
                self.member_count == bu_done.member_count,
                self.connection_count == bu_done.connection_count,
                sock_ok(sock),
                us.watching == sock.watching,
                us.token == sock.token,
                forall|g: Seq<char>, t: u64|
                    #[trigger] self.by_game.has_token(g, t) <==> old(self).by_game.has_token(
                        g,
                        t,
                    ) && !(t == sock.token && exists|j: int|
                        0 <= j < gi && (#[trigger] sock.watching@[j])@ == g),
                forall|i: int|
                    0 <= i < effect_views(effects).len() ==> #[trigger] effect_views(
                        effects,
                    )[i] is Publish,
                effect_views(effects).len() >= evs0.len(),
                forall|i: int|
                    0 <= i < evs0.len() ==> #[trigger] effect_views(effects)[i] == evs0[i],
                forall|u: Seq<char>|
                    effect_views(effects).contains(
                        EffectView::Publish { line: #[trigger] disconnect_line(u) },
                    ) <==> (old_a == Some(u) && !self.by_user.contains_key(u)),
                forall|g: Seq<char>|
                    effect_views(effects).contains(
                        EffectView::Publish { line: #[trigger] unwatch_line(g) },
                    ) <==> ((exists|j: int|
                        0 <= j < gi && (#[trigger] sock.watching@[j])@ == g)
                        && !self.by_game.contains_key(g)),
                forall|i: int, j: int|
                    0 <= i < j < effect_views(effects).len() ==> #[trigger] effect_views(
                        effects,
                    )[i] != #[trigger] effect_views(effects)[j],
            decreases n - gi,
        {
            let g = &us.watching[gi];
            proof {
                assert(old(self).by_game.has_token(g@, sock.token)) by {
                    assert(watching_has(sock.watching@, g@));
                    assert(old(self).sockets.watch_token(g@, sock.token));
                }
                assert(self.by_game.has_token(g@, sock.token)) by {
                    if exists|j: int| 0 <= j < gi && (#[trigger] sock.watching@[j])@ == g@ {
                        let j = choose|j: int|
                            0 <= j < gi && (#[trigger] sock.watching@[j])@ == g@;
                        assert(sock.watching@[j]@ == sock.watching@[gi as int]@);
                        assert(false);
                    }
                }
            }
            let ghost pre_loop = *self;
            let ghost pre_evs = effect_views(effects);
            let last = self.by_game.remove(g.as_str(), us.token);
            if last {
                effects.push(Effect::Publish { line: LilaIn::Unwatch(g.clone_id()).to_line() });
            }
            gi += 1;
            proof {
                assert forall|g2: Seq<char>, t2: u64|
                    #[trigger] self.by_game.has_token(g2, t2) <==> old(self).by_game.has_token(
                        g2,
                        t2,
                    ) && !(t2 == sock.token && exists|j: int|
                        0 <= j < gi && (#[trigger] sock.watching@[j])@ == g2) by {
                    if exists|j: int| 0 <= j < gi && (#[trigger] sock.watching@[j])@ == g2 {
                        let j = choose|j: int|
                            0 <= j < gi && (#[trigger] sock.watching@[j])@ == g2;
                        if j == gi - 1 {
                            assert(g2 == g@);
                        }
                    }
                }
                if last {
                    assert(effect_views(effects) =~= pre_evs.push(
                        EffectView::Publish { line: unwatch_line(g@) },
                    ));
                    assert(!pre_evs.contains(
                        EffectView::Publish { line: unwatch_line(g@) },
                    )) by {
                        if exists|j: int|
                            0 <= j < gi - 1 && (#[trigger] sock.watching@[j])@ == g@ {
                            let j = choose|j: int|
                                0 <= j < gi - 1 && (#[trigger] sock.watching@[j])@ == g@;
                            assert(sock.watching@[j]@ == sock.watching@[gi - 1]@);
                            assert(false);
                        }
                    }
                    assert forall|i: int, j: int|
                        0 <= i < j < effect_views(effects).len() implies #[trigger] effect_views(
                        effects,
                    )[i] != #[trigger] effect_views(effects)[j] by {
                        if j == effect_views(effects).len() - 1 {
                            assert(effect_views(effects)[i] == pre_evs[i]);
                            if effect_views(effects)[i] == effect_views(effects)[j] {
                                assert(pre_evs.contains(
                                    EffectView::Publish { line: unwatch_line(g@) },
                                ));
                            }
                        } else {
                            assert(effect_views(effects)[i] == pre_evs[i]);
                            assert(effect_views(effects)[j] == pre_evs[j]);
                        }
                    }
                }
                assert forall|u: Seq<char>|
                    effect_views(effects).contains(
                        EffectView::Publish { line: #[trigger] disconnect_line(u) },
                    ) <==> (old_a == Some(u) && !self.by_user.contains_key(u)) by {
                    if last {
                        lemma_close_lines_distinct(u, g@);
                        if effect_views(effects).contains(
                            EffectView::Publish { line: disconnect_line(u) },
                        ) {
                            let i = choose|i: int|
                                0 <= i < effect_views(effects).len() && effect_views(effects)[i]
                                    == (EffectView::Publish { line: disconnect_line(u) });
                            assert(pre_evs.contains(
                                EffectView::Publish { line: disconnect_line(u) },
                            )) by {
                                assert(i < pre_evs.len());
                                assert(pre_evs[i] == effect_views(effects)[i]);
                            }
                        }
                        if old_a == Some(u) && !self.by_user.contains_key(u) {
                            let i = choose|i: int|
                                0 <= i < pre_evs.len() && pre_evs[i] == (EffectView::Publish {
                                    line: disconnect_line(u),
                                });
                            assert(effect_views(effects)[i] == pre_evs[i]);
                        }
                    }
                }
                assert forall|g2: Seq<char>|
                    effect_views(effects).contains(
                        EffectView::Publish { line: #[trigger] unwatch_line(g2) },
                    ) <==> ((exists|j: int|
                        0 <= j < gi && (#[trigger] sock.watching@[j])@ == g2)
                        && !self.by_game.contains_key(g2)) by {
                    if effect_views(effects).contains(
                        EffectView::Publish { line: unwatch_line(g2) },
                    ) {
                        let i = choose|i: int|
                            0 <= i < effect_views(effects).len() && effect_views(effects)[i]
                                == (EffectView::Publish { line: unwatch_line(g2) });
                        if i < pre_evs.len() {
                            assert(pre_evs.contains(
                                EffectView::Publish { line: unwatch_line(g2) },
                            )) by {
                                assert(pre_evs[i] == effect_views(effects)[i]);
                            }
                            assert(!pre_loop.by_game.contains_key(g2));
                            assert(!self.by_game.contains_key(g2));
                            let j = choose|j: int|
                                0 <= j < gi - 1 && (#[trigger] sock.watching@[j])@ == g2;
                            assert(0 <= j < gi && sock.watching@[j]@ == g2);
                        } else {
                            assert(last);
                            lemma_prefix_inj("unwatch "@, g@, g2);
                            assert(sock.watching@[gi - 1]@ == g2);
                        }
                    } else {
                        if (exists|j: int|
                            0 <= j < gi && (#[trigger] sock.watching@[j])@ == g2)
                            && !self.by_game.contains_key(g2) {
                            let j = choose|j: int|
                                0 <= j < gi && (#[trigger] sock.watching@[j])@ == g2;
                            if j < gi - 1 {
                                assert(!pre_loop.by_game.contains_key(g2)) by {
                                    if pre_loop.by_game.contains_key(g2) {
                                        if g2 == g@ {
                                            assert(sock.watching@[j]@ == sock.watching@[gi
                                                - 1]@);
                                            assert(false);
                                        }
                                    }
                                }
                                assert(pre_evs.contains(
                                    EffectView::Publish { line: unwatch_line(g2) },
                                ));
                                let i = choose|i: int|
                                    0 <= i < pre_evs.len() && pre_evs[i]
                                        == (EffectView::Publish { line: unwatch_line(g2) });
                                assert(effect_views(effects)[i] == pre_evs[i]);
                                assert(false);
                            } else {
                                assert(g2 == g@);
                                assert(last);
                                assert(effect_views(effects).last() == (EffectView::Publish {
                                    line: unwatch_line(g2),
                                }));
                                assert(false);
                            }
                        }
                    }
                }
            }
        }
        // leave the flag channel and the latency watchers
        self.flag_simul.remove(us.token);
        self.flag_tournament.remove(us.token);
        self.watching_mlat.remove(us.token);
        proof {
            assert forall|g: Seq<char>, t: u64|
                #[trigger] self.by_game.has_token(g, t) <==> old(self).by_game.has_token(g, t)
                    && !(t == sock.token && watching_has(sock.watching@, g)) by {}
            assert forall|g: Seq<char>, t2: u64|
                #[trigger] self.by_game.has_token(g, t2) <==> self.sockets.watch_token(
                    g,
                    t2,
                ) by {
                assert(old(self).by_game.has_token(g, t2) <==> old(self).sockets.watch_token(
                    g,
                    t2,
                ));
                if t2 == sock.token {
                    assert(old(self).sockets.watch_token(g, t2) <==> watching_has(
                        sock.watching@,
                        g,
                    ));
                }
            }
            assert forall|u: Seq<char>, t2: u64|
                #[trigger] self.by_user.has_token(u, t2) <==> self.sockets.auth_token(
                    u,
                    t2,
                ) by {
                assert(old(self).by_user.has_token(u, t2) <==> old(self).sockets.auth_token(
                    u,
                    t2,
                ));
                if t2 == sock.token {
                    assert(old(self).sockets.auth_token(u, t2) <==> old_a == Some(u));
                }
            }
            assert forall|sq: Seq<char>, t2: u64|
                #[trigger] self.by_sri.has_token(sq, t2) <==> self.sockets.sri_token(
                    sq,
                    t2,
                ) by {
                assert(old(self).by_sri.has_token(sq, t2) <==> old(self).sockets.sri_token(
                    sq,
                    t2,
                ));
                if t2 == sock.token {
                    assert(old(self).sockets.sri_token(sq, t2) <==> sock.sri@ == sq);
                }
            }
        }
        effects
    }

    /// Closes an idle socket.
    pub fn on_timeout(token: u64) -> (effects: Vec<Effect>)
        ensures
            effect_views(effects) =~= seq![
                EffectView::Close { token, reason: CloseReason::Away },
            ],
    {
        let mut effects: Vec<Effect> = Vec::new();
        effects.push(Effect::Close { token, reason: CloseReason::Away });
        effects
    }

    /// Drops rate-limiter state idle for a minute; hooked to the backend's
    /// latency heartbeat.
    pub fn cleanup_limiter(&mut self, now_ms: u64)
        requires
            old(self).inv(),
        ensures
            final(self).inv(),
            forall|k: Seq<char>|
                #[trigger] final(self).limiter.tat_of(k) == 0 || final(self).limiter.tat_of(k)
                    == old(self).limiter.tat_of(k),
            forall|k: Seq<char>|
                old(self).limiter.tat_of(k) + 60_000 <= now_ms ==> #[trigger] final(self).limiter.tat_of(k) == 0,
    {
        self.limiter.cleanup(now_ms);
    }
}

/// One send per token, in order.
fn fanout_sends(toks: &Vec<u64>, text: &str) -> (effects: Vec<Effect>)
    ensures
        effect_views(effects).len() == toks@.len(),
        forall|i: int|
            0 <= i < toks@.len() ==> #[trigger] effect_views(effects)[i]
                == (EffectView::Send { token: toks@[i], text: text@ }),
{
    let mut effects: Vec<Effect> = Vec::new();
    let mut i: usize = 0;
    while i < toks.len()
        invariant
            i <= toks@.len(),
            effect_views(effects).len() == i,
            forall|j: int|
                0 <= j < i ==> #[trigger] effect_views(effects)[j] == (EffectView::Send {
                    token: toks@[j],
                    text: text@,
                }),
        decreases toks@.len() - i,
    {
        let ghost prev = effect_views(effects);
        let owned = crate::text::string_of_chars(crate::text::chars_of(text).as_slice());
        effects.push(Effect::Send { token: toks[i], text: owned });
        i += 1;
        proof {
            assert(effect_views(effects) =~= prev.push(
                EffectView::Send { token: toks@[i - 1], text: text@ },
            ));
        }
    }
    effects
}

/// One close per token, in order.
fn fanout_closes(toks: &Vec<u64>, reason: CloseReason) -> (effects: Vec<Effect>)
    ensures
        effect_views(effects).len() == toks@.len(),
        forall|i: int|
            0 <= i < toks@.len() ==> #[trigger] effect_views(effects)[i] == (EffectView::Close {
                token: toks@[i],
                reason,
            }),
{
    let mut effects: Vec<Effect> = Vec::new();
    let mut i: usize = 0;
    while i < toks.len()
        invariant
            i <= toks@.len(),
            effect_views(effects).len() == i,
            forall|j: int|
                0 <= j < i ==> #[trigger] effect_views(effects)[j] == (EffectView::Close {
                    token: toks@[j],
                    reason,
                }),
        decreases toks@.len() - i,
    {
        let ghost prev = effect_views(effects);
        effects.push(Effect::Close { token: toks[i], reason });
        i += 1;
        proof {
            assert(effect_views(effects) =~= prev.push(
                EffectView::Close { token: toks@[i - 1], reason },
            ));
        }
    }
    effects
}


impl App {
    /// Whether a socket id is registered.
    pub fn sockets_has(&self, sid: u64) -> (r: bool)
        ensures
            r == self.sockets.contains(sid),
    {
        self.sockets.contains_exec(sid)
    }

    /// Whether any open socket holds this sender token.
    pub fn token_in_use(&self, t: u64) -> (r: bool)
        ensures
            r == self.sockets.token_used(t),
    {
        self.sockets.token_used_exec(t)
    }

    /// The sends for a `tell/users` fan-out: the payload once to every
    /// sender of every listed user, a repeated name counting once.
    #[verifier::loop_isolation(false)]
    fn tell_users_effects(&self, users: &Vec<UserId>, payload: &str) -> (effects: Vec<Effect>)
        requires
            self.inv(),
        ensures
            tell_users_fanout(
                *self,
                users@.map_values(|u: UserId| u@),
                payload@,
                effect_views(effects),
            ),
    {
        let mut effects: Vec<Effect> = Vec::new();
        let mut ui: usize = 0;
        while ui < users.len()
            invariant
                ui <= users@.len(),
                forall|i: int|
                    0 <= i < effect_views(effects).len() ==> (#[trigger] effect_views(
                        effects,
                    )[i] matches EffectView::Send { token, text } && text == payload@),
                forall|t: u64|
                    effect_views(effects).contains(
                        EffectView::Send { token: t, text: payload@ },
                    ) <==> exists|k: int|
                        0 <= k < ui && self.by_user.has_token(
                            (#[trigger] users@[k])@,
                            tid(t),
                        ),
                forall|i: int, j: int|
                    0 <= i < j < effect_views(effects).len() ==> #[trigger] effect_views(
                        effects,
                    )[i] != #[trigger] effect_views(effects)[j],
            decreases users@.len() - ui,
        {
            // a user named twice fans out once
            let mut dup = false;
            let mut k: usize = 0;
            while k < ui
                invariant
                    k <= ui,
                    ui < users@.len(),
                    dup == exists|q: int|
                        0 <= q < k && (#[trigger] users@[q])@ == users@[ui as int]@,
                decreases ui - k,
            {
                let ghost dup_pre = dup;
                if crate::model::str_eq(users[k].as_str(), users[ui].as_str()) {
                    dup = true;
                }
                k += 1;
                proof {
                    if dup {
                        if dup_pre {
                            let q = choose|q: int|
                                0 <= q < k - 1 && (#[trigger] users@[q])@ == users@[ui as int]@;
                            assert(0 <= q < k && users@[q]@ == users@[ui as int]@);
                        } else {
                            assert(users@[k - 1]@ == users@[ui as int]@);
                        }
                    } else {
                        if exists|q: int|
                            0 <= q < k && (#[trigger] users@[q])@ == users@[ui as int]@ {
                            let q = choose|q: int|
                                0 <= q < k && (#[trigger] users@[q])@ == users@[ui as int]@;
                            if q < k - 1 {
                                assert(false);
                            }
                        }
                    }
                }
            }
            if !dup {
                let toks = self.by_user.tokens_of(users[ui].as_str());
                let ghost prev = effect_views(effects);
                let mut batch = fanout_sends(&toks, payload);
                let ghost bviews = effect_views(batch);
                effects.append(&mut batch);
                proof {
                    lemma_fanout_contains(bviews, toks@, payload@);
                    assert(effect_views(effects) =~= prev + bviews);
                    assert forall|t: u64|
                        effect_views(effects).contains(
                            EffectView::Send { token: t, text: payload@ },
                        ) <==> exists|k2: int|
                            0 <= k2 < ui + 1 && self.by_user.has_token(
                                (#[trigger] users@[k2])@,
                                tid(t),
                            ) by {
                        let e = EffectView::Send { token: t, text: payload@ };
                        assert(effect_views(effects).contains(e) <==> prev.contains(e)
                            || bviews.contains(e)) by {
                            if effect_views(effects).contains(e) {
                                let i = choose|i: int|
                                    0 <= i < effect_views(effects).len() && effect_views(
                                        effects,
                                    )[i] == e;
                                if i < prev.len() {
                                    assert(prev[i] == e);
                                } else {
                                    assert(bviews[i - prev.len()] == e);
                                }
                            }
                            if prev.contains(e) {
                                let i = choose|i: int|
                                    0 <= i < prev.len() && prev[i] == e;
                                assert(effect_views(effects)[i] == e);
                            }
                            if bviews.contains(e) {
                                let i = choose|i: int|
                                    0 <= i < bviews.len() && bviews[i] == e;
                                assert(effect_views(effects)[prev.len() + i] == e);
                            }
                        }
                        if bviews.contains(e) {
                            assert(self.by_user.has_token(users@[ui as int]@, tid(t)));
                        }
                        if exists|k2: int|
                            0 <= k2 < ui + 1 && self.by_user.has_token(
                                (#[trigger] users@[k2])@,
                                tid(t),
                            ) {
                            let k2 = choose|k2: int|
                                0 <= k2 < ui + 1 && self.by_user.has_token(
                                    (#[trigger] users@[k2])@,
                                    tid(t),
                                );
                            if k2 == ui {
                                assert(bviews.contains(e));
                            }
                        }
                    }
                    assert forall|i: int, j: int|
                        0 <= i < j < effect_views(effects).len() implies #[trigger] effect_views(
                        effects,
                    )[i] != #[trigger] effect_views(effects)[j] by {
                        if i < prev.len() && j >= prev.len() {
                            assert(effect_views(effects)[i] == prev[i]);
                            assert(effect_views(effects)[j] == bviews[j - prev.len()]);
                            if effect_views(effects)[i] == effect_views(effects)[j] {
                                let t = toks@[j - prev.len()];
                                assert(bviews[j - prev.len()] == (EffectView::Send {
                                    token: t,
                                    text: payload@,
                                }));
                                assert(prev.contains(
                                    EffectView::Send { token: t, text: payload@ },
                                ));
                                let k2 = choose|k2: int|
                                    0 <= k2 < ui && self.by_user.has_token(
                                        (#[trigger] users@[k2])@,
                                        tid(t),
                                    );
                                assert(toks@[j - prev.len()] == t);
                                assert(toks@.contains(t));
                                assert(self.by_user.has_token(users@[ui as int]@, tid(t)));
                                lemma_user_of_token_unique(
                                    self,
                                    users@[k2]@,
                                    users@[ui as int]@,
                                    t,
                                );
                                assert(users@[k2]@ == users@[ui as int]@);
                                assert(false);
                            }
                        } else if i >= prev.len() {
                            assert(effect_views(effects)[i] == bviews[i - prev.len()]);
                            assert(effect_views(effects)[j] == bviews[j - prev.len()]);
                            assert(toks@[i - prev.len()] != toks@[j - prev.len()]);
                        } else {
                            assert(effect_views(effects)[i] == prev[i]);
                            assert(effect_views(effects)[j] == prev[j]);
                        }
                    }
                }
            }
            ui += 1;
            proof {
                if dup {
                    assert forall|t: u64|
                        effect_views(effects).contains(
                            EffectView::Send { token: t, text: payload@ },
                        ) <==> exists|k2: int|
                            0 <= k2 < ui && self.by_user.has_token(
                                (#[trigger] users@[k2])@,
                                tid(t),
                            ) by {
                        let q = choose|q: int|
                            0 <= q < ui - 1 && (#[trigger] users@[q])@ == users@[ui - 1]@;
                        if exists|k2: int|
                            0 <= k2 < ui && self.by_user.has_token(
                                (#[trigger] users@[k2])@,
                                tid(t),
                            ) {
                            let k2 = choose|k2: int|
                                0 <= k2 < ui && self.by_user.has_token(
                                    (#[trigger] users@[k2])@,
                                    tid(t),
                                );
                            if k2 == ui - 1 {
                                assert(self.by_user.has_token(users@[q]@, tid(t)));
                            }
                        }
                    }
                }
            }
        }
        proof {
            let musers = users@.map_values(|u: UserId| u@);
            assert forall|t: u64|
                effect_views(effects).contains(
                    EffectView::Send { token: t, text: payload@ },
                ) <==> exists|ui2: int|
                    0 <= ui2 < musers.len() && self.by_user.has_token(
                        #[trigger] musers[ui2],
                        tid(t),
                    ) by {
                if exists|k: int|
                    0 <= k < users@.len() && self.by_user.has_token(
                        (#[trigger] users@[k])@,
                        tid(t),
                    ) {
                    let k = choose|k: int|
                        0 <= k < users@.len() && self.by_user.has_token(
                            (#[trigger] users@[k])@,
                            tid(t),
                        );
                    assert(musers[k] == users@[k]@);
                }
                if exists|ui2: int|
                    0 <= ui2 < musers.len() && self.by_user.has_token(
                        #[trigger] musers[ui2],
                        tid(t),
                    ) {
                    let k = choose|k: int|
                        0 <= k < musers.len() && self.by_user.has_token(musers[k], tid(t));
                    assert(musers[k] == users@[k]@);
                    assert(self.by_user.has_token(users@[k]@, tid(t)));
                }
            }
        }
        effects
    }

    /// Handles one parsed backend message: fans the payload out to the
    /// matching senders, updates the counters and the watched-games cache,
    /// or closes a user's sockets.
    #[verifier::loop_isolation(false)]
    #[verifier::rlimit(100)]
    #[verifier::spinoff_prover]
    pub fn received(&mut self, msg: &LilaOut) -> (effects: Vec<Effect>)
        requires
            old(self).inv(),
        ensures
            final(self).inv(),
            final(self).by_user == old(self).by_user,
            final(self).by_game == old(self).by_game,
            final(self).by_sri == old(self).by_sri,
            final(self).sockets == old(self).sockets,
            final(self).flag_simul == old(self).flag_simul,
            final(self).flag_tournament == old(self).flag_tournament,
            final(self).watching_mlat == old(self).watching_mlat,
            final(self).limiter == old(self).limiter,
            final(self).connection_count == old(self).connection_count,
            msg@ matches crate::ipc::LilaOutView::TellSri { sri, payload } ==> *final(self)
                == *old(self) && (forall|i: int|
                0 <= i < effect_views(effects).len() ==> (#[trigger] effect_views(effects)[i]
                    matches EffectView::Send { token, text } && text == payload)) && (forall|
            t: u64,
            |
                effect_views(effects).contains(EffectView::Send { token: t, text: payload })
                    <==> old(self).by_sri.has_token(sri, #[trigger] tid(t))) && (forall|
            i: int,
            j: int,
            |
                0 <= i < j < effect_views(effects).len() ==> #[trigger] effect_views(effects)[i]
                    != #[trigger] effect_views(effects)[j]),
            msg@ matches crate::ipc::LilaOutView::TellAll { payload } ==> *final(self) == *old(self) && effect_views(effects) =~= seq![EffectView::Broadcast { text: payload }],
            msg@ matches crate::ipc::LilaOutView::TellUsers { users, payload } ==> *final(self)
                == *old(self) && tell_users_fanout(
                *old(self),
                users,
                payload,
                effect_views(effects),
            ),
            msg@ matches crate::ipc::LilaOutView::TellFlag { flag, payload } ==> *final(self)
                == *old(self) && (forall|i: int|
                0 <= i < effect_views(effects).len() ==> (#[trigger] effect_views(effects)[i]
                    matches EffectView::Send { token, text } && text == payload)) && (forall|
            t: u64,
            |
                effect_views(effects).contains(EffectView::Send { token: t, text: payload })
                    <==> (if flag == Flag::Simul {
                    old(self).flag_simul.has(#[trigger] tid(t))
                } else {
                    old(self).flag_tournament.has(tid(t))
                })) && (forall|i: int, j: int|
                0 <= i < j < effect_views(effects).len() ==> #[trigger] effect_views(effects)[i]
                    != #[trigger] effect_views(effects)[j]),
            msg@ matches crate::ipc::LilaOutView::DisconnectUser { uid } ==> *final(self)
                == *old(self) && (forall|i: int|
                0 <= i < effect_views(effects).len() ==> #[trigger] effect_views(effects)[i]
                    matches EffectView::Close { token, reason: CloseReason::Normal }) && (
            forall|t: u64|
                effect_views(effects).contains(
                    EffectView::Close { token: t, reason: CloseReason::Normal },
                ) <==> old(self).by_user.has_token(uid, #[trigger] tid(t))) && (forall|
            i: int,
            j: int,
            |
                0 <= i < j < effect_views(effects).len() ==> #[trigger] effect_views(effects)[i]
                    != #[trigger] effect_views(effects)[j]),
            msg@ matches crate::ipc::LilaOutView::Move { game, last_uci, fen } ==> final(self).mlat == old(self).mlat && final(self).round_count == old(self).round_count
                && final(self).member_count == old(self).member_count
                && crate::cache::cache_contents(final(self).watched_games.inner).contains_key(
                game,
            ) && crate::cache::cache_contents(final(self).watched_games.inner)[game] == (
            fen, last_uci) && (forall|k: Seq<char>|
                k != game && #[trigger] crate::cache::cache_contents(
                    final(self).watched_games.inner,
                ).contains_key(k) ==> crate::cache::cache_contents(
                    old(self).watched_games.inner,
                ).contains_key(k) && crate::cache::cache_contents(
                    final(self).watched_games.inner,
                )[k] == crate::cache::cache_contents(old(self).watched_games.inner)[k]) && (
            forall|i: int|
                0 <= i < effect_views(effects).len() ==> (#[trigger] effect_views(effects)[i]
                    matches EffectView::Send {
                    token,
                    text,
                } && text == crate::browser::spec_fen_msg(game, fen, last_uci))) && (forall|
            t: u64,
            |
                effect_views(effects).contains(
                    EffectView::Send {
                        token: t,
                        text: crate::browser::spec_fen_msg(game, fen, last_uci),
                    },
                ) <==> old(self).by_game.has_token(game, #[trigger] tid(t))) && (forall|
            i: int,
            j: int,
            |
                0 <= i < j < effect_views(effects).len() ==> #[trigger] effect_views(effects)[i]
                    != #[trigger] effect_views(effects)[j]),
            msg@ matches crate::ipc::LilaOutView::MoveLatency(m) ==> final(self).mlat == m
                && final(self).watched_games == old(self).watched_games && final(self).round_count == old(self).round_count && final(self).member_count == old(self).member_count && effect_views(effects).len() >= 1 && effect_views(effects)[0]
                == (EffectView::Publish {
                line: connections_line(
                    if old(self).connection_count < 0 {
                        0u32
                    } else if old(self).connection_count > u32::MAX as i64 {
                        u32::MAX
                    } else {
                        old(self).connection_count as u32
                    },
                ),
            }) && (forall|i: int|
                1 <= i < effect_views(effects).len() ==> (#[trigger] effect_views(effects)[i]
                    matches EffectView::Send {
                    token,
                    text,
                } && text == crate::browser::spec_mlat_msg(m))) && (forall|t: u64|
                effect_views(effects).contains(
                    EffectView::Send { token: t, text: crate::browser::spec_mlat_msg(m) },
                ) <==> old(self).watching_mlat.has(#[trigger] tid(t))) && (forall|
            i: int,
            j: int,
            |
                0 <= i < j < effect_views(effects).len() ==> #[trigger] effect_views(effects)[i]
                    != #[trigger] effect_views(effects)[j]),
            msg@ matches crate::ipc::LilaOutView::RoundNb(n) ==> final(self).round_count == n
                && final(self).member_count == old(self).member_count && final(self).mlat
                == old(self).mlat && final(self).watched_games == old(self).watched_games
                && effect_views(effects) =~= Seq::<EffectView>::empty(),
            msg@ matches crate::ipc::LilaOutView::MemberNb(n) ==> final(self).member_count == n
                && final(self).round_count == old(self).round_count && final(self).mlat == old(self).mlat && final(self).watched_games == old(self).watched_games && effect_views(
                effects,
            ) =~= Seq::<EffectView>::empty(),
    {
        match msg {
            LilaOut::TellSri { sri, payload } => {
                let toks = self.by_sri.tokens_of(sri.as_str());
                let effects = fanout_sends(&toks, payload.as_str());
                proof {
                    lemma_fanout_contains(effect_views(effects), toks@, payload@);
                }
                effects
            },
            LilaOut::TellAll { payload } => {
                let mut effects: Vec<Effect> = Vec::new();
                let owned = crate::text::string_of_chars(
                    crate::text::chars_of(payload.as_str()).as_slice(),
                );
                effects.push(Effect::Broadcast { text: owned });
                proof {
                    assert(effect_views(effects) =~= seq![
                        EffectView::Broadcast { text: payload@ },
                    ]);
                }
                effects
            },
            LilaOut::TellUsers { users, payload } => {
                let effects = self.tell_users_effects(users, payload.as_str());
                effects
            },
            LilaOut::TellFlag { flag, payload } => {
                let toks = match flag {
                    Flag::Simul => self.flag_simul.to_vec(),
                    Flag::Tournament => self.flag_tournament.to_vec(),
                };
                let effects = fanout_sends(&toks, payload.as_str());
                proof {
                    lemma_fanout_contains(effect_views(effects), toks@, payload@);
                    assert(forall|a: int, b: int|
                        0 <= a < b < toks@.len() ==> toks@[a] != toks@[b]);
                }
                effects
            },
            LilaOut::DisconnectUser { uid } => {
                let toks = self.by_user.tokens_of(uid.as_str());
                let effects = fanout_closes(&toks, CloseReason::Normal);
                proof {
                    assert forall|t: u64|
                        effect_views(effects).contains(
                            EffectView::Close { token: t, reason: CloseReason::Normal },
                        ) <==> old(self).by_user.has_token(uid@, tid(t)) by {
                        let e = EffectView::Close { token: t, reason: CloseReason::Normal };
                        if effect_views(effects).contains(e) {
                            let i = choose|i: int|
                                0 <= i < effect_views(effects).len() && effect_views(effects)[i]
                                    == e;
                            assert(toks@.contains(t)) by {
                                assert(toks@[i] == t);
                            }
                        }
                        if toks@.contains(t) {
                            let i = choose|i: int| 0 <= i < toks@.len() && toks@[i] == t;
                            assert(effect_views(effects)[i] == e);
                        }
                    }
                }
                effects
            },
            LilaOut::Move { game, last_uci, fen } => {
                self.watched_games.put(game, fen.as_str(), last_uci.as_str());
                let toks = self.by_game.tokens_of(game.as_str());
                let text = browser::fen_msg(game, fen.as_str(), last_uci.as_str());
                let effects = fanout_sends(&toks, text.as_str());
                proof {
                    lemma_fanout_contains(effect_views(effects), toks@, text@);
                }
                effects
            },
            LilaOut::MoveLatency(m) => {
                let n: u32 = if self.connection_count < 0 {
                    0
                } else if self.connection_count > 0xffff_ffff {
                    u32::MAX
                } else {
                    self.connection_count as u32
                };
                self.mlat = *m;
                let mut line = crate::text::dec_string(n as u64);
                let mut lstr = String::from_str("connections ");
                lstr.append(line.as_str());
                let mut effects: Vec<Effect> = Vec::new();
                effects.push(Effect::Publish { line: lstr });
                let toks = self.watching_mlat.to_vec();
                let text = browser::mlat_msg(*m);
                let ghost first = effect_views(effects);
                let mut batch = fanout_sends(&toks, text.as_str());
                let ghost bviews = effect_views(batch);
                effects.append(&mut batch);
                proof {
                    assert(forall|a: int, b: int|
                        0 <= a < b < toks@.len() ==> toks@[a] != toks@[b]);
                    assert(effect_views(effects) =~= first + bviews);
                    assert(effect_views(effects)[0] == (EffectView::Publish {
                        line: connections_line(n),
                    }));
                    assert forall|t: u64|
                        effect_views(effects).contains(
                            EffectView::Send {
                                token: t,
                                text: crate::browser::spec_mlat_msg(*m),
                            },
                        ) <==> old(self).watching_mlat.has(tid(t)) by {
                        let e = EffectView::Send {
                            token: t,
                            text: crate::browser::spec_mlat_msg(*m),
                        };
                        if effect_views(effects).contains(e) {
                            let i = choose|i: int|
                                0 <= i < effect_views(effects).len() && effect_views(effects)[i]
                                    == e;
                            assert(i >= 1);
                            assert(bviews[i - 1] == e);
                            assert(toks@.contains(t)) by {
                                assert(toks@[i - 1] == t);
                            }
                        }
                        if toks@.contains(t) {
                            let i = choose|i: int| 0 <= i < toks@.len() && toks@[i] == t;
                            assert(bviews[i] == e);
                            assert(effect_views(effects)[i + 1] == e);
                        }
                    }
                }
                effects
            },
            LilaOut::RoundNb(n) => {
                self.round_count = *n;
                let effects: Vec<Effect> = Vec::new();
                proof {
                    assert(effect_views(effects) =~= Seq::<EffectView>::empty());
                }
                effects
            },
            LilaOut::MemberNb(n) => {
                self.member_count = *n;
                let effects: Vec<Effect> = Vec::new();
                proof {
                    assert(effect_views(effects) =~= Seq::<EffectView>::empty());
                }
                effects
            },
        }
    }
}

/// The `tell/users` fan-out shape: every effect is a send of the payload,
/// and a token is sent to exactly when some listed user is indexed under it.
pub open spec fn tell_users_fanout(
    app: App,
    users: Seq<Seq<char>>,
    payload: Seq<char>,
    evs: Seq<EffectView>,
) -> bool {
    &&& (forall|i: int|
        0 <= i < evs.len() ==> (#[trigger] evs[i] matches EffectView::Send { token, text }
            && text == payload))
    &&& (forall|t: u64|
        evs.contains(EffectView::Send { token: t, text: payload }) <==> exists|ui: int|
            0 <= ui < users.len() && app.by_user.has_token(#[trigger] users[ui], tid(t)))
    &&& (forall|i: int, j: int| 0 <= i < j < evs.len() ==> #[trigger] evs[i] != #[trigger] evs[j])
}

/// A sender token is indexed under at most one user: tokens are unique per
/// socket and a socket authenticates as one user.
proof fn lemma_user_of_token_unique(app: &App, u1: Seq<char>, u2: Seq<char>, t: u64)
    requires
        app.inv(),
        app.by_user.has_token(u1, t),
        app.by_user.has_token(u2, t),
    ensures
        u1 == u2,
{
    assert(app.sockets.auth_token(u1, t));
    assert(app.sockets.auth_token(u2, t));
    let i1 = choose|i: int|
        0 <= i < app.sockets.entries@.len() && (#[trigger] app.sockets.entries@[i]).1.token
            == t && auth_view(app.sockets.entries@[i].1.auth) == Some(u1);
    let i2 = choose|i: int|
        0 <= i < app.sockets.entries@.len() && (#[trigger] app.sockets.entries@[i]).1.token
            == t && auth_view(app.sockets.entries@[i].1.auth) == Some(u2);
    if i1 != i2 {
        assert(app.sockets.entries@[i1].1.token != app.sockets.entries@[i2].1.token);
    }
}

/// The identity on tokens; a named spot for quantified triggers.
pub open spec fn tid(t: u64) -> u64 {
    t
}

/// A fanned-out batch contains a send to `t` exactly when `t` was in the
/// token list.
proof fn lemma_fanout_contains(evs: Seq<EffectView>, toks: Seq<u64>, text: Seq<char>)
    requires
        evs.len() == toks.len(),
        forall|i: int|
            0 <= i < toks.len() ==> #[trigger] evs[i] == (EffectView::Send {
                token: toks[i],
                text,
            }),
    ensures
        forall|t: u64|
            evs.contains(EffectView::Send { token: #[trigger] tid(t), text }) <==> toks.contains(
                t,
            ),
        forall|t: u64|
            evs.contains(EffectView::Send { token: t, text }) <==> toks.contains(
                #[trigger] tid(t),
            ),
{
    assert forall|t: u64|
        evs.contains(EffectView::Send { token: #[trigger] tid(t), text }) <==> toks.contains(
        t,
    ) by {
        let e = EffectView::Send { token: t, text };
        if evs.contains(e) {
            let i = choose|i: int| 0 <= i < evs.len() && evs[i] == e;
            assert(toks[i] == t);
        }
        if toks.contains(t) {
            let i = choose|i: int| 0 <= i < toks.len() && toks[i] == t;
            assert(evs[i] == e);
        }
    }
}


/// The browser protocol tags are pairwise distinct texts.
proof fn lemma_tag_literals_distinct()
    ensures
        "p"@ != "notified"@,
        "p"@ != "startWatching"@,
        "p"@ != "moveLat"@,
        "p"@ != "following_onlines"@,
        "p"@ != "opening"@,
        "p"@ != "anaDests"@,
        "p"@ != "anaMove"@,
        "p"@ != "anaDrop"@,
        "p"@ != "evalGet"@,
        "p"@ != "evalPut"@,
        "p"@ != "ping"@,
        "notified"@ != "startWatching"@,
        "notified"@ != "moveLat"@,
        "notified"@ != "following_onlines"@,
        "notified"@ != "opening"@,
        "notified"@ != "anaDests"@,
        "notified"@ != "anaMove"@,
        "notified"@ != "anaDrop"@,
        "notified"@ != "evalGet"@,
        "notified"@ != "evalPut"@,
        "notified"@ != "ping"@,
        "startWatching"@ != "moveLat"@,
        "startWatching"@ != "following_onlines"@,
        "startWatching"@ != "opening"@,
        "startWatching"@ != "anaDests"@,
        "startWatching"@ != "anaMove"@,
        "startWatching"@ != "anaDrop"@,
        "startWatching"@ != "evalGet"@,
        "startWatching"@ != "evalPut"@,
        "startWatching"@ != "ping"@,
        "moveLat"@ != "following_onlines"@,
        "moveLat"@ != "opening"@,
        "moveLat"@ != "anaDests"@,
        "moveLat"@ != "anaMove"@,
        "moveLat"@ != "anaDrop"@,
        "moveLat"@ != "evalGet"@,
        "moveLat"@ != "evalPut"@,
        "moveLat"@ != "ping"@,
        "following_onlines"@ != "opening"@,
        "following_onlines"@ != "anaDests"@,
        "following_onlines"@ != "anaMove"@,
        "following_onlines"@ != "anaDrop"@,
        "following_onlines"@ != "evalGet"@,
        "following_onlines"@ != "evalPut"@,
        "following_onlines"@ != "ping"@,
        "opening"@ != "anaDests"@,
        "opening"@ != "anaMove"@,
        "opening"@ != "anaDrop"@,
        "opening"@ != "evalGet"@,
        "opening"@ != "evalPut"@,
        "opening"@ != "ping"@,
        "anaDests"@ != "anaMove"@,
        "anaDests"@ != "anaDrop"@,
        "anaDests"@ != "evalGet"@,
        "anaDests"@ != "evalPut"@,
        "anaDests"@ != "ping"@,
        "anaMove"@ != "anaDrop"@,
        "anaMove"@ != "evalGet"@,
        "anaMove"@ != "evalPut"@,
        "anaMove"@ != "ping"@,
        "anaDrop"@ != "evalGet"@,
        "anaDrop"@ != "evalPut"@,
        "anaDrop"@ != "ping"@,
        "evalGet"@ != "evalPut"@,
        "evalGet"@ != "ping"@,
        "evalPut"@ != "ping"@,
{
    reveal_strlit("p");
    reveal_strlit("notified");
    reveal_strlit("startWatching");
    reveal_strlit("moveLat");
    reveal_strlit("following_onlines");
    reveal_strlit("opening");
    reveal_strlit("anaDests");
    reveal_strlit("anaMove");
    reveal_strlit("anaDrop");
    reveal_strlit("evalGet");
    reveal_strlit("evalPut");
    reveal_strlit("ping");
    assert("p"@.len() == 1);
    assert("notified"@.len() == 8);
    assert("startWatching"@.len() == 13);
    assert("moveLat"@.len() == 7);
    assert("following_onlines"@.len() == 17);
    assert("opening"@.len() == 7);
    assert("anaDests"@.len() == 8);
    assert("anaMove"@.len() == 7);
    assert("anaDrop"@.len() == 7);
    assert("evalGet"@.len() == 7);
    assert("evalPut"@.len() == 7);
    assert("ping"@.len() == 4);
    assert("p"@[0] == 'p');
    assert("notified"@[0] == 'n');
    assert("startWatching"@[0] == 's');
    assert("moveLat"@[0] == 'm');
    assert("following_onlines"@[0] == 'f');
    assert("opening"@[0] == 'o');
    assert("anaDests"@[0] == 'a');
    assert("anaMove"@[0] == 'a');
    assert("anaDrop"@[0] == 'a');
    assert("evalGet"@[0] == 'e');
    assert("evalPut"@[0] == 'e');
    assert("ping"@[0] == 'p');
    assert("anaMove"@[3] == 'M');
    assert("anaDrop"@[3] == 'D');
    assert("evalGet"@[4] == 'G');
    assert("evalPut"@[4] == 'P');
}

/// Whether a frame is over the size limit. The protocol counts bytes; the
/// character count is bounded alongside it because the parser's fuel is
/// measured in characters, and a text within the byte bound is within the
/// character bound too.
pub open spec fn frame_oversize(text: &str) -> bool {
    text.spec_bytes().len() > 1024 || text@.len() > 1024
}

/// Whether a frame from this address is outside the rate allowance.
pub open spec fn msg_limited(app: App, addr: Option<&str>, now_ms: u64) -> bool {
    match addr {
        Some(a) => !crate::limiter::spec_allows(
            app.limiter.tat_of(a@),
            app.limiter.credits(),
            now_ms,
        ),
        None => false,
    }
}

impl App {
    /// Handles one browser text frame on an open socket: the rate allowance
    /// is spent first; `null` is the fast-path ping; oversized frames close
    /// the socket; everything else is a JSON frame whose tag picks the
    /// operation, and an unreadable or unknown frame closes the socket with
    /// a protocol code.
    #[verifier::loop_isolation(false)]
    #[verifier::rlimit(100)]
    #[verifier::spinoff_prover]
    pub fn on_message(
        &mut self,
        sid: u64,
        addr: Option<&str>,
        text: &str,
        now_ms: u64,
        db: &OpeningDb,
    ) -> (effects: Vec<Effect>)
        requires
            old(self).inv(),
            old(self).sockets.contains(sid),
            now_ms <= u64::MAX - crate::limiter::RATE_PERIOD_MS,
        ensures
            final(self).inv(),
            forall|sid2: u64|
                #[trigger] final(self).sockets.contains(sid2) <==> old(self).sockets.contains(
                    sid2,
                ),
            final(self).by_user == old(self).by_user,
            final(self).by_sri == old(self).by_sri,
            final(self).flag_simul == old(self).flag_simul,
            final(self).flag_tournament == old(self).flag_tournament,
            final(self).watched_games == old(self).watched_games,
            final(self).connection_count == old(self).connection_count,
            final(self).mlat == old(self).mlat,
            final(self).round_count == old(self).round_count,
            final(self).member_count == old(self).member_count,
            addr is None ==> final(self).limiter == old(self).limiter,
            msg_limited(*old(self), addr, now_ms) ==> final(self).sockets == old(self).sockets
                && final(self).by_game == old(self).by_game && final(self).watching_mlat
                == old(self).watching_mlat && effect_views(effects) =~= Seq::<
                EffectView,
            >::empty(),
            !msg_limited(*old(self), addr, now_ms) && text@ == "null"@ ==> final(self).sockets
                == old(self).sockets && final(self).by_game == old(self).by_game && final(self).watching_mlat == old(self).watching_mlat && effect_views(effects) =~= seq![
                EffectView::Send {
                    token: old(self).sockets.at(sid).token,
                    text: if old(self).sockets.at(sid).endpoint == Endpoint::Lobby {
                        crate::browser::spec_lobby_pong(
                            old(self).round_count,
                            old(self).member_count,
                        )
                    } else {
                        "0"@
                    },
                },
            ],
            !msg_limited(*old(self), addr, now_ms) && text@ != "null"@ && frame_oversize(text)
                ==> final(self).sockets == old(self).sockets && final(self).by_game == old(self).by_game && final(self).watching_mlat == old(self).watching_mlat && effect_views(
                effects,
            ) =~= seq![
                EffectView::Close {
                    token: old(self).sockets.at(sid).token,
                    reason: CloseReason::Size,
                },
            ],
            !msg_limited(*old(self), addr, now_ms) && text@ != "null"@ && !frame_oversize(text)
                && (crate::json::spec_parse_json(text@) is None || !crate::browser::wf_client_frame(
                crate::json::spec_parse_json(text@).unwrap(),
            )) ==> final(self).sockets == old(self).sockets && final(self).by_game == old(self).by_game && final(self).watching_mlat == old(self).watching_mlat && effect_views(
                effects,
            ) =~= seq![
                EffectView::Close {
                    token: old(self).sockets.at(sid).token,
                    reason: CloseReason::Protocol,
                },
            ],
            !msg_limited(*old(self), addr, now_ms) && text@ != "null"@ && !frame_oversize(text)
                && crate::json::spec_parse_json(text@) is Some && crate::browser::wf_client_frame(
                crate::json::spec_parse_json(text@).unwrap(),
            ) ==> on_frame_post(
                old(self).sockets.at(sid),
                final(self).sockets.at(sid),
                final(self).sockets == old(self).sockets,
                old(self).by_game,
                final(self).by_game,
                old(self).watching_mlat,
                final(self).watching_mlat,
                crate::cache::cache_contents(old(self).watched_games.inner),
                old(self).mlat,
                old(self).round_count,
                old(self).member_count,
                db@,
                crate::json::spec_parse_json(text@).unwrap(),
                text@,
                effect_views(effects),
            ),
    {
        let mut effects: Vec<Effect> = Vec::new();
        match addr {
            Some(a) => {
                let allowed = self.limiter.check(a, now_ms);
                if !allowed {
                    proof {
                        assert(effect_views(effects) =~= Seq::<EffectView>::empty());
                    }
                    return effects;
                }
            },
            None => {},
        }
        let token = self.sockets.get(sid).token;
        let endpoint = self.sockets.get(sid).endpoint;
        if crate::model::str_eq(text, "null") {
            let pong = match endpoint {
                Endpoint::Lobby => browser::lobby_pong(self.round_count, self.member_count),
                Endpoint::Site => crate::text::string_of_chars(
                    crate::text::chars_of("0").as_slice(),
                ),
            };
            effects.push(Effect::Send { token, text: pong });
            proof {
                assert(effect_views(effects) =~= seq![
                    EffectView::Send {
                        token: old(self).sockets.at(sid).token,
                        text: if old(self).sockets.at(sid).endpoint == Endpoint::Lobby {
                            crate::browser::spec_lobby_pong(
                                old(self).round_count,
                                old(self).member_count,
                            )
                        } else {
                            "0"@
                        },
                    },
                ]);
            }
            return effects;
        }
        let nb = text.as_bytes().len();
        let n = text.unicode_len();
        if nb > 1024 || n > 1024 {
            effects.push(Effect::Close { token, reason: CloseReason::Size });
            proof {
                assert(effect_views(effects) =~= seq![
                    EffectView::Close {
                        token: old(self).sockets.at(sid).token,
                        reason: CloseReason::Size,
                    },
                ]);
            }
            return effects;
        }
        let parsed = match crate::json::parse_json(text) {
            Some(j) => j,
            None => {
                effects.push(Effect::Close { token, reason: CloseReason::Protocol });
                proof {
                    assert(effect_views(effects) =~= seq![
                        EffectView::Close {
                            token: old(self).sockets.at(sid).token,
                            reason: CloseReason::Protocol,
                        },
                    ]);
                }
                return effects;
            },
        };
        let msg = match SocketOut::parse(&parsed) {
            Ok(m) => m,
            Err(_) => {
                effects.push(Effect::Close { token, reason: CloseReason::Protocol });
                proof {
                    assert(effect_views(effects) =~= seq![
                        EffectView::Close {
                            token: old(self).sockets.at(sid).token,
                            reason: CloseReason::Protocol,
                        },
                    ]);
                }
                return effects;
            },
        };
        self.on_frame(sid, msg, text, db, Ghost(parsed@))
    }
}

/// The ping reply and optional lag report: the lobby endpoint answers with
/// its counters, every other endpoint with `0`.
#[verifier::opaque]
pub open spec fn post_ping(
    old_a: Option<Seq<char>>,
    token: u64,
    endpoint: Endpoint,
    rounds: u32,
    members: u32,
    v: crate::json::JsonView,
    evs: Seq<EffectView>,
) -> bool {
    evs =~= (match crate::browser::opt_field(v, "l"@) {
        Some(crate::json::JsonView::Int(l)) => {
            if 0 <= l <= u32::MAX && old_a is Some {
                seq![EffectView::Publish { line: lag_line(old_a.unwrap(), l as u32) }]
            } else {
                Seq::<EffectView>::empty()
            }
        },
        _ => Seq::<EffectView>::empty(),
    }) + seq![
        EffectView::Send {
            token,
            text: if endpoint == Endpoint::Lobby {
                crate::browser::spec_lobby_pong(rounds, members)
            } else {
                "0"@
            },
        },
    ]
}

/// A notification-read report: published when authenticated, deferred while
/// the session lookup is outstanding, dropped when anonymous.
#[verifier::opaque]
pub open spec fn post_notified(
    sock: UserSocket,
    post_at: UserSocket,
    sockets_same: bool,
    evs: Seq<EffectView>,
) -> bool {
    match sock.auth {
        SocketAuth::Authenticated(u) => evs =~= seq![
            EffectView::Publish { line: notified_line(u@) },
        ] && !post_at.pending_notified && post_at.pending_following_onlines
            == sock.pending_following_onlines && post_at.token == sock.token && post_at.auth
            == sock.auth && post_at.watching == sock.watching,
        SocketAuth::Requested => evs =~= Seq::<EffectView>::empty() && post_at.pending_notified
            && post_at.token == sock.token && post_at.auth == sock.auth && post_at.watching
            == sock.watching,
        SocketAuth::Anonymous => sockets_same && evs =~= Seq::<EffectView>::empty(),
    }
}

/// A friends-list request, treated like a notification-read report.
#[verifier::opaque]
pub open spec fn post_following(
    sock: UserSocket,
    post_at: UserSocket,
    sockets_same: bool,
    evs: Seq<EffectView>,
) -> bool {
    match sock.auth {
        SocketAuth::Authenticated(u) => evs =~= seq![
            EffectView::Publish { line: friends_line(u@) },
        ] && !post_at.pending_following_onlines && post_at.pending_notified
            == sock.pending_notified && post_at.token == sock.token && post_at.auth
            == sock.auth && post_at.watching == sock.watching,
        SocketAuth::Requested => evs =~= Seq::<EffectView>::empty()
            && post_at.pending_following_onlines && post_at.token == sock.token && post_at.auth
            == sock.auth && post_at.watching == sock.watching,
        SocketAuth::Anonymous => sockets_same && evs =~= Seq::<EffectView>::empty(),
    }
}

/// Joining or leaving the latency watchers; the current reading goes straight
/// back on the first join.
#[verifier::opaque]
pub open spec fn post_movelat(
    token: u64,
    mlat: u32,
    pre_wm: TokenSet,
    post_wm: TokenSet,
    v: crate::json::JsonView,
    evs: Seq<EffectView>,
) -> bool {
    match crate::json::json_get(v, "d"@) {
        Some(crate::json::JsonView::Bool(w)) => {
            if w {
                (forall|t2: u64|
                    #[trigger] post_wm.has(t2) <==> pre_wm.has(t2) || t2 == token) && evs =~= (
                if pre_wm.has(token) {
                    Seq::<EffectView>::empty()
                } else {
                    seq![
                        EffectView::Send { token, text: crate::browser::spec_mlat_msg(mlat) },
                    ]
                })
            } else {
                (forall|t2: u64|
                    #[trigger] post_wm.has(t2) <==> pre_wm.has(t2) && t2 != token) && evs =~= Seq::<
                    EffectView,
                >::empty()
            }
        },
        _ => false,
    }
}

/// Watching every newly listed game: the game index and the socket's watch
/// list grow by the new games, a `watch` line goes out per game gaining its
/// first watcher, and a cached state goes straight back to the socket.
#[verifier::opaque]
pub open spec fn post_watch(
    sock: UserSocket,
    post_at: UserSocket,
    pre_bg: Index,
    post_bg: Index,
    cache: Map<Seq<char>, (Seq<char>, Seq<char>)>,
    v: crate::json::JsonView,
    evs: Seq<EffectView>,
) -> bool {
    let token = sock.token;
    let glist = crate::browser::spec_game_list(crate::browser::str_field(v, "d"@)).unwrap();
    &&& (forall|g: Seq<char>, t2: u64|
        #[trigger] post_bg.has_token(g, t2) <==> pre_bg.has_token(g, t2) || (t2 == token
            && glist.contains(g) && !watching_has(sock.watching@, g)))
    &&& (forall|g: Seq<char>|
        watching_has(post_at.watching@, g) <==> watching_has(sock.watching@, g)
            || glist.contains(g))
    &&& (forall|g: Seq<char>|
        evs.contains(EffectView::Publish { line: #[trigger] watch_line(g) }) <==> (
        glist.contains(g) && !pre_bg.contains_key(g)))
    &&& (forall|g: Seq<char>|
        glist.contains(g) && !watching_has(sock.watching@, g) && cache.contains_key(g)
            ==> evs.contains(
            EffectView::Send {
                token,
                text: crate::browser::spec_fen_msg(g, cache[g].0, cache[g].1),
            },
        ))
    &&& (forall|i: int|
        0 <= i < evs.len() && (#[trigger] evs[i]) is Send ==> exists|g: Seq<char>|
            glist.contains(g) && !watching_has(sock.watching@, g) && cache.contains_key(g)
                && crate::model::valid_game_id(g) && evs[i] == (EffectView::Send {
                token,
                text: crate::browser::spec_fen_msg(g, cache[g].0, cache[g].1),
            }))
    &&& (forall|i: int, j: int| 0 <= i < j < evs.len() ==> #[trigger] evs[i] != #[trigger] evs[j])
    &&& post_at.token == token
    &&& post_at.auth == sock.auth
}

/// A legal-destinations reply: exactly one frame back to the asking socket,
/// the destinations of the requested position when it is ready, the failure
/// marker when it is not.
#[verifier::opaque]
pub open spec fn post_dests_reply(
    token: u64,
    dbv: Seq<(Seq<char>, (Seq<char>, Seq<char>))>,
    v: crate::json::JsonView,
    evs: Seq<EffectView>,
) -> bool {
    let d = crate::json::json_get(v, "d"@).unwrap();
    let variant = crate::analysis::spec_request_variant(crate::browser::req_variant_key(d));
    let fen = crate::browser::str_field(d, "fen"@);
    evs.len() == 1 && (evs[0] matches EffectView::Send { token: tk, text } && tk == token && (
    if crate::analysis::spec_position_ready(variant, fen) {
        let p = crate::analysis::spec_request_position(variant, fen);
        text == crate::browser::spec_dests_msg(
            crate::browser::str_field(d, "path"@),
            crate::analysis::spec_dests_of(p),
            crate::analysis::spec_drops(p),
            crate::analysis::spec_opening_at(
                dbv,
                variant,
                crate::analysis::spec_fixed_setup(variant, fen),
            ),
            crate::browser::req_chapter(d),
        )
    } else {
        text == "{\"t\":\"destsFailure\"}"@
    }))
}

/// Whether a move value spells the move fields of a payload.
pub open spec fn move_uci_matches(uci: crate::analysis::Uci, d: crate::json::JsonView) -> bool {
    uci matches crate::analysis::Uci::Normal { from, to, promotion } && from as int
        == crate::browser::req_square(d, "orig"@) && to as int == crate::browser::req_square(
        d,
        "dest"@,
    ) && promotion == crate::browser::req_promotion(d)
}

/// Whether a move value spells the drop fields of a payload.
pub open spec fn drop_uci_matches(uci: crate::analysis::Uci, d: crate::json::JsonView) -> bool {
    uci matches crate::analysis::Uci::Put { to, role } && to as int
        == crate::browser::req_square(d, "pos"@) && Some(role) == crate::browser::req_role(d)
}

/// What the node sent back for a played move holds, in terms of the request
/// payload and the positions before and after the move.
pub open spec fn node_describes(
    n: crate::analysis::Node,
    dbv: Seq<(Seq<char>, (Seq<char>, Seq<char>))>,
    variant: crate::analysis::Variant,
    fen: Seq<char>,
    uci: crate::analysis::Uci,
    d: crate::json::JsonView,
) -> bool {
    let p0 = crate::analysis::spec_request_position(variant, fen);
    let m = crate::chess::move_of(p0, crate::analysis::spec_uci_string(uci));
    let p1 = crate::chess::played_position(p0, m);
    &&& n.path@ == crate::browser::str_field(d, "path"@)
    &&& crate::analysis::opt_str_view(n.chapter_id) == crate::browser::req_chapter(d)
    &&& n.node.id@ == crate::analysis::spec_uci_char_pair(uci)
    &&& n.node.uci@ == crate::analysis::spec_uci_string(uci)
    &&& n.node.san@ == crate::chess::san_of(p0, m)
    &&& n.node.fen@ == crate::chess::fen_text_of(p1)
    &&& n.node.check == crate::chess::is_check_of(p1)
    &&& (crate::analysis::spec_ply(
        crate::chess::fullmoves_of(p1) as int,
        crate::chess::turn_black_of(p1),
    ) <= u32::MAX ==> n.node.ply == crate::analysis::spec_ply(
        crate::chess::fullmoves_of(p1) as int,
        crate::chess::turn_black_of(p1),
    ))
    &&& n.node.dests@ == crate::analysis::spec_dests_of(p1)
    &&& crate::analysis::opt_str_view(n.node.drops) == crate::analysis::spec_drops(p1)
    &&& (match n.node.crazy {
        Some(data) => crate::chess::pockets_counts_of(p1) == Some(
            (
                (
                    data.white.pawn,
                    data.white.knight,
                    data.white.bishop,
                    data.white.rook,
                    data.white.queen,
                ),
                (
                    data.black.pawn,
                    data.black.knight,
                    data.black.bishop,
                    data.black.rook,
                    data.black.queen,
                ),
            ),
        ),
        None => crate::chess::pockets_counts_of(p1) is None,
    })
    &&& (match n.node.opening {
        Some(op) => crate::analysis::spec_opening_at(dbv, variant, crate::chess::setup_from(p1))
            == Some((op.eco@, op.name@)),
        None => crate::analysis::spec_opening_at(
            dbv,
            variant,
            crate::chess::setup_from(p1),
        ) is None,
    })
}

/// A move or drop reply: exactly one frame back to the asking socket — the
/// node describing the played move when the position is ready and the move
/// legal there, the failure marker otherwise.
#[verifier::opaque]
pub open spec fn post_step_reply(
    token: u64,
    dbv: Seq<(Seq<char>, (Seq<char>, Seq<char>))>,
    v: crate::json::JsonView,
    is_drop: bool,
    evs: Seq<EffectView>,
) -> bool {
    let d = crate::json::json_get(v, "d"@).unwrap();
    let variant = crate::analysis::spec_request_variant(crate::browser::req_variant_key(d));
    let fen = crate::browser::str_field(d, "fen"@);
    evs.len() == 1 && (evs[0] matches EffectView::Send { token: tk, text } && tk == token
        && exists|uci: crate::analysis::Uci|
        (if is_drop {
            drop_uci_matches(uci, d)
        } else {
            move_uci_matches(uci, d)
        }) && (if crate::analysis::spec_position_ready(variant, fen)
            && crate::chess::uci_playable(
            crate::analysis::spec_request_position(variant, fen),
            crate::analysis::spec_uci_string(uci),
        ) {
            exists|n: crate::analysis::Node|
                text == crate::browser::spec_node_msg(n) && node_describes(
                    n,
                    dbv,
                    variant,
                    fen,
                    uci,
                    d,
                )
        } else {
            text == "{\"t\":\"stepFailure\"}"@
        }))
}

/// An opening reply: the recorded opening back to the asking socket when
/// the position is known and the variant shares opening theory, nothing
/// otherwise.
#[verifier::opaque]
pub open spec fn post_opening(
    token: u64,
    dbv: Seq<(Seq<char>, (Seq<char>, Seq<char>))>,
    v: crate::json::JsonView,
    evs: Seq<EffectView>,
) -> bool {
    let d = crate::json::json_get(v, "d"@).unwrap();
    let variant = crate::analysis::spec_request_variant(crate::browser::req_variant_key(d));
    let fen = crate::browser::str_field(d, "fen"@);
    let hit = crate::chess::fen_ok(fen) && crate::analysis::spec_opening_sensible(variant)
        && crate::analysis::db_lookup(
        dbv,
        crate::chess::epd_of_setup(crate::chess::parsed_setup(fen)),
    ) is Some;
    if hit {
        let entry = crate::analysis::db_lookup(
            dbv,
            crate::chess::epd_of_setup(crate::chess::parsed_setup(fen)),
        ).unwrap();
        evs =~= seq![
            EffectView::Send {
                token,
                text: crate::browser::spec_opening_msg(
                    crate::browser::str_field(d, "path"@),
                    entry.0,
                    entry.1,
                ),
            },
        ]
    } else {
        evs =~= Seq::<EffectView>::empty()
    }
}

/// An eval request forwarded verbatim to the backend under the socket's page
/// session.
#[verifier::opaque]
pub open spec fn post_eval(
    sock: UserSocket,
    old_a: Option<Seq<char>>,
    raw: Seq<char>,
    evs: Seq<EffectView>,
) -> bool {
    evs =~= seq![EffectView::Publish { line: tell_sri_line(sock.sri@, old_a, raw) }]
}

/// What a handled, well-formed frame does, by its tag.
pub open spec fn on_frame_post(
    sock: UserSocket,
    post_at: UserSocket,
    sockets_same: bool,
    pre_bg: Index,
    post_bg: Index,
    pre_wm: TokenSet,
    post_wm: TokenSet,
    cache: Map<Seq<char>, (Seq<char>, Seq<char>)>,
    mlat: u32,
    rounds: u32,
    members: u32,
    dbv: Seq<(Seq<char>, (Seq<char>, Seq<char>))>,
    v: crate::json::JsonView,
    raw: Seq<char>,
    evs: Seq<EffectView>,
) -> bool {
    let token = sock.token;
    let old_a = auth_view(sock.auth);
    let t = crate::browser::tag_of(v).unwrap();
    &&& (t == "p"@ ==> sockets_same && post_bg == pre_bg && post_wm == pre_wm && post_ping(
        old_a,
        token,
        sock.endpoint,
        rounds,
        members,
        v,
        evs,
    ))
    &&& (t == "notified"@ ==> post_bg == pre_bg && post_wm == pre_wm && post_notified(
        sock,
        post_at,
        sockets_same,
        evs,
    ))
    &&& (t == "following_onlines"@ ==> post_bg == pre_bg && post_wm == pre_wm && post_following(
        sock,
        post_at,
        sockets_same,
        evs,
    ))
    &&& (t == "moveLat"@ ==> sockets_same && post_bg == pre_bg && post_movelat(
        token,
        mlat,
        pre_wm,
        post_wm,
        v,
        evs,
    ))
    &&& (t == "startWatching"@ ==> post_wm == pre_wm && post_watch(
        sock,
        post_at,
        pre_bg,
        post_bg,
        cache,
        v,
        evs,
    ))
    &&& (t == "opening"@ ==> sockets_same && post_bg == pre_bg && post_wm == pre_wm
        && post_opening(token, dbv, v, evs))
    &&& (t == "anaDests"@ ==> sockets_same && post_bg == pre_bg && post_wm == pre_wm
        && post_dests_reply(token, dbv, v, evs))
    &&& (t == "anaMove"@ ==> sockets_same && post_bg == pre_bg && post_wm == pre_wm
        && post_step_reply(token, dbv, v, false, evs))
    &&& (t == "anaDrop"@ ==> sockets_same && post_bg == pre_bg && post_wm == pre_wm
        && post_step_reply(token, dbv, v, true, evs))
    &&& ((t == "evalGet"@ || t == "evalPut"@) ==> sockets_same && post_bg == pre_bg && post_wm
        == pre_wm && post_eval(sock, old_a, raw, evs))
    &&& (t == "ping"@ ==> sockets_same && post_bg == pre_bg && post_wm == pre_wm && evs =~= Seq::<
        EffectView,
    >::empty())
}

/// The facts frame classification gives about the message, by variant.
pub open spec fn frame_msg_ok(v: crate::json::JsonView, m: SocketOut) -> bool {
    match m {
        SocketOut::Ping { lag } => crate::browser::tag_of(v) == Some("p"@) && match lag {
            Some(n) => crate::browser::opt_field(v, "l"@) == Some(
                crate::json::JsonView::Int(n as int),
            ),
            None => crate::browser::opt_field(v, "l"@) is None,
        },
        SocketOut::Notified => crate::browser::tag_of(v) == Some("notified"@),
        SocketOut::StartWatching { games } => crate::browser::tag_of(v) == Some(
            "startWatching"@,
        ) && crate::browser::spec_game_list(crate::browser::str_field(v, "d"@)) == Some(
            games@.map_values(|g: GameId| g@),
        ) && (crate::json::json_get(v, "d"@) matches Some(crate::json::JsonView::Str(_))),
        SocketOut::MoveLatency { watch } => crate::browser::tag_of(v) == Some("moveLat"@)
            && crate::json::json_get(v, "d"@) == Some(crate::json::JsonView::Bool(watch)),
        SocketOut::FollowingOnlines => crate::browser::tag_of(v) == Some("following_onlines"@),
        SocketOut::Opening { req } => crate::browser::tag_of(v) == Some("opening"@) && (
        crate::json::json_get(v, "d"@) matches Some(d) && req.path@ == crate::browser::str_field(
            d,
            "path"@,
        ) && req.fen@ == crate::browser::str_field(d, "fen"@) && req.variant
            == crate::browser::req_variant_key(d)),
        SocketOut::AnaDests { req } => crate::browser::tag_of(v) == Some("anaDests"@) && (
        crate::json::json_get(v, "d"@) matches Some(d) && req.path@ == crate::browser::str_field(
            d,
            "path"@,
        ) && req.fen@ == crate::browser::str_field(d, "fen"@) && req.variant
            == crate::browser::req_variant_key(d) && crate::analysis::opt_str_view(
            req.chapter_id,
        ) == crate::browser::req_chapter(d)),
        SocketOut::AnaMove { req } => crate::browser::tag_of(v) == Some("anaMove"@) && req.orig
            < 64 && req.dest < 64 && (crate::json::json_get(v, "d"@) matches Some(d)
            && req.path@ == crate::browser::str_field(d, "path"@) && req.fen@
            == crate::browser::str_field(d, "fen"@) && req.variant
            == crate::browser::req_variant_key(d) && crate::analysis::opt_str_view(
            req.chapter_id,
        ) == crate::browser::req_chapter(d) && req.orig as int == crate::browser::req_square(
            d,
            "orig"@,
        ) && req.dest as int == crate::browser::req_square(d, "dest"@) && req.promotion
            == crate::browser::req_promotion(d)),
        SocketOut::AnaDrop { req } => crate::browser::tag_of(v) == Some("anaDrop"@) && req.pos
            < 64 && (crate::json::json_get(v, "d"@) matches Some(d) && req.path@
            == crate::browser::str_field(d, "path"@) && req.fen@ == crate::browser::str_field(
            d,
            "fen"@,
        ) && req.variant == crate::browser::req_variant_key(d) && crate::analysis::opt_str_view(
            req.chapter_id,
        ) == crate::browser::req_chapter(d) && req.pos as int == crate::browser::req_square(
            d,
            "pos"@,
        ) && Some(req.role) == crate::browser::req_role(d)),
        SocketOut::EvalGet => crate::browser::tag_of(v) == Some("evalGet"@),
        SocketOut::EvalPut => crate::browser::tag_of(v) == Some("evalPut"@),
        SocketOut::ChallengePing => crate::browser::tag_of(v) == Some("ping"@),
    }
}

/// Whether a game list holds a given game.
#[verifier::loop_isolation(false)]
fn watch_contains(ws: &Vec<GameId>, g: &GameId) -> (r: bool)
    ensures
        r == watching_has(ws@, g@),
{
    let mut i: usize = 0;
    while i < ws.len()
        invariant
            i <= ws@.len(),
            forall|j: int| 0 <= j < i ==> (#[trigger] ws@[j])@ != g@,
        decreases ws@.len() - i,
    {
        if crate::model::str_eq(ws[i].as_str(), g.as_str()) {
            return true;
        }
        i += 1;
    }
    proof {
        if watching_has(ws@, g@) {
            let j = choose|j: int| 0 <= j < ws@.len() && (#[trigger] ws@[j])@ == g@;
        }
    }
    false
}

impl App {
    /// Writes one of a socket's single-slot coalescing flags.
    fn set_pending(&mut self, sid: u64, notified: bool, value: bool)
        requires
            old(self).inv(),
            old(self).sockets.contains(sid),
        ensures
            final(self).inv(),
            forall|sid2: u64|
                #[trigger] final(self).sockets.contains(sid2) <==> old(self).sockets.contains(
                    sid2,
                ),
            forall|sid2: u64|
                sid2 != sid && old(self).sockets.contains(sid2) ==> #[trigger] final(self).sockets.at(sid2) == old(self).sockets.at(sid2),
            final(self).sockets.at(sid).token == old(self).sockets.at(sid).token,
            final(self).sockets.at(sid).sri == old(self).sockets.at(sid).sri,
            final(self).sockets.at(sid).endpoint == old(self).sockets.at(sid).endpoint,
            final(self).sockets.at(sid).flag == old(self).sockets.at(sid).flag,
            final(self).sockets.at(sid).auth == old(self).sockets.at(sid).auth,
            final(self).sockets.at(sid).watching == old(self).sockets.at(sid).watching,
            final(self).sockets.at(sid).pending_notified == (if notified {
                value
            } else {
                old(self).sockets.at(sid).pending_notified
            }),
            final(self).sockets.at(sid).pending_following_onlines == (if notified {
                old(self).sockets.at(sid).pending_following_onlines
            } else {
                value
            }),
            final(self).by_user == old(self).by_user,
            final(self).by_game == old(self).by_game,
            final(self).by_sri == old(self).by_sri,
            final(self).flag_simul == old(self).flag_simul,
            final(self).flag_tournament == old(self).flag_tournament,
            final(self).watching_mlat == old(self).watching_mlat,
            final(self).watched_games == old(self).watched_games,
            final(self).limiter == old(self).limiter,
            final(self).mlat == old(self).mlat,
            final(self).round_count == old(self).round_count,
            final(self).member_count == old(self).member_count,
            final(self).connection_count == old(self).connection_count,
    {
        proof {
            old(self).sockets.lemma_by_token(sid);
        }
        let mut us = self.sockets.remove(sid);
        let ghost sock = old(self).sockets.at(sid);
        if notified {
            us.pending_notified = value;
        } else {
            us.pending_following_onlines = value;
        }
        self.sockets.insert(sid, us);
        proof {
            assert forall|u2: Seq<char>, t2: u64|
                #[trigger] self.by_user.has_token(u2, t2) <==> self.sockets.auth_token(
                    u2,
                    t2,
                ) by {
                assert(old(self).by_user.has_token(u2, t2) <==> old(self).sockets.auth_token(
                    u2,
                    t2,
                ));
                if t2 == sock.token {
                    assert(old(self).sockets.auth_token(u2, t2) <==> auth_view(sock.auth)
                        == Some(u2));
                }
            }
            assert forall|g: Seq<char>, t2: u64|
                #[trigger] self.by_game.has_token(g, t2) <==> self.sockets.watch_token(
                    g,
                    t2,
                ) by {
                assert(old(self).by_game.has_token(g, t2) <==> old(self).sockets.watch_token(
                    g,
                    t2,
                ));
                if t2 == sock.token {
                    assert(old(self).sockets.watch_token(g, t2) <==> watching_has(
                        sock.watching@,
                        g,
                    ));
                }
            }
            assert forall|sq: Seq<char>, t2: u64|
                #[trigger] self.by_sri.has_token(sq, t2) <==> self.sockets.sri_token(
                    sq,
                    t2,
                ) by {
                assert(old(self).by_sri.has_token(sq, t2) <==> old(self).sockets.sri_token(
                    sq,
                    t2,
                ));
                if t2 == sock.token {
                    assert(old(self).sockets.sri_token(sq, t2) <==> sock.sri@ == sq);
                }
            }
        }
    }

    /// Handles one classified frame.
    #[verifier::loop_isolation(false)]
    #[verifier::rlimit(100)]
    #[verifier::spinoff_prover]
    fn on_frame(
        &mut self,
        sid: u64,
        msg: SocketOut,
        raw: &str,
        db: &OpeningDb,
        v: Ghost<crate::json::JsonView>,
    ) -> (effects: Vec<Effect>)
        requires
            old(self).inv(),
            old(self).sockets.contains(sid),
            frame_msg_ok(v@, msg),
            crate::browser::wf_client_frame(v@),
        ensures
            final(self).inv(),
            forall|sid2: u64|
                #[trigger] final(self).sockets.contains(sid2) <==> old(self).sockets.contains(
                    sid2,
                ),
            final(self).by_user == old(self).by_user,
            final(self).by_sri == old(self).by_sri,
            final(self).flag_simul == old(self).flag_simul,
            final(self).flag_tournament == old(self).flag_tournament,
            final(self).watched_games == old(self).watched_games,
            final(self).limiter == old(self).limiter,
            final(self).connection_count == old(self).connection_count,
            final(self).mlat == old(self).mlat,
            final(self).round_count == old(self).round_count,
            final(self).member_count == old(self).member_count,
            on_frame_post(
                old(self).sockets.at(sid),
                final(self).sockets.at(sid),
                final(self).sockets == old(self).sockets,
                old(self).by_game,
                final(self).by_game,
                old(self).watching_mlat,
                final(self).watching_mlat,
                crate::cache::cache_contents(old(self).watched_games.inner),
                old(self).mlat,
                old(self).round_count,
                old(self).member_count,
                db@,
                v@,
                raw@,
                effect_views(effects),
            ),
    {
        proof {
            lemma_tag_literals_distinct();
        }
        let mut effects: Vec<Effect> = Vec::new();
        let token = self.sockets.get(sid).token;
        let ghost sock = old(self).sockets.at(sid);
        let ghost old_a = auth_view(sock.auth);
        match msg {
            SocketOut::Ping { lag } => {
                match lag {
                    Some(l) => {
                        if l >= 0 && l <= 0xffff_ffff {
                            match &self.sockets.get(sid).auth {
                                SocketAuth::Authenticated(u) => {
                                    let line = LilaIn::Lag(u.clone_id(), l as u32).to_line();
                                    effects.push(Effect::Publish { line });
                                },
                                _ => {},
                            }
                        }
                    },
                    None => {},
                }
                let pong = match self.sockets.get(sid).endpoint {
                    Endpoint::Lobby => browser::lobby_pong(self.round_count, self.member_count),
                    Endpoint::Site => crate::text::string_of_chars(
                        crate::text::chars_of("0").as_slice(),
                    ),
                };
                effects.push(Effect::Send { token, text: pong });
                proof {
                    reveal_strlit("0");
                    assert(effect_views(effects) =~= (match crate::browser::opt_field(
                        v@,
                        "l"@,
                    ) {
                        Some(crate::json::JsonView::Int(l)) => {
                            if 0 <= l <= u32::MAX && old_a is Some {
                                seq![
                                    EffectView::Publish {
                                        line: lag_line(old_a.unwrap(), l as u32),
                                    },
                                ]
                            } else {
                                Seq::<EffectView>::empty()
                            }
                        },
                        _ => Seq::<EffectView>::empty(),
                    }) + seq![
                        EffectView::Send {
                            token: sock.token,
                            text: if sock.endpoint == Endpoint::Lobby {
                                crate::browser::spec_lobby_pong(
                                    old(self).round_count,
                                    old(self).member_count,
                                )
                            } else {
                                "0"@
                            },
                        },
                    ]);
                    reveal(post_ping);
                    assert(post_ping(
                        old_a,
                        sock.token,
                        sock.endpoint,
                        old(self).round_count,
                        old(self).member_count,
                        v@,
                        effect_views(effects),
                    ));
                }
                {
                    proof {
                        assert(on_frame_post(
                            old(self).sockets.at(sid),
                            self.sockets.at(sid),
                            self.sockets == old(self).sockets,
                            old(self).by_game,
                            self.by_game,
                            old(self).watching_mlat,
                            self.watching_mlat,
                            crate::cache::cache_contents(old(self).watched_games.inner),
                            old(self).mlat,
                            old(self).round_count,
                            old(self).member_count,
                            db@,
                            v@,
                            raw@,
                            effect_views(effects),
                        ));
                    }
                    effects
                }
            },
            SocketOut::Notified => {
                let is_requested = matches!(
                    &self.sockets.get(sid).auth,
                    SocketAuth::Requested
                );
                let is_authenticated = matches!(
                    &self.sockets.get(sid).auth,
                    SocketAuth::Authenticated(_)
                );
                if is_authenticated {
                    let line = match &self.sockets.get(sid).auth {
                        SocketAuth::Authenticated(u) => LilaIn::Notified(u.clone_id()).to_line(),
                        _ => String::new(),
                    };
                    self.set_pending(sid, true, false);
                    effects.push(Effect::Publish { line });
                    {
                        proof {
                            assert(effect_views(effects) =~= seq![
                                EffectView::Publish { line: notified_line(old_a.unwrap()) },
                            ]);
                            reveal(post_notified);
                            assert(post_notified(
                                sock,
                                self.sockets.at(sid),
                                self.sockets == old(self).sockets,
                                effect_views(effects),
                            ));
                        }
                        proof {
                            assert(on_frame_post(
                                old(self).sockets.at(sid),
                                self.sockets.at(sid),
                                self.sockets == old(self).sockets,
                                old(self).by_game,
                                self.by_game,
                                old(self).watching_mlat,
                                self.watching_mlat,
                                crate::cache::cache_contents(old(self).watched_games.inner),
                                old(self).mlat,
                                old(self).round_count,
                                old(self).member_count,
                                db@,
                                v@,
                                raw@,
                                effect_views(effects),
                            ));
                        }
                        return effects;
                    }
                }
                if is_requested {
                    self.set_pending(sid, true, true);
                }
                proof {
                    assert(effect_views(effects) =~= Seq::<EffectView>::empty());
                    reveal(post_notified);
                    assert(post_notified(
                        sock,
                        self.sockets.at(sid),
                        self.sockets == old(self).sockets,
                        effect_views(effects),
                    ));
                }
                {
                    proof {
                        assert(on_frame_post(
                            old(self).sockets.at(sid),
                            self.sockets.at(sid),
                            self.sockets == old(self).sockets,
                            old(self).by_game,
                            self.by_game,
                            old(self).watching_mlat,
                            self.watching_mlat,
                            crate::cache::cache_contents(old(self).watched_games.inner),
                            old(self).mlat,
                            old(self).round_count,
                            old(self).member_count,
                            db@,
                            v@,
                            raw@,
                            effect_views(effects),
                        ));
                    }
                    effects
                }
            },
            SocketOut::FollowingOnlines => {
                let is_requested = matches!(
                    &self.sockets.get(sid).auth,
                    SocketAuth::Requested
                );
                let is_authenticated = matches!(
                    &self.sockets.get(sid).auth,
                    SocketAuth::Authenticated(_)
                );
                if is_authenticated {
                    let line = match &self.sockets.get(sid).auth {
                        SocketAuth::Authenticated(u) => LilaIn::Friends(u.clone_id()).to_line(),
                        _ => String::new(),
                    };
                    self.set_pending(sid, false, false);
                    effects.push(Effect::Publish { line });
                    {
                        proof {
                            assert(effect_views(effects) =~= seq![
                                EffectView::Publish { line: friends_line(old_a.unwrap()) },
                            ]);
                            reveal(post_following);
                            assert(post_following(
                                sock,
                                self.sockets.at(sid),
                                self.sockets == old(self).sockets,
                                effect_views(effects),
                            ));
                        }
                        proof {
                            assert(on_frame_post(
                                old(self).sockets.at(sid),
                                self.sockets.at(sid),
                                self.sockets == old(self).sockets,
                                old(self).by_game,
                                self.by_game,
                                old(self).watching_mlat,
                                self.watching_mlat,
                                crate::cache::cache_contents(old(self).watched_games.inner),
                                old(self).mlat,
                                old(self).round_count,
                                old(self).member_count,
                                db@,
                                v@,
                                raw@,
                                effect_views(effects),
                            ));
                        }
                        return effects;
                    }
                }
                if is_requested {
                    self.set_pending(sid, false, true);
                }
                proof {
                    assert(effect_views(effects) =~= Seq::<EffectView>::empty());
                    reveal(post_following);
                    assert(post_following(
                        sock,
                        self.sockets.at(sid),
                        self.sockets == old(self).sockets,
                        effect_views(effects),
                    ));
                }
                {
                    proof {
                        assert(on_frame_post(
                            old(self).sockets.at(sid),
                            self.sockets.at(sid),
                            self.sockets == old(self).sockets,
                            old(self).by_game,
                            self.by_game,
                            old(self).watching_mlat,
                            self.watching_mlat,
                            crate::cache::cache_contents(old(self).watched_games.inner),
                            old(self).mlat,
                            old(self).round_count,
                            old(self).member_count,
                            db@,
                            v@,
                            raw@,
                            effect_views(effects),
                        ));
                    }
                    effects
                }
            },
            SocketOut::MoveLatency { watch } => {
                if watch {
                    let added = self.watching_mlat.insert(token);
                    if added {
                        let text = browser::mlat_msg(self.mlat);
                        effects.push(Effect::Send { token, text });
                        proof {
                            assert(effect_views(effects) =~= seq![
                                EffectView::Send {
                                    token: sock.token,
                                    text: crate::browser::spec_mlat_msg(old(self).mlat),
                                },
                            ]);
                        }
                    } else {
                        proof {
                            assert(effect_views(effects) =~= Seq::<EffectView>::empty());
                        }
                    }
                } else {
                    self.watching_mlat.remove(token);
                    proof {
                        assert(effect_views(effects) =~= Seq::<EffectView>::empty());
                    }
                }
                proof {
                    reveal(post_movelat);
                    assert(post_movelat(
                        sock.token,
                        old(self).mlat,
                        old(self).watching_mlat,
                        self.watching_mlat,
                        v@,
                        effect_views(effects),
                    ));
                }
                {
                    proof {
                        assert(on_frame_post(
                            old(self).sockets.at(sid),
                            self.sockets.at(sid),
                            self.sockets == old(self).sockets,
                            old(self).by_game,
                            self.by_game,
                            old(self).watching_mlat,
                            self.watching_mlat,
                            crate::cache::cache_contents(old(self).watched_games.inner),
                            old(self).mlat,
                            old(self).round_count,
                            old(self).member_count,
                            db@,
                            v@,
                            raw@,
                            effect_views(effects),
                        ));
                    }
                    effects
                }
            },
            SocketOut::StartWatching { games } => {
                self.start_watching(sid, &games, &mut effects, Ghost(v@));
                proof {
                    reveal(post_watch);
                    assert(crate::browser::spec_game_list(
                        crate::browser::str_field(v@, "d"@),
                    ) == Some(games@.map_values(|g: GameId| g@)));
                    assert(crate::browser::spec_game_list(
                        crate::browser::str_field(v@, "d"@),
                    ).unwrap() == games@.map_values(|g: GameId| g@));
                    let glx = crate::browser::spec_game_list(
                        crate::browser::str_field(v@, "d"@),
                    ).unwrap();
                    assert(forall|g: Seq<char>, t2: u64|
                        #[trigger] self.by_game.has_token(g, t2) <==> old(
                            self,
                        ).by_game.has_token(g, t2) || (t2 == sock.token && glx.contains(g)
                            && !watching_has(sock.watching@, g)));
                    assert forall|g: Seq<char>|
                        watching_has(self.sockets.at(sid).watching@, g) <==> watching_has(
                        sock.watching@,
                        g,
                    ) || glx.contains(g) by {
                        assert(watching_has(self.sockets.at(sid).watching@, g)
                            <==> watching_has(sock.watching@, g) || games@.map_values(
                            |gg: GameId| gg@,
                        ).contains(g));
                    }
                    assert(forall|g: Seq<char>|
                        effect_views(effects).contains(
                            EffectView::Publish { line: #[trigger] watch_line(g) },
                        ) <==> (glx.contains(g) && !old(self).by_game.contains_key(g)));
                    assert(forall|g: Seq<char>|
                        glx.contains(g) && !watching_has(sock.watching@, g)
                            && crate::cache::cache_contents(
                            old(self).watched_games.inner,
                        ).contains_key(g) ==> effect_views(effects).contains(
                            EffectView::Send {
                                token: sock.token,
                                text: crate::browser::spec_fen_msg(
                                    g,
                                    crate::cache::cache_contents(
                                        old(self).watched_games.inner,
                                    )[g].0,
                                    crate::cache::cache_contents(
                                        old(self).watched_games.inner,
                                    )[g].1,
                                ),
                            },
                        ));
                    assert(self.sockets.at(sid).token == sock.token);
                    assert(self.sockets.at(sid).auth == sock.auth);
                    assert(post_watch(
                        sock,
                        self.sockets.at(sid),
                        old(self).by_game,
                        self.by_game,
                        crate::cache::cache_contents(old(self).watched_games.inner),
                        v@,
                        effect_views(effects),
                    ));
                }
                {
                    proof {
                        assert(on_frame_post(
                            old(self).sockets.at(sid),
                            self.sockets.at(sid),
                            self.sockets == old(self).sockets,
                            old(self).by_game,
                            self.by_game,
                            old(self).watching_mlat,
                            self.watching_mlat,
                            crate::cache::cache_contents(old(self).watched_games.inner),
                            old(self).mlat,
                            old(self).round_count,
                            old(self).member_count,
                            db@,
                            v@,
                            raw@,
                            effect_views(effects),
                        ));
                    }
                    effects
                }
            },
            SocketOut::Opening { req } => {
                match req.respond(db) {
                    Some(resp) => {
                        let text = browser::opening_msg(&resp);
                        let ghost tv = text@;
                        let ghost pv = resp.path@;
                        let ghost ev = resp.opening.eco@;
                        let ghost nv = resp.opening.name@;
                        effects.push(Effect::Send { token, text });
                        proof {
                            assert(effect_views(effects) =~= seq![
                                EffectView::Send { token: sock.token, text: tv },
                            ]);
                            reveal(post_opening);
                            assert(tv == crate::browser::spec_opening_msg(pv, ev, nv));
                            assert(post_opening(sock.token, db@, v@, effect_views(effects)));
                        }
                    },
                    None => {
                        proof {
                            assert(effect_views(effects) =~= Seq::<EffectView>::empty());
                            reveal(post_opening);
                            assert(post_opening(sock.token, db@, v@, effect_views(effects)));
                        }
                    },
                }
                {
                    proof {
                        assert(on_frame_post(
                            old(self).sockets.at(sid),
                            self.sockets.at(sid),
                            self.sockets == old(self).sockets,
                            old(self).by_game,
                            self.by_game,
                            old(self).watching_mlat,
                            self.watching_mlat,
                            crate::cache::cache_contents(old(self).watched_games.inner),
                            old(self).mlat,
                            old(self).round_count,
                            old(self).member_count,
                            db@,
                            v@,
                            raw@,
                            effect_views(effects),
                        ));
                    }
                    effects
                }
            },
            SocketOut::AnaDests { req } => {
                match req.respond(db) {
                    Ok(resp) => {
                        let text = browser::dests_msg(&resp);
                        let ghost tv = text@;
                        let ghost w = (resp.path@, resp.dests@, crate::browser::view_opt_str(
                            resp.drops,
                        ), crate::browser::view_opening(resp.opening), crate::browser::view_opt_str(
                            resp.chapter_id,
                        ));
                        effects.push(Effect::Send { token, text });
                        proof {
                            assert(effect_views(effects) =~= seq![
                                EffectView::Send { token: sock.token, text: tv },
                            ]);
                            reveal(post_dests_reply);
                            assert(tv == crate::browser::spec_dests_msg(
                                w.0,
                                w.1,
                                w.2,
                                w.3,
                                w.4,
                            ));
                            assert(post_dests_reply(sock.token, db@, v@, effect_views(effects)));
                        }
                    },
                    Err(_) => {
                        let text = browser::dests_failure_msg();
                        let ghost tv = text@;
                        effects.push(Effect::Send { token, text });
                        proof {
                            assert(effect_views(effects) =~= seq![
                                EffectView::Send { token: sock.token, text: tv },
                            ]);
                            reveal(post_dests_reply);
                            assert(post_dests_reply(sock.token, db@, v@, effect_views(effects)));
                        }
                    },
                }
                {
                    proof {
                        assert(on_frame_post(
                            old(self).sockets.at(sid),
                            self.sockets.at(sid),
                            self.sockets == old(self).sockets,
                            old(self).by_game,
                            self.by_game,
                            old(self).watching_mlat,
                            self.watching_mlat,
                            crate::cache::cache_contents(old(self).watched_games.inner),
                            old(self).mlat,
                            old(self).round_count,
                            old(self).member_count,
                            db@,
                            v@,
                            raw@,
                            effect_views(effects),
                        ));
                    }
                    effects
                }
            },
            SocketOut::AnaMove { req } => {
                let step = crate::analysis::PlayStep::from_move(req);
                let ghost su = step.uci;
                match step.respond(db) {
                    Ok(node) => {
                        let text = browser::node_msg(&node);
                        let ghost tv = text@;
                        let ghost nv = node;
                        effects.push(Effect::Send { token, text });
                        proof {
                            assert(effect_views(effects) =~= seq![
                                EffectView::Send { token: sock.token, text: tv },
                            ]);
                            reveal(post_step_reply);
                            assert(tv == crate::browser::spec_node_msg(nv));
                            let d = crate::json::json_get(v@, "d"@).unwrap();
                            assert(move_uci_matches(su, d));
                            assert(post_step_reply(
                                sock.token,
                                db@,
                                v@,
                                false,
                                effect_views(effects),
                            ));
                        }
                    },
                    Err(_) => {
                        let text = browser::step_failure_msg();
                        let ghost tv = text@;
                        effects.push(Effect::Send { token, text });
                        proof {
                            assert(effect_views(effects) =~= seq![
                                EffectView::Send { token: sock.token, text: tv },
                            ]);
                            reveal(post_step_reply);
                            let d = crate::json::json_get(v@, "d"@).unwrap();
                            assert(move_uci_matches(su, d));
                            assert(post_step_reply(
                                sock.token,
                                db@,
                                v@,
                                false,
                                effect_views(effects),
                            ));
                        }
                    },
                }
                {
                    proof {
                        assert(on_frame_post(
                            old(self).sockets.at(sid),
                            self.sockets.at(sid),
                            self.sockets == old(self).sockets,
                            old(self).by_game,
                            self.by_game,
                            old(self).watching_mlat,
                            self.watching_mlat,
                            crate::cache::cache_contents(old(self).watched_games.inner),
                            old(self).mlat,
                            old(self).round_count,
                            old(self).member_count,
                            db@,
                            v@,
                            raw@,
                            effect_views(effects),
                        ));
                    }
                    effects
                }
            },
            SocketOut::AnaDrop { req } => {
                let step = crate::analysis::PlayStep::from_drop(req);
                let ghost su = step.uci;
                match step.respond(db) {
                    Ok(node) => {
                        let text = browser::node_msg(&node);
                        let ghost tv = text@;
                        let ghost nv = node;
                        effects.push(Effect::Send { token, text });
                        proof {
                            assert(effect_views(effects) =~= seq![
                                EffectView::Send { token: sock.token, text: tv },
                            ]);
                            reveal(post_step_reply);
                            assert(tv == crate::browser::spec_node_msg(nv));
                            let d = crate::json::json_get(v@, "d"@).unwrap();
                            assert(drop_uci_matches(su, d));
                            assert(post_step_reply(
                                sock.token,
                                db@,
                                v@,
                                true,
                                effect_views(effects),
                            ));
                        }
                    },
                    Err(_) => {
                        let text = browser::step_failure_msg();
                        let ghost tv = text@;
                        effects.push(Effect::Send { token, text });
                        proof {
                            assert(effect_views(effects) =~= seq![
                                EffectView::Send { token: sock.token, text: tv },
                            ]);
                            reveal(post_step_reply);
                            let d = crate::json::json_get(v@, "d"@).unwrap();
                            assert(drop_uci_matches(su, d));
                            assert(post_step_reply(
                                sock.token,
                                db@,
                                v@,
                                true,
                                effect_views(effects),
                            ));
                        }
                    },
                }
                {
                    proof {
                        assert(on_frame_post(
                            old(self).sockets.at(sid),
                            self.sockets.at(sid),
                            self.sockets == old(self).sockets,
                            old(self).by_game,
                            self.by_game,
                            old(self).watching_mlat,
                            self.watching_mlat,
                            crate::cache::cache_contents(old(self).watched_games.inner),
                            old(self).mlat,
                            old(self).round_count,
                            old(self).member_count,
                            db@,
                            v@,
                            raw@,
                            effect_views(effects),
                        ));
                    }
                    effects
                }
            },
            SocketOut::EvalGet | SocketOut::EvalPut => {
                let sri = self.sockets.get(sid).sri.clone_id();
                let uid = match &self.sockets.get(sid).auth {
                    SocketAuth::Authenticated(u) => Some(u.clone_id()),
                    _ => None,
                };
                let payload = crate::text::string_of_chars(
                    crate::text::chars_of(raw).as_slice(),
                );
                let line = LilaIn::TellSri(sri, uid, payload).to_line();
                effects.push(Effect::Publish { line });
                proof {
                    assert(effect_views(effects) =~= seq![
                        EffectView::Publish {
                            line: tell_sri_line(sock.sri@, old_a, raw@),
                        },
                    ]);
                    reveal(post_eval);
                    assert(post_eval(sock, old_a, raw@, effect_views(effects)));
                }
                {
                    proof {
                        assert(on_frame_post(
                            old(self).sockets.at(sid),
                            self.sockets.at(sid),
                            self.sockets == old(self).sockets,
                            old(self).by_game,
                            self.by_game,
                            old(self).watching_mlat,
                            self.watching_mlat,
                            crate::cache::cache_contents(old(self).watched_games.inner),
                            old(self).mlat,
                            old(self).round_count,
                            old(self).member_count,
                            db@,
                            v@,
                            raw@,
                            effect_views(effects),
                        ));
                    }
                    effects
                }
            },
            SocketOut::ChallengePing => {
                proof {
                    assert(effect_views(effects) =~= Seq::<EffectView>::empty());
                }
                {
                    proof {
                        assert(on_frame_post(
                            old(self).sockets.at(sid),
                            self.sockets.at(sid),
                            self.sockets == old(self).sockets,
                            old(self).by_game,
                            self.by_game,
                            old(self).watching_mlat,
                            self.watching_mlat,
                            crate::cache::cache_contents(old(self).watched_games.inner),
                            old(self).mlat,
                            old(self).round_count,
                            old(self).member_count,
                            db@,
                            v@,
                            raw@,
                            effect_views(effects),
                        ));
                    }
                    effects
                }
            },
        }
    }

    /// Watches each newly listed game: a cached state goes straight back to
    /// the browser, the socket joins the game's watchers, and the first
    /// watcher overall sends the backend a `watch` line.
    #[verifier::loop_isolation(false)]
    #[verifier::rlimit(100)]
    #[verifier::spinoff_prover]
    fn start_watching(
        &mut self,
        sid: u64,
        games: &Vec<GameId>,
        effects: &mut Vec<Effect>,
        v: Ghost<crate::json::JsonView>,
    )
        requires
            old(self).inv(),
            old(self).sockets.contains(sid),
            old(effects)@.len() == 0,
            crate::browser::spec_game_list(crate::browser::str_field(v@, "d"@)) == Some(
                games@.map_values(|g: GameId| g@),
            ),
        ensures
            final(self).inv(),
            forall|sid2: u64|
                #[trigger] final(self).sockets.contains(sid2) <==> old(self).sockets.contains(
                    sid2,
                ),
            final(self).by_user == old(self).by_user,
            final(self).by_sri == old(self).by_sri,
            final(self).flag_simul == old(self).flag_simul,
            final(self).flag_tournament == old(self).flag_tournament,
            final(self).watching_mlat == old(self).watching_mlat,
            final(self).watched_games == old(self).watched_games,
            final(self).limiter == old(self).limiter,
            final(self).connection_count == old(self).connection_count,
            final(self).mlat == old(self).mlat,
            final(self).round_count == old(self).round_count,
            final(self).member_count == old(self).member_count,
            ({
                let sock = old(self).sockets.at(sid);
                let token = sock.token;
                let glist = games@.map_values(|g: GameId| g@);
                let evs = effect_views(*final(effects));
                &&& (forall|g: Seq<char>, t2: u64|
                    #[trigger] final(self).by_game.has_token(g, t2) <==> old(self).by_game.has_token(g, t2) || (t2 == token && glist.contains(g)
                        && !watching_has(sock.watching@, g)))
                &&& (forall|g: Seq<char>|
                    #[trigger] watching_has(final(self).sockets.at(sid).watching@, g)
                        <==> watching_has(sock.watching@, g) || glist.contains(g))
                &&& (forall|g: Seq<char>|
                    evs.contains(EffectView::Publish { line: #[trigger] watch_line(g) }) <==> (
                    glist.contains(g) && !old(self).by_game.contains_key(g)))
                &&& (forall|g: Seq<char>|
                    glist.contains(g) && !watching_has(sock.watching@, g)
                        && crate::cache::cache_contents(
                        old(self).watched_games.inner,
                    ).contains_key(g) ==> evs.contains(
                        EffectView::Send {
                            token,
                            text: crate::browser::spec_fen_msg(
                                g,
                                crate::cache::cache_contents(old(self).watched_games.inner)[g].0,
                                crate::cache::cache_contents(old(self).watched_games.inner)[g].1,
                            ),
                        },
                    ))
                &&& (forall|i: int|
                    0 <= i < evs.len() && (#[trigger] evs[i]) is Send ==> exists|g: Seq<char>|
                        glist.contains(g) && !watching_has(sock.watching@, g)
                            && crate::cache::cache_contents(
                            old(self).watched_games.inner,
                        ).contains_key(g) && valid_game_id(g) && evs[i] == (EffectView::Send {
                            token,
                            text: crate::browser::spec_fen_msg(
                                g,
                                crate::cache::cache_contents(old(self).watched_games.inner)[g].0,
                                crate::cache::cache_contents(old(self).watched_games.inner)[g].1,
                            ),
                        }))
                &&& (forall|i: int, j: int|
                    0 <= i < j < evs.len() ==> #[trigger] evs[i] != #[trigger] evs[j])
                &&& final(self).sockets.at(sid).token == token
                &&& final(self).sockets.at(sid).auth == sock.auth
                &&& (forall|sid2: u64|
                    sid2 != sid && old(self).sockets.contains(sid2) ==> #[trigger] final(self).sockets.at(sid2) == old(self).sockets.at(sid2))
            }),
    {
        proof {
            old(self).sockets.lemma_by_token(sid);
            let ghost gl = games@.map_values(|g: GameId| g@);
            assert forall|j: int| 0 <= j < gl.len() implies valid_game_id(
                #[trigger] gl[j],
            ) by {
                let d = crate::browser::str_field(v@, "d"@);
                assert(crate::browser::spec_game_list(d) == Some(gl));
                assert(crate::ipc::split_on(d, ' ')[j] == gl[j]);
            }
        }
        let mut us = self.sockets.remove(sid);
        let ghost sock = old(self).sockets.at(sid);
        let token = us.token;
        let ghost mid = *self;
        let ghost glist = games@.map_values(|g: GameId| g@);
        let mut gi: usize = 0;
        while gi < games.len()
            invariant
                gi <= games@.len(),
                glist == games@.map_values(|g: GameId| g@),
                us.token == sock.token,
                us.auth == sock.auth,
                us.sri == sock.sri,
                us.endpoint == sock.endpoint,
                us.flag == sock.flag,
                us.pending_notified == sock.pending_notified,
                us.pending_following_onlines == sock.pending_following_onlines,
                sock_ok(us),
                self.by_game.wf(),
                self.by_user == old(self).by_user,
                self.by_sri == old(self).by_sri,
                self.sockets == mid.sockets,
                self.flag_simul == old(self).flag_simul,
                self.flag_tournament == old(self).flag_tournament,
                self.watching_mlat == old(self).watching_mlat,
                self.watched_games == old(self).watched_games,
                self.limiter == old(self).limiter,
                self.connection_count == old(self).connection_count,
                self.mlat == old(self).mlat,
                self.round_count == old(self).round_count,
                self.member_count == old(self).member_count,
                forall|g: Seq<char>|
                    watching_has(us.watching@, g) <==> watching_has(sock.watching@, g) || (
                    exists|j: int| 0 <= j < gi && (#[trigger] glist[j]) == g),
                forall|g: Seq<char>, t2: u64|
                    #[trigger] self.by_game.has_token(g, t2) <==> old(self).by_game.has_token(
                        g,
                        t2,
                    ) || (t2 == token && watching_has(us.watching@, g) && !watching_has(
                        sock.watching@,
                        g,
                    )),
                forall|g: Seq<char>|
                    #[trigger] self.by_game.contains_key(g) <==> old(self).by_game.contains_key(g) || (watching_has(us.watching@, g)
                        && !watching_has(sock.watching@, g)),
                forall|i: int|
                    0 <= i < effect_views(*effects).len() ==> (#[trigger] effect_views(
                        *effects,
                    )[i] is Publish || (effect_views(*effects)[i] matches EffectView::Send {
                        token: tk,
                        text,
                    } && tk == token)),
                forall|i: int|
                    0 <= i < effect_views(*effects).len() && (#[trigger] effect_views(
                        *effects,
                    )[i]) is Send ==> exists|g: Seq<char>|
                        (exists|j: int| 0 <= j < gi && (#[trigger] glist[j]) == g)
                            && !watching_has(sock.watching@, g) && crate::cache::cache_contents(
                            old(self).watched_games.inner,
                        ).contains_key(g) && valid_game_id(g) && effect_views(*effects)[i] == (
                        EffectView::Send {
                            token,
                            text: crate::browser::spec_fen_msg(
                                g,
                                crate::cache::cache_contents(old(self).watched_games.inner)[g].0,
                                crate::cache::cache_contents(old(self).watched_games.inner)[g].1,
                            ),
                        }),
                forall|i: int, j: int|
                    0 <= i < j < effect_views(*effects).len() ==> #[trigger] effect_views(
                        *effects,
                    )[i] != #[trigger] effect_views(*effects)[j],
                forall|j: int| 0 <= j < glist.len() ==> valid_game_id(#[trigger] glist[j]),
                forall|g: Seq<char>|
                    effect_views(*effects).contains(
                        EffectView::Publish { line: #[trigger] watch_line(g) },
                    ) <==> ((exists|j: int| 0 <= j < gi && (#[trigger] glist[j]) == g)
                        && !old(self).by_game.contains_key(g)),
                forall|g: Seq<char>|
                    (exists|j: int| 0 <= j < gi && (#[trigger] glist[j]) == g)
                        && !watching_has(sock.watching@, g) && crate::cache::cache_contents(
                        old(self).watched_games.inner,
                    ).contains_key(g) ==> effect_views(*effects).contains(
                        EffectView::Send {
                            token,
                            text: crate::browser::spec_fen_msg(
                                g,
                                crate::cache::cache_contents(old(self).watched_games.inner)[g].0,
                                crate::cache::cache_contents(old(self).watched_games.inner)[g].1,
                            ),
                        },
                    ),
            decreases games@.len() - gi,
        {
            let g = &games[gi];
            proof {
                assert(glist[gi as int] == g@);
            }
            let already = watch_contains(&us.watching, g);
            let ghost pre_evs = effect_views(*effects);
            let ghost pre_app = *self;
            let ghost pre_us = us;
            if !already {
                match self.watched_games.peek(g) {
                    Some(st) => {
                        let text = browser::fen_msg(g, st.0.as_str(), st.1.as_str());
                        let ghost tv = text@;
                        effects.push(Effect::Send { token, text });
                        proof {
                            let cache = crate::cache::cache_contents(
                                old(self).watched_games.inner,
                            );
                            let ef = EffectView::Send {
                                token: sock.token,
                                text: crate::browser::spec_fen_msg(
                                    g@,
                                    cache[g@].0,
                                    cache[g@].1,
                                ),
                            };
                            assert(tv == crate::browser::spec_fen_msg(
                                g@,
                                cache[g@].0,
                                cache[g@].1,
                            ));
                            assert(effect_views(*effects) =~= pre_evs.push(ef));
                            assert(valid_game_id(g@)) by {
                                assert(glist[gi as int] == g@);
                            }
                            assert(!pre_evs.contains(ef)) by {
                                if pre_evs.contains(ef) {
                                    let i = choose|i: int|
                                        0 <= i < pre_evs.len() && pre_evs[i] == ef;
                                    assert(pre_evs[i] is Send);
                                    let g2 = choose|g2: Seq<char>|
                                        (exists|j: int|
                                            0 <= j < gi && (#[trigger] glist[j]) == g2)
                                            && !watching_has(sock.watching@, g2)
                                            && cache.contains_key(g2) && valid_game_id(g2)
                                            && pre_evs[i] == (EffectView::Send {
                                            token,
                                            text: crate::browser::spec_fen_msg(
                                                g2,
                                                cache[g2].0,
                                                cache[g2].1,
                                            ),
                                        });
                                    crate::browser::lemma_fen_msg_game_inj(
                                        g2,
                                        cache[g2].0,
                                        cache[g2].1,
                                        g@,
                                        cache[g@].0,
                                        cache[g@].1,
                                    );
                                    assert(g2 == g@);
                                    assert(watching_has(pre_us.watching@, g@));
                                    assert(false);
                                }
                            }
                            assert forall|i: int, j: int|
                                0 <= i < j < effect_views(*effects).len() implies #[trigger] effect_views(
                                *effects,
                            )[i] != #[trigger] effect_views(*effects)[j] by {
                                if j == effect_views(*effects).len() - 1 {
                                    assert(effect_views(*effects)[i] == pre_evs[i]);
                                    if effect_views(*effects)[i] == effect_views(*effects)[j] {
                                        assert(pre_evs.contains(ef));
                                    }
                                } else {
                                    assert(effect_views(*effects)[i] == pre_evs[i]);
                                    assert(effect_views(*effects)[j] == pre_evs[j]);
                                }
                            }
                            assert forall|i: int|
                                0 <= i < effect_views(*effects).len() && (
                            #[trigger] effect_views(*effects)[i]) is Send implies exists|
                                g2: Seq<char>,
                            |
                                (exists|j: int|
                                    0 <= j < gi + 1 && (#[trigger] glist[j]) == g2)
                                    && !watching_has(sock.watching@, g2)
                                    && cache.contains_key(g2) && valid_game_id(g2)
                                    && effect_views(*effects)[i] == (EffectView::Send {
                                    token,
                                    text: crate::browser::spec_fen_msg(
                                        g2,
                                        cache[g2].0,
                                        cache[g2].1,
                                    ),
                                }) by {
                                if i < pre_evs.len() {
                                    assert(pre_evs[i] is Send);
                                    let g2 = choose|g2: Seq<char>|
                                        (exists|j: int|
                                            0 <= j < gi && (#[trigger] glist[j]) == g2)
                                            && !watching_has(sock.watching@, g2)
                                            && cache.contains_key(g2) && valid_game_id(g2)
                                            && pre_evs[i] == (EffectView::Send {
                                            token,
                                            text: crate::browser::spec_fen_msg(
                                                g2,
                                                cache[g2].0,
                                                cache[g2].1,
                                            ),
                                        });
                                    let j = choose|j: int|
                                        0 <= j < gi && (#[trigger] glist[j]) == g2;
                                    assert(0 <= j < gi + 1 && glist[j] == g2);
                                } else {
                                    assert(effect_views(*effects)[i] == ef);
                                    assert(glist[gi as int] == g@);
                                    assert(!watching_has(sock.watching@, g@));
                                }
                            }
                        }
                    },
                    None => {},
                }
                us.watching.push(g.clone_id());
                proof {
                    assert(old(self).by_game.has_token(g@, token) <==> watching_has(
                        sock.watching@,
                        g@,
                    ));
                    assert(!self.by_game.has_token(g@, token));
                    assert forall|g2: Seq<char>|
                        watching_has(us.watching@, g2) <==> watching_has(pre_us.watching@, g2)
                            || g2 == g@ by {
                        if watching_has(us.watching@, g2) {
                            let j = choose|j: int|
                                0 <= j < us.watching@.len() && (#[trigger] us.watching@[j])@
                                    == g2;
                            if j < pre_us.watching@.len() {
                                assert(pre_us.watching@[j]@ == g2);
                            }
                        }
                        if watching_has(pre_us.watching@, g2) {
                            let j = choose|j: int|
                                0 <= j < pre_us.watching@.len() && (
                                #[trigger] pre_us.watching@[j])@ == g2;
                            assert(us.watching@[j]@ == g2);
                        }
                        if g2 == g@ {
                            assert(us.watching@[us.watching@.len() - 1]@ == g2);
                        }
                    }
                    assert(sock_ok(us)) by {
                        assert forall|a: int, b: int|
                            0 <= a < b < us.watching@.len() implies (
                        #[trigger] us.watching@[a])@ != (#[trigger] us.watching@[b])@ by {
                            if b == us.watching@.len() - 1 {
                                assert(us.watching@[b]@ == g@);
                                assert(pre_us.watching@[a]@ == us.watching@[a]@);
                                if us.watching@[a]@ == g@ {
                                    assert(watching_has(pre_us.watching@, g@));
                                }
                            }
                        }
                    }
                }
                let created = self.by_game.add(g.as_str(), token);
                if created {
                    let ghost before_watch = effect_views(*effects);
                    let line = LilaIn::Watch(g.clone_id()).to_line();
                    effects.push(Effect::Publish { line });
                    proof {
                        let ew = EffectView::Publish { line: watch_line(g@) };
                        assert(effect_views(*effects) =~= before_watch.push(ew));
                        assert(!before_watch.contains(ew)) by {
                            if before_watch.contains(ew) {
                                if pre_evs.contains(ew) {
                                    let j = choose|j: int|
                                        0 <= j < gi && (#[trigger] glist[j]) == g@;
                                    assert(watching_has(pre_us.watching@, g@));
                                    assert(false);
                                } else {
                                    let i = choose|i: int|
                                        0 <= i < before_watch.len() && before_watch[i] == ew;
                                    assert(i == before_watch.len() - 1
                                        && before_watch.len() > pre_evs.len());
                                    assert(before_watch[i] is Send);
                                    assert(false);
                                }
                            }
                        }
                        assert forall|i: int, j: int|
                            0 <= i < j < effect_views(*effects).len() implies #[trigger] effect_views(
                            *effects,
                        )[i] != #[trigger] effect_views(*effects)[j] by {
                            if j == effect_views(*effects).len() - 1 {
                                assert(effect_views(*effects)[i] == before_watch[i]);
                                if effect_views(*effects)[i] == effect_views(*effects)[j] {
                                    assert(before_watch.contains(ew));
                                }
                            } else {
                                assert(effect_views(*effects)[i] == before_watch[i]);
                                assert(effect_views(*effects)[j] == before_watch[j]);
                            }
                        }
                    }
                }
            }
            gi += 1;
            proof {
                assert forall|g2: Seq<char>|
                    watching_has(us.watching@, g2) <==> watching_has(sock.watching@, g2) || (
                exists|j: int| 0 <= j < gi && (#[trigger] glist[j]) == g2) by {
                    if exists|j: int| 0 <= j < gi && (#[trigger] glist[j]) == g2 {
                        let j = choose|j: int| 0 <= j < gi && glist[j] == g2;
                        if j == gi - 1 {
                            assert(g2 == g@);
                            if already {
                                assert(watching_has(pre_us.watching@, g2));
                            } else {
                                assert(watching_has(us.watching@, g2));
                            }
                        }
                    }
                }
                assert forall|g2: Seq<char>|
                    effect_views(*effects).contains(
                        EffectView::Publish { line: #[trigger] watch_line(g2) },
                    ) <==> ((exists|j: int| 0 <= j < gi && (#[trigger] glist[j]) == g2)
                        && !old(self).by_game.contains_key(g2)) by {
                    let e = EffectView::Publish { line: watch_line(g2) };
                    if effect_views(*effects).contains(e) {
                        let i = choose|i: int|
                            0 <= i < effect_views(*effects).len() && effect_views(*effects)[i]
                                == e;
                        if i < pre_evs.len() {
                            assert(pre_evs[i] == e);
                            assert(pre_evs.contains(e));
                            let j = choose|j: int| 0 <= j < gi - 1 && glist[j] == g2;
                            assert(0 <= j < gi && glist[j] == g2);
                        } else {
                            lemma_prefix_inj("watch "@, g@, g2);
                            assert(glist[gi - 1] == g2);
                        }
                    } else {
                        if (exists|j: int| 0 <= j < gi && (#[trigger] glist[j]) == g2)
                            && !old(self).by_game.contains_key(g2) {
                            let j = choose|j: int| 0 <= j < gi && glist[j] == g2;
                            if j < gi - 1 {
                                assert(pre_evs.contains(e));
                                let i = choose|i: int|
                                    0 <= i < pre_evs.len() && pre_evs[i] == e;
                                assert(effect_views(*effects)[i] == e);
                                assert(false);
                            } else {
                                assert(g2 == g@);
                                if already {
                                    assert(watching_has(pre_us.watching@, g@));
                                    assert(pre_app.by_game.has_token(g@, token)) by {
                                        if watching_has(sock.watching@, g@) {
                                            assert(old(self).by_game.has_token(g@, token));
                                        }
                                    }
                                    lemma_has_token_contains_key(&pre_app.by_game, g@, token);
                                    assert(pre_app.by_game.contains_key(g@));
                                    assert(old(self).by_game.contains_key(g@)) by {
                                        if !old(self).by_game.contains_key(g@) {
                                            assert(watching_has(pre_us.watching@, g@)
                                                && !watching_has(sock.watching@, g@));
                                        }
                                    }
                                    assert(false);
                                } else {
                                    assert(!pre_app.by_game.contains_key(g@)) by {
                                        if pre_app.by_game.contains_key(g@) {
                                            if !old(self).by_game.contains_key(g@) {
                                                assert(watching_has(pre_us.watching@, g@));
                                                assert(false);
                                            }
                                            assert(old(self).by_game.contains_key(g@));
                                            assert(false);
                                        }
                                    }
                                    assert(effect_views(*effects).last() == e);
                                    assert(false);
                                }
                            }
                        }
                    }
                }
                assert forall|g2: Seq<char>|
                    ((exists|j: int| 0 <= j < gi && (#[trigger] glist[j]) == g2)
                        && !watching_has(sock.watching@, g2) && crate::cache::cache_contents(
                        old(self).watched_games.inner,
                    ).contains_key(g2)) implies effect_views(*effects).contains(
                    EffectView::Send {
                        token,
                        text: crate::browser::spec_fen_msg(
                            g2,
                            crate::cache::cache_contents(old(self).watched_games.inner)[g2].0,
                            crate::cache::cache_contents(old(self).watched_games.inner)[g2].1,
                        ),
                    },
                ) by {
                    let e = EffectView::Send {
                        token,
                        text: crate::browser::spec_fen_msg(
                            g2,
                            crate::cache::cache_contents(old(self).watched_games.inner)[g2].0,
                            crate::cache::cache_contents(old(self).watched_games.inner)[g2].1,
                        ),
                    };
                    let j = choose|j: int| 0 <= j < gi && (#[trigger] glist[j]) == g2;
                    if j < gi - 1 {
                        assert(pre_evs.contains(e));
                        let i = choose|i: int| 0 <= i < pre_evs.len() && pre_evs[i] == e;
                        assert(effect_views(*effects)[i] == e);
                    } else {
                        assert(g2 == g@);
                        if already {
                            assert(watching_has(pre_us.watching@, g@));
                            assert(exists|j2: int|
                                0 <= j2 < gi - 1 && (#[trigger] glist[j2]) == g@);
                            let j2 = choose|j2: int|
                                0 <= j2 < gi - 1 && (#[trigger] glist[j2]) == g@;
                            assert(pre_evs.contains(e));
                            let i = choose|i: int|
                                0 <= i < pre_evs.len() && pre_evs[i] == e;
                            assert(effect_views(*effects)[i] == e);
                        } else {
                            assert(effect_views(*effects).contains(e)) by {
                                let k = pre_evs.len() as int;
                                assert(effect_views(*effects)[k] == e);
                            }
                        }
                    }
                }
            }
        }
        proof {
            assert forall|g2: Seq<char>|
                (#[trigger] glist.contains(g2)) <==> exists|j: int|
                    0 <= j < gi && (#[trigger] glist[j]) == g2 by {
                if glist.contains(g2) {
                    let j = choose|j: int| 0 <= j < glist.len() && glist[j] == g2;
                }
            }
        }
        self.sockets.insert(sid, us);
        proof {
            assert forall|u2: Seq<char>, t2: u64|
                #[trigger] self.by_user.has_token(u2, t2) <==> self.sockets.auth_token(
                    u2,
                    t2,
                ) by {
                assert(old(self).by_user.has_token(u2, t2) <==> old(self).sockets.auth_token(
                    u2,
                    t2,
                ));
                if t2 == sock.token {
                    assert(old(self).sockets.auth_token(u2, t2) <==> auth_view(sock.auth)
                        == Some(u2));
                }
            }
            assert forall|sq: Seq<char>, t2: u64|
                #[trigger] self.by_sri.has_token(sq, t2) <==> self.sockets.sri_token(
                    sq,
                    t2,
                ) by {
                assert(old(self).by_sri.has_token(sq, t2) <==> old(self).sockets.sri_token(
                    sq,
                    t2,
                ));
                if t2 == sock.token {
                    assert(old(self).sockets.sri_token(sq, t2) <==> sock.sri@ == sq);
                }
            }
            assert forall|g2: Seq<char>, t2: u64|
                #[trigger] self.by_game.has_token(g2, t2) <==> self.sockets.watch_token(
                    g2,
                    t2,
                ) by {
                assert(old(self).by_game.has_token(g2, t2) <==> old(self).sockets.watch_token(
                    g2,
                    t2,
                ));
                if t2 == sock.token {
                    assert(old(self).sockets.watch_token(g2, t2) <==> watching_has(
                        sock.watching@,
                        g2,
                    ));
                }
            }
        }
    }
}

} // verus!
