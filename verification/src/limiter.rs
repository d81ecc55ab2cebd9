//! The per-address token bucket: a fixed number of credits per ten-second
//! window, spent one per frame. The state per key is a single theoretical
//! arrival time; an absent key behaves like time zero. The caller supplies
//! the clock, so the whole policy is deterministic and verified.
use vstd::prelude::*;

use crate::model::str_eq;
use crate::text::string_of_chars;

verus! {

/// The length of the rate window in milliseconds.
pub const RATE_PERIOD_MS: u64 = 10_000;

/// The cost of one frame: the window divided by the credits.
pub open spec fn spec_tau(credits: u64) -> int {
    RATE_PERIOD_MS as int / credits as int
}

/// Whether a frame arriving at `now` is within the allowance.
pub open spec fn spec_allows(tat: u64, credits: u64, now: u64) -> bool {
    tat <= now + RATE_PERIOD_MS - spec_tau(credits)
}

/// The next theoretical arrival time after an allowed frame.
pub open spec fn spec_next_tat(tat: u64, credits: u64, now: u64) -> int {
    (if tat > now {
        tat as int
    } else {
        now as int
    }) + spec_tau(credits)
}

pub struct RateLimiter {
    credits: u64,
    entries: Vec<(String, u64)>,
}

/// The recorded theoretical arrival time of a key; 0 when absent.
pub open spec fn tat_list(s: Seq<(String, u64)>, k: Seq<char>) -> u64
    decreases s.len(),
{
    if s.len() == 0 {
        0
    } else if s[0].0@ == k {
        s[0].1
    } else {
        tat_list(s.drop_first(), k)
    }
}

impl RateLimiter {
    pub closed spec fn credits(&self) -> u64 {
        self.credits
    }

    pub closed spec fn tat_of(&self, k: Seq<char>) -> u64 {
        tat_list(self.entries@, k)
    }

    pub closed spec fn wf(&self) -> bool {
        &&& self.credits >= 1
        &&& forall|i: int, j: int|
            0 <= i < j < self.entries@.len() ==> self.entries@[i].0@ != self.entries@[j].0@
    }

    /// A fresh limiter granting `credits` frames per window.
    pub fn new(credits: u64) -> (r: RateLimiter)
        requires
            credits >= 1,
        ensures
            r.wf(),
            r.credits() == credits,
            forall|k: Seq<char>| #[trigger] r.tat_of(k) == 0,
    {
        RateLimiter { credits, entries: Vec::new() }
    }

    /// Spends one credit for `key` if the allowance permits a frame at
    /// `now_ms`; says whether the frame may be handled.
    #[verifier::loop_isolation(false)]
    pub fn check(&mut self, key: &str, now_ms: u64) -> (allowed: bool)
        requires
            old(self).wf(),
            now_ms <= u64::MAX - RATE_PERIOD_MS,
        ensures
            final(self).wf(),
            final(self).credits() == old(self).credits(),
            allowed == spec_allows(old(self).tat_of(key@), old(self).credits(), now_ms),
            allowed ==> final(self).tat_of(key@) == spec_next_tat(
                old(self).tat_of(key@),
                old(self).credits(),
                now_ms,
            ),
            !allowed ==> final(self).tat_of(key@) == old(self).tat_of(key@),
            forall|k2: Seq<char>|
                k2 != key@ ==> #[trigger] final(self).tat_of(k2) == old(self).tat_of(k2),
    {
        proof {
            assert(RATE_PERIOD_MS / self.credits <= RATE_PERIOD_MS) by (nonlinear_arith)
                requires
                    self.credits >= 1,
            ;
        }
        let tau: u64 = RATE_PERIOD_MS / self.credits;
        let limit: u64 = now_ms + RATE_PERIOD_MS - tau;
        let mut i: usize = 0;
        while i < self.entries.len()
            invariant
                i <= self.entries@.len(),
                forall|j: int| 0 <= j < i ==> self.entries@[j].0@ != key@,
                *self == *old(self),
            decreases self.entries@.len() - i,
        {
            if str_eq(self.entries[i].0.as_str(), key) {
                proof {
                    lemma_tat_list_at(self.entries@, key@, i as int);
                }
                let tat = self.entries[i].1;
                if tat <= limit {
                    let base = if tat > now_ms {
                        tat
                    } else {
                        now_ms
                    };
                    let mut pair = self.entries.remove(i);
                    pair.1 = base + tau;
                    self.entries.insert(i, pair);
                    proof {
                        assert(self.entries@ =~= old(self).entries@.update(
                            i as int,
                            (old(self).entries@[i as int].0, (base + tau) as u64),
                        ));
                        lemma_tat_list_at(self.entries@, key@, i as int);
                        assert forall|k2: Seq<char>| k2 != key@ implies #[trigger] tat_list(
                            self.entries@,
                            k2,
                        ) == tat_list(old(self).entries@, k2) by {
                            lemma_tat_list_update_other(
                                old(self).entries@,
                                i as int,
                                (old(self).entries@[i as int].0, (base + tau) as u64),
                                k2,
                            );
                        }
                    }
                    return true;
                } else {
                    return false;
                }
            }
            i += 1;
        }
        proof {
            lemma_tat_list_none(self.entries@, key@);
        }
        // absent key: time zero, always within the allowance
        let cs = crate::text::chars_of(key);
        let owned = string_of_chars(cs.as_slice());
        self.entries.push((owned, now_ms + tau));
        proof {
            let e = self.entries@.last();
            assert(self.entries@ =~= old(self).entries@.push(e));
            assert(e.0@ == key@);
            lemma_has_key_iff(old(self).entries@, key@);
            lemma_tat_list_push(old(self).entries@, e, key@);
            assert forall|k2: Seq<char>| k2 != key@ implies #[trigger] tat_list(
                self.entries@,
                k2,
            ) == tat_list(old(self).entries@, k2) by {
                lemma_has_key_iff(old(self).entries@, k2);
                lemma_tat_list_push(old(self).entries@, e, k2);
                if !has_key(old(self).entries@, k2) {
                    lemma_tat_list_none_from_has(old(self).entries@, k2);
                }
            }
        }
        true
    }

    /// Forgets every key whose allowance has been idle for a minute: its
    /// recorded time is at least that far in the past. Every key kept is
    /// fresh; every stale key is gone.
    #[verifier::loop_isolation(false)]
    pub fn cleanup(&mut self, now_ms: u64)
        requires
            old(self).wf(),
        ensures
            final(self).wf(),
            final(self).credits() == old(self).credits(),
            forall|k: Seq<char>|
                #[trigger] final(self).tat_of(k) == 0 || final(self).tat_of(k) == old(
                    self,
                ).tat_of(k),
            forall|k: Seq<char>|
                old(self).tat_of(k) + 60_000 <= now_ms ==> #[trigger] final(self).tat_of(k)
                    == 0,
    {
        let mut kept: Vec<(String, u64)> = Vec::new();
        let mut i: usize = 0;
        while i < self.entries.len()
            invariant
                i <= self.entries@.len(),
                *self == *old(self),
                forall|a: int, b: int|
                    0 <= a < b < kept@.len() ==> kept@[a].0@ != kept@[b].0@,
                forall|a: int|
                    0 <= a < kept@.len() ==> entry_in(
                        self.entries@.subrange(0, i as int),
                        #[trigger] kept@[a],
                    ),
                forall|a: int|
                    0 <= a < kept@.len() ==> (#[trigger] kept@[a].1) + 60_000 > now_ms,
            decreases self.entries@.len() - i,
        {
            let tat = self.entries[i].1;
            if tat > u64::MAX - 60_000 || tat + 60_000 > now_ms {
                let key = self.entries[i].0.clone();
                let ghost prev_kept = kept@;
                kept.push((key, tat));
                proof {
                    let pre = self.entries@.subrange(0, i as int);
                    let post = self.entries@.subrange(0, i + 1);
                    assert forall|a: int, b: int|
                        0 <= a < b < kept@.len() implies kept@[a].0@ != kept@[b].0@ by {
                        if b == kept@.len() - 1 {
                            assert(entry_in(pre, prev_kept[a]));
                            let j = choose|j: int| 0 <= j < pre.len() && pre[j] == prev_kept[a];
                            assert(kept@[a] == self.entries@[j]);
                            assert(kept@[b].0@ == self.entries@[i as int].0@);
                        }
                    }
                    assert forall|a: int|
                        0 <= a < kept@.len() implies entry_in(post, #[trigger] kept@[a]) by {
                        if a == kept@.len() - 1 {
                            assert(post[i as int] == kept@[a]);
                        } else {
                            assert(entry_in(pre, prev_kept[a]));
                            let j = choose|j: int| 0 <= j < pre.len() && pre[j] == prev_kept[a];
                            assert(post[j] == kept@[a]);
                        }
                    }
                }
            }
            else {
                proof {
                    assert forall|a: int|
                        0 <= a < kept@.len() implies entry_in(
                        self.entries@.subrange(0, i + 1),
                        #[trigger] kept@[a],
                    ) by {
                        assert(entry_in(self.entries@.subrange(0, i as int), kept@[a]));
                        let j = choose|j: int|
                            0 <= j < i && #[trigger] self.entries@.subrange(0, i as int)[j]
                                == kept@[a];
                        assert(self.entries@.subrange(0, i + 1)[j] == kept@[a]);
                    }
                }
            }
            i += 1;
        }
        proof {
            assert(self.entries@.subrange(0, self.entries@.len() as int) =~= self.entries@);
            assert forall|k: Seq<char>|
                #[trigger] tat_list(kept@, k) == 0 || tat_list(kept@, k) == tat_list(
                    old(self).entries@,
                    k,
                ) by {
                lemma_cleanup_value(old(self).entries@, kept@, k);
            }
            assert forall|k: Seq<char>|
                tat_list(old(self).entries@, k) + 60_000 <= now_ms implies #[trigger] tat_list(
                kept@,
                k,
            ) == 0 by {
                lemma_cleanup_value(old(self).entries@, kept@, k);
                if tat_list(kept@, k) != 0 {
                    lemma_tat_list_has(kept@, k);
                    lemma_has_key_iff(kept@, k);
                    let a = choose|a: int| 0 <= a < kept@.len() && kept@[a].0@ == k;
                    assert(kept@[a].1 + 60_000 > now_ms);
                    lemma_tat_list_at_unique(kept@, k, a);
                }
            }
        }
        self.entries = kept;
    }
}

/// Each key in the filtered list keeps its recorded time; the rest are absent.
proof fn lemma_cleanup_value(
    orig: Seq<(String, u64)>,
    kept: Seq<(String, u64)>,
    k: Seq<char>,
)
    requires
        forall|i: int, j: int| 0 <= i < j < orig.len() ==> orig[i].0@ != orig[j].0@,
        forall|a: int, b: int| 0 <= a < b < kept.len() ==> kept[a].0@ != kept[b].0@,
        forall|a: int| 0 <= a < kept.len() ==> entry_in(orig, #[trigger] kept[a]),
    ensures
        tat_list(kept, k) == 0 || tat_list(kept, k) == tat_list(orig, k),
{
    if tat_list(kept, k) != 0 {
        lemma_tat_list_has(kept, k);
        lemma_has_key_iff(kept, k);
        let a = choose|a: int| 0 <= a < kept.len() && kept[a].0@ == k;
        lemma_tat_list_at_unique(kept, k, a);
        assert(entry_in(orig, kept[a]));
        let j = choose|j: int| 0 <= j < orig.len() && orig[j] == kept[a];
        lemma_tat_list_at_unique(orig, k, j);
    }
}

/// A nonzero recorded time means the key occurs.
proof fn lemma_tat_list_has(s: Seq<(String, u64)>, k: Seq<char>)
    requires
        tat_list(s, k) != 0,
    ensures
        has_key(s, k),
    decreases s.len(),
{
    if s.len() > 0 && s[0].0@ != k {
        lemma_tat_list_has(s.drop_first(), k);
    }
}

/// With pairwise distinct keys, the recorded time is the value at any index
/// holding the key.
proof fn lemma_tat_list_at_unique(s: Seq<(String, u64)>, k: Seq<char>, i: int)
    requires
        0 <= i < s.len(),
        s[i].0@ == k,
        forall|a: int, b: int| 0 <= a < b < s.len() ==> s[a].0@ != s[b].0@,
    ensures
        tat_list(s, k) == s[i].1,
{
    assert forall|j: int| 0 <= j < i implies s[j].0@ != k by {}
    lemma_tat_list_at(s, k, i);
}

proof fn lemma_tat_list_at(s: Seq<(String, u64)>, k: Seq<char>, i: int)
    requires
        0 <= i < s.len(),
        forall|j: int| 0 <= j < i ==> s[j].0@ != k,
        s[i].0@ == k,
    ensures
        tat_list(s, k) == s[i].1,
    decreases i,
{
    if i > 0 {
        lemma_tat_list_at(s.drop_first(), k, i - 1);
    }
}

proof fn lemma_tat_list_none(s: Seq<(String, u64)>, k: Seq<char>)
    requires
        forall|j: int| 0 <= j < s.len() ==> s[j].0@ != k,
    ensures
        tat_list(s, k) == 0,
    decreases s.len(),
{
    if s.len() > 0 {
        lemma_tat_list_none(s.drop_first(), k);
    }
}

proof fn lemma_tat_list_none_from_has(s: Seq<(String, u64)>, k: Seq<char>)
    requires
        !has_key(s, k),
    ensures
        tat_list(s, k) == 0,
    decreases s.len(),
{
    if s.len() > 0 {
        lemma_tat_list_none_from_has(s.drop_first(), k);
    }
}

proof fn lemma_has_key_iff(s: Seq<(String, u64)>, k: Seq<char>)
    ensures
        has_key(s, k) <==> (exists|j: int| 0 <= j < s.len() && s[j].0@ == k),
    decreases s.len(),
{
    if s.len() > 0 {
        lemma_has_key_iff(s.drop_first(), k);
        if s[0].0@ == k {
            assert(s[0].0@ == k);
        } else if has_key(s.drop_first(), k) {
            let j = choose|j: int| 0 <= j < s.drop_first().len() && s.drop_first()[j].0@ == k;
            assert(s[j + 1].0@ == k);
        } else {
            assert forall|j: int| 0 <= j < s.len() implies s[j].0@ != k by {
                if j > 0 {
                    assert(s.drop_first()[j - 1].0@ == s[j].0@);
                }
            }
        }
    }
}

/// A key's recorded time after appending one entry: unchanged when the key
/// already occurs, the new entry's time when it is that key, absent
/// otherwise.
proof fn lemma_tat_list_push(s: Seq<(String, u64)>, e: (String, u64), k: Seq<char>)
    ensures
        tat_list(s.push(e), k) == if has_key(s, k) {
            tat_list(s, k)
        } else if e.0@ == k {
            e.1
        } else {
            0u64
        },
    decreases s.len(),
{
    reveal_with_fuel(tat_list, 3);
    if s.len() == 0 {
        assert(s.push(e)[0] == e);
        assert(s.push(e).drop_first() =~= Seq::<(String, u64)>::empty());
    } else {
        lemma_tat_list_push(s.drop_first(), e, k);
        assert(s.push(e)[0] == s[0]);
        assert(s.push(e).drop_first() =~= s.drop_first().push(e));
    }
}

/// Whether `e` occurs in `s`.
pub open spec fn entry_in(s: Seq<(String, u64)>, e: (String, u64)) -> bool {
    exists|j: int| 0 <= j < s.len() && s[j] == e
}

pub open spec fn has_key(s: Seq<(String, u64)>, k: Seq<char>) -> bool
    decreases s.len(),
{
    if s.len() == 0 {
        false
    } else if s[0].0@ == k {
        true
    } else {
        has_key(s.drop_first(), k)
    }
}

proof fn lemma_tat_list_update_other(
    s: Seq<(String, u64)>,
    i: int,
    e: (String, u64),
    k: Seq<char>,
)
    requires
        0 <= i < s.len(),
        e.0@ == s[i].0@,
        s[i].0@ != k,
    ensures
        tat_list(s.update(i, e), k) == tat_list(s, k),
    decreases i,
{
    if i == 0 {
        assert(s.update(0, e)[0] == e);
        assert(s.update(0, e).drop_first() =~= s.drop_first());
    } else {
        assert(s.update(i, e)[0] == s[0]);
        assert(s.update(i, e).drop_first() =~= s.drop_first().update(i - 1, e));
        lemma_tat_list_update_other(s.drop_first(), i - 1, e, k);
    }
}

} // verus!
