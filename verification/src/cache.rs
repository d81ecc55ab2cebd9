//! The bounded cache of watched-game states, keyed by game id and holding
//! the last seen position and move. Backed by the `lru` crate behind a
//! trusted boundary: the contents are modelled as a map, and eviction may
//! remove at most the least-recently-used other entry when the cache is
//! full.
use vstd::prelude::*;

use crate::model::GameId;

verus! {

#[verifier::external_type_specification]
#[verifier::external_body]
#[verifier::reject_recursive_types(K)]
#[verifier::reject_recursive_types(V)]
#[verifier::reject_recursive_types(S)]
pub struct ExLruCache<K, V, S>(lru::LruCache<K, V, S>);

/// What the cache holds: for each key, the cached pair.
pub uninterp spec fn cache_contents(c: lru::LruCache<String, (String, String), std::collections::hash_map::RandomState>) -> Map<
    Seq<char>,
    (Seq<char>, Seq<char>),
>;

/// The fixed capacity the cache was created with.
pub uninterp spec fn cache_cap(c: lru::LruCache<String, (String, String), std::collections::hash_map::RandomState>) -> nat;

/// The watched-games cache: game id to `(fen, last move)`.
pub struct GameCache {
    pub inner: lru::LruCache<String, (String, String), std::collections::hash_map::RandomState>,
}

impl View for GameCache {
    type V = Map<Seq<char>, (Seq<char>, Seq<char>)>;

    open spec fn view(&self) -> Map<Seq<char>, (Seq<char>, Seq<char>)> {
        cache_contents(self.inner)
    }
}

impl GameCache {
    pub open spec fn cap(&self) -> nat {
        cache_cap(self.inner)
    }

    /// Relies on `lru::LruCache::new`: an empty cache holding at most `cap`
    /// entries.
    #[verifier::external_body]
    pub fn new(cap: usize) -> (r: GameCache)
        requires
            cap >= 1,
        ensures
            (cache_contents(r.inner) == Map::<Seq<char>, (Seq<char>, Seq<char>)>::empty()),
            cache_cap(r.inner) == cap,
            cache_contents(r.inner).dom().finite(),
    {
        GameCache {
            inner: lru::LruCache::with_hasher(
                std::num::NonZeroUsize::new(cap).unwrap_or(std::num::NonZeroUsize::MIN),
                std::collections::hash_map::RandomState::new(),
            ),
        }
    }

    /// Relies on `lru::LruCache::put`: the key now maps to the value; every
    /// other surviving key keeps its value; only when the cache was full and
    /// the key new can one other entry (the least recently used) leave.
    #[verifier::external_body]
    pub fn put(&mut self, id: &GameId, fen: &str, lm: &str)
        ensures
            cache_cap(final(self).inner) == cache_cap(old(self).inner),
            cache_contents(final(self).inner).dom().finite() == cache_contents(
                old(self).inner,
            ).dom().finite(),
            cache_contents(final(self).inner).contains_key(id@),
            cache_contents(final(self).inner)[id@] == (fen@, lm@),
            forall|k: Seq<char>|
                k != id@ && #[trigger] cache_contents(final(self).inner).contains_key(k)
                    ==> cache_contents(old(self).inner).contains_key(k) && cache_contents(
                    final(self).inner,
                )[k] == cache_contents(old(self).inner)[k],
            cache_contents(old(self).inner).dom().finite() && (cache_contents(
                old(self).inner,
            ).contains_key(id@) || cache_contents(old(self).inner).dom().len() < cache_cap(
                old(self).inner,
            )) ==> cache_contents(final(self).inner) == cache_contents(old(self).inner).insert(
                id@,
                (fen@, lm@),
            ),
    {
        self.inner.put(
            String::from(id.as_str()),
            (String::from(fen), String::from(lm)),
        );
    }

    /// Relies on `lru::LruCache::peek`: returns the cached value without
    /// touching the recency order.
    #[verifier::external_body]
    pub fn peek(&self, id: &GameId) -> (r: Option<(String, String)>)
        ensures
            match r {
                Some(v) => cache_contents(self.inner).contains_key(id@) && cache_contents(
                    self.inner,
                )[id@] == (v.0@, v.1@),
                None => !cache_contents(self.inner).contains_key(id@),
            },
    {
        self.inner.peek(id.as_str()).cloned()
    }
}

} // verus!
