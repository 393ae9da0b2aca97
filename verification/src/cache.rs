//! Token counts that were computed before, by path.
use vstd::prelude::*;
use crate::text::same_text;
use crate::tokenizer::TokenEstimator;

verus! {

/// What is remembered of one file: its token count, and the modification
/// time and content hash at which the count was taken.
#[derive(Debug, Clone)]
pub struct CacheEntry {
    pub token_count: usize,
    pub mtime: u64,
    pub hash: String,
}

/// A `CacheEntry` as a plain value.
pub struct CacheEntryView {
    pub token_count: nat,
    pub mtime: nat,
    pub hash: Seq<char>,
}

impl View for CacheEntry {
    type V = CacheEntryView;

    open spec fn view(&self) -> CacheEntryView {
        CacheEntryView {
            token_count: self.token_count as nat,
            mtime: self.mtime as nat,
            hash: self.hash@,
        }
    }
}

/// The entries of one estimator, by path.
#[derive(Debug, Clone)]
pub struct TokenCache {
    entries: Vec<(String, CacheEntry)>,
    estimator: TokenEstimator,
}

/// The paths of `entries`, in order.
pub closed spec fn keys_of(entries: Seq<(String, CacheEntry)>) -> Seq<Seq<char>> {
    Seq::new(entries.len(), |i: int| entries[i].0@)
}

/// Index of the first of `paths` equal to `path`, or the length of `paths`
/// where there is none.
pub closed spec fn slot_of(paths: Seq<Seq<char>>, path: Seq<char>) -> int
    decreases paths.len(),
{
    if paths.len() == 0 {
        0
    } else if paths[0] == path {
        0
    } else {
        1 + slot_of(paths.skip(1), path)
    }
}

proof fn lemma_slot_of(paths: Seq<Seq<char>>, path: Seq<char>)
    ensures
        0 <= slot_of(paths, path) <= paths.len(),
        slot_of(paths, path) < paths.len() ==> paths[slot_of(paths, path)] == path,
        forall|k: int| 0 <= k < slot_of(paths, path) ==> paths[k] != path,
    decreases paths.len(),
{
    if paths.len() > 0 && paths[0] != path {
        lemma_slot_of(paths.skip(1), path);
        assert forall|k: int| 0 <= k < slot_of(paths, path) implies paths[k] != path by {
            if k > 0 {
                assert(paths.skip(1)[k - 1] == paths[k]);
            }
        }
    }
}

/// The slot of `path` is the first index at which it stands.
proof fn lemma_slot_is_first(paths: Seq<Seq<char>>, path: Seq<char>, at: int)
    requires
        0 <= at <= paths.len(),
        forall|k: int| 0 <= k < at ==> paths[k] != path,
        at < paths.len() ==> paths[at] == path,
    ensures
        slot_of(paths, path) == at,
{
    lemma_slot_of(paths, path);
}

impl View for TokenCache {
    type V = Map<Seq<char>, CacheEntryView>;

    /// A path has the entry that stands at the first slot of that path.
    closed spec fn view(&self) -> Map<Seq<char>, CacheEntryView> {
        Map::new(
            |p: Seq<char>| slot_of(keys_of(self.entries@), p) < self.entries.len(),
            |p: Seq<char>| self.entries@[slot_of(keys_of(self.entries@), p)].1@,
        )
    }
}

impl TokenCache {
    /// The estimator whose counts the cache holds.
    pub closed spec fn estimator_view(&self) -> TokenEstimator {
        self.estimator
    }

    /// An empty cache for `estimator`.
    pub fn new(estimator: TokenEstimator) -> (cache: Self)
        ensures
            cache@ == Map::<Seq<char>, CacheEntryView>::empty(),
            cache.estimator_view() == estimator,
    {
        let cache = TokenCache { entries: Vec::new(), estimator };
        proof {
            assert(cache@ =~= Map::<Seq<char>, CacheEntryView>::empty());
        }
        cache
    }

    /// The cache to work with for `estimator`, given what was stored: the
    /// stored cache where it is one of `estimator`, else an empty one.
    pub fn reuse_or_new(stored: Option<TokenCache>, estimator: TokenEstimator) -> (cache: Self)
        ensures
            cache.estimator_view() == estimator,
            match stored {
                Some(c) => if c.estimator_view() == estimator {
                    cache == c
                } else {
                    cache@ == Map::<Seq<char>, CacheEntryView>::empty()
                },
                None => cache@ == Map::<Seq<char>, CacheEntryView>::empty(),
            },
    {
        match stored {
            Some(c) => {
                if c.estimator == estimator {
                    c
                } else {
                    TokenCache::new(estimator)
                }
            },
            None => TokenCache::new(estimator),
        }
    }

    pub fn estimator(&self) -> (e: TokenEstimator)
        ensures
            e == self.estimator_view(),
    {
        self.estimator
    }

    /// Where `path` stands among the known paths.
    fn slot(&self, path: &str) -> (at: usize)
        ensures
            at == slot_of(keys_of(self.entries@), path@),
            at <= self.entries.len(),
    {
        let ghost known = keys_of(self.entries@);
        let mut at: usize = 0;
        while at < self.entries.len() && !same_text(self.entries[at].0.as_str(), path)
            invariant
                at <= self.entries.len(),
                known == keys_of(self.entries@),
                forall|k: int| 0 <= k < at ==> known[k] != path@,
            decreases self.entries.len() - at,
        {
            at += 1;
        }
        proof {
            lemma_slot_is_first(known, path@, at as int);
        }
        at
    }

    /// The entry of `path`, if the cache has one.
    pub fn get_entry(&self, path: &str) -> (entry: Option<&CacheEntry>)
        ensures
            match entry {
                Some(e) => self@.contains_key(path@) && self@[path@] == e@,
                None => !self@.contains_key(path@),
            },
    {
        let at = self.slot(path);
        if at < self.entries.len() {
            Some(&self.entries[at].1)
        } else {
            None
        }
    }

    /// Remembers `entry` for `path`, in place of any earlier entry.
    pub fn insert_entry(&mut self, path: String, entry: CacheEntry)
        ensures
            final(self)@ == old(self)@.insert(path@, entry@),
            final(self).estimator_view() == old(self).estimator_view(),
    {
        let at = self.slot(path.as_str());
        let ghost known = keys_of(self.entries@);
        let ghost want = old(self)@.insert(path@, entry@);
        proof {
            lemma_slot_of(known, path@);
        }
        if at < self.entries.len() {
            self.entries[at].1 = entry;
            proof {
                assert(keys_of(self.entries@) =~= known);
                assert forall|p: Seq<char>| #[trigger] self@.contains_key(p) == want.contains_key(
                    p,
                ) by {
                    lemma_slot_of(known, p);
                }
                assert forall|p: Seq<char>| self@.contains_key(p) implies #[trigger] self@[p]
                    == want[p] by {
                    lemma_slot_of(known, p);
                }
                assert(self@ =~= want);
            }
        } else {
            self.entries.push((path, entry));
            proof {
                let after = keys_of(self.entries@);
                assert(after =~= known.push(path@));
                assert forall|p: Seq<char>|
                    slot_of(after, p) == if p == path@ {
                        known.len() as int
                    } else if slot_of(known, p) < known.len() {
                        slot_of(known, p)
                    } else {
                        after.len() as int
                    } by {
                    lemma_slot_of(known, p);
                    let first = if p == path@ {
                        known.len() as int
                    } else if slot_of(known, p) < known.len() {
                        slot_of(known, p)
                    } else {
                        after.len() as int
                    };
                    assert forall|k: int| 0 <= k < first implies after[k] != p by {
                        if k < known.len() {
                            assert(after[k] == known[k]);
                        }
                    }
                    lemma_slot_is_first(after, p, first);
                }
                assert forall|p: Seq<char>| #[trigger] self@.contains_key(p) == want.contains_key(
                    p,
                ) by {
                    lemma_slot_of(known, p);
                }
                assert forall|p: Seq<char>| self@.contains_key(p) implies #[trigger] self@[p]
                    == want[p] by {
                    lemma_slot_of(known, p);
                }
                assert(self@ =~= want);
            }
        }
    }

    /// The paths for which the cache holds an entry slot, in the order in
    /// which they came in.
    pub closed spec fn paths_view(&self) -> Seq<Seq<char>> {
        keys_of(self.entries@)
    }

    /// How many entries the cache holds.
    pub fn len(&self) -> (n: usize)
        ensures
            n == self.paths_view().len(),
    {
        self.entries.len()
    }

    /// The `i`-th path of the cache and the entry that came in with it.
    pub fn entry_at(&self, i: usize) -> (r: (&String, &CacheEntry))
        requires
            i < self.paths_view().len(),
        ensures
            r.0@ == self.paths_view()[i as int],
    {
        (&self.entries[i].0, &self.entries[i].1)
    }

    /// Forgets every entry.
    pub fn clear(&mut self)
        ensures
            final(self)@ == Map::<Seq<char>, CacheEntryView>::empty(),
            final(self).estimator_view() == old(self).estimator_view(),
    {
        self.entries = Vec::new();
        proof {
            assert(self@ =~= Map::<Seq<char>, CacheEntryView>::empty());
        }
    }
}

} // verus!
