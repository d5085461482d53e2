use vstd::prelude::*;
use crate::assoc::{has_key, lemma_map_contains, lemma_map_index, lemma_map_push, pairs_to_map,
    unique_keys};

verus! {

/// View of the cache entries as location-key / handle pairs.
pub open spec fn cache_pairs(s: Seq<(String, u64)>) -> Seq<(Seq<char>, u64)> {
    s.map_values(|e: (String, u64)| (e.0@, e.1))
}

/// The per-tenant connection cache: an explicit, injected object in place of
/// an ambient process-wide singleton. Each distinct location key maps to at
/// most one connection handle, so establishment happens once per key no
/// matter how often a key is asked for; the caller wraps this in its lock
/// and performs the re-check after upgrading by simply calling again.
pub struct ConnCache {
    pub entries: Vec<(String, u64)>,
    pub next_handle: u64,
}

impl ConnCache {
    pub open spec fn wf(&self) -> bool {
        unique_keys(cache_pairs(self.entries@))
    }

    /// The handles handed out so far, by location key.
    pub open spec fn handles(&self) -> Map<Seq<char>, u64> {
        pairs_to_map(cache_pairs(self.entries@))
    }

    pub fn new() -> (r: Self)
        ensures
            r.wf(),
            r.handles() == Map::<Seq<char>, u64>::empty(),
    {
        let r = ConnCache { entries: Vec::new(), next_handle: 0 };
        proof {
            assert(cache_pairs(r.entries@) =~= Seq::<(Seq<char>, u64)>::empty());
        }
        r
    }

    /// Look the key up, and only on a miss hand out a fresh handle: the
    /// second result says whether a new connection must be established.
    /// Asking twice for one key returns one handle.
    pub fn get_or_connect(&mut self, key: &String) -> (r: (u64, bool))
        requires
            old(self).wf(),
        ensures
            final(self).wf(),
            final(self).handles().dom().contains(key@),
            final(self).handles()[key@] == r.0,
            r.1 == !old(self).handles().dom().contains(key@),
            !r.1 ==> *final(self) == *old(self) && r.0 == old(self).handles()[key@],
            r.1 ==> final(self).handles() == old(self).handles().insert(key@, r.0),
    {
        proof {
            lemma_map_contains(cache_pairs(self.entries@), key@);
        }
        let n = self.entries.len();
        let mut i: usize = 0;
        while i < n
            invariant
                n == self.entries@.len(),
                i <= n,
                *self == *old(self),
                self.wf(),
                forall|j: int| 0 <= j < i ==> cache_pairs(self.entries@)[j].0 != key@,
            decreases n - i,
        {
            if self.entries[i].0 == *key {
                proof {
                    assert(cache_pairs(self.entries@)[i as int] == (
                        self.entries@[i as int].0@,
                        self.entries@[i as int].1,
                    ));
                    lemma_map_index(cache_pairs(self.entries@), i as int);
                }
                return (self.entries[i].1, false);
            }
            i += 1;
        }
        let handle = self.next_handle;
        self.entries.push((key.clone(), handle));
        if self.next_handle < u64::MAX {
            self.next_handle = self.next_handle + 1;
        }
        proof {
            let ghost oldpairs = cache_pairs(old(self).entries@);
            assert(cache_pairs(self.entries@) =~= oldpairs.push((key@, handle)));
            assert(!has_key(oldpairs, key@));
            lemma_map_push(oldpairs, key@, handle);
        }
        (handle, true)
    }
}

} // verus!
