//! A small association map keyed by dense integer ids.
//!
//! The resolver's tables (`DefId -> Node`, `TagId -> Tags`, per-file and
//! per-mod symbol tables) are all keyed by ids minted from counters; this map
//! keeps one entry per key and denotes a `Map<nat, V>`.
use vstd::prelude::*;

verus! {

/// The map that a sequence of key/value entries denotes; a later entry for
/// the same key overrides an earlier one.
pub open spec fn id_entries_map<V>(s: Seq<(usize, V)>) -> Map<nat, V>
    decreases s.len(),
{
    if s.len() == 0 {
        Map::empty()
    } else {
        id_entries_map(s.drop_last()).insert(s.last().0 as nat, s.last().1)
    }
}

/// Entry keys are pairwise distinct.
pub open spec fn id_unique_keys<V>(s: Seq<(usize, V)>) -> bool {
    forall|i: int, j: int|
        0 <= i < j < s.len() ==> (#[trigger] s[i]).0 != (#[trigger] s[j]).0
}

proof fn lemma_id_entries_map_get<V>(s: Seq<(usize, V)>, i: int)
    requires
        id_unique_keys(s),
        0 <= i < s.len(),
    ensures
        id_entries_map(s).contains_key(s[i].0 as nat),
        id_entries_map(s)[s[i].0 as nat] == s[i].1,
    decreases s.len(),
{
    if i < s.len() - 1 {
        lemma_id_entries_map_get(s.drop_last(), i);
    }
}

proof fn lemma_id_entries_map_absent<V>(s: Seq<(usize, V)>, k: usize)
    requires
        forall|i: int| 0 <= i < s.len() ==> (#[trigger] s[i]).0 != k,
    ensures
        !id_entries_map(s).contains_key(k as nat),
    decreases s.len(),
{
    if s.len() > 0 {
        lemma_id_entries_map_absent(s.drop_last(), k);
    }
}

proof fn lemma_id_entries_map_update<V>(s: Seq<(usize, V)>, i: int, v: V)
    requires
        id_unique_keys(s),
        0 <= i < s.len(),
    ensures
        id_entries_map(s.update(i, (s[i].0, v))) == id_entries_map(s).insert(s[i].0 as nat, v),
    decreases s.len(),
{
    let t = s.update(i, (s[i].0, v));
    if i == s.len() - 1 {
        assert(t.drop_last() =~= s.drop_last());
        assert(id_entries_map(t) =~= id_entries_map(s).insert(s[i].0 as nat, v));
    } else {
        lemma_id_entries_map_update(s.drop_last(), i, v);
        assert(t.drop_last() =~= s.drop_last().update(i, (s[i].0, v)));
        assert(id_entries_map(t) =~= id_entries_map(s).insert(s[i].0 as nat, v));
    }
}

proof fn lemma_id_entries_map_dom<V>(s: Seq<(usize, V)>)
    requires
        id_unique_keys(s),
    ensures
        id_entries_map(s).dom().finite(),
        id_entries_map(s).dom().len() == s.len(),
    decreases s.len(),
{
    if s.len() > 0 {
        lemma_id_entries_map_dom(s.drop_last());
        lemma_id_entries_map_absent(s.drop_last(), s.last().0);
    }
}

/// An id-keyed table with one entry per key.
#[derive(Debug)]
pub struct IdMap<V> {
    entries: Vec<(usize, V)>,
}

impl<V> View for IdMap<V> {
    type V = Map<nat, V>;

    closed spec fn view(&self) -> Map<nat, V> {
        id_entries_map(self.entries@)
    }
}

impl<V> IdMap<V> {
    /// The internal table never stores a key twice.
    pub closed spec fn wf(&self) -> bool {
        id_unique_keys(self.entries@)
    }

    pub fn new() -> (r: IdMap<V>)
        ensures
            r.wf(),
            r@ == Map::<nat, V>::empty(),
    {
        IdMap { entries: Vec::new() }
    }

    /// Position of the entry holding `k`, if there is one.
    fn find(&self, k: usize) -> (r: Option<usize>)
        ensures
            match r {
                Some(i) => i < self.entries@.len() && self.entries@[i as int].0 == k,
                None => forall|i: int|
                    0 <= i < self.entries@.len() ==> (#[trigger] self.entries@[i]).0 != k,
            },
    {
        let n = self.entries.len();
        let mut i: usize = 0;
        while i < n
            invariant
                n == self.entries@.len(),
                0 <= i <= n,
                forall|j: int| 0 <= j < i ==> (#[trigger] self.entries@[j]).0 != k,
            decreases n - i,
        {
            if self.entries[i].0 == k {
                return Some(i);
            }
            i = i + 1;
        }
        None
    }

    /// Stores `v` under `k`; a second insert under the same key overrides the
    /// first.
    pub fn insert(&mut self, k: usize, v: V)
        requires
            old(self).wf(),
        ensures
            final(self).wf(),
            final(self)@ == old(self)@.insert(k as nat, v),
    {
        let found = self.find(k);
        match found {
            Some(i) => {
                proof {
                    lemma_id_entries_map_update(self.entries@, i as int, v);
                }
                let slot = &mut self.entries[i];
                *slot = (k, v);
            },
            None => {
                proof {
                    lemma_id_entries_map_absent(self.entries@, k);
                }
                self.entries.push((k, v));
                proof {
                    assert(self.entries@.drop_last() =~= old(self).entries@);
                }
            },
        }
    }

    /// The value stored under `k`, if any.
    pub fn get(&self, k: usize) -> (r: Option<&V>)
        requires
            self.wf(),
        ensures
            match r {
                Some(v) => self@.contains_key(k as nat) && self@[k as nat] == *v,
                None => !self@.contains_key(k as nat),
            },
    {
        let found = self.find(k);
        match found {
            Some(i) => {
                proof {
                    lemma_id_entries_map_get(self.entries@, i as int);
                }
                Some(&self.entries[i].1)
            },
            None => {
                proof {
                    lemma_id_entries_map_absent(self.entries@, k);
                }
                None
            },
        }
    }

    /// Whether a value is stored under `k`.
    pub fn contains(&self, k: usize) -> (r: bool)
        requires
            self.wf(),
        ensures
            r == self@.contains_key(k as nat),
    {
        let found = self.find(k);
        match found {
            Some(i) => {
                proof {
                    lemma_id_entries_map_get(self.entries@, i as int);
                }
                true
            },
            None => {
                proof {
                    lemma_id_entries_map_absent(self.entries@, k);
                }
                false
            },
        }
    }

    /// The number of stored entries.
    pub fn len(&self) -> (r: usize)
        requires
            self.wf(),
        ensures
            r == self@.dom().len(),
    {
        proof {
            lemma_id_entries_map_dom(self.entries@);
        }
        self.entries.len()
    }
}

} // verus!
