//! Per-entity attribute bags.
//!
//! A `Tags` value is a heterogeneous attribute bag. Attributes are addressed
//! by a compile-time-unique token per attribute kind: here a sealed `TagKey`
//! sum, mapping each key to an opaque byte payload. The resolver keeps a
//! global `TagId -> Tags` table and mints a fresh `TagId` for every lowered
//! entity.
use vstd::prelude::*;

verus! {

/// The well-known attribute kinds: one Thrift marker and the Protobuf
/// schema-hint markers.
#[derive(Clone, Copy, Debug, PartialEq, Eq, Structural, Hash)]
pub enum TagKey {
    EntryMessage,
    OneOf,
    Repeated,
    ClientStreaming,
    ServerStreaming,
    SInt32,
    SInt64,
    Fixed32,
    Fixed64,
    SFixed32,
    SFixed64,
}

/// Marker token for the Thrift entry-message attribute.
#[derive(Clone, Copy, Debug)]
pub struct EntryMessage;

impl EntryMessage {
    /// The key this marker stands for.
    pub fn key(&self) -> (r: TagKey)
        ensures
            r == TagKey::EntryMessage,
    {
        TagKey::EntryMessage
    }
}

/// The map that a sequence of key/payload entries denotes; a later entry for
/// the same key overrides an earlier one.
pub open spec fn entries_map(s: Seq<(TagKey, Vec<u8>)>) -> Map<TagKey, Seq<u8>>
    decreases s.len(),
{
    if s.len() == 0 {
        Map::empty()
    } else {
        entries_map(s.drop_last()).insert(s.last().0, s.last().1@)
    }
}

/// Entry keys are pairwise distinct.
pub open spec fn unique_keys(s: Seq<(TagKey, Vec<u8>)>) -> bool {
    forall|i: int, j: int|
        0 <= i < j < s.len() ==> (#[trigger] s[i]).0 != (#[trigger] s[j]).0
}

proof fn lemma_entries_map_get(s: Seq<(TagKey, Vec<u8>)>, i: int)
    requires
        unique_keys(s),
        0 <= i < s.len(),
    ensures
        entries_map(s).contains_key(s[i].0),
        entries_map(s)[s[i].0] == s[i].1@,
    decreases s.len(),
{
    if i < s.len() - 1 {
        lemma_entries_map_get(s.drop_last(), i);
    }
}

proof fn lemma_entries_map_absent(s: Seq<(TagKey, Vec<u8>)>, k: TagKey)
    requires
        forall|i: int| 0 <= i < s.len() ==> (#[trigger] s[i]).0 != k,
    ensures
        !entries_map(s).contains_key(k),
    decreases s.len(),
{
    if s.len() > 0 {
        lemma_entries_map_absent(s.drop_last(), k);
    }
}

proof fn lemma_entries_map_update(s: Seq<(TagKey, Vec<u8>)>, i: int, v: Vec<u8>)
    requires
        unique_keys(s),
        0 <= i < s.len(),
    ensures
        entries_map(s.update(i, (s[i].0, v))) == entries_map(s).insert(s[i].0, v@),
    decreases s.len(),
{
    let t = s.update(i, (s[i].0, v));
    if i == s.len() - 1 {
        assert(t.drop_last() =~= s.drop_last());
        assert(entries_map(t) =~= entries_map(s).insert(s[i].0, v@));
    } else {
        lemma_entries_map_update(s.drop_last(), i, v);
        assert(t.drop_last() =~= s.drop_last().update(i, (s[i].0, v)));
        assert(entries_map(t) =~= entries_map(s).insert(s[i].0, v@));
    }
}

proof fn lemma_entries_map_dom(s: Seq<(TagKey, Vec<u8>)>)
    requires
        unique_keys(s),
    ensures
        entries_map(s).dom().finite(),
        entries_map(s).dom().len() == s.len(),
    decreases s.len(),
{
    if s.len() > 0 {
        lemma_entries_map_dom(s.drop_last());
        lemma_entries_map_absent(s.drop_last(), s.last().0);
    }
}

/// A type-token-keyed attribute table.
#[derive(Debug)]
pub struct TypeMap {
    entries: Vec<(TagKey, Vec<u8>)>,
}

impl View for TypeMap {
    type V = Map<TagKey, Seq<u8>>;

    closed spec fn view(&self) -> Map<TagKey, Seq<u8>> {
        entries_map(self.entries@)
    }
}

impl TypeMap {
    /// The internal table never stores a key twice.
    pub closed spec fn wf(&self) -> bool {
        unique_keys(self.entries@)
    }

    pub fn new() -> (r: TypeMap)
        ensures
            r.wf(),
            r@ == Map::<TagKey, Seq<u8>>::empty(),
    {
        TypeMap { entries: Vec::new() }
    }

    /// Position of the entry holding `k`, if there is one.
    fn find(&self, k: TagKey) -> (r: Option<usize>)
        ensures
            match r {
                Some(i) => i < self.entries@.len() && self.entries@[i as int].0 == k,
                None => forall|i: int|
                    0 <= i < self.entries@.len() ==> (#[trigger] self.entries@[i]).0 != k,
            },
    {
        let n = self.entries.len();
        let mut i: usize = 0;
        while i < n
            invariant
                n == self.entries@.len(),
                0 <= i <= n,
                forall|j: int| 0 <= j < i ==> (#[trigger] self.entries@[j]).0 != k,
            decreases n - i,
        {
            if self.entries[i].0 == k {
                return Some(i);
            }
            i = i + 1;
        }
        None
    }

    /// Stores `v` under `k`; a second insert under the same key overrides the
    /// first.
    pub fn insert(&mut self, k: TagKey, v: Vec<u8>)
        requires
            old(self).wf(),
        ensures
            final(self).wf(),
            final(self)@ == old(self)@.insert(k, v@),
    {
        let found = self.find(k);
        match found {
            Some(i) => {
                proof {
                    lemma_entries_map_update(self.entries@, i as int, v);
                }
                let slot = &mut self.entries[i];
                *slot = (k, v);
            },
            None => {
                proof {
                    lemma_entries_map_absent(self.entries@, k);
                }
                self.entries.push((k, v));
                proof {
                    assert(self.entries@.drop_last() =~= old(self).entries@);
                }
            },
        }
    }

    /// The payload stored under `k`, if any.
    pub fn get(&self, k: TagKey) -> (r: Option<&Vec<u8>>)
        requires
            self.wf(),
        ensures
            match r {
                Some(v) => self@.contains_key(k) && self@[k] == v@,
                None => !self@.contains_key(k),
            },
    {
        let found = self.find(k);
        match found {
            Some(i) => {
                proof {
                    lemma_entries_map_get(self.entries@, i as int);
                }
                Some(&self.entries[i].1)
            },
            None => {
                proof {
                    lemma_entries_map_absent(self.entries@, k);
                }
                None
            },
        }
    }

    /// Whether an attribute of kind `k` is present.
    pub fn contains(&self, k: TagKey) -> (r: bool)
        requires
            self.wf(),
        ensures
            r == self@.contains_key(k),
    {
        let found = self.find(k);
        match found {
            Some(i) => {
                proof {
                    lemma_entries_map_get(self.entries@, i as int);
                }
                true
            },
            None => {
                proof {
                    lemma_entries_map_absent(self.entries@, k);
                }
                false
            },
        }
    }

    /// The number of stored attributes.
    pub fn len(&self) -> (r: usize)
        requires
            self.wf(),
        ensures
            r == self@.dom().len(),
    {
        proof {
            lemma_entries_map_dom(self.entries@);
        }
        self.entries.len()
    }

    pub fn is_empty(&self) -> (r: bool)
        requires
            self.wf(),
        ensures
            r == (self@.dom().len() == 0),
    {
        proof {
            lemma_entries_map_dom(self.entries@);
        }
        self.entries.len() == 0
    }
}

/// An attribute bag attached to one entity.
#[derive(Debug)]
pub struct Tags {
    map: TypeMap,
}

impl View for Tags {
    type V = Map<TagKey, Seq<u8>>;

    closed spec fn view(&self) -> Map<TagKey, Seq<u8>> {
        self.map@
    }
}

impl Tags {
    pub closed spec fn wf(&self) -> bool {
        self.map.wf()
    }

    pub fn new() -> (r: Tags)
        ensures
            r.wf(),
            r@ == Map::<TagKey, Seq<u8>>::empty(),
    {
        Tags { map: TypeMap::new() }
    }

    pub fn insert(&mut self, k: TagKey, v: Vec<u8>)
        requires
            old(self).wf(),
        ensures
            final(self).wf(),
            final(self)@ == old(self)@.insert(k, v@),
    {
        self.map.insert(k, v);
    }

    pub fn get(&self, k: TagKey) -> (r: Option<&Vec<u8>>)
        requires
            self.wf(),
        ensures
            match r {
                Some(v) => self@.contains_key(k) && self@[k] == v@,
                None => !self@.contains_key(k),
            },
    {
        self.map.get(k)
    }

    pub fn contains(&self, k: TagKey) -> (r: bool)
        requires
            self.wf(),
        ensures
            r == self@.contains_key(k),
    {
        self.map.contains(k)
    }

    pub fn len(&self) -> (r: usize)
        requires
            self.wf(),
        ensures
            r == self@.dom().len(),
    {
        self.map.len()
    }

    pub fn is_empty(&self) -> (r: bool)
        requires
            self.wf(),
        ensures
            r == (self@.dom().len() == 0),
    {
        self.map.is_empty()
    }

    /// Whether the bag is well formed: no key stored twice.
    pub fn check_wf(&self) -> (r: bool)
        ensures
            r == self.wf(),
    {
        self.map.check_wf()
    }

    /// A structural copy of this bag.
    pub fn duplicate(&self) -> (r: Tags)
        requires
            self.wf(),
        ensures
            r.wf(),
            r@ == self@,
    {
        let n = self.map.entries_len();
        let mut out: TypeMap = TypeMap::new();
        let mut i: usize = 0;
        while i < n
            invariant
                self.wf(),
                out.wf(),
                n == self.map.spec_entries().len(),
                0 <= i <= n,
                out@ == entries_map(self.map.spec_entries().take(i as int)),
            decreases n - i,
        {
            let (k, v) = self.map.entry_at(i);
            let v2 = vstd::slice::slice_to_vec(v.as_slice());
            out.insert(k, v2);
            proof {
                assert(self.map.spec_entries().take(i + 1).drop_last() =~= self
                    .map
                    .spec_entries()
                    .take(i as int));
            }
            i = i + 1;
        }
        proof {
            assert(self.map.spec_entries().take(n as int) =~= self.map.spec_entries());
        }
        Tags { map: out }
    }
}

impl TypeMap {
    /// Whether the table is well formed: no key stored twice.
    pub fn check_wf(&self) -> (r: bool)
        ensures
            r == self.wf(),
    {
        let n = self.entries.len();
        let mut i: usize = 0;
        while i < n
            invariant
                n == self.entries@.len(),
                0 <= i <= n,
                forall|a: int, b: int|
                    0 <= a < b < n && a < i ==> (#[trigger] self.entries@[a]).0 != (
                    #[trigger] self.entries@[b]).0,
            decreases n - i,
        {
            let mut j: usize = i + 1;
            while j < n
                invariant
                    n == self.entries@.len(),
                    0 <= i < j <= n,
                    forall|b: int| i < b < j ==> (#[trigger] self.entries@[b]).0
                        != self.entries@[i as int].0,
                decreases n - j,
            {
                if self.entries[j].0 == self.entries[i].0 {
                    return false;
                }
                j = j + 1;
            }
            i = i + 1;
        }
        true
    }

    /// The raw entry sequence, for iteration.
    pub closed spec fn spec_entries(&self) -> Seq<(TagKey, Vec<u8>)> {
        self.entries@
    }

    pub fn entries_len(&self) -> (r: usize)
        ensures
            r == self.spec_entries().len(),
    {
        self.entries.len()
    }

    pub fn entry_at(&self, i: usize) -> (r: (TagKey, &Vec<u8>))
        requires
            i < self.spec_entries().len(),
        ensures
            r.0 == self.spec_entries()[i as int].0,
            r.1@ == self.spec_entries()[i as int].1@,
    {
        let e = &self.entries[i];
        (e.0, &e.1)
    }
}

} // verus!
