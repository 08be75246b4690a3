//! Per-scope symbol tables.
//!
//! Each scope (a file, or a mod item) maps names to definition ids in two
//! disjoint namespaces: `value` for constants and `ty` for everything else.
//! Keeping the two maps apart lets a constant and a type share a spelling.
use vstd::prelude::*;

use crate::index::DefId;
use crate::symbol::Symbol;

verus! {

/// The map that a sequence of name/id entries denotes; a later entry for the
/// same name overrides an earlier one.
pub open spec fn sym_entries_map(s: Seq<(Symbol, DefId)>) -> Map<Seq<u8>, DefId>
    decreases s.len(),
{
    if s.len() == 0 {
        Map::empty()
    } else {
        sym_entries_map(s.drop_last()).insert(s.last().0@, s.last().1)
    }
}

/// Entry names are pairwise distinct.
pub open spec fn sym_unique_keys(s: Seq<(Symbol, DefId)>) -> bool {
    forall|i: int, j: int|
        0 <= i < j < s.len() ==> (#[trigger] s[i]).0@ != (#[trigger] s[j]).0@
}

proof fn lemma_sym_entries_map_get(s: Seq<(Symbol, DefId)>, i: int)
    requires
        sym_unique_keys(s),
        0 <= i < s.len(),
    ensures
        sym_entries_map(s).contains_key(s[i].0@),
        sym_entries_map(s)[s[i].0@] == s[i].1,
    decreases s.len(),
{
    if i < s.len() - 1 {
        lemma_sym_entries_map_get(s.drop_last(), i);
    }
}

proof fn lemma_sym_entries_map_absent(s: Seq<(Symbol, DefId)>, k: Seq<u8>)
    requires
        forall|i: int| 0 <= i < s.len() ==> (#[trigger] s[i]).0@ != k,
    ensures
        !sym_entries_map(s).contains_key(k),
    decreases s.len(),
{
    if s.len() > 0 {
        lemma_sym_entries_map_absent(s.drop_last(), k);
    }
}

proof fn lemma_sym_entries_map_update(s: Seq<(Symbol, DefId)>, i: int, k: Symbol, v: DefId)
    requires
        sym_unique_keys(s),
        0 <= i < s.len(),
        k@ == s[i].0@,
    ensures
        sym_entries_map(s.update(i, (k, v))) == sym_entries_map(s).insert(s[i].0@, v),
        sym_unique_keys(s.update(i, (k, v))),
    decreases s.len(),
{
    let t = s.update(i, (k, v));
    if i == s.len() - 1 {
        assert(t.drop_last() =~= s.drop_last());
        assert(sym_entries_map(t) =~= sym_entries_map(s).insert(s[i].0@, v));
    } else {
        lemma_sym_entries_map_update(s.drop_last(), i, k, v);
        assert(t.drop_last() =~= s.drop_last().update(i, (k, v)));
        assert(sym_entries_map(t) =~= sym_entries_map(s).insert(s[i].0@, v));
    }
}

/// A name-to-definition map for one namespace of one scope.
#[derive(Debug)]
pub struct SymMap {
    entries: Vec<(Symbol, DefId)>,
}

impl View for SymMap {
    type V = Map<Seq<u8>, DefId>;

    closed spec fn view(&self) -> Map<Seq<u8>, DefId> {
        sym_entries_map(self.entries@)
    }
}

impl SymMap {
    pub closed spec fn wf(&self) -> bool {
        sym_unique_keys(self.entries@)
    }

    pub fn new() -> (r: SymMap)
        ensures
            r.wf(),
            r@ == Map::<Seq<u8>, DefId>::empty(),
    {
        SymMap { entries: Vec::new() }
    }

    fn find(&self, k: &Symbol) -> (r: Option<usize>)
        ensures
            match r {
                Some(i) => i < self.entries@.len() && self.entries@[i as int].0@ == k@,
                None => forall|i: int|
                    0 <= i < self.entries@.len() ==> (#[trigger] self.entries@[i]).0@ != k@,
            },
    {
        let n = self.entries.len();
        let mut i: usize = 0;
        while i < n
            invariant
                n == self.entries@.len(),
                0 <= i <= n,
                forall|j: int| 0 <= j < i ==> (#[trigger] self.entries@[j]).0@ != k@,
            decreases n - i,
        {
            if self.entries[i].0.eq_sym(k) {
                return Some(i);
            }
            i = i + 1;
        }
        None
    }

    /// Binds `name` to `did`; a second insert of the same spelling overrides
    /// the first.
    pub fn insert(&mut self, name: Symbol, did: DefId)
        requires
            old(self).wf(),
        ensures
            final(self).wf(),
            final(self)@ == old(self)@.insert(name@, did),
    {
        let found = self.find(&name);
        match found {
            Some(i) => {
                proof {
                    lemma_sym_entries_map_update(self.entries@, i as int, name, did);
                }
                let slot = &mut self.entries[i];
                *slot = (name, did);
            },
            None => {
                proof {
                    lemma_sym_entries_map_absent(self.entries@, name@);
                }
                self.entries.push((name, did));
                proof {
                    assert(self.entries@.drop_last() =~= old(self).entries@);
                }
            },
        }
    }

    /// The definition bound to this spelling, if any.
    pub fn get(&self, name: &Symbol) -> (r: Option<DefId>)
        requires
            self.wf(),
        ensures
            match r {
                Some(did) => self@.contains_key(name@) && self@[name@] == did,
                None => !self@.contains_key(name@),
            },
    {
        let found = self.find(name);
        match found {
            Some(i) => {
                proof {
                    lemma_sym_entries_map_get(self.entries@, i as int);
                }
                Some(self.entries[i].1)
            },
            None => {
                proof {
                    lemma_sym_entries_map_absent(self.entries@, name@);
                }
                None
            },
        }
    }

    pub fn contains(&self, name: &Symbol) -> (r: bool)
        requires
            self.wf(),
        ensures
            r == self@.contains_key(name@),
    {
        let found = self.find(name);
        proof {
            match found {
                Some(i) => lemma_sym_entries_map_get(self.entries@, i as int),
                None => lemma_sym_entries_map_absent(self.entries@, name@),
            }
        }
        match found {
            Some(_) => true,
            None => false,
        }
    }
}

/// The two disjoint namespaces of one scope.
#[derive(Debug)]
pub struct SymbolTable {
    pub value: SymMap,
    pub ty: SymMap,
}

impl SymbolTable {
    pub open spec fn wf(&self) -> bool {
        self.value.wf() && self.ty.wf()
    }

    pub fn new() -> (r: SymbolTable)
        ensures
            r.wf(),
            r.value@ == Map::<Seq<u8>, DefId>::empty(),
            r.ty@ == Map::<Seq<u8>, DefId>::empty(),
    {
        SymbolTable { value: SymMap::new(), ty: SymMap::new() }
    }
}

/// All ids bound in `m` are members of `s`.
pub open spec fn map_dids_in(m: Map<Seq<u8>, DefId>, s: Set<nat>) -> bool {
    forall|k: Seq<u8>| m.contains_key(k) ==> s.contains((#[trigger] m[k]).0 as nat)
}

} // verus!
