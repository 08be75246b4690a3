//! The package tree: a trie over the package paths of the input files, used
//! to group emitted modules hierarchically.
//!
//! Construction groups the input list by first segment, preserving the order
//! of first appearance, and recurses on the remainders of the paths that are
//! longer than one segment. A node's `path` is its full prefix from the root.
use vstd::prelude::*;

use crate::rir::ItemPath;
use crate::symbol::Symbol;
use crate::symbol::syms_view;

verus! {

/// One node of the package trie.
#[derive(Debug)]
pub struct PkgNode {
    pub path: ItemPath,
    pub children: Vec<PkgNode>,
}

/// The distinct first segments of the given paths, in order of first
/// appearance; paths without segments contribute nothing.
pub open spec fn keys_of(pkgs: Seq<Seq<Seq<u8>>>) -> Seq<Seq<u8>>
    decreases pkgs.len(),
{
    if pkgs.len() == 0 {
        Seq::empty()
    } else {
        let earlier = keys_of(pkgs.drop_last());
        let p = pkgs.last();
        if p.len() > 0 && !earlier.contains(p[0]) {
            earlier.push(p[0])
        } else {
            earlier
        }
    }
}

/// The remainders of the group of `key`: each path that starts with `key` and
/// has further segments, with its first segment removed, in input order.
pub open spec fn rem_of(pkgs: Seq<Seq<Seq<u8>>>, key: Seq<u8>) -> Seq<Seq<Seq<u8>>>
    decreases pkgs.len(),
{
    if pkgs.len() == 0 {
        Seq::empty()
    } else {
        let earlier = rem_of(pkgs.drop_last(), key);
        let p = pkgs.last();
        if p.len() > 1 && p[0] == key {
            earlier.push(p.drop_first())
        } else {
            earlier
        }
    }
}

/// The length of the longest path.
pub open spec fn max_len(pkgs: Seq<Seq<Seq<u8>>>) -> nat
    decreases pkgs.len(),
{
    if pkgs.len() == 0 {
        0
    } else {
        let rest = max_len(pkgs.drop_last());
        if pkgs.last().len() > rest {
            pkgs.last().len()
        } else {
            rest
        }
    }
}

/// Remainders are strictly shorter than the longest input path.
pub proof fn lemma_rem_of_max_len(pkgs: Seq<Seq<Seq<u8>>>, key: Seq<u8>)
    requires
        max_len(pkgs) > 0,
    ensures
        max_len(rem_of(pkgs, key)) < max_len(pkgs),
    decreases pkgs.len(),
{
    if pkgs.len() > 0 {
        if max_len(pkgs.drop_last()) > 0 {
            lemma_rem_of_max_len(pkgs.drop_last(), key);
        } else {
            lemma_rem_of_empty(pkgs.drop_last(), key);
        }
        let p = pkgs.last();
        if p.len() > 1 && p[0] == key {
            let r = rem_of(pkgs, key);
            assert(r.drop_last() =~= rem_of(pkgs.drop_last(), key));
            assert(max_len(r) == if p.len() - 1 > max_len(r.drop_last()) {
                (p.len() - 1) as nat
            } else {
                max_len(r.drop_last())
            });
        }
    }
}

/// With no path longer than the empty one, there are no remainders.
pub proof fn lemma_rem_of_empty(pkgs: Seq<Seq<Seq<u8>>>, key: Seq<u8>)
    requires
        max_len(pkgs) == 0,
    ensures
        rem_of(pkgs, key) =~= Seq::<Seq<Seq<u8>>>::empty(),
    decreases pkgs.len(),
{
    if pkgs.len() > 0 {
        lemma_rem_of_empty(pkgs.drop_last(), key);
    }
}

/// Whether `nodes` is exactly the package trie of `pkgs` under the full
/// prefix `base`: one node per distinct first segment, in order of first
/// appearance, each carrying its full prefix and the trie of its remainders.
pub open spec fn tree_ok(nodes: Seq<PkgNode>, base: Seq<Seq<u8>>, pkgs: Seq<Seq<Seq<u8>>>) -> bool
    decreases max_len(pkgs),
    via tree_ok_decreases
{
    let keys = keys_of(pkgs);
    &&& nodes.len() == keys.len()
    &&& forall|i: int| 0 <= i < keys.len() ==> (#[trigger] nodes[i]).path@ == base.push(keys[i])
    &&& forall|i: int|
        0 <= i < keys.len() ==> tree_ok(
            (#[trigger] nodes[i]).children@,
            base.push(keys[i]),
            rem_of(pkgs, keys[i]),
        )
}

/// Groups come only from nonempty paths.
pub proof fn lemma_keys_of_pos(pkgs: Seq<Seq<Seq<u8>>>)
    requires
        keys_of(pkgs).len() > 0,
    ensures
        max_len(pkgs) > 0,
    decreases pkgs.len(),
{
    if pkgs.len() > 0 {
        if keys_of(pkgs.drop_last()).len() > 0 {
            lemma_keys_of_pos(pkgs.drop_last());
        }
    }
}

#[via_fn]
proof fn tree_ok_decreases(nodes: Seq<PkgNode>, base: Seq<Seq<u8>>, pkgs: Seq<Seq<Seq<u8>>>) {
    let keys = keys_of(pkgs);
    assert forall|i: int| 0 <= i < keys.len() implies max_len(rem_of(pkgs, keys[i])) < max_len(
        pkgs,
    ) by {
        lemma_keys_of_pos(pkgs);
        lemma_rem_of_max_len(pkgs, keys[i]);
    }
}

/// The views of a sequence of item paths.
pub open spec fn paths_view(s: Seq<ItemPath>) -> Seq<Seq<Seq<u8>>> {
    s.map_values(|p: ItemPath| p@)
}

/// Every path has at least one segment.
pub open spec fn all_nonempty(pkgs: Seq<Seq<Seq<u8>>>) -> bool {
    forall|i: int| 0 <= i < pkgs.len() ==> (#[trigger] pkgs[i]).len() > 0
}

/// Remainders of nonempty-path groups are nonempty.
pub proof fn lemma_rem_of_nonempty(pkgs: Seq<Seq<Seq<u8>>>, key: Seq<u8>)
    ensures
        all_nonempty(rem_of(pkgs, key)),
    decreases pkgs.len(),
{
    if pkgs.len() > 0 {
        lemma_rem_of_nonempty(pkgs.drop_last(), key);
        let p = pkgs.last();
        if p.len() > 1 && p[0] == key {
            assert(rem_of(pkgs, key).drop_last() =~= rem_of(pkgs.drop_last(), key));
            assert(rem_of(pkgs, key).last() == p.drop_first());
        }
    }
}

/// Two forests carry the same structure: same length, equal paths, and
/// structurally equal subtrees.
pub open spec fn trees_equal(a: Seq<PkgNode>, b: Seq<PkgNode>) -> bool
    decreases a,
{
    &&& a.len() == b.len()
    &&& forall|i: int| 0 <= i < a.len() ==> (#[trigger] a[i]).path@ == b[i].path@
    &&& forall|i: int|
        0 <= i < a.len() ==> trees_equal((#[trigger] a[i]).children@, b[i].children@)
}

/// Determinism: any two package trees built from the same input list have the
/// same ordering and the same grouping.
pub proof fn lemma_tree_deterministic(
    a: Seq<PkgNode>,
    b: Seq<PkgNode>,
    base: Seq<Seq<u8>>,
    pkgs: Seq<Seq<Seq<u8>>>,
)
    requires
        tree_ok(a, base, pkgs),
        tree_ok(b, base, pkgs),
    ensures
        trees_equal(a, b),
    decreases max_len(pkgs),
{
    let keys = keys_of(pkgs);
    assert forall|i: int| 0 <= i < a.len() implies (#[trigger] a[i]).path@ == b[i].path@
        && trees_equal(a[i].children@, b[i].children@) by {
        lemma_keys_of_pos(pkgs);
        lemma_rem_of_max_len(pkgs, keys[i]);
        lemma_tree_deterministic(
            a[i].children@,
            b[i].children@,
            base.push(keys[i]),
            rem_of(pkgs, keys[i]),
        );
    }
}

/// The group keys are pairwise distinct.
pub proof fn lemma_keys_of_distinct(pkgs: Seq<Seq<Seq<u8>>>)
    ensures
        forall|i: int, j: int|
            0 <= i < j < keys_of(pkgs).len() ==> keys_of(pkgs)[i] != keys_of(pkgs)[j],
    decreases pkgs.len(),
{
    if pkgs.len() > 0 {
        lemma_keys_of_distinct(pkgs.drop_last());
        let earlier = keys_of(pkgs.drop_last());
        let p = pkgs.last();
        if p.len() > 0 && !earlier.contains(p[0]) {
            let keys = keys_of(pkgs);
            assert forall|i: int, j: int| 0 <= i < j < keys.len() implies keys[i] != keys[j] by {
                if j == keys.len() - 1 && keys[i] == p[0] {
                    assert(earlier[i] == p[0]);
                    assert(earlier.contains(p[0]));
                }
            }
        }
    }
}

/// Shared prefixes merge: no two siblings of one trie level carry the same
/// path.
pub proof fn lemma_siblings_distinct(
    nodes: Seq<PkgNode>,
    base: Seq<Seq<u8>>,
    pkgs: Seq<Seq<Seq<u8>>>,
)
    requires
        tree_ok(nodes, base, pkgs),
    ensures
        forall|i: int, j: int|
            0 <= i < j < nodes.len() ==> (#[trigger] nodes[i]).path@ != (#[trigger] nodes[j]).path@,
{
    lemma_keys_of_distinct(pkgs);
    let keys = keys_of(pkgs);
    assert forall|i: int, j: int|
        0 <= i < j < nodes.len() implies (#[trigger] nodes[i]).path@
        != (#[trigger] nodes[j]).path@ by {
        assert(nodes[i].path@.last() == keys[i]);
        assert(nodes[j].path@.last() == keys[j]);
    }
}

/// With no remainders there are no groups.
pub proof fn lemma_rem_of_short(pkgs: Seq<Seq<Seq<u8>>>, key: Seq<u8>)
    requires
        max_len(pkgs) <= 1,
    ensures
        rem_of(pkgs, key) =~= Seq::<Seq<Seq<u8>>>::empty(),
    decreases pkgs.len(),
{
    if pkgs.len() > 0 {
        lemma_rem_of_short(pkgs.drop_last(), key);
    }
}

/// Package paths of length one produce a single-level trie: every node of the
/// top level is a leaf.
pub proof fn lemma_single_level(nodes: Seq<PkgNode>, base: Seq<Seq<u8>>, pkgs: Seq<Seq<Seq<u8>>>)
    requires
        tree_ok(nodes, base, pkgs),
        max_len(pkgs) <= 1,
    ensures
        forall|i: int| 0 <= i < nodes.len() ==> (#[trigger] nodes[i]).children@.len() == 0,
{
    let keys = keys_of(pkgs);
    assert forall|i: int| 0 <= i < nodes.len() implies (#[trigger] nodes[i]).children@.len()
        == 0 by {
        lemma_rem_of_short(pkgs, keys[i]);
        assert(tree_ok(nodes[i].children@, base.push(keys[i]), rem_of(pkgs, keys[i])));
        assert(keys_of(rem_of(pkgs, keys[i])).len() == 0);
    }
}

impl PkgNode {
    /// The identifier of this node: the last segment of its full path.
    pub fn ident(&self) -> (r: Symbol)
        requires
            self.path@.len() > 0,
        ensures
            r@ == self.path@.last(),
    {
        self.path.last().duplicate()
    }

    /// Builds the package trie of the given package paths.
    pub fn from_pkgs(pkgs: &Vec<ItemPath>) -> (r: Vec<PkgNode>)
        requires
            all_nonempty(paths_view(pkgs@)),
        ensures
            tree_ok(r@, Seq::empty(), paths_view(pkgs@)),
    {
        let base: Vec<Symbol> = Vec::new();
        proof {
            assert(syms_view(base@) =~= Seq::<Seq<u8>>::empty());
        }
        build(&base, pkgs)
    }
}

/// Builds the trie level for `pkgs` under the full prefix `base`: one node
/// per distinct first segment in order of first appearance, each node's
/// subtree built from the remainders of its group.
fn build(base: &Vec<Symbol>, pkgs: &Vec<ItemPath>) -> (r: Vec<PkgNode>)
    requires
        all_nonempty(paths_view(pkgs@)),
    ensures
        tree_ok(r@, syms_view(base@), paths_view(pkgs@)),
    decreases max_len(paths_view(pkgs@)),
{
    let ghost pv = paths_view(pkgs@);
    let n = pkgs.len();

    let mut keys: Vec<Symbol> = Vec::new();
    let mut i: usize = 0;
    while i < n
        invariant
            pv == paths_view(pkgs@),
            all_nonempty(pv),
            n == pkgs@.len(),
            0 <= i <= n,
            syms_view(keys@) =~= keys_of(pv.take(i as int)),
        decreases n - i,
    {
        let p = &pkgs[i];
        proof {
            assert(pv[i as int] == p@);
            assert(pv.take(i + 1).drop_last() =~= pv.take(i as int));
            assert(pv.take(i + 1).last() == pv[i as int]);
        }
        let f = p.first();
        proof {
            assert(f@ == p@[0]);
        }
        if !crate::symbol::syms_contains(&keys, f) {
            keys.push(f.duplicate());
            proof {
                assert(syms_view(keys@) =~= keys_of(pv.take(i + 1)));
            }
        } else {
            proof {
                assert(syms_view(keys@) =~= keys_of(pv.take(i + 1)));
            }
        }
        i = i + 1;
    }
    proof {
        assert(pv.take(n as int) =~= pv);
    }

    let m = keys.len();
    let mut out: Vec<PkgNode> = Vec::new();
    let mut k: usize = 0;
    while k < m
        invariant
            pv == paths_view(pkgs@),
            all_nonempty(pv),
            n == pkgs@.len(),
            m == keys@.len(),
            syms_view(keys@) == keys_of(pv),
            0 <= k <= m,
            out@.len() == k,
            forall|t: int|
                0 <= t < k ==> (#[trigger] out@[t]).path@ == syms_view(base@).push(
                    keys_of(pv)[t],
                ),
            forall|t: int|
                0 <= t < k ==> tree_ok(
                    (#[trigger] out@[t]).children@,
                    syms_view(base@).push(keys_of(pv)[t]),
                    rem_of(pv, keys_of(pv)[t]),
                ),
        decreases m - k,
    {
        let key = &keys[k];
        proof {
            assert(key@ == keys_of(pv)[k as int]);
        }

        let mut rems: Vec<ItemPath> = Vec::new();
        let mut j: usize = 0;
        while j < n
            invariant
                pv == paths_view(pkgs@),
                all_nonempty(pv),
                n == pkgs@.len(),
                0 <= j <= n,
                paths_view(rems@) =~= rem_of(pv.take(j as int), key@),
            decreases n - j,
        {
            let p = &pkgs[j];
            proof {
                assert(pv[j as int] == p@);
                assert(pv.take(j + 1).drop_last() =~= pv.take(j as int));
                assert(pv.take(j + 1).last() == pv[j as int]);
            }
            if p.len() > 1 && p.first().eq_sym(key) {
                let plen = p.len();
                let mut segs: Vec<Symbol> = Vec::new();
                let mut t: usize = 1;
                while t < plen
                    invariant
                        plen == p@.len(),
                        1 <= t <= plen,
                        segs@.len() == t - 1,
                        forall|u: int| 0 <= u < t - 1 ==> (#[trigger] segs@[u])@ == p@[u + 1],
                    decreases plen - t,
                {
                    segs.push(p.get(t).duplicate());
                    t = t + 1;
                }
                proof {
                    assert forall|u: int| 0 <= u < plen - 1 implies syms_view(segs@)[u]
                        == p@.drop_first()[u] by {
                        assert(syms_view(segs@)[u] == segs@[u]@);
                    }
                    assert(syms_view(segs@) =~= p@.drop_first());
                }
                rems.push(ItemPath::from(segs));
                proof {
                    assert(paths_view(rems@) =~= rem_of(pv.take(j + 1), key@));
                }
            } else {
                proof {
                    assert(paths_view(rems@) =~= rem_of(pv.take(j + 1), key@));
                }
            }
            j = j + 1;
        }
        proof {
            assert(pv.take(n as int) =~= pv);
            assert(paths_view(rems@) == rem_of(pv, key@));
            lemma_rem_of_nonempty(pv, key@);
            lemma_keys_of_pos(pv);
            lemma_rem_of_max_len(pv, key@);
        }

        let mut cbase: Vec<Symbol> = crate::symbol::clone_syms(base);
        cbase.push(key.duplicate());
        proof {
            assert(syms_view(cbase@) =~= syms_view(base@).push(key@));
        }

        let children = build(&cbase, &rems);
        out.push(PkgNode { path: ItemPath::from(cbase), children });
        k = k + 1;
    }
    out
}

} // verus!
