//! The resolver: the central pass of the middle end.
//!
//! Pass 1 (collection) mints a `DefId` per nameable definition and fills the
//! per-scope symbol tables. Pass 2 (lowering) resolves every reference
//! against the frozen tables and lowers each entity into an RIR node. Fatal
//! errors abort the whole run; no partial result is returned.
use std::sync::Arc;

use vstd::prelude::*;

use crate::idmap::IdMap;
use crate::index::{DefId, FileId, TagId};
use crate::ir;
use crate::rir;
use crate::rir::{
    is_const_item, is_type_item, node_dids_lt, node_names_snake, node_tags_in, ty_dids_lt,
    ty_tags_in, DefKind, Node, NodeKind,
};
use crate::ty::{Ty, TyKind};
use crate::symbol::Symbol;
use crate::symtab::{map_dids_in, SymbolTable};
use crate::tags::Tags;

verus! {

/// A fatal resolution failure; the offending name is carried where there is
/// one.
#[derive(Debug)]
pub enum ResolveError {
    /// A reference failed at its first segment.
    Undefined(Symbol),
    /// A non-terminal segment landed on a definition that holds no nested
    /// names.
    InvalidPathStep,
    /// A later segment was not found inside its file, mod or enum.
    MissingNested(Symbol),
    /// The same name was defined twice in one scope and namespace.
    Redefinition(Symbol),
    /// An internal invariant of the node table was violated.
    InvalidNodeShape,
    /// A counter reached the machine's limit.
    LimitExceeded,
}

/// The two disjoint namespaces of a scope.
#[derive(Clone, Copy, Debug, PartialEq, Eq, Structural)]
pub enum Namespace {
    Value,
    Ty,
}

/// What a name resolved to: a definition, or an imported file.
#[derive(Clone, Copy, Debug, PartialEq, Eq, Structural)]
pub enum ModuleId {
    File(FileId),
    Node(DefId),
}

impl ModuleId {
    /// The definition this resolution names; not defined on file handles.
    pub fn expect_def_id(self) -> (r: DefId)
        requires
            self is Node,
        ensures
            self == ModuleId::Node(r),
    {
        match self {
            ModuleId::File(_) => vstd::pervasive::unreached(),
            ModuleId::Node(did) => did,
        }
    }
}

/// A scope on the lowering stack, named by its owning table's key.
#[derive(Clone, Copy, Debug, PartialEq, Eq, Structural)]
pub enum ScopeRef {
    File(FileId),
    Mod(DefId),
}

/// The resolver: id counters, per-scope symbol tables, the scope stack of the
/// lowering pass, and the node and tag tables it fills.
pub struct Resolver {
    did_counter: DefId,
    tags_counter: TagId,
    file_sym_map: IdMap<SymbolTable>,
    def_modules: IdMap<SymbolTable>,
    blocks: Vec<ScopeRef>,
    parent_node: Option<DefId>,
    nodes: IdMap<Node>,
    tags: IdMap<Tags>,
    cur_file: Option<FileId>,
    val_dids: Ghost<Set<nat>>,
    ty_dids: Ghost<Set<nat>>,
    fids: Ghost<Set<nat>>,
    origin_fids: Ghost<Set<nat>>,
}

impl Resolver {
    /// How many definition ids have been minted.
    pub closed spec fn spec_did_counter(&self) -> nat {
        self.did_counter.0 as nat
    }

    /// How many tag ids have been minted.
    pub closed spec fn spec_tags_counter(&self) -> nat {
        self.tags_counter.0 as nat
    }

    /// The node table built so far.
    pub closed spec fn spec_nodes(&self) -> Map<nat, Node> {
        self.nodes@
    }

    /// The tag table built so far.
    pub closed spec fn spec_tags(&self) -> Map<nat, Tags> {
        self.tags@
    }

    /// The ids collected into value namespaces.
    pub closed spec fn spec_val_dids(&self) -> Set<nat> {
        self.val_dids@
    }

    /// The ids collected into type namespaces.
    pub closed spec fn spec_ty_dids(&self) -> Set<nat> {
        self.ty_dids@
    }

    /// The scope stack of the lowering pass.
    pub closed spec fn spec_blocks(&self) -> Seq<ScopeRef> {
        self.blocks@
    }

    /// The id of the item whose members are being lowered.
    pub closed spec fn spec_parent_node(&self) -> Option<DefId> {
        self.parent_node
    }

    /// The file being lowered.
    pub closed spec fn spec_cur_file(&self) -> Option<FileId> {
        self.cur_file
    }

    /// The per-file symbol tables collected by pass 1.
    pub closed spec fn spec_file_tables(&self) -> Map<nat, SymbolTable> {
        self.file_sym_map@
    }

    /// The ids of the input files of this run.
    pub closed spec fn spec_fids(&self) -> Set<nat> {
        self.fids@
    }

    /// The ids of the files that own at least one node.
    pub closed spec fn spec_origin_fids(&self) -> Set<nat> {
        self.origin_fids@
    }

    /// A symbol table whose ids were all minted and classified by pass 1.
    pub closed spec fn table_ok(&self, t: SymbolTable) -> bool {
        &&& t.wf()
        &&& map_dids_in(t.value@, self.val_dids@)
        &&& map_dids_in(t.ty@, self.ty_dids@)
    }

    /// Everything the resolver guarantees of one node table entry.
    pub closed spec fn node_ok(&self, d: nat, n: Node) -> bool {
        &&& d < self.spec_did_counter()
        &&& node_dids_lt(n, self.spec_did_counter())
        &&& node_tags_in(n, self.tags@.dom())
        &&& self.fids@.contains(n.file_id.0 as nat)
        &&& self.origin_fids@.contains(n.file_id.0 as nat)
        &&& (self.val_dids@.contains(d) ==> is_const_item(n))
        &&& (self.ty_dids@.contains(d) ==> is_type_item(n))
        &&& node_names_snake(n)
    }

    /// A scope key that its owning map can answer.
    pub closed spec fn scope_ok(&self, s: ScopeRef) -> bool {
        match s {
            ScopeRef::File(f) => self.file_sym_map@.contains_key(f.0 as nat),
            ScopeRef::Mod(d) => self.def_modules@.contains_key(d.0 as nat),
        }
    }

    /// The resolver's internal invariant.
    pub closed spec fn inv(&self) -> bool {
        &&& self.file_sym_map.wf()
        &&& self.def_modules.wf()
        &&& self.nodes.wf()
        &&& self.tags.wf()
        &&& forall|k: nat| #[trigger]
            self.file_sym_map@.contains_key(k) ==> self.table_ok(self.file_sym_map@[k])
        &&& forall|k: nat| #[trigger]
            self.def_modules@.contains_key(k) ==> self.table_ok(self.def_modules@[k])
        &&& forall|d: nat| #[trigger] self.val_dids@.contains(d) ==> d < self.spec_did_counter()
        &&& forall|d: nat| #[trigger] self.ty_dids@.contains(d) ==> d < self.spec_did_counter()
        &&& forall|d: nat|
            !(#[trigger] self.val_dids@.contains(d) && #[trigger] self.ty_dids@.contains(d))
        &&& forall|d: nat| #[trigger]
            self.nodes@.contains_key(d) ==> self.node_ok(d, self.nodes@[d])
        &&& forall|t: nat| #[trigger] self.tags@.dom().contains(t) ==> t < self.spec_tags_counter()
        &&& forall|i: int| 0 <= i < self.blocks@.len() ==> self.scope_ok(#[trigger] self.blocks@[i])
        &&& match self.cur_file {
            Some(f) => self.fids@.contains(f.0 as nat),
            None => true,
        }
    }

    /// A resolver that has not started a run.
    pub closed spec fn is_fresh(&self) -> bool {
        &&& self.spec_did_counter() == 0
        &&& self.spec_tags_counter() == 0
        &&& self.nodes@ == Map::<nat, Node>::empty()
        &&& self.tags@ == Map::<nat, Tags>::empty()
        &&& self.blocks@.len() == 0
        &&& self.cur_file is None
        &&& self.val_dids@ == Set::<nat>::empty()
        &&& self.ty_dids@ == Set::<nat>::empty()
        &&& self.parent_node is None
        &&& self.origin_fids@ == Set::<nat>::empty()
    }

    /// What pass-1 steps leave untouched or only grow.
    pub closed spec fn collect_grows(&self, old: Resolver) -> bool {
        &&& self.nodes == old.nodes
        &&& self.tags == old.tags
        &&& self.tags_counter == old.tags_counter
        &&& self.blocks@ == old.blocks@
        &&& self.cur_file == old.cur_file
        &&& self.parent_node == old.parent_node
        &&& self.fids == old.fids
        &&& self.origin_fids == old.origin_fids
        &&& old.spec_did_counter() <= self.spec_did_counter()
        &&& old.val_dids@.subset_of(self.val_dids@)
        &&& old.ty_dids@.subset_of(self.ty_dids@)
    }

    /// What pass-2 steps leave untouched or only grow: tables and ghost
    /// classifications are frozen, counters and stores only grow.
    pub closed spec fn lower_grows(&self, old: Resolver) -> bool {
        &&& self.file_sym_map == old.file_sym_map
        &&& self.def_modules == old.def_modules
        &&& self.val_dids == old.val_dids
        &&& self.ty_dids == old.ty_dids
        &&& self.fids == old.fids
        &&& old.spec_did_counter() <= self.spec_did_counter()
        &&& old.spec_tags_counter() <= self.spec_tags_counter()
        &&& old.tags@.dom().subset_of(self.tags@.dom())
        &&& forall|t: nat| #[trigger]
            old.tags@.contains_key(t) ==> self.tags@.contains_key(t) && self.tags@[t]
                == old.tags@[t]
        &&& forall|d: nat| #[trigger]
            old.nodes@.contains_key(d) ==> self.nodes@.contains_key(d) && self.nodes@[d]
                == old.nodes@[d]
        &&& old.origin_fids@.subset_of(self.origin_fids@)
    }
}

/// A node entry stays well formed when counters and stores only grow and its
/// namespace classification does not change.
proof fn lemma_node_ok_mono(pre: Resolver, post: Resolver, d: nat, n: Node)
    requires
        pre.node_ok(d, n),
        pre.spec_did_counter() <= post.spec_did_counter(),
        pre.spec_tags().dom().subset_of(post.spec_tags().dom()),
        post.spec_fids() == pre.spec_fids(),
        pre.spec_origin_fids().subset_of(post.spec_origin_fids()),
        post.spec_val_dids().contains(d) == pre.spec_val_dids().contains(d),
        post.spec_ty_dids().contains(d) == pre.spec_ty_dids().contains(d),
    ensures
        post.node_ok(d, n),
{
    crate::rir::lemma_node_mono(
        &n,
        pre.spec_did_counter(),
        post.spec_did_counter(),
        pre.spec_tags().dom(),
        post.spec_tags().dom(),
    );
}

impl Default for Resolver {
    /// A fresh resolver with zeroed counters and empty tables.
    fn default() -> (r: Resolver)
        ensures
            r.inv(),
            r.is_fresh(),
    {
        Resolver {
            did_counter: DefId(0),
            tags_counter: TagId(0),
            file_sym_map: IdMap::new(),
            def_modules: IdMap::new(),
            blocks: Vec::new(),
            parent_node: None,
            nodes: IdMap::new(),
            tags: IdMap::new(),
            cur_file: None,
            val_dids: Ghost(Set::empty()),
            ty_dids: Ghost(Set::empty()),
            fids: Ghost(Set::empty()),
            origin_fids: Ghost(Set::empty()),
        }
    }
}

impl Resolver {
    /// Pass 1 for one item list: binds each nameable definition in a fresh
    /// symbol table, descending into mods; a name bound twice in the same
    /// namespace is a fatal redefinition.
    fn collect_items(&mut self, items: &Vec<ir::Item>) -> (r: Result<SymbolTable, ResolveError>)
        requires
            old(self).inv(),
            forall|i: int| 0 <= i < items@.len() ==> ir::item_ok(#[trigger] items@[i]),
        ensures
            final(self).inv(),
            final(self).collect_grows(*old(self)),
            final(self).file_sym_map == old(self).file_sym_map,
            (forall|j: int| 0 <= j < items@.len() ==> (#[trigger] items@[j]).kind is Use) ==> r
                is Ok && final(self).spec_did_counter() == old(self).spec_did_counter(),
            match r {
                Ok(t) => final(self).spec_did_counter() == old(self).spec_did_counter()
                    + ir::items_decl_count(items@) && final(self).table_ok(t) && (forall|j: int|
                    0 <= j < items@.len() && !((#[trigger] items@[j]).kind is Use) ==> (match items@[j].kind {
                        ir::ItemKind::Const(_) => t.value@,
                        _ => t.ty@,
                    }).contains_key(ir::spec_item_name(items@[j]))),
                Err(_) => true,
            },
        decreases items@,
    {
        let mut table = SymbolTable::new();
        let n = items.len();
        let mut i: usize = 0;
        proof {
            assert(items@.take(0) =~= Seq::<ir::Item>::empty());
        }
        while i < n
            invariant
                self.inv(),
                self.collect_grows(*old(self)),
                self.file_sym_map == old(self).file_sym_map,
                self.table_ok(table),
                n == items@.len(),
                0 <= i <= n,
                self.spec_did_counter() == old(self).spec_did_counter() + ir::items_decl_count(
                    items@.take(i as int),
                ),
                (forall|j: int| 0 <= j < n ==> (#[trigger] items@[j]).kind is Use)
                    ==> self.spec_did_counter() == old(self).spec_did_counter(),
                forall|j: int| 0 <= j < n ==> ir::item_ok(#[trigger] items@[j]),
                forall|j: int|
                    0 <= j < i && !((#[trigger] items@[j]).kind is Use) ==> (match items@[j].kind {
                        ir::ItemKind::Const(_) => table.value@,
                        _ => table.ty@,
                    }).contains_key(ir::spec_item_name(items@[j])),
            decreases n - i,
        {
            let item = &items[i];
            match &item.kind {
                ir::ItemKind::Use(_) => {},
                ir::ItemKind::Const(_) => {
                    let name = item.name();
                    if table.value.contains(name) {
                        return Err(ResolveError::Redefinition(name.duplicate()));
                    }
                    if self.did_counter.as_usize() == usize::MAX {
                        return Err(ResolveError::LimitExceeded);
                    }
                    let ghost pre = *self;
                    let did = self.did_counter.inc_one();
                    proof {
                        self.val_dids@ = self.val_dids@.insert(did.0 as nat);
                    }
                    proof {
                        assert forall|d: nat| self.nodes@.contains_key(d) implies self.node_ok(
                            d,
                            self.nodes@[d],
                        ) by {
                            lemma_node_ok_mono(pre, *self, d, self.nodes@[d]);
                        }
                    }
                    table.value.insert(name.duplicate(), did);
                },
                ir::ItemKind::Mod(m) => {
                    let name = item.name();
                    if table.ty.contains(name) {
                        return Err(ResolveError::Redefinition(name.duplicate()));
                    }
                    if self.did_counter.as_usize() == usize::MAX {
                        return Err(ResolveError::LimitExceeded);
                    }
                    let ghost pre = *self;
                    let did = self.did_counter.inc_one();
                    proof {
                        self.ty_dids@ = self.ty_dids@.insert(did.0 as nat);
                    }
                    proof {
                        assert forall|d: nat| self.nodes@.contains_key(d) implies self.node_ok(
                            d,
                            self.nodes@[d],
                        ) by {
                            lemma_node_ok_mono(pre, *self, d, self.nodes@[d]);
                        }
                    }
                    table.ty.insert(name.duplicate(), did);
                    proof {
                        assert(items@[i as int].kind is Mod);
                        assert(decreases_to!(items@ => items@[i as int]));
                        assert(decreases_to!(items@[i as int] => items@[i as int].kind));
                        assert(decreases_to!(
                            items@[i as int].kind => items@[i as int].kind->Mod_0));
                        assert(decreases_to!(
                            items@[i as int].kind->Mod_0 => items@[i as int].kind->Mod_0.items));
                        assert(decreases_to!(
                            items@[i as int].kind->Mod_0.items
                                => items@[i as int].kind->Mod_0.items@));
                        assert(items@[i as int].kind->Mod_0.items == m.items);
                    }
                    let sub = match self.collect_items(&m.items) {
                        Ok(t) => t,
                        Err(e) => {
                            return Err(e);
                        },
                    };
                    self.def_modules.insert(did.as_usize(), sub);
                },
                _ => {
                    let name = item.name();
                    if table.ty.contains(name) {
                        return Err(ResolveError::Redefinition(name.duplicate()));
                    }
                    if self.did_counter.as_usize() == usize::MAX {
                        return Err(ResolveError::LimitExceeded);
                    }
                    let ghost pre = *self;
                    let did = self.did_counter.inc_one();
                    proof {
                        self.ty_dids@ = self.ty_dids@.insert(did.0 as nat);
                    }
                    proof {
                        assert forall|d: nat| self.nodes@.contains_key(d) implies self.node_ok(
                            d,
                            self.nodes@[d],
                        ) by {
                            lemma_node_ok_mono(pre, *self, d, self.nodes@[d]);
                        }
                    }
                    table.ty.insert(name.duplicate(), did);
                },
            }
            proof {
                assert(items@.take(i + 1).drop_last() =~= items@.take(i as int));
                assert(items@.take(i + 1).last() == items@[i as int]);
                assert(ir::items_decl_count(items@.take(i + 1)) == ir::items_decl_count(
                    items@.take(i as int),
                ) + ir::item_decl_count(items@[i as int]));
            }
            i = i + 1;
        }
        proof {
            assert(items@.take(n as int) =~= items@);
        }
        Ok(table)
    }

    /// Pass 1 for one file: collects its top-level definitions into the
    /// file's symbol table.
    fn collect_file(&mut self, f: &ir::File) -> (r: Result<(), ResolveError>)
        requires
            old(self).inv(),
            ir::file_ok(*f),
        ensures
            final(self).inv(),
            final(self).collect_grows(*old(self)),
            (forall|j: int| 0 <= j < f.items@.len() ==> (#[trigger] f.items@[j]).kind is Use)
                ==> r is Ok && final(self).spec_did_counter() == old(self).spec_did_counter(),
            r is Ok ==> final(self).spec_did_counter() == old(self).spec_did_counter()
                + ir::items_decl_count(f.items@),
            match r {
                Ok(_) => final(self).file_sym_map@ == old(self).file_sym_map@.insert(
                    f.id.0 as nat,
                    final(self).file_sym_map@[f.id.0 as nat],
                ) && final(self).file_sym_map@.contains_key(f.id.0 as nat),
                Err(_) => true,
            },
    {
        let table = match self.collect_items(&f.items) {
            Ok(t) => t,
            Err(e) => {
                return Err(e);
            },
        };
        self.file_sym_map.insert(f.id.as_usize(), table);
        Ok(())
    }
}

/// The namespace's map of a scope's table.
pub open spec fn ns_map(t: SymbolTable, ns: Namespace) -> Map<Seq<u8>, DefId> {
    match ns {
        Namespace::Value => t.value@,
        Namespace::Ty => t.ty@,
    }
}

/// The first binding of `sym` in an import list.
pub open spec fn spec_uses_get(uses: Seq<(Symbol, FileId)>, sym: Seq<u8>) -> Option<FileId>
    decreases uses.len(),
{
    if uses.len() == 0 {
        None
    } else if uses[0].0@ == sym {
        Some(uses[0].1)
    } else {
        spec_uses_get(uses.drop_first(), sym)
    }
}

impl Resolver {
    /// The symbol table a scope key names.
    pub closed spec fn spec_scope_table(&self, s: ScopeRef) -> Option<SymbolTable> {
        match s {
            ScopeRef::File(f) => if self.file_sym_map@.contains_key(f.0 as nat) {
                Some(self.file_sym_map@[f.0 as nat])
            } else {
                None
            },
            ScopeRef::Mod(d) => if self.def_modules@.contains_key(d.0 as nat) {
                Some(self.def_modules@[d.0 as nat])
            } else {
                None
            },
        }
    }

    /// One scope's answer for a symbol: the direct binding, or the fuzzy
    /// fallback through a mod whose name is the symbol's snake-case form.
    pub closed spec fn spec_resolve_in_scope(
        &self,
        s: ScopeRef,
        ns: Namespace,
        sym: Seq<u8>,
    ) -> Option<DefId> {
        match self.spec_scope_table(s) {
            None => None,
            Some(t) => {
                let m = ns_map(t, ns);
                if m.contains_key(sym) {
                    Some(m[sym])
                } else {
                    let sn = crate::symbol::snake_bytes(sym);
                    if m.contains_key(sn) && self.def_modules@.contains_key(m[sn].0 as nat)
                        && ns_map(self.def_modules@[m[sn].0 as nat], ns).contains_key(sym) {
                        Some(ns_map(self.def_modules@[m[sn].0 as nat], ns)[sym])
                    } else {
                        None
                    }
                }
            },
        }
    }

    /// The innermost answer among the first `k` scopes of the stack.
    pub closed spec fn spec_resolve_blocks(&self, k: int, ns: Namespace, sym: Seq<u8>) -> Option<
        DefId,
    >
        decreases k,
    {
        if k <= 0 {
            None
        } else {
            match self.spec_resolve_in_scope(self.blocks@[k - 1], ns, sym) {
                Some(d) => Some(d),
                None => self.spec_resolve_blocks(k - 1, ns, sym),
            }
        }
    }

    /// What name resolution answers: the scope stack from innermost to
    /// outermost, then the current file's imports.
    pub closed spec fn spec_resolve_sym(
        &self,
        uses: Seq<(Symbol, FileId)>,
        ns: Namespace,
        sym: Seq<u8>,
    ) -> Option<ModuleId> {
        match self.spec_resolve_blocks(self.blocks@.len() as int, ns, sym) {
            Some(d) => Some(ModuleId::Node(d)),
            None => match spec_uses_get(uses, sym) {
                Some(f) => Some(ModuleId::File(f)),
                None => None,
            },
        }
    }
}

/// A direct binding in the innermost scope wins: when the scope on top of
/// the stack binds the symbol in the requested namespace, resolution returns
/// exactly that binding.
pub proof fn lemma_innermost_binding_wins(
    r: Resolver,
    uses: Seq<(Symbol, FileId)>,
    ns: Namespace,
    sym: Seq<u8>,
)
    requires
        r.spec_blocks().len() > 0,
        r.spec_scope_table(r.spec_blocks().last()) is Some,
        ns_map(r.spec_scope_table(r.spec_blocks().last())->Some_0, ns).contains_key(sym),
    ensures
        r.spec_resolve_sym(uses, ns, sym) == Some(
            ModuleId::Node(ns_map(r.spec_scope_table(r.spec_blocks().last())->Some_0, ns)[sym]),
        ),
{
    let k = r.spec_blocks().len() as int;
    assert(r.spec_resolve_blocks(k, ns, sym) == r.spec_resolve_in_scope(
        r.blocks@[k - 1],
        ns,
        sym,
    ));
}

/// The first variant of the list carrying this name, if any.
pub open spec fn spec_find_variant(vs: Seq<Arc<rir::EnumVariant>>, ident: Seq<u8>) -> Option<DefId>
    decreases vs.len(),
{
    if vs.len() == 0 {
        None
    } else if (*vs[0]).name@ == ident {
        Some((*vs[0]).did)
    } else {
        spec_find_variant(vs.drop_first(), ident)
    }
}

impl Resolver {
    /// One step of the segment walk: through a file's symbol table, a mod's
    /// symbol table, or an enum's variants; anything else ends the walk.
    pub closed spec fn spec_path_step(
        &self,
        cur: ModuleId,
        ident: Seq<u8>,
        use_ns: Namespace,
    ) -> Option<ModuleId> {
        match cur {
            ModuleId::File(fid) => {
                if self.file_sym_map@.contains_key(fid.0 as nat) {
                    let m = ns_map(self.file_sym_map@[fid.0 as nat], use_ns);
                    if m.contains_key(ident) {
                        Some(ModuleId::Node(m[ident]))
                    } else {
                        None
                    }
                } else {
                    None
                }
            },
            ModuleId::Node(did) => {
                if self.nodes@.contains_key(did.0 as nat) {
                    match self.nodes@[did.0 as nat].kind {
                        NodeKind::Item(it) => match *it {
                            rir::Item::Enum(e) => match spec_find_variant(e.variants@, ident) {
                                Some(d) => Some(ModuleId::Node(d)),
                                None => None,
                            },
                            rir::Item::Mod(_) => {
                                if self.def_modules@.contains_key(did.0 as nat) {
                                    let m = ns_map(self.def_modules@[did.0 as nat], use_ns);
                                    if m.contains_key(ident) {
                                        Some(ModuleId::Node(m[ident]))
                                    } else {
                                        None
                                    }
                                } else {
                                    None
                                }
                            },
                            _ => None,
                        },
                        _ => None,
                    }
                } else {
                    None
                }
            },
        }
    }

    /// The walk over the segments from position `i` on: intermediate steps in
    /// the type namespace, the terminal step in the caller's; the walk must
    /// end on a definition, not a file handle.
    pub closed spec fn spec_walk(
        &self,
        cur: ModuleId,
        segs: Seq<Seq<u8>>,
        i: int,
        ns: Namespace,
    ) -> Option<DefId>
        decreases segs.len() - i,
    {
        if i >= segs.len() {
            match cur {
                ModuleId::Node(d) => Some(d),
                ModuleId::File(_) => None,
            }
        } else {
            let use_ns = if i == segs.len() - 1 {
                ns
            } else {
                Namespace::Ty
            };
            match self.spec_path_step(cur, segs[i], use_ns) {
                Some(m) => self.spec_walk(m, segs, i + 1, ns),
                None => None,
            }
        }
    }

    /// What the first segment resolves to: for a value, the value namespace
    /// first and the type namespace second; for a type, the type namespace
    /// only.
    pub closed spec fn spec_first_seg(
        &self,
        uses: Seq<(Symbol, FileId)>,
        ns: Namespace,
        sym: Seq<u8>,
    ) -> Option<ModuleId> {
        match ns {
            Namespace::Ty => self.spec_resolve_sym(uses, Namespace::Ty, sym),
            Namespace::Value => match self.spec_resolve_sym(uses, Namespace::Value, sym) {
                Some(m) => Some(m),
                None => self.spec_resolve_sym(uses, Namespace::Ty, sym),
            },
        }
    }

    /// What a whole reference resolves to: the first segment through the
    /// scope stack and imports, the rest through the segment walk.
    pub closed spec fn spec_lower_path(
        &self,
        uses: Seq<(Symbol, FileId)>,
        segs: Seq<Seq<u8>>,
        ns: Namespace,
    ) -> Option<DefId> {
        match self.spec_first_seg(uses, ns, segs[0]) {
            Some(m) => self.spec_walk(m, segs, 1, ns),
            None => None,
        }
    }
}

impl Resolver {
    /// The innermost answer among the given scopes (the last is innermost).
    pub closed spec fn spec_resolve_scopes(
        &self,
        scope: Seq<ScopeRef>,
        ns: Namespace,
        sym: Seq<u8>,
    ) -> Option<DefId>
        decreases scope.len(),
    {
        if scope.len() == 0 {
            None
        } else {
            match self.spec_resolve_in_scope(scope.last(), ns, sym) {
                Some(d) => Some(d),
                None => self.spec_resolve_scopes(scope.drop_last(), ns, sym),
            }
        }
    }

    /// Single-symbol resolution under an explicit scope stack.
    pub closed spec fn spec_resolve_sym_in(
        &self,
        scope: Seq<ScopeRef>,
        uses: Seq<(Symbol, FileId)>,
        ns: Namespace,
        sym: Seq<u8>,
    ) -> Option<ModuleId> {
        match self.spec_resolve_scopes(scope, ns, sym) {
            Some(d) => Some(ModuleId::Node(d)),
            None => match spec_uses_get(uses, sym) {
                Some(f) => Some(ModuleId::File(f)),
                None => None,
            },
        }
    }

    /// First-segment resolution under an explicit scope stack.
    pub closed spec fn spec_first_seg_in(
        &self,
        scope: Seq<ScopeRef>,
        uses: Seq<(Symbol, FileId)>,
        ns: Namespace,
        sym: Seq<u8>,
    ) -> Option<ModuleId> {
        match ns {
            Namespace::Ty => self.spec_resolve_sym_in(scope, uses, Namespace::Ty, sym),
            Namespace::Value => match self.spec_resolve_sym_in(scope, uses, Namespace::Value, sym) {
                Some(m) => Some(m),
                None => self.spec_resolve_sym_in(scope, uses, Namespace::Ty, sym),
            },
        }
    }

    /// Whole-reference resolution under an explicit scope stack.
    pub closed spec fn spec_lower_path_in(
        &self,
        scope: Seq<ScopeRef>,
        uses: Seq<(Symbol, FileId)>,
        segs: Seq<Seq<u8>>,
        ns: Namespace,
    ) -> Option<DefId> {
        match self.spec_first_seg_in(scope, uses, ns, segs[0]) {
            Some(m) => self.spec_walk(m, segs, 1, ns),
            None => None,
        }
    }

    /// The resolution-relevant state of `self` extends that of `base`: the
    /// frozen symbol tables are the same and the node and tag tables have
    /// only gained entries.
    pub closed spec fn resolution_extends(&self, base: Resolver) -> bool {
        &&& self.file_sym_map == base.file_sym_map
        &&& self.def_modules == base.def_modules
        &&& forall|d: nat| #[trigger]
            base.nodes@.contains_key(d) ==> self.nodes@.contains_key(d) && self.nodes@[d]
                == base.nodes@[d]
    }
}

proof fn lemma_resolve_blocks_as_scopes(r: Resolver, k: int, ns: Namespace, sym: Seq<u8>)
    requires
        0 <= k <= r.spec_blocks().len(),
    ensures
        r.spec_resolve_blocks(k, ns, sym) == r.spec_resolve_scopes(
            r.spec_blocks().take(k),
            ns,
            sym,
        ),
    decreases k,
{
    if k > 0 {
        lemma_resolve_blocks_as_scopes(r, k - 1, ns, sym);
        assert(r.spec_blocks().take(k).last() == r.spec_blocks()[k - 1]);
        assert(r.spec_blocks().take(k).drop_last() =~= r.spec_blocks().take(k - 1));
    }
}

/// Under the resolver's own scope stack, explicit-scope single-symbol
/// resolution is exactly `spec_resolve_sym`.
pub proof fn lemma_resolve_sym_in_blocks(
    r: Resolver,
    uses: Seq<(Symbol, FileId)>,
    ns: Namespace,
    sym: Seq<u8>,
)
    ensures
        r.spec_resolve_sym_in(r.spec_blocks(), uses, ns, sym) == r.spec_resolve_sym(uses, ns, sym),
{
    let len = r.spec_blocks().len() as int;
    lemma_resolve_blocks_as_scopes(r, len, ns, sym);
    assert(r.spec_blocks().take(len) =~= r.spec_blocks());
}

/// Under the resolver's own scope stack, the explicit-scope resolution is
/// exactly `spec_lower_path`.
pub proof fn lemma_lower_path_in_blocks(
    r: Resolver,
    uses: Seq<(Symbol, FileId)>,
    segs: Seq<Seq<u8>>,
    ns: Namespace,
)
    ensures
        r.spec_lower_path_in(r.spec_blocks(), uses, segs, ns) == r.spec_lower_path(uses, segs, ns),
{
    let len = r.spec_blocks().len() as int;
    lemma_resolve_blocks_as_scopes(r, len, Namespace::Ty, segs[0]);
    lemma_resolve_blocks_as_scopes(r, len, Namespace::Value, segs[0]);
    assert(r.spec_blocks().take(len) =~= r.spec_blocks());
}

proof fn lemma_resolve_in_scope_ext(
    r1: Resolver,
    r2: Resolver,
    s: ScopeRef,
    ns: Namespace,
    sym: Seq<u8>,
)
    requires
        r2.resolution_extends(r1),
    ensures
        r2.spec_resolve_in_scope(s, ns, sym) == r1.spec_resolve_in_scope(s, ns, sym),
{
    assert(r2.spec_scope_table(s) == r1.spec_scope_table(s));
}

proof fn lemma_resolve_scopes_ext(
    r1: Resolver,
    r2: Resolver,
    scope: Seq<ScopeRef>,
    ns: Namespace,
    sym: Seq<u8>,
)
    requires
        r2.resolution_extends(r1),
    ensures
        r2.spec_resolve_scopes(scope, ns, sym) == r1.spec_resolve_scopes(scope, ns, sym),
    decreases scope.len(),
{
    if scope.len() > 0 {
        lemma_resolve_in_scope_ext(r1, r2, scope.last(), ns, sym);
        lemma_resolve_scopes_ext(r1, r2, scope.drop_last(), ns, sym);
    }
}

proof fn lemma_first_seg_in_ext(
    r1: Resolver,
    r2: Resolver,
    scope: Seq<ScopeRef>,
    uses: Seq<(Symbol, FileId)>,
    ns: Namespace,
    sym: Seq<u8>,
)
    requires
        r2.resolution_extends(r1),
    ensures
        r2.spec_first_seg_in(scope, uses, ns, sym) == r1.spec_first_seg_in(scope, uses, ns, sym),
{
    lemma_resolve_scopes_ext(r1, r2, scope, Namespace::Ty, sym);
    lemma_resolve_scopes_ext(r1, r2, scope, Namespace::Value, sym);
}

proof fn lemma_path_step_ext(
    r1: Resolver,
    r2: Resolver,
    cur: ModuleId,
    ident: Seq<u8>,
    use_ns: Namespace,
)
    requires
        r2.resolution_extends(r1),
        r1.spec_path_step(cur, ident, use_ns) is Some,
    ensures
        r2.spec_path_step(cur, ident, use_ns) == r1.spec_path_step(cur, ident, use_ns),
{
}

proof fn lemma_walk_ext(
    r1: Resolver,
    r2: Resolver,
    cur: ModuleId,
    segs: Seq<Seq<u8>>,
    i: int,
    ns: Namespace,
)
    requires
        r2.resolution_extends(r1),
        r1.spec_walk(cur, segs, i, ns) is Some,
    ensures
        r2.spec_walk(cur, segs, i, ns) == r1.spec_walk(cur, segs, i, ns),
    decreases segs.len() - i,
{
    if i < segs.len() {
        let use_ns = if i == segs.len() - 1 {
            ns
        } else {
            Namespace::Ty
        };
        lemma_path_step_ext(r1, r2, cur, segs[i], use_ns);
        match r1.spec_path_step(cur, segs[i], use_ns) {
            Some(m) => {
                lemma_walk_ext(r1, r2, m, segs, i + 1, ns);
            },
            None => {},
        }
    }
}

/// A reference that resolved keeps its target when the node table grows and
/// the symbol tables stay frozen.
pub proof fn lemma_lower_path_in_ext(
    r1: Resolver,
    r2: Resolver,
    scope: Seq<ScopeRef>,
    uses: Seq<(Symbol, FileId)>,
    segs: Seq<Seq<u8>>,
    ns: Namespace,
)
    requires
        r2.resolution_extends(r1),
        r1.spec_lower_path_in(scope, uses, segs, ns) is Some,
    ensures
        r2.spec_lower_path_in(scope, uses, segs, ns) == r1.spec_lower_path_in(
            scope,
            uses,
            segs,
            ns,
        ),
{
    lemma_first_seg_in_ext(r1, r2, scope, uses, ns, segs[0]);
    match r1.spec_first_seg_in(scope, uses, ns, segs[0]) {
        Some(m) => {
            lemma_walk_ext(r1, r2, m, segs, 1, ns);
        },
        None => {},
    }
}

/// Name resolution is idempotent: in one scope state, resolving a symbol
/// twice yields the same answer.
pub proof fn lemma_resolution_idempotent(
    r: Resolver,
    uses: Seq<(Symbol, FileId)>,
    ns: Namespace,
    sym: Seq<u8>,
    first: Option<ModuleId>,
    second: Option<ModuleId>,
)
    requires
        first == r.spec_resolve_sym(uses, ns, sym),
        second == r.spec_resolve_sym(uses, ns, sym),
    ensures
        first == second,
{
}

/// The first binding of `sym` in an import list.
fn uses_get(uses: &Vec<(Symbol, FileId)>, sym: &Symbol) -> (r: Option<FileId>)
    ensures
        r == spec_uses_get(uses@, sym@),
{
    let n = uses.len();
    let mut i: usize = 0;
    proof {
        assert(uses@.skip(0) =~= uses@);
    }
    while i < n
        invariant
            n == uses@.len(),
            0 <= i <= n,
            spec_uses_get(uses@, sym@) == spec_uses_get(uses@.skip(i as int), sym@),
        decreases n - i,
    {
        proof {
            assert(uses@.skip(i as int)[0] == uses@[i as int]);
            assert(uses@.skip(i as int).drop_first() =~= uses@.skip(i + 1));
        }
        if uses[i].0.eq_sym(sym) {
            return Some(uses[i].1);
        }
        i = i + 1;
    }
    proof {
        assert(uses@.skip(n as int).len() == 0);
    }
    None
}

impl Resolver {
    /// The table of one scope key, if its map holds it.
    fn scope_table(&self, s: ScopeRef) -> (r: Option<&SymbolTable>)
        requires
            self.inv(),
        ensures
            match r {
                Some(t) => self.spec_scope_table(s) == Some(*t) && self.table_ok(*t),
                None => self.spec_scope_table(s) is None,
            },
    {
        match s {
            ScopeRef::File(f) => self.file_sym_map.get(f.as_usize()),
            ScopeRef::Mod(d) => self.def_modules.get(d.as_usize()),
        }
    }

    /// One scope's answer for a symbol: a direct hit in the requested
    /// namespace, else the Protobuf fuzzy fallback, which follows the
    /// symbol's snake-case form to a mod and looks the symbol up inside it.
    fn resolve_in_scope(&self, s: ScopeRef, ns: Namespace, sym: &Symbol) -> (r: Option<DefId>)
        requires
            self.inv(),
        ensures
            r == self.spec_resolve_in_scope(s, ns, sym@),
            match r {
                Some(d) => {
                    &&& d.0 < self.spec_did_counter()
                    &&& (ns == Namespace::Value ==> self.spec_val_dids().contains(d.0 as nat))
                    &&& (ns == Namespace::Ty ==> self.spec_ty_dids().contains(d.0 as nat))
                },
                None => true,
            },
    {
        let table = match self.scope_table(s) {
            Some(t) => t,
            None => {
                return None;
            },
        };
        let m = match ns {
            Namespace::Value => &table.value,
            Namespace::Ty => &table.ty,
        };
        let direct = m.get(sym);
        match direct {
            Some(d) => Some(d),
            None => {
                let sn = sym.to_snake_case();
                let fuzzy = m.get(&sn);
                match fuzzy {
                    Some(mid) => {
                        let inner = self.def_modules.get(mid.as_usize());
                        match inner {
                            Some(t2) => {
                                let m2 = match ns {
                                    Namespace::Value => &t2.value,
                                    Namespace::Ty => &t2.ty,
                                };
                                m2.get(sym)
                            },
                            None => None,
                        }
                    },
                    None => None,
                }
            },
        }
    }

    /// Resolves a single symbol: each scope on the stack from innermost to
    /// outermost, then the current file's imports.
    fn resolve_sym(
        &self,
        uses: &Vec<(Symbol, FileId)>,
        ns: Namespace,
        sym: &Symbol,
    ) -> (r: Option<ModuleId>)
        requires
            self.inv(),
        ensures
            r == self.spec_resolve_sym(uses@, ns, sym@),
            match r {
                Some(ModuleId::Node(d)) => {
                    &&& d.0 < self.spec_did_counter()
                    &&& (ns == Namespace::Value ==> self.spec_val_dids().contains(d.0 as nat))
                    &&& (ns == Namespace::Ty ==> self.spec_ty_dids().contains(d.0 as nat))
                },
                _ => true,
            },
    {
        let mut k = self.blocks.len();
        proof {
            assert(self.spec_resolve_blocks(self.blocks@.len() as int, ns, sym@)
                == self.spec_resolve_blocks(k as int, ns, sym@));
        }
        while k > 0
            invariant
                self.inv(),
                k <= self.blocks@.len(),
                self.spec_resolve_blocks(self.blocks@.len() as int, ns, sym@)
                    == self.spec_resolve_blocks(k as int, ns, sym@),
            decreases k,
        {
            let s = self.blocks[k - 1];
            let hit = self.resolve_in_scope(s, ns, sym);
            match hit {
                Some(d) => {
                    return Some(ModuleId::Node(d));
                },
                None => {},
            }
            k = k - 1;
        }
        let filed = uses_get(uses, sym);
        match filed {
            Some(f) => Some(ModuleId::File(f)),
            None => None,
        }
    }
}

impl Resolver {
    /// Mints a tag id and stores the bag under it.
    fn store_tags(&mut self, bag: &Tags) -> (r: Result<TagId, ResolveError>)
        requires
            old(self).inv(),
            bag.wf(),
        ensures
            final(self).inv(),
            final(self).lower_grows(*old(self)),
            final(self).nodes == old(self).nodes,
            final(self).did_counter == old(self).did_counter,
            final(self).blocks@ == old(self).blocks@,
            final(self).cur_file == old(self).cur_file,
            final(self).parent_node == old(self).parent_node,
            final(self).origin_fids == old(self).origin_fids,
            match r {
                Ok(tid) => {
                    &&& !old(self).spec_tags().contains_key(tid.0 as nat)
                    &&& final(self).spec_tags().contains_key(tid.0 as nat)
                    &&& final(self).spec_tags()[tid.0 as nat]@ == bag@
                    &&& final(self).spec_tags() == old(self).spec_tags().insert(
                        tid.0 as nat,
                        final(self).spec_tags()[tid.0 as nat],
                    )
                },
                Err(_) => true,
            },
    {
        if self.tags_counter.as_usize() == usize::MAX {
            return Err(ResolveError::LimitExceeded);
        }
        let ghost pre = *self;
        let tid = self.tags_counter.inc_one();
        self.tags.insert(tid.as_usize(), bag.duplicate());
        proof {
            assert forall|d: nat| self.nodes@.contains_key(d) implies self.node_ok(
                d,
                self.nodes@[d],
            ) by {
                lemma_node_ok_mono(pre, *self, d, self.nodes@[d]);
            }
        }
        Ok(tid)
    }

    /// Inserts one finished node under its id.
    fn insert_node(&mut self, did: DefId, n: Node) -> (r: Result<(), ResolveError>)
        requires
            old(self).inv(),
            did.0 < old(self).spec_did_counter(),
            node_dids_lt(n, old(self).spec_did_counter()),
            node_tags_in(n, old(self).spec_tags().dom()),
            node_names_snake(n),
            old(self).spec_fids().contains(n.file_id.0 as nat),
            old(self).spec_val_dids().contains(did.0 as nat) ==> is_const_item(n),
            old(self).spec_ty_dids().contains(did.0 as nat) ==> is_type_item(n),
        ensures
            final(self).inv(),
            final(self).lower_grows(*old(self)),
            final(self).did_counter == old(self).did_counter,
            final(self).tags == old(self).tags,
            final(self).tags_counter == old(self).tags_counter,
            final(self).blocks@ == old(self).blocks@,
            final(self).cur_file == old(self).cur_file,
            final(self).parent_node == old(self).parent_node,
            match r {
                Ok(_) => {
                    &&& !old(self).spec_nodes().contains_key(did.0 as nat)
                    &&& final(self).spec_nodes() == old(self).spec_nodes().insert(did.0 as nat, n)
                    &&& final(self).spec_origin_fids() == old(self).spec_origin_fids().insert(
                        n.file_id.0 as nat,
                    )
                },
                Err(_) => *final(self) == *old(self),
            },
    {
        if self.nodes.contains(did.as_usize()) {
            return Err(ResolveError::InvalidNodeShape);
        }
        let ghost pre = *self;
        proof {
            self.origin_fids@ = self.origin_fids@.insert(n.file_id.0 as nat);
        }
        self.nodes.insert(did.as_usize(), n);
        proof {
            assert forall|d: nat| self.nodes@.contains_key(d) implies self.node_ok(
                d,
                self.nodes@[d],
            ) by {
                if d != did.0 as nat {
                    lemma_node_ok_mono(pre, *self, d, self.nodes@[d]);
                }
            }
        }
        Ok(())
    }

    /// Resolves a multi-segment reference: the first segment through the
    /// scope stack (for a value, first in the value namespace, then in the
    /// type namespace), each later segment through a file's table, a mod's
    /// table or an enum's variants; the terminal segment uses the caller's
    /// namespace, intermediate ones the type namespace. Succeeds exactly when
    /// the walk does, and returns the definition the walk reaches.
    fn lower_path(
        &self,
        uses: &Vec<(Symbol, FileId)>,
        p: &ir::Path,
        ns: Namespace,
    ) -> (r: Result<rir::Path, ResolveError>)
        requires
            self.inv(),
            p.segments@.len() > 0,
        ensures
            (r is Ok) == (self.spec_lower_path(
                uses@,
                crate::symbol::syms_view(p.segments@),
                ns,
            ) is Some),
            match r {
                Ok(rp) => {
                    &&& rp.did.0 < self.spec_did_counter()
                    &&& rp.kind == (match ns {
                        Namespace::Value => DefKind::Value,
                        Namespace::Ty => DefKind::Type,
                    })
                    &&& Some(rp.did) == self.spec_lower_path(
                        uses@,
                        crate::symbol::syms_view(p.segments@),
                        ns,
                    )
                },
                Err(_) => true,
            },
    {
        let ghost sv = crate::symbol::syms_view(p.segments@);
        proof {
            assert(sv.len() == p.segments@.len());
            assert(sv[0] == p.segments@[0]@);
        }
        let first = &p.segments[0];
        let start = match ns {
            Namespace::Value => {
                let v = self.resolve_sym(uses, Namespace::Value, first);
                match v {
                    Some(m) => Some(m),
                    None => self.resolve_sym(uses, Namespace::Ty, first),
                }
            },
            Namespace::Ty => self.resolve_sym(uses, Namespace::Ty, first),
        };
        proof {
            assert(start == self.spec_first_seg(uses@, ns, sv[0]));
        }
        let mut module_id = match start {
            Some(m) => m,
            None => {
                return Err(ResolveError::Undefined(first.duplicate()));
            },
        };

        let plen = p.segments.len();
        let mut si: usize = 1;
        while si < plen
            invariant
                self.inv(),
                sv == crate::symbol::syms_view(p.segments@),
                sv.len() == plen,
                plen == p.segments@.len(),
                1 <= si <= plen,
                module_id matches ModuleId::Node(d) ==> d.0 < self.spec_did_counter(),
                self.spec_lower_path(uses@, sv, ns) == self.spec_walk(
                    module_id,
                    sv,
                    si as int,
                    ns,
                ),
            decreases plen - si,
        {
            let ident = &p.segments[si];
            proof {
                assert(sv[si as int] == p.segments@[si as int]@);
            }
            let use_ns = if si == plen - 1 {
                ns
            } else {
                Namespace::Ty
            };
            let ghost step = self.spec_path_step(module_id, sv[si as int], use_ns);
            let next = match module_id {
                ModuleId::File(fid) => {
                    let table = match self.file_sym_map.get(fid.as_usize()) {
                        Some(t) => t,
                        None => {
                            proof {
                                assert(step is None);
                            }
                            return Err(ResolveError::MissingNested(ident.duplicate()));
                        },
                    };
                    let m = match use_ns {
                        Namespace::Value => &table.value,
                        Namespace::Ty => &table.ty,
                    };
                    match m.get(ident) {
                        Some(d) => ModuleId::Node(d),
                        None => {
                            proof {
                                assert(step is None);
                            }
                            return Err(ResolveError::MissingNested(ident.duplicate()));
                        },
                    }
                },
                ModuleId::Node(did) => {
                    let node = match self.nodes.get(did.as_usize()) {
                        Some(n) => n,
                        None => {
                            proof {
                                assert(step is None);
                            }
                            return Err(ResolveError::MissingNested(ident.duplicate()));
                        },
                    };
                    match &node.kind {
                        NodeKind::Item(item) => match &**item {
                            rir::Item::Enum(e) => {
                                let vn = e.variants.len();
                                let mut vi: usize = 0;
                                proof {
                                    assert(e.variants@.skip(0) =~= e.variants@);
                                }
                                let mut hit: Option<DefId> = None;
                                while vi < vn
                                    invariant
                                        self.inv(),
                                        vn == e.variants@.len(),
                                        0 <= vi <= vn,
                                        self.spec_nodes().contains_key(did.0 as nat),
                                        self.spec_nodes()[did.0 as nat].kind matches
                                            NodeKind::Item(it) && *it matches rir::Item::Enum(e2)
                                            && e2 == *e,
                                        match hit {
                                            Some(d) => spec_find_variant(e.variants@, ident@)
                                                == Some(d) && d.0 < self.spec_did_counter(),
                                            None => spec_find_variant(e.variants@, ident@)
                                                == spec_find_variant(
                                                e.variants@.skip(vi as int),
                                                ident@,
                                            ),
                                        },
                                    decreases vn - vi,
                                {
                                    match hit {
                                        Some(_) => {
                                        },
                                        None => {
                                            proof {
                                                assert(e.variants@.skip(vi as int)[0]
                                                    == e.variants@[vi as int]);
                                                assert(e.variants@.skip(vi as int).drop_first()
                                                    =~= e.variants@.skip(vi + 1));
                                            }
                                            let v = &e.variants[vi];
                                            if v.name.eq_sym(ident) {
                                                proof {
                                                    assert(self.node_ok(
                                                        did.0 as nat,
                                                        self.spec_nodes()[did.0 as nat],
                                                    ));
                                                    assert((*e.variants@[vi as int]).did.0
                                                        < self.spec_did_counter());
                                                }
                                                hit = Some(v.did);
                                            }
                                        },
                                    }
                                    vi = vi + 1;
                                }
                                proof {
                                    if hit is None {
                                        assert(e.variants@.skip(vn as int).len() == 0);
                                    }
                                }
                                match hit {
                                    Some(d) => ModuleId::Node(d),
                                    None => {
                                        proof {
                                            assert(step is None);
                                        }
                                        return Err(
                                            ResolveError::MissingNested(ident.duplicate()),
                                        );
                                    },
                                }
                            },
                            rir::Item::Mod(_) => {
                                let table = match self.def_modules.get(did.as_usize()) {
                                    Some(t) => t,
                                    None => {
                                        proof {
                                            assert(step is None);
                                        }
                                        return Err(
                                            ResolveError::MissingNested(ident.duplicate()),
                                        );
                                    },
                                };
                                let m = match use_ns {
                                    Namespace::Value => &table.value,
                                    Namespace::Ty => &table.ty,
                                };
                                match m.get(ident) {
                                    Some(d) => ModuleId::Node(d),
                                    None => {
                                        proof {
                                            assert(step is None);
                                        }
                                        return Err(
                                            ResolveError::MissingNested(ident.duplicate()),
                                        );
                                    },
                                }
                            },
                            _ => {
                                proof {
                                    assert(step is None);
                                }
                                return Err(ResolveError::InvalidPathStep);
                            },
                        },
                        _ => {
                            proof {
                                assert(step is None);
                            }
                            return Err(ResolveError::InvalidNodeShape);
                        },
                    }
                },
            };
            proof {
                assert(step == Some(next));
            }
            module_id = next;
            si = si + 1;
        }

        match module_id {
            ModuleId::File(_) => Err(ResolveError::InvalidPathStep),
            ModuleId::Node(did) => Ok(
                rir::Path {
                    kind: match ns {
                        Namespace::Value => DefKind::Value,
                        Namespace::Ty => DefKind::Type,
                    },
                    did,
                },
            ),
        }
    }

    /// Lowers a source type: a structural rewrite whose references resolve
    /// against the scope stack, paired with a freshly minted tag id.
    fn lower_type(&mut self, uses: &Vec<(Symbol, FileId)>, t: &ir::Ty) -> (r: Result<
        Ty,
        ResolveError,
    >)
        requires
            old(self).inv(),
            ir::ty_ok(*t),
        ensures
            final(self).inv(),
            final(self).lower_grows(*old(self)),
            final(self).nodes == old(self).nodes,
            final(self).did_counter == old(self).did_counter,
            final(self).blocks@ == old(self).blocks@,
            final(self).cur_file == old(self).cur_file,
            final(self).parent_node == old(self).parent_node,
            final(self).origin_fids == old(self).origin_fids,
            match r {
                Ok(rt) => ty_dids_lt(rt, final(self).spec_did_counter()) && ty_tags_in(
                    rt,
                    final(self).spec_tags().dom(),
                ) && lowers_to(
                    *final(self),
                    old(self).spec_blocks(),
                    uses@,
                    t.kind,
                    rt.kind,
                ) && final(self).spec_tags().contains_key(
                    rt.tags_id.0 as nat,
                ) && final(self).spec_tags()[rt.tags_id.0 as nat]@ == t.tags@,
                Err(_) => true,
            },
        decreases *t,
    {
        let ghost mut lowstate: Resolver = *self;
        let kind: TyKind = match &t.kind {
            ir::TyKind::String => TyKind::String,
            ir::TyKind::Void => TyKind::Void,
            ir::TyKind::U8 => TyKind::U8,
            ir::TyKind::Bool => TyKind::Bool,
            ir::TyKind::Bytes => TyKind::Bytes,
            ir::TyKind::I8 => TyKind::I8,
            ir::TyKind::I16 => TyKind::I16,
            ir::TyKind::I32 => TyKind::I32,
            ir::TyKind::I64 => TyKind::I64,
            ir::TyKind::F64 => TyKind::F64,
            ir::TyKind::Vec(inner) => {
                let li = match self.lower_type(uses, inner) {
                    Ok(x) => x,
                    Err(e) => {
                        return Err(e);
                    },
                };
                let kv = TyKind::Vec(Box::new(li));
                proof {
                    lowstate = *self;
                    assert(lowers_to(lowstate, old(self).spec_blocks(), uses@, t.kind, kv));
                }
                kv
            },
            ir::TyKind::SetOf(inner) => {
                let li = match self.lower_type(uses, inner) {
                    Ok(x) => x,
                    Err(e) => {
                        return Err(e);
                    },
                };
                let kv = TyKind::SetOf(Box::new(li));
                proof {
                    lowstate = *self;
                    assert(lowers_to(lowstate, old(self).spec_blocks(), uses@, t.kind, kv));
                }
                kv
            },
            ir::TyKind::MapOf(k, v) => {
                let lk = match self.lower_type(uses, k) {
                    Ok(x) => x,
                    Err(e) => {
                        return Err(e);
                    },
                };
                let ghost midk = *self;
                let lv = match self.lower_type(uses, v) {
                    Ok(x) => x,
                    Err(e) => {
                        return Err(e);
                    },
                };
                proof {
                    crate::rir::lemma_ty_tags_in_mono(
                        &lk,
                        midk.spec_tags().dom(),
                        self.spec_tags().dom(),
                    );
                }
                let kv = TyKind::MapOf(Box::new(lk), Box::new(lv));
                proof {
                    lowstate = *self;
                    lemma_lowers_to_ext(
                        midk,
                        lowstate,
                        old(self).spec_blocks(),
                        uses@,
                        &(**k).kind,
                        &lk.kind,
                    );
                    assert(lowers_to(lowstate, old(self).spec_blocks(), uses@, t.kind, kv));
                }
                kv
            },
            ir::TyKind::Path(pp) => {
                let rp = match self.lower_path(uses, pp, Namespace::Ty) {
                    Ok(x) => x,
                    Err(e) => {
                        return Err(e);
                    },
                };
                let kv = TyKind::Path(rp);
                proof {
                    lowstate = *self;
                    lemma_lower_path_in_blocks(
                        lowstate,
                        uses@,
                        crate::symbol::syms_view(pp.segments@),
                        Namespace::Ty,
                    );
                    assert(lowers_to(lowstate, old(self).spec_blocks(), uses@, t.kind, kv));
                }
                kv
            },
            ir::TyKind::UInt32 => vstd::pervasive::unreached(),
            ir::TyKind::UInt64 => vstd::pervasive::unreached(),
            ir::TyKind::F32 => vstd::pervasive::unreached(),
        };
        proof {
            match &t.kind {
                ir::TyKind::Vec(_) => {},
                ir::TyKind::SetOf(_) => {},
                ir::TyKind::MapOf(_, _) => {},
                ir::TyKind::Path(_) => {},
                _ => {
                    lowstate = *self;
                    assert(lowers_to(lowstate, old(self).spec_blocks(), uses@, t.kind, kind));
                },
            }
        }
        let ghost mid = *self;
        let tid = match self.store_tags(&t.tags) {
            Ok(x) => x,
            Err(e) => {
                return Err(e);
            },
        };
        let rt = Ty { kind, tags_id: tid };
        proof {
            match &rt.kind {
                TyKind::Vec(inner) => {
                    crate::rir::lemma_ty_tags_in_mono(
                        &**inner,
                        mid.spec_tags().dom(),
                        self.spec_tags().dom(),
                    );
                },
                TyKind::SetOf(inner) => {
                    crate::rir::lemma_ty_tags_in_mono(
                        &**inner,
                        mid.spec_tags().dom(),
                        self.spec_tags().dom(),
                    );
                },
                TyKind::MapOf(k, v) => {
                    crate::rir::lemma_ty_tags_in_mono(
                        &**k,
                        mid.spec_tags().dom(),
                        self.spec_tags().dom(),
                    );
                    crate::rir::lemma_ty_tags_in_mono(
                        &**v,
                        mid.spec_tags().dom(),
                        self.spec_tags().dom(),
                    );
                },
                _ => {},
            }
            lemma_lowers_to_ext(
                lowstate,
                *self,
                old(self).spec_blocks(),
                uses@,
                &t.kind,
                &rt.kind,
            );
        }
        Ok(rt)
    }
}

/// The node table holds the field's node: a `Field` entry under the field's
/// own id, carrying the lowered field itself, the enclosing item as parent,
/// the owning file, and the source attribute bag under its tag id.
pub open spec fn field_node_of(
    nodes: Map<nat, Node>,
    tags: Map<nat, Tags>,
    rf: rir::Field,
    parent: Option<DefId>,
    fid: FileId,
    bag: Tags,
) -> bool {
    &&& nodes.contains_key(rf.did.0 as nat)
    &&& {
        let n = nodes[rf.did.0 as nat];
        &&& n.kind matches NodeKind::Field(g) && *g == rf
        &&& n.parent == parent
        &&& n.file_id == fid
        &&& tags.contains_key(n.tags.0 as nat)
        &&& tags[n.tags.0 as nat]@ == bag@
    }
}

impl Resolver {
    /// Lowers one field: a fresh id and tag set, the name canonicalized to
    /// snake case, the type lowered against the active scopes; inserts the
    /// field's node.
    fn lower_field(&mut self, uses: &Vec<(Symbol, FileId)>, f: &ir::Field) -> (r: Result<
        Arc<rir::Field>,
        ResolveError,
    >)
        requires
            old(self).inv(),
            old(self).cur_file is Some,
            ir::ty_ok(f.ty),
            f.tags.wf(),
        ensures
            final(self).inv(),
            final(self).lower_grows(*old(self)),
            final(self).blocks@ == old(self).blocks@,
            final(self).cur_file == old(self).cur_file,
            final(self).parent_node == old(self).parent_node,
            final(self).spec_origin_fids().subset_of(
                old(self).spec_origin_fids().insert(
                    old(self).cur_file->Some_0.0 as nat,
                ),
            ),
            match r {
                Ok(rf) => {
                    &&& final(self).spec_did_counter() == old(self).spec_did_counter() + 1
                    &&& (*rf).did.0 < final(self).spec_did_counter()
                    &&& ty_dids_lt((*rf).ty, final(self).spec_did_counter())
                    &&& ty_tags_in((*rf).ty, final(self).spec_tags().dom())
                    &&& crate::symbol::is_snake_case((*rf).name@)
                    &&& (*rf).name@ == crate::symbol::snake_bytes(f.name@)
                    &&& (*rf).id == f.id
                    &&& lowers_to(
                        *final(self),
                        old(self).spec_blocks(),
                        uses@,
                        f.ty.kind,
                        (*rf).ty.kind,
                    )
                    &&& ((*rf).kind == rir::FieldKind::Required) == (f.kind
                        == ir::FieldKind::Required)
                    &&& !old(self).spec_nodes().contains_key((*rf).did.0 as nat)
                    &&& field_node_of(
                        final(self).spec_nodes(),
                        final(self).spec_tags(),
                        *rf,
                        old(self).spec_parent_node(),
                        old(self).spec_cur_file()->Some_0,
                        f.tags,
                    )
                },
                Err(_) => true,
            },
    {
        if self.did_counter.as_usize() == usize::MAX {
            return Err(ResolveError::LimitExceeded);
        }
        let ghost pre = *self;
        let did = self.did_counter.inc_one();
        proof {
            assert forall|d: nat| self.nodes@.contains_key(d) implies self.node_ok(
                d,
                self.nodes@[d],
            ) by {
                lemma_node_ok_mono(pre, *self, d, self.nodes@[d]);
            }
        }
        let tid = match self.store_tags(&f.tags) {
            Ok(x) => x,
            Err(e) => {
                return Err(e);
            },
        };
        let ty = match self.lower_type(uses, &f.ty) {
            Ok(x) => x,
            Err(e) => {
                return Err(e);
            },
        };
        let ghost tystate = *self;
        let name = f.name.to_snake_case();
        proof {
            crate::symbol::lemma_snake_bytes_is_snake_case(f.name@);
        }
        let rf = Arc::new(
            rir::Field {
                did,
                id: f.id,
                kind: match f.kind {
                    ir::FieldKind::Required => rir::FieldKind::Required,
                    ir::FieldKind::Optional => rir::FieldKind::Optional,
                },
                name,
                ty,
            },
        );
        let file_id = match self.cur_file {
            Some(x) => x,
            None => vstd::pervasive::unreached(),
        };
        let node = Node {
            tags: tid,
            parent: self.parent_node,
            file_id,
            kind: NodeKind::Field(rir::share(&rf)),
        };
        proof {
            assert(!self.spec_val_dids().contains(did.0 as nat));
            assert(!self.spec_ty_dids().contains(did.0 as nat));
        }
        match self.insert_node(did, node) {
            Ok(_) => {},
            Err(e) => {
                return Err(e);
            },
        }
        proof {
            lemma_lowers_to_ext(
                tystate,
                *self,
                old(self).spec_blocks(),
                uses@,
                &f.ty.kind,
                &(*rf).ty.kind,
            );
        }
        Ok(rf)
    }

    /// Lowers a message: each field in order.
    fn lower_message(&mut self, uses: &Vec<(Symbol, FileId)>, s: &ir::Message) -> (r: Result<
        rir::Message,
        ResolveError,
    >)
        requires
            old(self).inv(),
            old(self).cur_file is Some,
            forall|i: int|
                0 <= i < s.fields@.len() ==> ir::ty_ok((#[trigger] s.fields@[i]).ty) && (
                #[trigger] s.fields@[i]).tags.wf(),
        ensures
            final(self).inv(),
            final(self).lower_grows(*old(self)),
            final(self).blocks@ == old(self).blocks@,
            final(self).cur_file == old(self).cur_file,
            final(self).parent_node == old(self).parent_node,
            final(self).spec_origin_fids().subset_of(
                old(self).spec_origin_fids().insert(
                    old(self).cur_file->Some_0.0 as nat,
                ),
            ),
            match r {
                Ok(rm) => {
                    &&& final(self).spec_did_counter() == old(self).spec_did_counter()
                        + s.fields@.len()
                    &&& rm.name@ == s.name@
                    &&& rm.fields@.len() == s.fields@.len()
                    &&& crate::rir::item_dids_lt(
                        rir::Item::Message(rm),
                        final(self).spec_did_counter(),
                    )
                    &&& crate::rir::item_tags_in(
                        rir::Item::Message(rm),
                        final(self).spec_tags().dom(),
                    )
                    &&& forall|i: int|
                        0 <= i < rm.fields@.len() ==> crate::symbol::is_snake_case(
                            (*(#[trigger] rm.fields@[i])).name@,
                        )
                    &&& forall|i: int|
                        0 <= i < rm.fields@.len() ==> {
                            &&& (*(#[trigger] rm.fields@[i])).name@ == crate::symbol::snake_bytes(
                                s.fields@[i].name@,
                            )
                            &&& (*rm.fields@[i]).id == s.fields@[i].id
                            &&& lowers_to(
                                *final(self),
                                old(self).spec_blocks(),
                                uses@,
                                s.fields@[i].ty.kind,
                                (*rm.fields@[i]).ty.kind,
                            )
                            &&& ((*rm.fields@[i]).kind == rir::FieldKind::Required) == (
                            s.fields@[i].kind == ir::FieldKind::Required)
                            &&& !old(self).spec_nodes().contains_key((*rm.fields@[i]).did.0 as nat)
                            &&& field_node_of(
                                final(self).spec_nodes(),
                                final(self).spec_tags(),
                                *rm.fields@[i],
                                old(self).spec_parent_node(),
                                old(self).spec_cur_file()->Some_0,
                                s.fields@[i].tags,
                            )
                        }
                    &&& forall|i: int, j: int|
                        0 <= i < j < rm.fields@.len() ==> (*(#[trigger] rm.fields@[i])).did != (*(
                        #[trigger] rm.fields@[j])).did
                },
                Err(_) => true,
            },
    {
        let n = s.fields.len();
        let mut out: Vec<Arc<rir::Field>> = Vec::new();
        let mut i: usize = 0;
        while i < n
            invariant
                self.inv(),
                self.lower_grows(*old(self)),
                self.blocks@ == old(self).blocks@,
                self.cur_file == old(self).cur_file,
                self.parent_node == old(self).parent_node,
                self.spec_origin_fids().subset_of(
                    old(self).spec_origin_fids().insert(
                        old(self).cur_file->Some_0.0 as nat,
                    ),
                ),
                old(self).cur_file is Some,
                n == s.fields@.len(),
                0 <= i <= n,
                out@.len() == i,
                self.spec_did_counter() == old(self).spec_did_counter() + i,
                forall|j: int|
                    0 <= j < n ==> ir::ty_ok((#[trigger] s.fields@[j]).ty) && (
                    #[trigger] s.fields@[j]).tags.wf(),
                forall|j: int|
                    0 <= j < i ==> {
                        &&& (*(#[trigger] out@[j])).did.0 < self.spec_did_counter()
                        &&& ty_dids_lt((*out@[j]).ty, self.spec_did_counter())
                        &&& ty_tags_in((*out@[j]).ty, self.spec_tags().dom())
                        &&& crate::symbol::is_snake_case((*out@[j]).name@)
                        &&& (*out@[j]).name@ == crate::symbol::snake_bytes(s.fields@[j].name@)
                        &&& (*out@[j]).id == s.fields@[j].id
                        &&& lowers_to(
                            *self,
                            old(self).spec_blocks(),
                            uses@,
                            s.fields@[j].ty.kind,
                            (*out@[j]).ty.kind,
                        )
                        &&& ((*out@[j]).kind == rir::FieldKind::Required) == (s.fields@[j].kind
                            == ir::FieldKind::Required)
                        &&& !old(self).spec_nodes().contains_key((*out@[j]).did.0 as nat)
                        &&& field_node_of(
                            self.spec_nodes(),
                            self.spec_tags(),
                            *out@[j],
                            old(self).spec_parent_node(),
                            old(self).spec_cur_file()->Some_0,
                            s.fields@[j].tags,
                        )
                    },
                forall|j1: int, j2: int|
                    0 <= j1 < j2 < i ==> (*(#[trigger] out@[j1])).did != (*(
                    #[trigger] out@[j2])).did,
            decreases n - i,
        {
            let ghost prei = *self;
            let rf = match self.lower_field(uses, &s.fields[i]) {
                Ok(x) => x,
                Err(e) => {
                    return Err(e);
                },
            };
            out.push(rf);
            proof {
                assert forall|j: int| 0 <= j < i + 1 implies {
                    &&& (*(#[trigger] out@[j])).did.0 < self.spec_did_counter()
                    &&& ty_dids_lt((*out@[j]).ty, self.spec_did_counter())
                    &&& ty_tags_in((*out@[j]).ty, self.spec_tags().dom())
                    &&& crate::symbol::is_snake_case((*out@[j]).name@)
                    &&& lowers_to(
                        *self,
                        old(self).spec_blocks(),
                        uses@,
                        s.fields@[j].ty.kind,
                        (*out@[j]).ty.kind,
                    )
                    &&& field_node_of(
                            self.spec_nodes(),
                            self.spec_tags(),
                            *out@[j],
                            old(self).spec_parent_node(),
                            old(self).spec_cur_file()->Some_0,
                            s.fields@[j].tags,
                        )
                } by {
                    if j < i {
                        crate::rir::lemma_ty_dids_lt_mono(
                            &(*out@[j]).ty,
                            prei.spec_did_counter(),
                            self.spec_did_counter(),
                        );
                        crate::rir::lemma_ty_tags_in_mono(
                            &(*out@[j]).ty,
                            prei.spec_tags().dom(),
                            self.spec_tags().dom(),
                        );
                        lemma_lowers_to_ext(
                            prei,
                            *self,
                            old(self).spec_blocks(),
                            uses@,
                            &s.fields@[j].ty.kind,
                            &(*out@[j]).ty.kind,
                        );
                        assert(prei.spec_nodes().contains_key((*out@[j]).did.0 as nat));
                    }
                }
                assert forall|j1: int, j2: int| 0 <= j1 < j2 < i + 1 implies (*(
                #[trigger] out@[j1])).did != (*(#[trigger] out@[j2])).did by {
                    if j2 == i {
                        assert(prei.spec_nodes().contains_key((*out@[j1]).did.0 as nat));
                        assert(!prei.spec_nodes().contains_key((*out@[j2]).did.0 as nat));
                    }
                }
            }
            i = i + 1;
        }
        Ok(rir::Message { name: s.name.duplicate(), fields: out })
    }

    /// Lowers a newtype alias.
    fn lower_type_alias(&mut self, uses: &Vec<(Symbol, FileId)>, t: &ir::NewType) -> (r: Result<
        rir::NewType,
        ResolveError,
    >)
        requires
            old(self).inv(),
            ir::ty_ok(t.ty),
        ensures
            final(self).inv(),
            final(self).lower_grows(*old(self)),
            final(self).nodes == old(self).nodes,
            final(self).did_counter == old(self).did_counter,
            final(self).blocks@ == old(self).blocks@,
            final(self).cur_file == old(self).cur_file,
            final(self).parent_node == old(self).parent_node,
            final(self).origin_fids == old(self).origin_fids,
            match r {
                Ok(rt) => ty_dids_lt(rt.ty, final(self).spec_did_counter()) && ty_tags_in(
                    rt.ty,
                    final(self).spec_tags().dom(),
                ) && rt.name@ == t.name@ && lowers_to(
                    *final(self),
                    old(self).spec_blocks(),
                    uses@,
                    t.ty.kind,
                    rt.ty.kind,
                ),
                Err(_) => true,
            },
    {
        let ty = match self.lower_type(uses, &t.ty) {
            Ok(x) => x,
            Err(e) => {
                return Err(e);
            },
        };
        Ok(rir::NewType { name: t.name.duplicate(), ty })
    }
}

/// The node table holds the variant's node: a `Variant` entry under the
/// variant's own id, carrying the lowered variant itself, the enclosing enum
/// as parent, the owning file, and the source attribute bag under its tag id.
pub open spec fn variant_node_of(
    nodes: Map<nat, Node>,
    tags: Map<nat, Tags>,
    rv: rir::EnumVariant,
    parent: Option<DefId>,
    fid: FileId,
    bag: Tags,
) -> bool {
    &&& nodes.contains_key(rv.did.0 as nat)
    &&& {
        let n = nodes[rv.did.0 as nat];
        &&& n.kind matches NodeKind::Variant(g) && *g == rv
        &&& n.parent == parent
        &&& n.file_id == fid
        &&& tags.contains_key(n.tags.0 as nat)
        &&& tags[n.tags.0 as nat]@ == bag@
    }
}

/// The node table holds the method's node: a `Method` entry under the
/// method's own id, carrying the lowered method itself, the enclosing service
/// as parent, the owning file, and the source attribute bag under its tag id.
pub open spec fn method_node_of(
    nodes: Map<nat, Node>,
    tags: Map<nat, Tags>,
    rm: rir::Method,
    parent: Option<DefId>,
    fid: FileId,
    bag: Tags,
) -> bool {
    &&& nodes.contains_key(rm.def_id.0 as nat)
    &&& {
        let n = nodes[rm.def_id.0 as nat];
        &&& n.kind matches NodeKind::Method(g) && *g == rm
        &&& n.parent == parent
        &&& n.file_id == fid
        &&& tags.contains_key(n.tags.0 as nat)
        &&& tags[n.tags.0 as nat]@ == bag@
    }
}

impl Resolver {
    /// Lowers an enum: each variant gets its own id, tag set and node, and is
    /// reachable from the enum for two-step path resolution.
    fn lower_enum(&mut self, uses: &Vec<(Symbol, FileId)>, e: &ir::Enum) -> (r: Result<
        rir::Enum,
        ResolveError,
    >)
        requires
            old(self).inv(),
            old(self).cur_file is Some,
            forall|i: int| 0 <= i < e.variants@.len() ==> (#[trigger] e.variants@[i]).tags.wf(),
            forall|i: int, j: int|
                0 <= i < e.variants@.len() && 0 <= j < (#[trigger] e.variants@[i]).fields@.len()
                    ==> ir::ty_ok(#[trigger] e.variants@[i].fields@[j]),
        ensures
            final(self).inv(),
            final(self).lower_grows(*old(self)),
            final(self).blocks@ == old(self).blocks@,
            final(self).cur_file == old(self).cur_file,
            final(self).parent_node == old(self).parent_node,
            final(self).spec_origin_fids().subset_of(
                old(self).spec_origin_fids().insert(
                    old(self).cur_file->Some_0.0 as nat,
                ),
            ),
            match r {
                Ok(re) => {
                    &&& final(self).spec_did_counter() == old(self).spec_did_counter()
                        + e.variants@.len()
                    &&& re.name@ == e.name@
                    &&& re.repr == e.repr
                    &&& re.variants@.len() == e.variants@.len()
                    &&& forall|i: int|
                        0 <= i < re.variants@.len() ==> {
                            &&& (*(#[trigger] re.variants@[i])).name@ == e.variants@[i].name@
                            &&& (*re.variants@[i]).id == e.variants@[i].id
                            &&& (*re.variants@[i]).discr == e.variants@[i].discr
                            &&& (*re.variants@[i]).fields@.len() == e.variants@[i].fields@.len()
                            &&& (forall|k2: int|
                                0 <= k2 < (*re.variants@[i]).fields@.len() ==> lowers_to(
                                    *final(self),
                                    old(self).spec_blocks(),
                                    uses@,
                                    e.variants@[i].fields@[k2].kind,
                                    (#[trigger] (*re.variants@[i]).fields@[k2]).kind,
                                ))
                            &&& !old(self).spec_nodes().contains_key(
                                (*re.variants@[i]).did.0 as nat,
                            )
                            &&& variant_node_of(
                                final(self).spec_nodes(),
                                final(self).spec_tags(),
                                *re.variants@[i],
                                old(self).spec_parent_node(),
                                old(self).spec_cur_file()->Some_0,
                                e.variants@[i].tags,
                            )
                        }
                    &&& forall|i: int, j: int|
                        0 <= i < j < re.variants@.len() ==> (*(#[trigger] re.variants@[i])).did
                            != (*(#[trigger] re.variants@[j])).did
                    &&& crate::rir::item_dids_lt(
                        rir::Item::Enum(re),
                        final(self).spec_did_counter(),
                    )
                    &&& crate::rir::item_tags_in(
                        rir::Item::Enum(re),
                        final(self).spec_tags().dom(),
                    )
                },
                Err(_) => true,
            },
    {
        let n = e.variants.len();
        let mut out: Vec<Arc<rir::EnumVariant>> = Vec::new();
        let mut i: usize = 0;
        while i < n
            invariant
                self.inv(),
                self.lower_grows(*old(self)),
                self.blocks@ == old(self).blocks@,
                self.cur_file == old(self).cur_file,
                self.parent_node == old(self).parent_node,
                self.spec_origin_fids().subset_of(
                    old(self).spec_origin_fids().insert(
                        old(self).cur_file->Some_0.0 as nat,
                    ),
                ),
                old(self).cur_file is Some,
                n == e.variants@.len(),
                0 <= i <= n,
                out@.len() == i,
                self.spec_did_counter() == old(self).spec_did_counter() + i,
                forall|j: int| 0 <= j < n ==> (#[trigger] e.variants@[j]).tags.wf(),
                forall|j: int, k: int|
                    0 <= j < n && 0 <= k < (#[trigger] e.variants@[j]).fields@.len()
                        ==> ir::ty_ok(#[trigger] e.variants@[j].fields@[k]),
                forall|j: int|
                    0 <= j < i ==> (*(#[trigger] out@[j])).did.0 < self.spec_did_counter(),
                forall|j: int|
                    0 <= j < i ==> {
                        &&& (*(#[trigger] out@[j])).name@ == e.variants@[j].name@
                        &&& (*out@[j]).id == e.variants@[j].id
                        &&& (*out@[j]).discr == e.variants@[j].discr
                        &&& (*out@[j]).fields@.len() == e.variants@[j].fields@.len()
                        &&& (forall|k2: int|
                            0 <= k2 < (*out@[j]).fields@.len() ==> lowers_to(
                                *self,
                                old(self).spec_blocks(),
                                uses@,
                                e.variants@[j].fields@[k2].kind,
                                (#[trigger] (*out@[j]).fields@[k2]).kind,
                            ))
                        &&& !old(self).spec_nodes().contains_key((*out@[j]).did.0 as nat)
                        &&& variant_node_of(
                            self.spec_nodes(),
                            self.spec_tags(),
                            *out@[j],
                            old(self).spec_parent_node(),
                            old(self).spec_cur_file()->Some_0,
                            e.variants@[j].tags,
                        )
                    },
                forall|j1: int, j2: int|
                    0 <= j1 < j2 < i ==> (*(#[trigger] out@[j1])).did != (*(
                    #[trigger] out@[j2])).did,
                forall|j: int, k: int|
                    0 <= j < i && 0 <= k < (*(#[trigger] out@[j])).fields@.len() ==> ty_dids_lt(
                        #[trigger] (*out@[j]).fields@[k],
                        self.spec_did_counter(),
                    ) && ty_tags_in((*out@[j]).fields@[k], self.spec_tags().dom()),
            decreases n - i,
        {
            let ghost prei = *self;
            let v = &e.variants[i];
            if self.did_counter.as_usize() == usize::MAX {
                return Err(ResolveError::LimitExceeded);
            }
            let ghost pre = *self;
            let did = self.did_counter.inc_one();
            proof {
                assert forall|d: nat| self.nodes@.contains_key(d) implies self.node_ok(
                    d,
                    self.nodes@[d],
                ) by {
                    lemma_node_ok_mono(pre, *self, d, self.nodes@[d]);
                }
            }
            let tid = match self.store_tags(&v.tags) {
                Ok(x) => x,
                Err(e2) => {
                    return Err(e2);
                },
            };
            let fn_ = v.fields.len();
            let ghost prev = *self;
            let mut ftys: Vec<Ty> = Vec::new();
            let mut k: usize = 0;
            while k < fn_
                invariant
                    self.inv(),
                    self.lower_grows(prev),
                    self.blocks@ == prev.blocks@,
                    self.cur_file == prev.cur_file,
                    self.parent_node == prev.parent_node,
                    self.origin_fids == prev.origin_fids,
                    self.did_counter == prev.did_counter,
                    self.lower_grows(*old(self)),
                    self.blocks@ == old(self).blocks@,
                    self.cur_file == old(self).cur_file,
                    self.parent_node == old(self).parent_node,
                    old(self).cur_file is Some,
                    self.spec_origin_fids().subset_of(
                        old(self).spec_origin_fids().insert(
                            old(self).cur_file->Some_0.0 as nat,
                        ),
                    ),
                    did.0 < self.spec_did_counter(),
                    self.spec_tags().dom().contains(tid.0 as nat),
                    fn_ == v.fields@.len(),
                    0 <= k <= fn_,
                    ftys@.len() == k,
                    forall|u: int| 0 <= u < fn_ ==> ir::ty_ok(#[trigger] v.fields@[u]),
                    forall|u: int|
                        0 <= u < k ==> ty_dids_lt(
                            #[trigger] ftys@[u],
                            self.spec_did_counter(),
                        ) && ty_tags_in(ftys@[u], self.spec_tags().dom()) && lowers_to(
                            *self,
                            old(self).spec_blocks(),
                            uses@,
                            v.fields@[u].kind,
                            ftys@[u].kind,
                        ),
                decreases fn_ - k,
            {
                let ghost prek = *self;
                let lt = match self.lower_type(uses, &v.fields[k]) {
                    Ok(x) => x,
                    Err(e2) => {
                        return Err(e2);
                    },
                };
                ftys.push(lt);
                proof {
                    assert forall|u: int| 0 <= u < k + 1 implies ty_dids_lt(
                        #[trigger] ftys@[u],
                        self.spec_did_counter(),
                    ) && ty_tags_in(ftys@[u], self.spec_tags().dom()) && lowers_to(
                        *self,
                        old(self).spec_blocks(),
                        uses@,
                        v.fields@[u].kind,
                        ftys@[u].kind,
                    ) by {
                        if u < k {
                            crate::rir::lemma_ty_tags_in_mono(
                                &ftys@[u],
                                prek.spec_tags().dom(),
                                self.spec_tags().dom(),
                            );
                            lemma_lowers_to_ext(
                                prek,
                                *self,
                                old(self).spec_blocks(),
                                uses@,
                                &v.fields@[u].kind,
                                &ftys@[u].kind,
                            );
                        }
                    }
                }
                k = k + 1;
            }
            let ghost postf = *self;
            let rv = Arc::new(
                rir::EnumVariant {
                    id: v.id,
                    did,
                    name: v.name.duplicate(),
                    discr: v.discr,
                    fields: ftys,
                },
            );
            let file_id = match self.cur_file {
                Some(x) => x,
                None => vstd::pervasive::unreached(),
            };
            let node = Node {
                tags: tid,
                parent: self.parent_node,
                file_id,
                kind: NodeKind::Variant(rir::share(&rv)),
            };
            proof {
                assert(!self.spec_val_dids().contains(did.0 as nat));
                assert(!self.spec_ty_dids().contains(did.0 as nat));
            }
            match self.insert_node(did, node) {
                Ok(_) => {},
                Err(e2) => {
                    return Err(e2);
                },
            }
            out.push(rv);
            proof {
                assert forall|j: int, k2: int|
                    0 <= j < i + 1 && 0 <= k2 < (*(#[trigger] out@[j])).fields@.len() implies
                    ty_dids_lt(#[trigger] (*out@[j]).fields@[k2], self.spec_did_counter())
                        && ty_tags_in((*out@[j]).fields@[k2], self.spec_tags().dom()) by {
                    if j < i {
                        crate::rir::lemma_ty_dids_lt_mono(
                            &(*out@[j]).fields@[k2],
                            prei.spec_did_counter(),
                            self.spec_did_counter(),
                        );
                        crate::rir::lemma_ty_tags_in_mono(
                            &(*out@[j]).fields@[k2],
                            prei.spec_tags().dom(),
                            self.spec_tags().dom(),
                        );
                    }
                }
                assert forall|j: int| 0 <= j < i + 1 implies variant_node_of(
                    self.spec_nodes(),
                    self.spec_tags(),
                    *(#[trigger] out@[j]),
                    old(self).spec_parent_node(),
                    old(self).spec_cur_file()->Some_0,
                    e.variants@[j].tags,
                ) by {
                    if j < i {
                        assert(prei.spec_nodes().contains_key((*out@[j]).did.0 as nat));
                    }
                }
                assert forall|j: int, k2: int|
                    0 <= j < i + 1 && 0 <= k2 < (*(#[trigger] out@[j])).fields@.len() implies
                    lowers_to(
                        *self,
                        old(self).spec_blocks(),
                        uses@,
                        e.variants@[j].fields@[k2].kind,
                        (#[trigger] (*out@[j]).fields@[k2]).kind,
                    ) by {
                    if j < i {
                        lemma_lowers_to_ext(
                            prei,
                            *self,
                            old(self).spec_blocks(),
                            uses@,
                            &e.variants@[j].fields@[k2].kind,
                            &(*out@[j]).fields@[k2].kind,
                        );
                    } else {
                        lemma_lowers_to_ext(
                            postf,
                            *self,
                            old(self).spec_blocks(),
                            uses@,
                            &e.variants@[j].fields@[k2].kind,
                            &(*out@[j]).fields@[k2].kind,
                        );
                    }
                }
                assert forall|j1: int, j2: int| 0 <= j1 < j2 < i + 1 implies (*(
                #[trigger] out@[j1])).did != (*(#[trigger] out@[j2])).did by {
                    if j2 == i {
                        assert(prei.spec_nodes().contains_key((*out@[j1]).did.0 as nat));
                        assert(!prei.spec_nodes().contains_key((*out@[j2]).did.0 as nat));
                    }
                }
            }
            i = i + 1;
        }
        Ok(rir::Enum { name: e.name.duplicate(), variants: out, repr: e.repr })
    }

    /// Lowers a literal; references resolve in the value namespace.
    fn lower_lit(&self, uses: &Vec<(Symbol, FileId)>, l: &ir::Literal) -> (r: Result<
        rir::Literal,
        ResolveError,
    >)
        requires
            self.inv(),
            ir::lit_ok(*l),
        ensures
            match r {
                Ok(rl) => crate::rir::lit_dids_lt(rl, self.spec_did_counter()) && lit_lowers_to(
                    *self,
                    self.spec_blocks(),
                    uses@,
                    *l,
                    rl,
                ),
                Err(_) => true,
            },
        decreases *l,
    {
        match l {
            ir::Literal::Path(p) => {
                let rp = match self.lower_path(uses, p, Namespace::Value) {
                    Ok(x) => x,
                    Err(e) => {
                        return Err(e);
                    },
                };
                proof {
                    lemma_lower_path_in_blocks(
                        *self,
                        uses@,
                        crate::symbol::syms_view(p.segments@),
                        Namespace::Value,
                    );
                }
                Ok(rir::Literal::Path(rp))
            },
            ir::Literal::String(s) => Ok(rir::Literal::String(s.duplicate())),
            ir::Literal::Int(v) => Ok(rir::Literal::Int(*v)),
            ir::Literal::Float(s) => Ok(rir::Literal::Float(s.duplicate())),
            ir::Literal::List(ls) => {
                let n = ls.len();
                let mut out: Vec<rir::Literal> = Vec::new();
                let mut i: usize = 0;
                while i < n
                    invariant
                        self.inv(),
                        l is List,
                        (*l)->List_0 == *ls,
                        ir::lit_ok(*l),
                        n == ls@.len(),
                        0 <= i <= n,
                        out@.len() == i,
                        forall|j: int|
                            0 <= j < i ==> crate::rir::lit_dids_lt(
                                #[trigger] out@[j],
                                self.spec_did_counter(),
                            ) && lit_lowers_to(
                                *self,
                                self.spec_blocks(),
                                uses@,
                                ls@[j],
                                out@[j],
                            ),
                    decreases n - i,
                {
                    proof {
                        assert(ir::lit_ok(ls@[i as int]));
                        assert(decreases_to!(*l => (*l)->List_0));
                        assert(decreases_to!((*l)->List_0 => (*l)->List_0@));
                        assert(decreases_to!((*l)->List_0@ => (*l)->List_0@[i as int]));
                        assert(decreases_to!(*l => (*l)->List_0@[i as int]));
                    }
                    let rl = match self.lower_lit(uses, &ls[i]) {
                        Ok(x) => x,
                        Err(e) => {
                            return Err(e);
                        },
                    };
                    out.push(rl);
                    i = i + 1;
                }
                Ok(rir::Literal::List(out))
            },
            ir::Literal::MapOf(ps) => {
                let n = ps.len();
                let mut out: Vec<(rir::Literal, rir::Literal)> = Vec::new();
                let mut i: usize = 0;
                while i < n
                    invariant
                        self.inv(),
                        l is MapOf,
                        (*l)->MapOf_0 == *ps,
                        ir::lit_ok(*l),
                        n == ps@.len(),
                        0 <= i <= n,
                        out@.len() == i,
                        forall|j: int|
                            0 <= j < i ==> crate::rir::lit_dids_lt(
                                (#[trigger] out@[j]).0,
                                self.spec_did_counter(),
                            ) && crate::rir::lit_dids_lt(out@[j].1, self.spec_did_counter())
                                && lit_lowers_to(
                                *self,
                                self.spec_blocks(),
                                uses@,
                                ps@[j].0,
                                out@[j].0,
                            ) && lit_lowers_to(
                                *self,
                                self.spec_blocks(),
                                uses@,
                                ps@[j].1,
                                out@[j].1,
                            ),
                    decreases n - i,
                {
                    proof {
                        assert(ir::lit_ok(ps@[i as int].0));
                        assert(ir::lit_ok(ps@[i as int].1));
                        assert(decreases_to!(*l => (*l)->MapOf_0));
                        assert(decreases_to!((*l)->MapOf_0 => (*l)->MapOf_0@));
                        assert(decreases_to!((*l)->MapOf_0@ => (*l)->MapOf_0@[i as int]));
                        assert(decreases_to!(
                            (*l)->MapOf_0@[i as int] => (*l)->MapOf_0@[i as int].0));
                        assert(decreases_to!(
                            (*l)->MapOf_0@[i as int] => (*l)->MapOf_0@[i as int].1));
                        assert(decreases_to!(*l => (*l)->MapOf_0@[i as int].0));
                        assert(decreases_to!(*l => (*l)->MapOf_0@[i as int].1));
                    }
                    let kk = match self.lower_lit(uses, &ps[i].0) {
                        Ok(x) => x,
                        Err(e) => {
                            return Err(e);
                        },
                    };
                    let vv = match self.lower_lit(uses, &ps[i].1) {
                        Ok(x) => x,
                        Err(e) => {
                            return Err(e);
                        },
                    };
                    out.push((kk, vv));
                    i = i + 1;
                }
                Ok(rir::Literal::MapOf(out))
            },
        }
    }

    /// Lowers a constant declaration.
    fn lower_const(&mut self, uses: &Vec<(Symbol, FileId)>, c: &ir::Const) -> (r: Result<
        rir::Const,
        ResolveError,
    >)
        requires
            old(self).inv(),
            ir::ty_ok(c.ty),
            ir::lit_ok(c.lit),
        ensures
            final(self).inv(),
            final(self).lower_grows(*old(self)),
            final(self).nodes == old(self).nodes,
            final(self).did_counter == old(self).did_counter,
            final(self).blocks@ == old(self).blocks@,
            final(self).cur_file == old(self).cur_file,
            final(self).parent_node == old(self).parent_node,
            final(self).origin_fids == old(self).origin_fids,
            match r {
                Ok(rc) => {
                    &&& rc.name@ == c.name@
                    &&& lowers_to(
                        *final(self),
                        old(self).spec_blocks(),
                        uses@,
                        c.ty.kind,
                        rc.ty.kind,
                    )
                    &&& lit_lowers_to(
                        *final(self),
                        old(self).spec_blocks(),
                        uses@,
                        c.lit,
                        rc.lit,
                    )
                    &&& crate::rir::item_dids_lt(
                        rir::Item::Const(rc),
                        final(self).spec_did_counter(),
                    )
                    &&& crate::rir::item_tags_in(
                        rir::Item::Const(rc),
                        final(self).spec_tags().dom(),
                    )
                },
                Err(_) => true,
            },
    {
        let ty = match self.lower_type(uses, &c.ty) {
            Ok(x) => x,
            Err(e) => {
                return Err(e);
            },
        };
        let lit = match self.lower_lit(uses, &c.lit) {
            Ok(x) => x,
            Err(e) => {
                return Err(e);
            },
        };
        Ok(rir::Const { name: c.name.duplicate(), ty, lit })
    }
}

impl Resolver {
    /// Lowers a service: each method gets its own id, tag set and node;
    /// extended services are recorded as resolved references, methods are
    /// marked as the service's own.
    fn lower_service(&mut self, uses: &Vec<(Symbol, FileId)>, s: &ir::Service) -> (r: Result<
        rir::Service,
        ResolveError,
    >)
        requires
            old(self).inv(),
            old(self).cur_file is Some,
            forall|i: int| 0 <= i < s.methods@.len() ==> ir::method_ok(#[trigger] s.methods@[i]),
            forall|i: int|
                0 <= i < s.extend@.len() ==> (#[trigger] s.extend@[i]).segments@.len() > 0,
        ensures
            final(self).inv(),
            final(self).lower_grows(*old(self)),
            final(self).blocks@ == old(self).blocks@,
            final(self).cur_file == old(self).cur_file,
            final(self).parent_node == old(self).parent_node,
            final(self).spec_origin_fids().subset_of(
                old(self).spec_origin_fids().insert(
                    old(self).cur_file->Some_0.0 as nat,
                ),
            ),
            match r {
                Ok(rs) => {
                    &&& final(self).spec_did_counter() == old(self).spec_did_counter()
                        + s.methods@.len()
                    &&& rs.name@ == s.name@
                    &&& rs.methods@.len() == s.methods@.len()
                    &&& rs.extend@.len() == s.extend@.len()
                    &&& forall|i: int|
                        0 <= i < rs.methods@.len() ==> {
                            &&& method_lowering_of(
                                *final(self),
                                old(self).spec_blocks(),
                                uses@,
                                *(#[trigger] rs.methods@[i]),
                                s.methods@[i],
                            )
                            &&& !old(self).spec_nodes().contains_key(
                                (*rs.methods@[i]).def_id.0 as nat,
                            )
                            &&& method_node_of(
                                final(self).spec_nodes(),
                                final(self).spec_tags(),
                                *rs.methods@[i],
                                old(self).spec_parent_node(),
                                old(self).spec_cur_file()->Some_0,
                                s.methods@[i].tags,
                            )
                        }
                    &&& forall|i: int|
                        0 <= i < rs.extend@.len() ==> (#[trigger] rs.extend@[i]).kind
                            == DefKind::Type && Some(rs.extend@[i].did) == final(self).spec_lower_path_in(
                            old(self).spec_blocks(),
                            uses@,
                            crate::symbol::syms_view(s.extend@[i].segments@),
                            Namespace::Ty,
                        )
                    &&& forall|i: int, j: int|
                        0 <= i < j < rs.methods@.len() ==> (*(#[trigger] rs.methods@[i])).def_id
                            != (*(#[trigger] rs.methods@[j])).def_id
                    &&& crate::rir::item_dids_lt(
                        rir::Item::Service(rs),
                        final(self).spec_did_counter(),
                    )
                    &&& crate::rir::item_tags_in(
                        rir::Item::Service(rs),
                        final(self).spec_tags().dom(),
                    )
                },
                Err(_) => true,
            },
    {
        let n = s.methods.len();
        let mut out: Vec<Arc<rir::Method>> = Vec::new();
        let mut i: usize = 0;
        while i < n
            invariant
                self.inv(),
                self.lower_grows(*old(self)),
                self.blocks@ == old(self).blocks@,
                self.cur_file == old(self).cur_file,
                self.parent_node == old(self).parent_node,
                self.spec_origin_fids().subset_of(
                    old(self).spec_origin_fids().insert(
                        old(self).cur_file->Some_0.0 as nat,
                    ),
                ),
                old(self).cur_file is Some,
                n == s.methods@.len(),
                0 <= i <= n,
                out@.len() == i,
                self.spec_did_counter() == old(self).spec_did_counter() + i,
                forall|j: int|
                    0 <= j < n ==> ir::method_ok(#[trigger] s.methods@[j]),
                forall|j: int|
                    0 <= j < i ==> crate::rir::method_dids_lt(
                        *(#[trigger] out@[j]),
                        self.spec_did_counter(),
                    ) && crate::rir::method_tags_in(*out@[j], self.spec_tags().dom()),
                forall|j: int|
                    0 <= j < i ==> {
                        &&& method_lowering_of(
                            *self,
                            old(self).spec_blocks(),
                            uses@,
                            *(#[trigger] out@[j]),
                            s.methods@[j],
                        )
                        &&& !old(self).spec_nodes().contains_key((*out@[j]).def_id.0 as nat)
                        &&& method_node_of(
                            self.spec_nodes(),
                            self.spec_tags(),
                            *out@[j],
                            old(self).spec_parent_node(),
                            old(self).spec_cur_file()->Some_0,
                            s.methods@[j].tags,
                        )
                    },
                forall|j1: int, j2: int|
                    0 <= j1 < j2 < i ==> (*(#[trigger] out@[j1])).def_id != (*(
                    #[trigger] out@[j2])).def_id,
            decreases n - i,
        {
            let ghost prei = *self;
            let m = &s.methods[i];
            if self.did_counter.as_usize() == usize::MAX {
                return Err(ResolveError::LimitExceeded);
            }
            let ghost pre = *self;
            let def_id = self.did_counter.inc_one();
            proof {
                assert forall|d: nat| self.nodes@.contains_key(d) implies self.node_ok(
                    d,
                    self.nodes@[d],
                ) by {
                    lemma_node_ok_mono(pre, *self, d, self.nodes@[d]);
                }
            }
            let tid = match self.store_tags(&m.tags) {
                Ok(x) => x,
                Err(e2) => {
                    return Err(e2);
                },
            };
            let an = m.args.len();
            let ghost prev = *self;
            let mut args: Vec<rir::Arg> = Vec::new();
            let mut k: usize = 0;
            while k < an
                invariant
                    self.inv(),
                    self.lower_grows(prev),
                    self.blocks@ == prev.blocks@,
                    self.cur_file == prev.cur_file,
                    self.parent_node == prev.parent_node,
                    self.origin_fids == prev.origin_fids,
                    self.did_counter == prev.did_counter,
                    self.lower_grows(*old(self)),
                    self.blocks@ == old(self).blocks@,
                    self.cur_file == old(self).cur_file,
                    self.parent_node == old(self).parent_node,
                    old(self).cur_file is Some,
                    self.spec_origin_fids().subset_of(
                        old(self).spec_origin_fids().insert(
                            old(self).cur_file->Some_0.0 as nat,
                        ),
                    ),
                    an == m.args@.len(),
                    0 <= k <= an,
                    args@.len() == k,
                    forall|u: int| 0 <= u < an ==> ir::ty_ok((#[trigger] m.args@[u]).ty),
                    forall|u: int|
                        0 <= u < k ==> ty_dids_lt(
                            (#[trigger] args@[u]).ty,
                            self.spec_did_counter(),
                        ) && ty_tags_in(args@[u].ty, self.spec_tags().dom()),
                    forall|u: int|
                        0 <= u < k ==> {
                            &&& (#[trigger] args@[u]).name@ == m.args@[u].name@
                            &&& args@[u].id == m.args@[u].id
                            &&& lowers_to(
                                *self,
                                old(self).spec_blocks(),
                                uses@,
                                m.args@[u].ty.kind,
                                args@[u].ty.kind,
                            )
                        },
                decreases an - k,
            {
                let ghost prek = *self;
                let a = &m.args[k];
                let lt = match self.lower_type(uses, &a.ty) {
                    Ok(x) => x,
                    Err(e2) => {
                        return Err(e2);
                    },
                };
                args.push(rir::Arg { ty: lt, name: a.name.duplicate(), id: a.id });
                proof {
                    assert forall|u: int| 0 <= u < k + 1 implies ty_dids_lt(
                        (#[trigger] args@[u]).ty,
                        self.spec_did_counter(),
                    ) && ty_tags_in(args@[u].ty, self.spec_tags().dom()) && lowers_to(
                        *self,
                        old(self).spec_blocks(),
                        uses@,
                        m.args@[u].ty.kind,
                        args@[u].ty.kind,
                    ) by {
                        if u < k {
                            crate::rir::lemma_ty_tags_in_mono(
                                &args@[u].ty,
                                prek.spec_tags().dom(),
                                self.spec_tags().dom(),
                            );
                            lemma_lowers_to_ext(
                                prek,
                                *self,
                                old(self).spec_blocks(),
                                uses@,
                                &m.args@[u].ty.kind,
                                &args@[u].ty.kind,
                            );
                        }
                    }
                }
                k = k + 1;
            }
            let ghost preret = *self;
            let ret = match self.lower_type(uses, &m.ret) {
                Ok(x) => x,
                Err(e2) => {
                    return Err(e2);
                },
            };
            let exceptions = match &m.exceptions {
                Some(p) => {
                    let rp = match self.lower_path(uses, p, Namespace::Ty) {
                        Ok(x) => x,
                        Err(e2) => {
                            return Err(e2);
                        },
                    };
                    proof {
                        lemma_lower_path_in_blocks(
                            *self,
                            uses@,
                            crate::symbol::syms_view(p.segments@),
                            Namespace::Ty,
                        );
                    }
                    Some(rp)
                },
                None => None,
            };
            proof {
                assert forall|u: int| 0 <= u < args@.len() implies ty_dids_lt(
                    (#[trigger] args@[u]).ty,
                    self.spec_did_counter(),
                ) && ty_tags_in(args@[u].ty, self.spec_tags().dom()) && lowers_to(
                    *self,
                    old(self).spec_blocks(),
                    uses@,
                    m.args@[u].ty.kind,
                    args@[u].ty.kind,
                ) by {
                    crate::rir::lemma_ty_tags_in_mono(
                        &args@[u].ty,
                        preret.spec_tags().dom(),
                        self.spec_tags().dom(),
                    );
                    lemma_lowers_to_ext(
                        preret,
                        *self,
                        old(self).spec_blocks(),
                        uses@,
                        &m.args@[u].ty.kind,
                        &args@[u].ty.kind,
                    );
                }
            }
            let rm = Arc::new(
                rir::Method {
                    def_id,
                    source: rir::MethodSource::Own,
                    name: m.name.duplicate(),
                    args,
                    ret,
                    oneway: m.oneway,
                    exceptions,
                },
            );
            let file_id = match self.cur_file {
                Some(x) => x,
                None => vstd::pervasive::unreached(),
            };
            let node = Node {
                tags: tid,
                parent: self.parent_node,
                file_id,
                kind: NodeKind::Method(rir::share(&rm)),
            };
            let ghost msnap = *self;
            proof {
                assert(!self.spec_val_dids().contains(def_id.0 as nat));
                assert(!self.spec_ty_dids().contains(def_id.0 as nat));
                assert(crate::rir::method_dids_lt(*rm, self.spec_did_counter()));
                assert(crate::rir::method_tags_in(*rm, self.spec_tags().dom()));
                assert(method_lowering_of(
                    msnap,
                    old(self).spec_blocks(),
                    uses@,
                    *rm,
                    s.methods@[i as int],
                ));
            }
            match self.insert_node(def_id, node) {
                Ok(_) => {},
                Err(e2) => {
                    return Err(e2);
                },
            }
            out.push(rm);
            proof {
                assert forall|j: int| 0 <= j < i + 1 implies crate::rir::method_dids_lt(
                    *(#[trigger] out@[j]),
                    self.spec_did_counter(),
                ) && crate::rir::method_tags_in(*out@[j], self.spec_tags().dom()) by {
                    if j < i {
                        crate::rir::lemma_method_mono(
                            &*out@[j],
                            prei.spec_did_counter(),
                            self.spec_did_counter(),
                            prei.spec_tags().dom(),
                            self.spec_tags().dom(),
                        );
                    }
                }
                assert forall|j: int| 0 <= j < i + 1 implies method_node_of(
                    self.spec_nodes(),
                    self.spec_tags(),
                    *(#[trigger] out@[j]),
                    old(self).spec_parent_node(),
                    old(self).spec_cur_file()->Some_0,
                    s.methods@[j].tags,
                ) && method_lowering_of(
                    *self,
                    old(self).spec_blocks(),
                    uses@,
                    *out@[j],
                    s.methods@[j],
                ) by {
                    if j < i {
                        assert(prei.spec_nodes().contains_key((*out@[j]).def_id.0 as nat));
                        lemma_method_lowering_ext(
                            prei,
                            *self,
                            old(self).spec_blocks(),
                            uses@,
                            &*out@[j],
                            s.methods@[j],
                        );
                    } else {
                        lemma_method_lowering_ext(
                            msnap,
                            *self,
                            old(self).spec_blocks(),
                            uses@,
                            &*out@[j],
                            s.methods@[j],
                        );
                    }
                }
                assert forall|j1: int, j2: int| 0 <= j1 < j2 < i + 1 implies (*(
                #[trigger] out@[j1])).def_id != (*(#[trigger] out@[j2])).def_id by {
                    if j2 == i {
                        assert(prei.spec_nodes().contains_key((*out@[j1]).def_id.0 as nat));
                        assert(!prei.spec_nodes().contains_key((*out@[j2]).def_id.0 as nat));
                    }
                }
            }
            i = i + 1;
        }

        let en = s.extend.len();
        let mut extend: Vec<rir::Path> = Vec::new();
        let mut j: usize = 0;
        while j < en
            invariant
                self.inv(),
                self.lower_grows(*old(self)),
                self.blocks@ == old(self).blocks@,
                self.cur_file == old(self).cur_file,
                self.parent_node == old(self).parent_node,
                old(self).cur_file is Some,
                self.spec_origin_fids().subset_of(
                    old(self).spec_origin_fids().insert(
                        old(self).cur_file->Some_0.0 as nat,
                    ),
                ),
                en == s.extend@.len(),
                0 <= j <= en,
                extend@.len() == j,
                self.spec_did_counter() == old(self).spec_did_counter() + s.methods@.len(),
                forall|u: int|
                    0 <= u < en ==> (#[trigger] s.extend@[u]).segments@.len() > 0,
                forall|u: int|
                    0 <= u < j ==> (#[trigger] extend@[u]).did.0 < self.spec_did_counter(),
                forall|u: int|
                    0 <= u < out@.len() ==> crate::rir::method_dids_lt(
                        *(#[trigger] out@[u]),
                        self.spec_did_counter(),
                    ) && crate::rir::method_tags_in(*out@[u], self.spec_tags().dom()),
                out@.len() == s.methods@.len(),
                forall|u: int|
                    0 <= u < out@.len() ==> {
                        &&& method_lowering_of(
                            *self,
                            old(self).spec_blocks(),
                            uses@,
                            *(#[trigger] out@[u]),
                            s.methods@[u],
                        )
                        &&& !old(self).spec_nodes().contains_key((*out@[u]).def_id.0 as nat)
                        &&& method_node_of(
                            self.spec_nodes(),
                            self.spec_tags(),
                            *out@[u],
                            old(self).spec_parent_node(),
                            old(self).spec_cur_file()->Some_0,
                            s.methods@[u].tags,
                        )
                    },
                forall|u: int|
                    0 <= u < extend@.len() ==> (#[trigger] extend@[u]).kind == DefKind::Type
                        && Some(extend@[u].did) == self.spec_lower_path_in(
                        old(self).spec_blocks(),
                        uses@,
                        crate::symbol::syms_view(s.extend@[u].segments@),
                        Namespace::Ty,
                    ),
                forall|j1: int, j2: int|
                    0 <= j1 < j2 < out@.len() ==> (*(#[trigger] out@[j1])).def_id != (*(
                    #[trigger] out@[j2])).def_id,
            decreases en - j,
        {
            let rp = match self.lower_path(uses, &s.extend[j], Namespace::Ty) {
                Ok(x) => x,
                Err(e2) => {
                    return Err(e2);
                },
            };
            proof {
                lemma_lower_path_in_blocks(
                    *self,
                    uses@,
                    crate::symbol::syms_view(s.extend@[j as int].segments@),
                    Namespace::Ty,
                );
            }
            extend.push(rp);
            j = j + 1;
        }
        Ok(rir::Service { name: s.name.duplicate(), methods: out, extend })
    }
}

impl Resolver {
    /// Lowers one item: its name resolves to the id minted in pass 1, its
    /// body lowers under that id as parent, and its node is inserted under
    /// the id. `Use` items lower to nothing.
    fn lower_item(&mut self, uses: &Vec<(Symbol, FileId)>, item: &ir::Item) -> (r: Result<
        Option<DefId>,
        ResolveError,
    >)
        requires
            old(self).inv(),
            old(self).cur_file is Some,
            ir::item_ok(*item),
        ensures
            final(self).inv(),
            final(self).lower_grows(*old(self)),
            final(self).blocks@ == old(self).blocks@,
            final(self).cur_file == old(self).cur_file,
            final(self).parent_node == old(self).parent_node,
            final(self).spec_origin_fids().subset_of(
                old(self).spec_origin_fids().insert(
                    old(self).cur_file->Some_0.0 as nat,
                ),
            ),
            item.kind is Use ==> *final(self) == *old(self) && r is Ok,
            r is Ok ==> ((r->Ok_0 is None) <==> item.kind is Use),
            match r {
                Ok(Some(did)) => {
                    &&& old(self).spec_resolve_sym_in(
                        old(self).spec_blocks(),
                        uses@,
                        match item.kind {
                            ir::ItemKind::Const(_) => Namespace::Value,
                            _ => Namespace::Ty,
                        },
                        ir::spec_item_name(*item),
                    ) == Some(ModuleId::Node(did))
                    &&& final(self).spec_did_counter() == old(self).spec_did_counter()
                        + ir::item_member_count(*item)
                    &&& did.0 < final(self).spec_did_counter()
                    &&& !old(self).spec_nodes().contains_key(did.0 as nat)
                    &&& item_node_of(
                        final(self).spec_nodes(),
                        final(self).spec_tags(),
                        *final(self),
                        old(self).spec_blocks(),
                        uses@,
                        did,
                        *item,
                        old(self).spec_parent_node(),
                        old(self).spec_cur_file()->Some_0,
                    )
                },
                _ => true,
            },
        decreases *item,
    {
        match &item.kind {
            ir::ItemKind::Use(_) => {
                return Ok(None);
            },
            _ => {},
        }
        let name = item.name();
        let ns = match &item.kind {
            ir::ItemKind::Const(_) => Namespace::Value,
            _ => Namespace::Ty,
        };
        let resolved = self.resolve_sym(uses, ns, name);
        proof {
            lemma_resolve_sym_in_blocks(*self, uses@, ns, name@);
        }
        let did = match resolved {
            Some(ModuleId::Node(d)) => d,
            Some(ModuleId::File(_)) => {
                return Err(ResolveError::InvalidNodeShape);
            },
            None => {
                return Err(ResolveError::Undefined(name.duplicate()));
            },
        };
        let old_parent = self.parent_node;
        self.parent_node = Some(did);
        let ghost premid = *self;
        let ghost mut lowstate: Resolver = *self;
        let ritem: rir::Item = match &item.kind {
            ir::ItemKind::Message(m) => {
                let x = match self.lower_message(uses, m) {
                    Ok(x) => x,
                    Err(e) => {
                        self.parent_node = old_parent;
                        return Err(e);
                    },
                };
                let it = rir::Item::Message(x);
                proof {
                    lowstate = *self;
                    assert(item_lowering_of(
                        lowstate,
                        old(self).spec_blocks(),
                        uses@,
                        it,
                        item.kind,
                    ));
                }
                it
            },
            ir::ItemKind::Enum(e0) => {
                let x = match self.lower_enum(uses, e0) {
                    Ok(x) => x,
                    Err(e) => {
                        self.parent_node = old_parent;
                        return Err(e);
                    },
                };
                let it = rir::Item::Enum(x);
                proof {
                    lowstate = *self;
                    assert(item_lowering_of(
                        lowstate,
                        old(self).spec_blocks(),
                        uses@,
                        it,
                        item.kind,
                    ));
                }
                it
            },
            ir::ItemKind::Service(sv) => {
                let x = match self.lower_service(uses, sv) {
                    Ok(x) => x,
                    Err(e) => {
                        self.parent_node = old_parent;
                        return Err(e);
                    },
                };
                let it = rir::Item::Service(x);
                proof {
                    lowstate = *self;
                    assert(item_lowering_of(
                        lowstate,
                        old(self).spec_blocks(),
                        uses@,
                        it,
                        item.kind,
                    ));
                }
                it
            },
            ir::ItemKind::NewType(t) => {
                let x = match self.lower_type_alias(uses, t) {
                    Ok(x) => x,
                    Err(e) => {
                        self.parent_node = old_parent;
                        return Err(e);
                    },
                };
                let it = rir::Item::NewType(x);
                proof {
                    lowstate = *self;
                    assert(item_lowering_of(
                        lowstate,
                        old(self).spec_blocks(),
                        uses@,
                        it,
                        item.kind,
                    ));
                }
                it
            },
            ir::ItemKind::Const(c) => {
                let x = match self.lower_const(uses, c) {
                    Ok(x) => x,
                    Err(e) => {
                        self.parent_node = old_parent;
                        return Err(e);
                    },
                };
                let it = rir::Item::Const(x);
                proof {
                    lowstate = *self;
                    assert(item_lowering_of(
                        lowstate,
                        old(self).spec_blocks(),
                        uses@,
                        it,
                        item.kind,
                    ));
                }
                it
            },
            ir::ItemKind::Mod(m) => {
                proof {
                    assert(decreases_to!(*item => item.kind));
                    assert(decreases_to!(item.kind => item.kind->Mod_0));
                }
                let x = match self.lower_mod(uses, m, did) {
                    Ok(x) => x,
                    Err(e) => {
                        self.parent_node = old_parent;
                        return Err(e);
                    },
                };
                let it = rir::Item::Mod(x);
                proof {
                    lowstate = *self;
                    assert(item_lowering_of(
                        lowstate,
                        old(self).spec_blocks(),
                        uses@,
                        it,
                        item.kind,
                    ));
                }
                it
            },
            ir::ItemKind::Use(_) => vstd::pervasive::unreached(),
        };
        self.parent_node = old_parent;
        let ghost mid2 = *self;
        let tid = match self.store_tags(&item.tags) {
            Ok(x) => x,
            Err(e) => {
                return Err(e);
            },
        };
        proof {
            crate::rir::lemma_item_mono(
                &ritem,
                mid2.spec_did_counter(),
                self.spec_did_counter(),
                mid2.spec_tags().dom(),
                self.spec_tags().dom(),
            );
        }
        let file_id = match self.cur_file {
            Some(x) => x,
            None => vstd::pervasive::unreached(),
        };
        let node = Node {
            tags: tid,
            parent: self.parent_node,
            file_id,
            kind: NodeKind::Item(Arc::new(ritem)),
        };
        match self.insert_node(did, node) {
            Ok(_) => {},
            Err(e) => {
                return Err(e);
            },
        }
        proof {
            lemma_item_lowering_ext(
                lowstate,
                *self,
                old(self).spec_blocks(),
                uses@,
                &*self.spec_nodes()[did.0 as nat].kind->Item_0,
                item.kind,
            );
        }
        Ok(Some(did))
    }

    /// Lowers a mod: pushes the mod's own scope, lowers each member item,
    /// pops the scope on every exit path.
    fn lower_mod(&mut self, uses: &Vec<(Symbol, FileId)>, m: &ir::Mod, def_id: DefId) -> (r:
        Result<rir::Mod, ResolveError>)
        requires
            old(self).inv(),
            old(self).cur_file is Some,
            forall|i: int| 0 <= i < m.items@.len() ==> ir::item_ok(#[trigger] m.items@[i]),
        ensures
            final(self).inv(),
            final(self).lower_grows(*old(self)),
            final(self).blocks@ == old(self).blocks@,
            final(self).cur_file == old(self).cur_file,
            final(self).parent_node == old(self).parent_node,
            final(self).spec_origin_fids().subset_of(
                old(self).spec_origin_fids().insert(
                    old(self).cur_file->Some_0.0 as nat,
                ),
            ),
            match r {
                Ok(rm) => {
                    &&& final(self).spec_did_counter() == old(self).spec_did_counter()
                        + ir::items_member_count(m.items@)
                    &&& rm.name@ == m.name@
                    &&& lowered_items_of(
                        final(self).spec_nodes(),
                        final(self).spec_tags(),
                        *final(self),
                        old(self).spec_blocks().push(ScopeRef::Mod(def_id)),
                        uses@,
                        rm.items@,
                        m.items@,
                        old(self).spec_parent_node(),
                        old(self).spec_cur_file()->Some_0,
                    )
                    &&& crate::rir::item_dids_lt(
                        rir::Item::Mod(rm),
                        final(self).spec_did_counter(),
                    )
                    &&& crate::rir::item_tags_in(
                        rir::Item::Mod(rm),
                        final(self).spec_tags().dom(),
                    )
                },
                Err(_) => true,
            },
        decreases *m,
    {
        if !self.def_modules.contains(def_id.as_usize()) {
            return Err(ResolveError::InvalidNodeShape);
        }
        self.blocks.push(ScopeRef::Mod(def_id));
        let n = m.items.len();
        let mut out: Vec<DefId> = Vec::new();
        let mut i: usize = 0;
        proof {
            assert(m.items@.take(0) =~= Seq::<ir::Item>::empty());
        }
        while i < n
            invariant
                self.inv(),
                self.lower_grows(*old(self)),
                self.blocks@ == old(self).blocks@.push(ScopeRef::Mod(def_id)),
                self.cur_file == old(self).cur_file,
                self.parent_node == old(self).parent_node,
                old(self).cur_file is Some,
                self.spec_origin_fids().subset_of(
                    old(self).spec_origin_fids().insert(
                        old(self).cur_file->Some_0.0 as nat,
                    ),
                ),
                n == m.items@.len(),
                0 <= i <= n,
                self.spec_did_counter() == old(self).spec_did_counter() + ir::items_member_count(
                    m.items@.take(i as int),
                ),
                forall|j: int| 0 <= j < n ==> ir::item_ok(#[trigger] m.items@[j]),
                forall|j: int| 0 <= j < out@.len() ==> (#[trigger] out@[j]).0
                    < self.spec_did_counter(),
                lowered_items_of(
                    self.spec_nodes(),
                    self.spec_tags(),
                    *self,
                    old(self).spec_blocks().push(ScopeRef::Mod(def_id)),
                    uses@,
                    out@,
                    m.items@.take(i as int),
                    old(self).spec_parent_node(),
                    old(self).spec_cur_file()->Some_0,
                ),
            decreases n - i,
        {
            proof {
                assert(decreases_to!(*m => m.items));
                assert(decreases_to!(m.items => m.items@));
                assert(decreases_to!(m.items@ => m.items@[i as int]));
                assert(decreases_to!(*m => m.items@[i as int]));
            }
            let ghost prei = *self;
            let ghost preout = out@;
            let lowered = self.lower_item(uses, &m.items[i]);
            proof {
                assert(m.items@.take(i + 1).drop_last() =~= m.items@.take(i as int));
                assert(m.items@.take(i + 1).last() == m.items@[i as int]);
            }
            match lowered {
                Ok(Some(d)) => {
                    out.push(d);
                    proof {
                        lemma_lowered_items_mono(
                            prei.spec_nodes(),
                            prei.spec_tags(),
                            prei,
                            self.spec_nodes(),
                            self.spec_tags(),
                            *self,
                            old(self).spec_blocks().push(ScopeRef::Mod(def_id)),
                            uses@,
                            preout,
                            m.items@.take(i as int),
                            old(self).spec_parent_node(),
                            old(self).spec_cur_file()->Some_0,
                        );
                        assert(out@.drop_last() =~= preout);
                        assert(out@.last() == d);
                    }
                },
                Ok(None) => {},
                Err(e) => {
                    let _ = self.blocks.pop();
                    proof {
                        assert(self.blocks@ =~= old(self).blocks@);
                    }
                    return Err(e);
                },
            }
            i = i + 1;
        }
        proof {
            assert(m.items@.take(n as int) =~= m.items@);
        }
        let ghost endloop = *self;
        let _ = self.blocks.pop();
        proof {
            assert(self.blocks@ =~= old(self).blocks@);
            assert(m.items@.take(n as int) =~= m.items@);
            lemma_lowered_items_mono(
                endloop.spec_nodes(),
                endloop.spec_tags(),
                endloop,
                self.spec_nodes(),
                self.spec_tags(),
                *self,
                old(self).spec_blocks().push(ScopeRef::Mod(def_id)),
                uses@,
                out@,
                m.items@,
                old(self).spec_parent_node(),
                old(self).spec_cur_file()->Some_0,
            );
        }
        Ok(rir::Mod { name: m.name.duplicate(), items: out })
    }
}

/// The structural rewrite that type lowering performs, against the
/// resolution state `r` with the given scope stack and imports: primitives
/// map one to one, containers lower their elements in place, and a
/// spelled-out reference collapses to the definition its segments resolve to
/// in the type namespace.
pub open spec fn lowers_to(
    r: Resolver,
    scope: Seq<ScopeRef>,
    uses: Seq<(Symbol, FileId)>,
    src: ir::TyKind,
    dst: TyKind,
) -> bool
    decreases src,
{
    match src {
        ir::TyKind::String => dst is String,
        ir::TyKind::Void => dst is Void,
        ir::TyKind::U8 => dst is U8,
        ir::TyKind::Bool => dst is Bool,
        ir::TyKind::Bytes => dst is Bytes,
        ir::TyKind::I8 => dst is I8,
        ir::TyKind::I16 => dst is I16,
        ir::TyKind::I32 => dst is I32,
        ir::TyKind::I64 => dst is I64,
        ir::TyKind::F64 => dst is F64,
        ir::TyKind::Vec(i) => match dst {
            TyKind::Vec(d) => lowers_to(r, scope, uses, (*i).kind, (*d).kind),
            _ => false,
        },
        ir::TyKind::SetOf(i) => match dst {
            TyKind::SetOf(d) => lowers_to(r, scope, uses, (*i).kind, (*d).kind),
            _ => false,
        },
        ir::TyKind::MapOf(k, v) => match dst {
            TyKind::MapOf(dk, dv) => lowers_to(r, scope, uses, (*k).kind, (*dk).kind)
                && lowers_to(r, scope, uses, (*v).kind, (*dv).kind),
            _ => false,
        },
        ir::TyKind::Path(p) => match dst {
            TyKind::Path(rp) => rp.kind == DefKind::Type && Some(rp.did) == r.spec_lower_path_in(
                scope,
                uses,
                crate::symbol::syms_view(p.segments@),
                Namespace::Ty,
            ),
            _ => false,
        },
        _ => false,
    }
}

/// A lowered type keeps its resolved targets when the node table grows.
pub proof fn lemma_lowers_to_ext(
    r1: Resolver,
    r2: Resolver,
    scope: Seq<ScopeRef>,
    uses: Seq<(Symbol, FileId)>,
    src: &ir::TyKind,
    dst: &TyKind,
)
    requires
        r2.resolution_extends(r1),
        lowers_to(r1, scope, uses, *src, *dst),
    ensures
        lowers_to(r2, scope, uses, *src, *dst),
    decreases *src,
{
    match src {
        ir::TyKind::Vec(i) => match dst {
            TyKind::Vec(d) => {
                lemma_lowers_to_ext(r1, r2, scope, uses, &(**i).kind, &(**d).kind);
            },
            _ => {},
        },
        ir::TyKind::SetOf(i) => match dst {
            TyKind::SetOf(d) => {
                lemma_lowers_to_ext(r1, r2, scope, uses, &(**i).kind, &(**d).kind);
            },
            _ => {},
        },
        ir::TyKind::MapOf(k, v) => match dst {
            TyKind::MapOf(dk, dv) => {
                lemma_lowers_to_ext(r1, r2, scope, uses, &(**k).kind, &(**dk).kind);
                lemma_lowers_to_ext(r1, r2, scope, uses, &(**v).kind, &(**dv).kind);
            },
            _ => {},
        },
        ir::TyKind::Path(p) => {
            lemma_lower_path_in_ext(
                r1,
                r2,
                scope,
                uses,
                crate::symbol::syms_view(p.segments@),
                Namespace::Ty,
            );
        },
        _ => {},
    }
}

/// Source shapes made only of primitives and containers.
pub open spec fn ir_prim_container_only(src: ir::TyKind) -> bool
    decreases src,
{
    match src {
        ir::TyKind::UInt32 => false,
        ir::TyKind::UInt64 => false,
        ir::TyKind::F32 => false,
        ir::TyKind::Path(_) => false,
        ir::TyKind::Vec(i) => ir_prim_container_only((*i).kind),
        ir::TyKind::SetOf(i) => ir_prim_container_only((*i).kind),
        ir::TyKind::MapOf(k, v) => ir_prim_container_only((*k).kind) && ir_prim_container_only(
            (*v).kind,
        ),
        _ => true,
    }
}

/// Round trip: lowering a shape of primitives and containers yields a
/// resolved shape of primitives and containers, so the item-context codegen
/// transform of the lowered shape matches the source structurally (with
/// `Bytes` becoming a byte vector).
pub proof fn lemma_lower_round_trip(
    r: Resolver,
    scope: Seq<ScopeRef>,
    uses: Seq<(Symbol, FileId)>,
    src: ir::TyKind,
    dst: TyKind,
    m: Map<nat, crate::ty::CodegenTy>,
)
    requires
        ir_prim_container_only(src),
        lowers_to(r, scope, uses, src, dst),
    ensures
        crate::ty::prim_container_only(dst),
        crate::ty::shape_matches(dst, crate::ty::item_ty_spec(dst, m)),
    decreases src,
{
    match src {
        ir::TyKind::Vec(i) => {
            match dst {
                TyKind::Vec(d) => {
                    lemma_lower_round_trip(r, scope, uses, (*i).kind, (*d).kind, m);
                },
                _ => {},
            }
        },
        ir::TyKind::SetOf(i) => {
            match dst {
                TyKind::SetOf(d) => {
                    lemma_lower_round_trip(r, scope, uses, (*i).kind, (*d).kind, m);
                },
                _ => {},
            }
        },
        ir::TyKind::MapOf(k, v) => {
            match dst {
                TyKind::MapOf(dk, dv) => {
                    lemma_lower_round_trip(r, scope, uses, (*k).kind, (*dk).kind, m);
                    lemma_lower_round_trip(r, scope, uses, (*v).kind, (*dv).kind, m);
                },
                _ => {},
            }
        },
        _ => {},
    }
    crate::ty::lemma_item_transform_round_trip(dst, m);
}

/// The rewrite that literal lowering performs, against the resolution state
/// `r`: values carry over unchanged, references collapse to the definition
/// their segments resolve to (value namespace first), lists and maps lower
/// element-wise.
pub open spec fn lit_lowers_to(
    r: Resolver,
    scope: Seq<ScopeRef>,
    uses: Seq<(Symbol, FileId)>,
    src: ir::Literal,
    dst: rir::Literal,
) -> bool
    decreases src,
{
    match src {
        ir::Literal::Path(p) => match dst {
            rir::Literal::Path(rp) => rp.kind == DefKind::Value && Some(rp.did)
                == r.spec_lower_path_in(
                scope,
                uses,
                crate::symbol::syms_view(p.segments@),
                Namespace::Value,
            ),
            _ => false,
        },
        ir::Literal::String(s) => match dst {
            rir::Literal::String(d) => d@ == s@,
            _ => false,
        },
        ir::Literal::Int(v) => match dst {
            rir::Literal::Int(d) => d == v,
            _ => false,
        },
        ir::Literal::Float(s) => match dst {
            rir::Literal::Float(d) => d@ == s@,
            _ => false,
        },
        ir::Literal::List(ls) => match dst {
            rir::Literal::List(ds) => ds@.len() == ls@.len() && (forall|i: int|
                0 <= i < ls@.len() ==> lit_lowers_to(r, scope, uses, #[trigger] ls@[i], ds@[i])),
            _ => false,
        },
        ir::Literal::MapOf(ps) => match dst {
            rir::Literal::MapOf(ds) => ds@.len() == ps@.len() && (forall|i: int|
                0 <= i < ps@.len() ==> lit_lowers_to(r, scope, uses, (#[trigger] ps@[i]).0, ds@[i].0)
                    && lit_lowers_to(r, scope, uses, ps@[i].1, ds@[i].1)),
            _ => false,
        },
    }
}

/// A lowered literal keeps its resolved targets when the node table grows.
pub proof fn lemma_lit_lowers_to_ext(
    r1: Resolver,
    r2: Resolver,
    scope: Seq<ScopeRef>,
    uses: Seq<(Symbol, FileId)>,
    src: &ir::Literal,
    dst: &rir::Literal,
)
    requires
        r2.resolution_extends(r1),
        lit_lowers_to(r1, scope, uses, *src, *dst),
    ensures
        lit_lowers_to(r2, scope, uses, *src, *dst),
    decreases *src,
{
    match src {
        ir::Literal::Path(p) => {
            lemma_lower_path_in_ext(
                r1,
                r2,
                scope,
                uses,
                crate::symbol::syms_view(p.segments@),
                Namespace::Value,
            );
        },
        ir::Literal::List(ls) => match dst {
            rir::Literal::List(ds) => {
                assert forall|i: int| 0 <= i < ls@.len() implies lit_lowers_to(
                    r2,
                    scope,
                    uses,
                    #[trigger] ls@[i],
                    ds@[i],
                ) by {
                    lemma_lit_lowers_to_ext(r1, r2, scope, uses, &ls@[i], &ds@[i]);
                }
            },
            _ => {},
        },
        ir::Literal::MapOf(ps) => match dst {
            rir::Literal::MapOf(ds) => {
                assert forall|i: int| 0 <= i < ps@.len() implies lit_lowers_to(
                    r2,
                    scope,
                    uses,
                    (#[trigger] ps@[i]).0,
                    ds@[i].0,
                ) && lit_lowers_to(r2, scope, uses, ps@[i].1, ds@[i].1) by {
                    lemma_lit_lowers_to_ext(r1, r2, scope, uses, &ps@[i].0, &ds@[i].0);
                    lemma_lit_lowers_to_ext(r1, r2, scope, uses, &ps@[i].1, &ds@[i].1);
                }
            },
            _ => {},
        },
        _ => {},
    }
}

/// The rewrite field lowering performs: wire tag and requiredness carry over,
/// the name is snake-cased, the type lowers structurally with its references
/// resolved.
pub open spec fn field_lowering_of(
    r: Resolver,
    scope: Seq<ScopeRef>,
    uses: Seq<(Symbol, FileId)>,
    dst: rir::Field,
    src: ir::Field,
) -> bool {
    &&& dst.name@ == crate::symbol::snake_bytes(src.name@)
    &&& dst.id == src.id
    &&& lowers_to(r, scope, uses, src.ty.kind, dst.ty.kind)
    &&& (dst.kind == rir::FieldKind::Required) == (src.kind == ir::FieldKind::Required)
}

/// Field lowering facts survive node-table growth.
pub proof fn lemma_field_lowering_ext(
    r1: Resolver,
    r2: Resolver,
    scope: Seq<ScopeRef>,
    uses: Seq<(Symbol, FileId)>,
    dst: &rir::Field,
    src: ir::Field,
)
    requires
        r2.resolution_extends(r1),
        field_lowering_of(r1, scope, uses, *dst, src),
    ensures
        field_lowering_of(r2, scope, uses, *dst, src),
{
    lemma_lowers_to_ext(r1, r2, scope, uses, &src.ty.kind, &dst.ty.kind);
}

/// The rewrite message lowering performs: each field in order, with the
/// fields' fresh ids pairwise distinct.
pub open spec fn message_lowering_of(
    r: Resolver,
    scope: Seq<ScopeRef>,
    uses: Seq<(Symbol, FileId)>,
    dst: rir::Message,
    src: ir::Message,
) -> bool {
    &&& dst.name@ == src.name@
    &&& dst.fields@.len() == src.fields@.len()
    &&& forall|i: int|
        0 <= i < dst.fields@.len() ==> field_lowering_of(
            r,
            scope,
            uses,
            *(#[trigger] dst.fields@[i]),
            src.fields@[i],
        )
    &&& forall|i: int, j: int|
        0 <= i < j < dst.fields@.len() ==> (*(#[trigger] dst.fields@[i])).did != (*(
        #[trigger] dst.fields@[j])).did
}

/// Message lowering facts survive node-table growth.
pub proof fn lemma_message_lowering_ext(
    r1: Resolver,
    r2: Resolver,
    scope: Seq<ScopeRef>,
    uses: Seq<(Symbol, FileId)>,
    dst: &rir::Message,
    src: ir::Message,
)
    requires
        r2.resolution_extends(r1),
        message_lowering_of(r1, scope, uses, *dst, src),
    ensures
        message_lowering_of(r2, scope, uses, *dst, src),
{
    assert forall|i: int| 0 <= i < dst.fields@.len() implies field_lowering_of(
        r2,
        scope,
        uses,
        *(#[trigger] dst.fields@[i]),
        src.fields@[i],
    ) by {
        lemma_field_lowering_ext(r1, r2, scope, uses, &*dst.fields@[i], src.fields@[i]);
    }
}

/// The rewrite variant lowering performs: wire id, name and discriminant
/// carry over verbatim, the payload types lower in order.
pub open spec fn variant_lowering_of(
    r: Resolver,
    scope: Seq<ScopeRef>,
    uses: Seq<(Symbol, FileId)>,
    dst: rir::EnumVariant,
    src: ir::EnumVariant,
) -> bool {
    &&& dst.name@ == src.name@
    &&& dst.id == src.id
    &&& dst.discr == src.discr
    &&& dst.fields@.len() == src.fields@.len()
    &&& forall|k: int|
        0 <= k < dst.fields@.len() ==> lowers_to(
            r,
            scope,
            uses,
            src.fields@[k].kind,
            (#[trigger] dst.fields@[k]).kind,
        )
}

/// Variant lowering facts survive node-table growth.
pub proof fn lemma_variant_lowering_ext(
    r1: Resolver,
    r2: Resolver,
    scope: Seq<ScopeRef>,
    uses: Seq<(Symbol, FileId)>,
    dst: &rir::EnumVariant,
    src: ir::EnumVariant,
)
    requires
        r2.resolution_extends(r1),
        variant_lowering_of(r1, scope, uses, *dst, src),
    ensures
        variant_lowering_of(r2, scope, uses, *dst, src),
{
    assert forall|k: int| 0 <= k < dst.fields@.len() implies lowers_to(
        r2,
        scope,
        uses,
        src.fields@[k].kind,
        (#[trigger] dst.fields@[k]).kind,
    ) by {
        lemma_lowers_to_ext(r1, r2, scope, uses, &src.fields@[k].kind, &dst.fields@[k].kind);
    }
}

/// The rewrite enum lowering performs: each variant in order under a fresh
/// distinct id, the representation kept.
pub open spec fn enum_lowering_of(
    r: Resolver,
    scope: Seq<ScopeRef>,
    uses: Seq<(Symbol, FileId)>,
    dst: rir::Enum,
    src: ir::Enum,
) -> bool {
    &&& dst.name@ == src.name@
    &&& dst.repr == src.repr
    &&& dst.variants@.len() == src.variants@.len()
    &&& forall|i: int|
        0 <= i < dst.variants@.len() ==> variant_lowering_of(
            r,
            scope,
            uses,
            *(#[trigger] dst.variants@[i]),
            src.variants@[i],
        )
    &&& forall|i: int, j: int|
        0 <= i < j < dst.variants@.len() ==> (*(#[trigger] dst.variants@[i])).did != (*(
        #[trigger] dst.variants@[j])).did
}

/// Enum lowering facts survive node-table growth.
pub proof fn lemma_enum_lowering_ext(
    r1: Resolver,
    r2: Resolver,
    scope: Seq<ScopeRef>,
    uses: Seq<(Symbol, FileId)>,
    dst: &rir::Enum,
    src: ir::Enum,
)
    requires
        r2.resolution_extends(r1),
        enum_lowering_of(r1, scope, uses, *dst, src),
    ensures
        enum_lowering_of(r2, scope, uses, *dst, src),
{
    assert forall|i: int| 0 <= i < dst.variants@.len() implies variant_lowering_of(
        r2,
        scope,
        uses,
        *(#[trigger] dst.variants@[i]),
        src.variants@[i],
    ) by {
        lemma_variant_lowering_ext(r1, r2, scope, uses, &*dst.variants@[i], src.variants@[i]);
    }
}

/// The rewrite method lowering performs: declared on this service, name and
/// flags kept, each argument's name, wire id and type lowered in order, the
/// return type lowered, the exception reference resolved in the type
/// namespace.
pub open spec fn method_lowering_of(
    r: Resolver,
    scope: Seq<ScopeRef>,
    uses: Seq<(Symbol, FileId)>,
    dst: rir::Method,
    src: ir::Method,
) -> bool {
    &&& dst.name@ == src.name@
    &&& dst.oneway == src.oneway
    &&& dst.source == rir::MethodSource::Own
    &&& dst.args@.len() == src.args@.len()
    &&& forall|i: int|
        0 <= i < dst.args@.len() ==> {
            &&& (#[trigger] dst.args@[i]).name@ == src.args@[i].name@
            &&& dst.args@[i].id == src.args@[i].id
            &&& lowers_to(r, scope, uses, src.args@[i].ty.kind, dst.args@[i].ty.kind)
        }
    &&& match (dst.exceptions, src.exceptions) {
        (Some(rp), Some(p)) => rp.kind == DefKind::Type && Some(rp.did) == r.spec_lower_path_in(
            scope,
            uses,
            crate::symbol::syms_view(p.segments@),
            Namespace::Ty,
        ),
        (None, None) => true,
        _ => false,
    }
    &&& lowers_to(r, scope, uses, src.ret.kind, dst.ret.kind)
}

/// Method lowering facts survive node-table growth.
pub proof fn lemma_method_lowering_ext(
    r1: Resolver,
    r2: Resolver,
    scope: Seq<ScopeRef>,
    uses: Seq<(Symbol, FileId)>,
    dst: &rir::Method,
    src: ir::Method,
)
    requires
        r2.resolution_extends(r1),
        method_lowering_of(r1, scope, uses, *dst, src),
    ensures
        method_lowering_of(r2, scope, uses, *dst, src),
{
    assert forall|i: int| 0 <= i < dst.args@.len() implies {
        &&& (#[trigger] dst.args@[i]).name@ == src.args@[i].name@
        &&& dst.args@[i].id == src.args@[i].id
        &&& lowers_to(r2, scope, uses, src.args@[i].ty.kind, dst.args@[i].ty.kind)
    } by {
        lemma_lowers_to_ext(r1, r2, scope, uses, &src.args@[i].ty.kind, &dst.args@[i].ty.kind);
    }
    match (dst.exceptions, src.exceptions) {
        (Some(rp), Some(p)) => {
            lemma_lower_path_in_ext(
                r1,
                r2,
                scope,
                uses,
                crate::symbol::syms_view(p.segments@),
                Namespace::Ty,
            );
        },
        _ => {},
    }
    lemma_lowers_to_ext(r1, r2, scope, uses, &src.ret.kind, &dst.ret.kind);
}

/// The rewrite service lowering performs: each method in order under a fresh
/// distinct id, each extended service resolved to its definition in the type
/// namespace.
pub open spec fn service_lowering_of(
    r: Resolver,
    scope: Seq<ScopeRef>,
    uses: Seq<(Symbol, FileId)>,
    dst: rir::Service,
    src: ir::Service,
) -> bool {
    &&& dst.name@ == src.name@
    &&& dst.methods@.len() == src.methods@.len()
    &&& dst.extend@.len() == src.extend@.len()
    &&& forall|i: int|
        0 <= i < dst.methods@.len() ==> method_lowering_of(
            r,
            scope,
            uses,
            *(#[trigger] dst.methods@[i]),
            src.methods@[i],
        )
    &&& forall|i: int|
        0 <= i < dst.extend@.len() ==> (#[trigger] dst.extend@[i]).kind == DefKind::Type && Some(
            dst.extend@[i].did,
        ) == r.spec_lower_path_in(
            scope,
            uses,
            crate::symbol::syms_view(src.extend@[i].segments@),
            Namespace::Ty,
        )
    &&& forall|i: int, j: int|
        0 <= i < j < dst.methods@.len() ==> (*(#[trigger] dst.methods@[i])).def_id != (*(
        #[trigger] dst.methods@[j])).def_id
}

/// Service lowering facts survive node-table growth.
pub proof fn lemma_service_lowering_ext(
    r1: Resolver,
    r2: Resolver,
    scope: Seq<ScopeRef>,
    uses: Seq<(Symbol, FileId)>,
    dst: &rir::Service,
    src: ir::Service,
)
    requires
        r2.resolution_extends(r1),
        service_lowering_of(r1, scope, uses, *dst, src),
    ensures
        service_lowering_of(r2, scope, uses, *dst, src),
{
    assert forall|i: int| 0 <= i < dst.methods@.len() implies method_lowering_of(
        r2,
        scope,
        uses,
        *(#[trigger] dst.methods@[i]),
        src.methods@[i],
    ) by {
        lemma_method_lowering_ext(r1, r2, scope, uses, &*dst.methods@[i], src.methods@[i]);
    }
    assert forall|i: int| 0 <= i < dst.extend@.len() implies (#[trigger] dst.extend@[i]).kind
        == DefKind::Type && Some(dst.extend@[i].did) == r2.spec_lower_path_in(
        scope,
        uses,
        crate::symbol::syms_view(src.extend@[i].segments@),
        Namespace::Ty,
    ) by {
        lemma_lower_path_in_ext(
            r1,
            r2,
            scope,
            uses,
            crate::symbol::syms_view(src.extend@[i].segments@),
            Namespace::Ty,
        );
    }
}

/// The rewrite item lowering performs, kind by kind.
pub open spec fn item_lowering_of(
    r: Resolver,
    scope: Seq<ScopeRef>,
    uses: Seq<(Symbol, FileId)>,
    dst: rir::Item,
    src: ir::ItemKind,
) -> bool {
    match src {
        ir::ItemKind::Message(m) => dst matches rir::Item::Message(rm) && message_lowering_of(
            r,
            scope,
            uses,
            rm,
            m,
        ),
        ir::ItemKind::Enum(e) => dst matches rir::Item::Enum(re) && enum_lowering_of(
            r,
            scope,
            uses,
            re,
            e,
        ),
        ir::ItemKind::Service(sv) => dst matches rir::Item::Service(rs) && service_lowering_of(
            r,
            scope,
            uses,
            rs,
            sv,
        ),
        ir::ItemKind::NewType(t) => dst matches rir::Item::NewType(rt) && rt.name@ == t.name@
            && lowers_to(r, scope, uses, t.ty.kind, rt.ty.kind),
        ir::ItemKind::Const(c) => dst matches rir::Item::Const(rc) && rc.name@ == c.name@
            && lowers_to(r, scope, uses, c.ty.kind, rc.ty.kind) && lit_lowers_to(
            r,
            scope,
            uses,
            c.lit,
            rc.lit,
        ),
        ir::ItemKind::Mod(m) => dst matches rir::Item::Mod(rm) && rm.name@ == m.name@,
        ir::ItemKind::Use(_) => false,
    }
}

/// Item lowering facts survive node-table growth.
pub proof fn lemma_item_lowering_ext(
    r1: Resolver,
    r2: Resolver,
    scope: Seq<ScopeRef>,
    uses: Seq<(Symbol, FileId)>,
    dst: &rir::Item,
    src: ir::ItemKind,
)
    requires
        r2.resolution_extends(r1),
        item_lowering_of(r1, scope, uses, *dst, src),
    ensures
        item_lowering_of(r2, scope, uses, *dst, src),
{
    match src {
        ir::ItemKind::Message(m) => match dst {
            rir::Item::Message(rm) => {
                lemma_message_lowering_ext(r1, r2, scope, uses, rm, m);
            },
            _ => {},
        },
        ir::ItemKind::Enum(e) => match dst {
            rir::Item::Enum(re) => {
                lemma_enum_lowering_ext(r1, r2, scope, uses, re, e);
            },
            _ => {},
        },
        ir::ItemKind::Service(sv) => match dst {
            rir::Item::Service(rs) => {
                lemma_service_lowering_ext(r1, r2, scope, uses, rs, sv);
            },
            _ => {},
        },
        ir::ItemKind::NewType(t) => match dst {
            rir::Item::NewType(rt) => {
                lemma_lowers_to_ext(r1, r2, scope, uses, &t.ty.kind, &rt.ty.kind);
            },
            _ => {},
        },
        ir::ItemKind::Const(c) => match dst {
            rir::Item::Const(rc) => {
                lemma_lowers_to_ext(r1, r2, scope, uses, &c.ty.kind, &rc.ty.kind);
                lemma_lit_lowers_to_ext(r1, r2, scope, uses, &c.lit, &rc.lit);
            },
            _ => {},
        },
        _ => {},
    }
}

/// The members of a lowered item have nodes of their own: one per field,
/// variant or method, each under the item as parent.
pub open spec fn member_nodes_of(
    nodes: Map<nat, Node>,
    tags: Map<nat, Tags>,
    dst: rir::Item,
    src: ir::ItemKind,
    did: DefId,
    fid: FileId,
) -> bool {
    match src {
        ir::ItemKind::Message(m) => match dst {
            rir::Item::Message(rm) => forall|i: int|
                0 <= i < rm.fields@.len() ==> field_node_of(
                    nodes,
                    tags,
                    *(#[trigger] rm.fields@[i]),
                    Some(did),
                    fid,
                    m.fields@[i].tags,
                ),
            _ => false,
        },
        ir::ItemKind::Enum(e) => match dst {
            rir::Item::Enum(re) => forall|i: int|
                0 <= i < re.variants@.len() ==> variant_node_of(
                    nodes,
                    tags,
                    *(#[trigger] re.variants@[i]),
                    Some(did),
                    fid,
                    e.variants@[i].tags,
                ),
            _ => false,
        },
        ir::ItemKind::Service(sv) => match dst {
            rir::Item::Service(rs) => forall|i: int|
                0 <= i < rs.methods@.len() ==> method_node_of(
                    nodes,
                    tags,
                    *(#[trigger] rs.methods@[i]),
                    Some(did),
                    fid,
                    sv.methods@[i].tags,
                ),
            _ => false,
        },
        _ => true,
    }
}

/// The node table holds the item's node: an `Item` entry under the id its
/// name resolved to, carrying the lowered item, the enclosing item as parent,
/// the owning file, and the source attribute bag under its tag id; the item's
/// own members have their nodes too, under the item as parent.
pub open spec fn item_node_of(
    nodes: Map<nat, Node>,
    tags: Map<nat, Tags>,
    r: Resolver,
    scope: Seq<ScopeRef>,
    uses: Seq<(Symbol, FileId)>,
    did: DefId,
    src: ir::Item,
    parent: Option<DefId>,
    fid: FileId,
) -> bool {
    &&& nodes.contains_key(did.0 as nat)
    &&& {
        let n = nodes[did.0 as nat];
        &&& n.kind matches NodeKind::Item(it) && item_lowering_of(r, scope, uses, *it, src.kind)
            && member_nodes_of(nodes, tags, *it, src.kind, did, fid)
        &&& n.parent == parent
        &&& n.file_id == fid
        &&& tags.contains_key(n.tags.0 as nat)
        &&& tags[n.tags.0 as nat]@ == src.tags@
    }
}

/// The lowered ids of a file or mod body correspond to its non-`Use` items in
/// declaration order: one id per such item, whose node is that item's
/// lowering under the given parent and file.
pub open spec fn lowered_items_of(
    nodes: Map<nat, Node>,
    tags: Map<nat, Tags>,
    r: Resolver,
    scope: Seq<ScopeRef>,
    uses: Seq<(Symbol, FileId)>,
    out: Seq<DefId>,
    items: Seq<ir::Item>,
    parent: Option<DefId>,
    fid: FileId,
) -> bool
    decreases items.len(),
{
    if items.len() == 0 {
        out.len() == 0
    } else if items.last().kind is Use {
        lowered_items_of(nodes, tags, r, scope, uses, out, items.drop_last(), parent, fid)
    } else {
        &&& out.len() > 0
        &&& item_node_of(nodes, tags, r, scope, uses, out.last(), items.last(), parent, fid)
        &&& lowered_items_of(
            nodes,
            tags,
            r,
            scope,
            uses,
            out.drop_last(),
            items.drop_last(),
            parent,
            fid,
        )
    }
}

/// `lowered_items_of` survives growth of the node and tag tables.
pub proof fn lemma_lowered_items_mono(
    n1: Map<nat, Node>,
    t1: Map<nat, Tags>,
    r1: Resolver,
    n2: Map<nat, Node>,
    t2: Map<nat, Tags>,
    r2: Resolver,
    scope: Seq<ScopeRef>,
    uses: Seq<(Symbol, FileId)>,
    out: Seq<DefId>,
    items: Seq<ir::Item>,
    parent: Option<DefId>,
    fid: FileId,
)
    requires
        lowered_items_of(n1, t1, r1, scope, uses, out, items, parent, fid),
        r2.resolution_extends(r1),
        forall|d: nat| #[trigger] n1.contains_key(d) ==> n2.contains_key(d) && n2[d] == n1[d],
        forall|t: nat| #[trigger] t1.contains_key(t) ==> t2.contains_key(t) && t2[t] == t1[t],
    ensures
        lowered_items_of(n2, t2, r2, scope, uses, out, items, parent, fid),
    decreases items.len(),
{
    if items.len() > 0 {
        if items.last().kind is Use {
            lemma_lowered_items_mono(
                n1,
                t1,
                r1,
                n2,
                t2,
                r2,
                scope,
                uses,
                out,
                items.drop_last(),
                parent,
                fid,
            );
        } else {
            match n1[out.last().0 as nat].kind {
                NodeKind::Item(it) => {
                    lemma_item_lowering_ext(r1, r2, scope, uses, &*it, items.last().kind);
                },
                _ => {},
            }
            lemma_lowered_items_mono(
                n1,
                t1,
                r1,
                n2,
                t2,
                r2,
                scope,
                uses,
                out.drop_last(),
                items.drop_last(),
                parent,
                fid,
            );
        }
    }
}

/// A body of imports only lowers to no ids at all.
pub proof fn lemma_lowered_items_use_only(
    nodes: Map<nat, Node>,
    tags: Map<nat, Tags>,
    r: Resolver,
    scope: Seq<ScopeRef>,
    uses: Seq<(Symbol, FileId)>,
    out: Seq<DefId>,
    items: Seq<ir::Item>,
    parent: Option<DefId>,
    fid: FileId,
)
    requires
        lowered_items_of(nodes, tags, r, scope, uses, out, items, parent, fid),
        forall|i: int| 0 <= i < items.len() ==> (#[trigger] items[i]).kind is Use,
    ensures
        out.len() == 0,
    decreases items.len(),
{
    if items.len() > 0 {
        lemma_lowered_items_use_only(
            nodes,
            tags,
            r,
            scope,
            uses,
            out,
            items.drop_last(),
            parent,
            fid,
        );
    }
}

/// The ids of a list of input files.
pub open spec fn spec_file_ids(s: Seq<ir::File>) -> Set<nat> {
    Set::new(|d: nat| exists|i: int| 0 <= i < s.len() && (#[trigger] s[i]).id.0 as nat == d)
}

/// The ids of the input files that hold anything besides imports.
pub open spec fn contributing_ids(s: Seq<ir::File>) -> Set<nat> {
    Set::new(
        |d: nat|
            exists|i: int|
                0 <= i < s.len() && (#[trigger] s[i]).id.0 as nat == d && ir::has_non_use(s[i]),
    )
}

/// What `resolve_files` returns: the lowered files, the total node table and
/// the tag table, with the minted-id range and the namespace classification
/// carried as ghost data.
pub struct ResolveResult {
    pub files: IdMap<rir::File>,
    pub nodes: IdMap<Node>,
    pub tags: IdMap<Tags>,
    pub did_count: Ghost<nat>,
    pub val_dids: Ghost<Set<nat>>,
    pub ty_dids: Ghost<Set<nat>>,
    pub resolver: Ghost<Resolver>,
}

impl Resolver {
    /// Lowers one file: its symbol table becomes the outermost scope, its
    /// items lower in declaration order, and its package path is recorded for
    /// the package tree.
    fn lower_file(&mut self, f: &ir::File) -> (r: Result<rir::File, ResolveError>)
        requires
            old(self).inv(),
            ir::file_ok(*f),
            old(self).spec_fids().contains(f.id.0 as nat),
            old(self).spec_file_tables().contains_key(f.id.0 as nat),
        ensures
            final(self).inv(),
            final(self).lower_grows(*old(self)),
            final(self).blocks@ == old(self).blocks@,
            final(self).cur_file == old(self).cur_file,
            final(self).parent_node == old(self).parent_node,
            final(self).spec_origin_fids().subset_of(
                old(self).spec_origin_fids().insert(f.id.0 as nat),
            ),
            !ir::has_non_use(*f) ==> final(self).spec_origin_fids() == old(self).spec_origin_fids()
                && r is Ok && final(self).spec_did_counter() == old(self).spec_did_counter(),
            match r {
                Ok(rf) => final(self).spec_did_counter() == old(self).spec_did_counter()
                    + ir::items_member_count(f.items@) && rf.file_id == f.id && rf.package@
                    == crate::symbol::syms_view(
                    f.package.segments@,
                ) && lowered_items_of(
                    final(self).spec_nodes(),
                    final(self).spec_tags(),
                    *final(self),
                    old(self).spec_blocks().push(ScopeRef::File(f.id)),
                    f.uses@,
                    rf.items@,
                    f.items@,
                    old(self).spec_parent_node(),
                    f.id,
                ) && (forall|i: int|
                    0 <= i < rf.items@.len() ==> (#[trigger] rf.items@[i]).0 < final(self).spec_did_counter()),
                Err(_) => true,
            },
    {
        let old_file = self.cur_file;
        self.cur_file = Some(f.id);
        let should_pop = self.file_sym_map.contains(f.id.as_usize());
        if should_pop {
            self.blocks.push(ScopeRef::File(f.id));
        }
        let n = f.items.len();
        let mut out: Vec<DefId> = Vec::new();
        let mut i: usize = 0;
        proof {
            assert(f.items@.take(0) =~= Seq::<ir::Item>::empty());
        }
        while i < n
            invariant
                old(self).inv(),
                old_file == old(self).cur_file,
                self.inv(),
                self.lower_grows(*old(self)),
                should_pop,
                self.blocks@ == if should_pop {
                    old(self).blocks@.push(ScopeRef::File(f.id))
                } else {
                    old(self).blocks@
                },
                self.cur_file == Some(f.id),
                self.parent_node == old(self).parent_node,
                self.spec_origin_fids().subset_of(
                    old(self).spec_origin_fids().insert(f.id.0 as nat),
                ),
                (forall|j: int| 0 <= j < i ==> (#[trigger] f.items@[j]).kind is Use)
                    ==> self.spec_origin_fids() == old(self).spec_origin_fids()
                        && self.spec_did_counter() == old(self).spec_did_counter(),
                n == f.items@.len(),
                0 <= i <= n,
                self.spec_did_counter() == old(self).spec_did_counter() + ir::items_member_count(
                    f.items@.take(i as int),
                ),
                forall|j: int| 0 <= j < n ==> ir::item_ok(#[trigger] f.items@[j]),
                forall|j: int| 0 <= j < out@.len() ==> (#[trigger] out@[j]).0
                    < self.spec_did_counter(),
                lowered_items_of(
                    self.spec_nodes(),
                    self.spec_tags(),
                    *self,
                    old(self).spec_blocks().push(ScopeRef::File(f.id)),
                    f.uses@,
                    out@,
                    f.items@.take(i as int),
                    old(self).spec_parent_node(),
                    f.id,
                ),
            decreases n - i,
        {
            let ghost prei = *self;
            let ghost preout = out@;
            let lowered = self.lower_item(&f.uses, &f.items[i]);
            proof {
                assert(f.items@.take(i + 1).drop_last() =~= f.items@.take(i as int));
                assert(f.items@.take(i + 1).last() == f.items@[i as int]);
            }
            match lowered {
                Ok(Some(d)) => {
                    out.push(d);
                    proof {
                        lemma_lowered_items_mono(
                            prei.spec_nodes(),
                            prei.spec_tags(),
                            prei,
                            self.spec_nodes(),
                            self.spec_tags(),
                            *self,
                            old(self).spec_blocks().push(ScopeRef::File(f.id)),
                            f.uses@,
                            preout,
                            f.items@.take(i as int),
                            old(self).spec_parent_node(),
                            f.id,
                        );
                        assert(out@.drop_last() =~= preout);
                        assert(out@.last() == d);
                    }
                },
                Ok(None) => {},
                Err(e) => {
                    if should_pop {
                        let _ = self.blocks.pop();
                    }
                    proof {
                        assert(self.blocks@ =~= old(self).blocks@);
                    }
                    self.cur_file = old_file;
                    return Err(e);
                },
            }
            i = i + 1;
        }
        proof {
            assert(f.items@.take(n as int) =~= f.items@);
        }
        let ghost endloop = *self;
        if should_pop {
            let _ = self.blocks.pop();
        }
        proof {
            assert(self.blocks@ =~= old(self).blocks@);
        }
        self.cur_file = old_file;
        proof {
            assert(f.items@.take(n as int) =~= f.items@);
            lemma_lowered_items_mono(
                endloop.spec_nodes(),
                endloop.spec_tags(),
                endloop,
                self.spec_nodes(),
                self.spec_tags(),
                *self,
                old(self).spec_blocks().push(ScopeRef::File(f.id)),
                f.uses@,
                out@,
                f.items@,
                old(self).spec_parent_node(),
                f.id,
            );
        }
        let package = rir::ItemPath::from(crate::symbol::clone_syms(&f.package.segments));
        Ok(rir::File { file_id: f.id, items: out, package })
    }

    /// Resolves and lowers a batch of input files.
    ///
    /// Pass 1 collects every nameable definition; pass 2 lowers every file.
    /// On success the node table is total over the minted id range, every
    /// resolved reference and tag id in it is answered by the returned
    /// tables, every node's file is a lowered input file that held a
    /// definition, field names are snake case, and the two namespaces never
    /// mix: an id collected as a value names a constant, an id collected as a
    /// type never does.
    pub fn resolve_files(self, files: &Vec<ir::File>) -> (r: Result<ResolveResult, ResolveError>)
        requires
            self.inv(),
            self.is_fresh(),
            forall|i: int| 0 <= i < files@.len() ==> ir::file_ok(#[trigger] files@[i]),
            forall|i: int, j: int|
                0 <= i < j < files@.len() ==> (#[trigger] files@[i]).id.0 != (
                #[trigger] files@[j]).id.0,
        ensures
            match r {
                Ok(rr) => {
                    &&& rr.files.wf()
                    &&& rr.nodes.wf()
                    &&& rr.tags.wf()
                    &&& forall|d: nat| d < rr.did_count@ ==> rr.nodes@.contains_key(d)
                    &&& forall|d: nat| #[trigger]
                        rr.nodes@.contains_key(d) ==> {
                            &&& d < rr.did_count@
                            &&& node_dids_lt(rr.nodes@[d], rr.did_count@)
                            &&& node_tags_in(rr.nodes@[d], rr.tags@.dom())
                            &&& rr.files@.contains_key(rr.nodes@[d].file_id.0 as nat)
                            &&& contributing_ids(files@).contains(rr.nodes@[d].file_id.0 as nat)
                            &&& node_names_snake(rr.nodes@[d])
                            &&& (rr.val_dids@.contains(d) ==> is_const_item(rr.nodes@[d]))
                            &&& (rr.ty_dids@.contains(d) ==> is_type_item(rr.nodes@[d]))
                        }
                    &&& forall|d: nat| #[trigger]
                        rr.val_dids@.contains(d) ==> rr.nodes@.contains_key(d) && is_const_item(
                            rr.nodes@[d],
                        )
                    &&& forall|d: nat| #[trigger]
                        rr.ty_dids@.contains(d) ==> rr.nodes@.contains_key(d) && is_type_item(
                            rr.nodes@[d],
                        )
                    &&& rr.did_count@ == ir::files_def_count(files@)
                    &&& rr.resolver@.spec_nodes() == rr.nodes@
                    &&& rr.resolver@.spec_tags() == rr.tags@
                    &&& rr.files@.dom() == spec_file_ids(files@)
                    &&& forall|i: int|
                        0 <= i < files@.len() ==> {
                            &&& rr.files@.contains_key((#[trigger] files@[i]).id.0 as nat)
                            &&& {
                                let rf = rr.files@[files@[i].id.0 as nat];
                                &&& rf.file_id == files@[i].id
                                &&& rf.package@ == crate::symbol::syms_view(
                                    files@[i].package.segments@,
                                )
                                &&& lowered_items_of(
                                    rr.nodes@,
                                    rr.tags@,
                                    rr.resolver@,
                                    seq![ScopeRef::File(files@[i].id)],
                                    files@[i].uses@,
                                    rf.items@,
                                    files@[i].items@,
                                    None,
                                    files@[i].id,
                                )
                            }
                        }
                    &&& (files@.len() == 0 ==> rr.did_count@ == 0 && rr.tags@.dom()
                        == Set::<nat>::empty() && rr.nodes@.dom() == Set::<nat>::empty())
                },
                Err(_) => true,
            },
            (forall|i: int| 0 <= i < files@.len() ==> !ir::has_non_use(#[trigger] files@[i]))
                ==> r is Ok,
    {
        let mut this = self;
        proof {
            this.fids@ = spec_file_ids(files@);
        }
        let n = files.len();

        let mut i: usize = 0;
        proof {
            assert(files@.take(0) =~= Seq::<ir::File>::empty());
        }
        while i < n
            invariant
                this.inv(),
                this.spec_fids() == spec_file_ids(files@),
                this.nodes@ == Map::<nat, Node>::empty(),
                this.tags@ == Map::<nat, Tags>::empty(),
                this.spec_tags_counter() == 0,
                this.blocks@.len() == 0,
                this.cur_file is None,
                this.parent_node is None,
                this.spec_origin_fids() == Set::<nat>::empty(),
                n == files@.len(),
                0 <= i <= n,
                this.spec_did_counter() == ir::files_decl_count(files@.take(i as int)),
                (forall|j: int| 0 <= j < n ==> !ir::has_non_use(#[trigger] files@[j]))
                    ==> this.spec_did_counter() == 0,
                forall|j: int|
                    0 <= j < i ==> this.spec_file_tables().contains_key(
                        (#[trigger] files@[j]).id.0 as nat,
                    ),
                forall|j: int| 0 <= j < n ==> ir::file_ok(#[trigger] files@[j]),
            decreases n - i,
        {
            match this.collect_file(&files[i]) {
                Ok(_) => {},
                Err(e) => {
                    return Err(e);
                },
            }
            proof {
                assert(files@.take(i + 1).drop_last() =~= files@.take(i as int));
                assert(files@.take(i + 1).last() == files@[i as int]);
            }
            i = i + 1;
        }
        proof {
            assert(files@.take(n as int) =~= files@);
        }

        let mut files_out: IdMap<rir::File> = IdMap::new();
        let mut k: usize = 0;
        proof {
            assert(files@.take(0) =~= Seq::<ir::File>::empty());
        }
        while k < n
            invariant
                this.inv(),
                this.spec_fids() == spec_file_ids(files@),
                this.blocks@.len() == 0,
                this.cur_file is None,
                this.parent_node is None,
                this.spec_origin_fids().subset_of(contributing_ids(files@)),
                files_out.wf(),
                files_out@.dom() == spec_file_ids(files@.take(k as int)),
                forall|j: int|
                    0 <= j < k ==> {
                        &&& files_out@.contains_key((#[trigger] files@[j]).id.0 as nat)
                        &&& {
                            let rf = files_out@[files@[j].id.0 as nat];
                            &&& rf.file_id == files@[j].id
                            &&& rf.package@ == crate::symbol::syms_view(
                                files@[j].package.segments@,
                            )
                            &&& lowered_items_of(
                                this.spec_nodes(),
                                this.spec_tags(),
                                this,
                                seq![ScopeRef::File(files@[j].id)],
                                files@[j].uses@,
                                rf.items@,
                                files@[j].items@,
                                None,
                                files@[j].id,
                            )
                        }
                    },
                forall|i: int, j: int|
                    0 <= i < j < files@.len() ==> (#[trigger] files@[i]).id.0 != (
                    #[trigger] files@[j]).id.0,
                n == files@.len(),
                0 <= k <= n,
                this.spec_did_counter() == ir::files_decl_count(files@)
                    + ir::files_member_count(files@.take(k as int)),
                (forall|j: int| 0 <= j < n ==> !ir::has_non_use(#[trigger] files@[j]))
                    ==> this.spec_did_counter() == 0,
                n == 0 ==> this.spec_tags_counter() == 0,
                forall|j: int|
                    0 <= j < n ==> this.spec_file_tables().contains_key(
                        (#[trigger] files@[j]).id.0 as nat,
                    ),
                forall|j: int| 0 <= j < n ==> ir::file_ok(#[trigger] files@[j]),
            decreases n - k,
        {
            let f = &files[k];
            proof {
                assert(spec_file_ids(files@).contains(f.id.0 as nat));
            }
            let ghost prek = this;
            proof {
                assert(prek.spec_blocks().push(ScopeRef::File(f.id)) =~= seq![
                    ScopeRef::File(files@[k as int].id),
                ]);
            }
            let rf = match this.lower_file(f) {
                Ok(x) => x,
                Err(e) => {
                    return Err(e);
                },
            };
            files_out.insert(f.id.as_usize(), rf);
            proof {
                assert forall|j: int| 0 <= j < k + 1 implies {
                    &&& files_out@.contains_key((#[trigger] files@[j]).id.0 as nat)
                    &&& {
                        let rfj = files_out@[files@[j].id.0 as nat];
                        &&& rfj.file_id == files@[j].id
                        &&& rfj.package@ == crate::symbol::syms_view(files@[j].package.segments@)
                        &&& lowered_items_of(
                            this.spec_nodes(),
                            this.spec_tags(),
                            this,
                            seq![ScopeRef::File(files@[j].id)],
                            files@[j].uses@,
                            rfj.items@,
                            files@[j].items@,
                            None,
                            files@[j].id,
                        )
                    }
                } by {
                    if j < k {
                        assert(files@[j].id.0 != files@[k as int].id.0);
                        lemma_lowered_items_mono(
                            prek.spec_nodes(),
                            prek.spec_tags(),
                            prek,
                            this.spec_nodes(),
                            this.spec_tags(),
                            this,
                            seq![ScopeRef::File(files@[j].id)],
                            files@[j].uses@,
                            files_out@[files@[j].id.0 as nat].items@,
                            files@[j].items@,
                            None,
                            files@[j].id,
                        );
                    }
                }
                if ir::has_non_use(files@[k as int]) {
                    assert(contributing_ids(files@).contains(f.id.0 as nat));
                    assert(this.spec_origin_fids().subset_of(contributing_ids(files@)));
                } else {
                    assert(this.spec_origin_fids() == prek.spec_origin_fids());
                }
                assert(files@.take(k + 1).drop_last() =~= files@.take(k as int));
                assert(files@.take(k + 1).last() == files@[k as int]);
                assert(ir::files_member_count(files@.take(k + 1)) == ir::files_member_count(
                    files@.take(k as int),
                ) + ir::items_member_count(files@[k as int].items@));
                assert forall|dd: nat|
                    spec_file_ids(files@.take(k + 1)).contains(dd) implies
                    files_out@.dom().contains(dd) by {
                    let wi = choose|wi: int|
                        0 <= wi < files@.take(k + 1).len() && (#[trigger] files@.take(k + 1)[wi]).id.0 as nat
                            == dd;
                    if wi < k {
                        assert(files@.take(k as int)[wi] == files@.take(k + 1)[wi]);
                        assert(spec_file_ids(files@.take(k as int)).contains(dd));
                    } else {
                        assert(files@.take(k + 1)[wi] == files@[k as int]);
                    }
                }
                assert forall|dd: nat|
                    files_out@.dom().contains(dd) implies spec_file_ids(
                    files@.take(k + 1),
                ).contains(dd) by {
                    if dd == f.id.0 as nat {
                        assert(files@.take(k + 1)[k as int] == files@[k as int]);
                        assert((files@.take(k + 1)[k as int]).id.0 as nat == dd);
                    } else {
                        assert(spec_file_ids(files@.take(k as int)).contains(dd));
                        let wi = choose|wi: int|
                            0 <= wi < files@.take(k as int).len() && (#[trigger] files@.take(
                                k as int,
                            )[wi]).id.0 as nat == dd;
                        assert(files@.take(k + 1)[wi] == files@.take(k as int)[wi]);
                    }
                }
                assert(files_out@.dom() =~= spec_file_ids(files@.take(k + 1)));
            }
            k = k + 1;
        }
        proof {
            assert(files@.take(n as int) =~= files@);
            assert(files_out@.dom() == spec_file_ids(files@));
        }

        let total = this.did_counter.as_usize();
        let mut d: usize = 0;
        while d < total
            invariant
                this.inv(),
                total == this.spec_did_counter(),
                0 <= d <= total,
                (forall|j: int| 0 <= j < files@.len() ==> !ir::has_non_use(#[trigger] files@[j]))
                    ==> total == 0,
                forall|e: nat| e < d ==> this.spec_nodes().contains_key(e),
            decreases total - d,
        {
            if !this.nodes.contains(d) {
                return Err(ResolveError::InvalidNodeShape);
            }
            d = d + 1;
        }

        proof {
            assert(total == this.spec_did_counter());
            assert forall|dd: nat| dd < this.spec_did_counter() implies
                this.spec_nodes().contains_key(dd) by {
                assert(dd < d);
            }
            assert forall|dd: nat| #[trigger]
                this.val_dids@.contains(dd) implies this.spec_nodes().contains_key(dd)
                && is_const_item(this.spec_nodes()[dd]) by {
                assert(dd < this.spec_did_counter());
                assert(this.spec_nodes().contains_key(dd));
                assert(this.node_ok(dd, this.spec_nodes()[dd]));
            }
            assert forall|dd: nat| #[trigger]
                this.ty_dids@.contains(dd) implies this.spec_nodes().contains_key(dd)
                && is_type_item(this.spec_nodes()[dd]) by {
                assert(dd < this.spec_did_counter());
                assert(this.spec_nodes().contains_key(dd));
                assert(this.node_ok(dd, this.spec_nodes()[dd]));
            }
        }

        let ghost gres = this;
        let ghost gnodes = this.nodes;
        proof {
            assert forall|dd: nat| dd < this.did_counter.0 as nat implies gnodes@.contains_key(
                dd,
            ) by {
                assert(this.spec_nodes().contains_key(dd));
            }
        }
        let out = ResolveResult {
            files: files_out,
            nodes: this.nodes,
            tags: this.tags,
            did_count: Ghost(this.did_counter.0 as nat),
            val_dids: this.val_dids,
            ty_dids: this.ty_dids,
            resolver: Ghost(gres),
        };
        proof {
            assert(out.nodes == gnodes);
            assert forall|dd: nat| dd < out.did_count@ implies out.nodes@.contains_key(dd) by {
                assert(gnodes@.contains_key(dd));
            }
        }
        Ok(out)
    }
}

} // verus!
