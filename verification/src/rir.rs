//! Resolved IR: the lowered, cross-referenced form that the emitter consumes.
//!
//! Every name reference has collapsed to a `Path` holding a `DefId`; all
//! items, fields, enum variants and methods hang off a flat `DefId -> Node`
//! table. Cross-references are ids, never pointers, so the structure is
//! acyclic and stable.
use std::sync::Arc;

use vstd::prelude::*;

use crate::index::{DefId, FileId, TagId};
use crate::symbol::Symbol;
use crate::ty::Ty;
use crate::ty::TyKind;

verus! {

/// The namespace a resolved reference was requested in.
#[derive(Clone, Copy, Debug, PartialEq, Eq, Structural, Hash)]
pub enum DefKind {
    Type,
    Value,
}

/// A resolved reference: the namespace it was resolved in and the definition
/// it names.
#[derive(Clone, Copy, Debug, PartialEq, Eq, Structural, Hash)]
pub struct Path {
    pub kind: DefKind,
    pub did: DefId,
}

/// A fully-qualified location: an ordered sequence of symbols.
#[derive(Debug)]
pub struct ItemPath {
    pub segments: Vec<Symbol>,
}

impl View for ItemPath {
    type V = Seq<Seq<u8>>;

    open spec fn view(&self) -> Seq<Seq<u8>> {
        crate::symbol::syms_view(self.segments@)
    }
}

impl ItemPath {
    pub fn from(segments: Vec<Symbol>) -> (r: ItemPath)
        ensures
            r.segments@ == segments@,
    {
        ItemPath { segments }
    }

    pub fn len(&self) -> (r: usize)
        ensures
            r == self.segments@.len(),
    {
        self.segments.len()
    }

    pub fn first(&self) -> (r: &Symbol)
        requires
            self.segments@.len() > 0,
        ensures
            r == self.segments@[0],
    {
        &self.segments[0]
    }

    pub fn last(&self) -> (r: &Symbol)
        requires
            self.segments@.len() > 0,
        ensures
            r == self.segments@.last(),
    {
        &self.segments[self.segments.len() - 1]
    }

    pub fn get(&self, i: usize) -> (r: &Symbol)
        requires
            i < self.segments@.len(),
        ensures
            r == self.segments@[i as int],
    {
        &self.segments[i]
    }
}

/// Whether a field is required or optional on the wire.
#[derive(Clone, Copy, Debug, PartialEq, Eq, Structural)]
pub enum FieldKind {
    Required,
    Optional,
}

/// A message field; `id` is the wire tag number, `name` is snake-cased.
#[derive(Debug)]
pub struct Field {
    pub did: DefId,
    pub id: i32,
    pub kind: FieldKind,
    pub name: Symbol,
    pub ty: Ty,
}

/// One variant of an enum; variants carry their own `DefId`.
#[derive(Debug)]
pub struct EnumVariant {
    pub id: i32,
    pub did: DefId,
    pub name: Symbol,
    pub discr: Option<i64>,
    pub fields: Vec<Ty>,
}

/// The integer representation an enum was declared with.
#[derive(Clone, Copy, Debug, PartialEq, Eq, Structural)]
pub enum EnumRepr {
    I8,
    I16,
    I32,
    I64,
}

#[derive(Debug)]
pub struct Enum {
    pub name: Symbol,
    pub variants: Vec<Arc<EnumVariant>>,
    pub repr: Option<EnumRepr>,
}

#[derive(Debug)]
pub struct Message {
    pub name: Symbol,
    pub fields: Vec<Arc<Field>>,
}

/// Where a service method comes from: declared on the service itself, or
/// inherited from the extended service with the given id.
#[derive(Clone, Copy, Debug, PartialEq, Eq, Structural)]
pub enum MethodSource {
    Own,
    Inherited(DefId),
}

#[derive(Debug)]
pub struct Arg {
    pub ty: Ty,
    pub name: Symbol,
    pub id: i32,
}

#[derive(Debug)]
pub struct Method {
    pub def_id: DefId,
    pub source: MethodSource,
    pub name: Symbol,
    pub args: Vec<Arg>,
    pub ret: Ty,
    pub oneway: bool,
    pub exceptions: Option<Path>,
}

#[derive(Debug)]
pub struct Service {
    pub name: Symbol,
    pub methods: Vec<Arc<Method>>,
    pub extend: Vec<Path>,
}

#[derive(Debug)]
pub struct NewType {
    pub name: Symbol,
    pub ty: Ty,
}

/// A constant's value. Text-valued literals (strings, float spellings) keep
/// their source bytes.
#[derive(Debug)]
pub enum Literal {
    Path(Path),
    String(Symbol),
    Int(i64),
    Float(Symbol),
    List(Vec<Literal>),
    MapOf(Vec<(Literal, Literal)>),
}

#[derive(Debug)]
pub struct Const {
    pub name: Symbol,
    pub ty: Ty,
    pub lit: Literal,
}

#[derive(Debug)]
pub struct Mod {
    pub name: Symbol,
    pub items: Vec<DefId>,
}

/// A lowered top-level definition.
#[derive(Debug)]
pub enum Item {
    Message(Message),
    Enum(Enum),
    Service(Service),
    NewType(NewType),
    Const(Const),
    Mod(Mod),
}

/// What a node in the table stands for.
#[derive(Debug)]
pub enum NodeKind {
    Item(Arc<Item>),
    Field(Arc<Field>),
    Variant(Arc<EnumVariant>),
    Method(Arc<Method>),
}

/// Relies on `Arc::clone`: the clone is the same shared value.
#[verifier::external_body]
pub fn share<T>(v: &Arc<T>) -> (r: Arc<T>)
    ensures
        r == *v,
{
    Arc::clone(v)
}

/// The universal RIR envelope: one entry of the `DefId -> Node` table.
#[derive(Debug)]
pub struct Node {
    pub tags: TagId,
    pub parent: Option<DefId>,
    pub file_id: FileId,
    pub kind: NodeKind,
}

/// A lowered file: the ids of its top-level items and its package path.
#[derive(Debug)]
pub struct File {
    pub file_id: FileId,
    pub items: Vec<DefId>,
    pub package: ItemPath,
}

/// Every resolved reference inside the type points below `bound`.
pub open spec fn ty_dids_lt(t: Ty, bound: nat) -> bool
    decreases t,
{
    match t.kind {
        TyKind::Vec(inner) => ty_dids_lt(*inner, bound),
        TyKind::SetOf(inner) => ty_dids_lt(*inner, bound),
        TyKind::Arc(inner) => ty_dids_lt(*inner, bound),
        TyKind::MapOf(k, v) => ty_dids_lt(*k, bound) && ty_dids_lt(*v, bound),
        TyKind::Path(p) => p.did.0 < bound,
        _ => true,
    }
}

/// Every tag id inside the type is a member of `tags`.
pub open spec fn ty_tags_in(t: Ty, tags: Set<nat>) -> bool
    decreases t,
{
    &&& tags.contains(t.tags_id.0 as nat)
    &&& match t.kind {
        TyKind::Vec(inner) => ty_tags_in(*inner, tags),
        TyKind::SetOf(inner) => ty_tags_in(*inner, tags),
        TyKind::Arc(inner) => ty_tags_in(*inner, tags),
        TyKind::MapOf(k, v) => ty_tags_in(*k, tags) && ty_tags_in(*v, tags),
        _ => true,
    }
}

/// Every resolved reference inside the literal points below `bound`.
pub open spec fn lit_dids_lt(l: Literal, bound: nat) -> bool
    decreases l,
{
    match l {
        Literal::Path(p) => p.did.0 < bound,
        Literal::List(ls) => forall|i: int|
            0 <= i < ls@.len() ==> lit_dids_lt(#[trigger] ls@[i], bound),
        Literal::MapOf(ps) => forall|i: int|
            0 <= i < ps@.len() ==> lit_dids_lt((#[trigger] ps@[i]).0, bound) && lit_dids_lt(
                ps@[i].1,
                bound,
            ),
        _ => true,
    }
}

/// Every resolved reference inside the item, the ids of its own fields,
/// variants and methods included, points below `bound`.
pub open spec fn item_dids_lt(it: Item, bound: nat) -> bool {
    match it {
        Item::Message(m) => forall|i: int|
            0 <= i < m.fields@.len() ==> ty_dids_lt((*(#[trigger] m.fields@[i])).ty, bound) && (*(
            #[trigger] m.fields@[i])).did.0 < bound,
        Item::Enum(e) => {
            &&& forall|i: int, j: int|
                0 <= i < e.variants@.len() && 0 <= j < (*(#[trigger] e.variants@[i])).fields@.len()
                    ==> ty_dids_lt(#[trigger] (*e.variants@[i]).fields@[j], bound)
            &&& forall|i: int|
                0 <= i < e.variants@.len() ==> (*(#[trigger] e.variants@[i])).did.0 < bound
        },
        Item::Service(s) => {
            &&& forall|i: int|
                0 <= i < s.methods@.len() ==> method_dids_lt(*(#[trigger] s.methods@[i]), bound)
            &&& forall|i: int|
                0 <= i < s.extend@.len() ==> (#[trigger] s.extend@[i]).did.0 < bound
        },
        Item::NewType(n) => ty_dids_lt(n.ty, bound),
        Item::Const(c) => ty_dids_lt(c.ty, bound) && lit_dids_lt(c.lit, bound),
        Item::Mod(m) => forall|i: int| 0 <= i < m.items@.len() ==> (#[trigger] m.items@[i]).0
            < bound,
    }
}

/// Every resolved reference inside the method, its own id included, points
/// below `bound`.
pub open spec fn method_dids_lt(m: Method, bound: nat) -> bool {
    &&& m.def_id.0 < bound
    &&& forall|i: int| 0 <= i < m.args@.len() ==> ty_dids_lt((#[trigger] m.args@[i]).ty, bound)
    &&& ty_dids_lt(m.ret, bound)
    &&& match m.exceptions {
        Some(p) => p.did.0 < bound,
        None => true,
    }
}

/// Every resolved reference inside the node points below `bound`.
pub open spec fn node_dids_lt(n: Node, bound: nat) -> bool {
    match n.kind {
        NodeKind::Item(it) => item_dids_lt(*it, bound),
        NodeKind::Field(f) => ty_dids_lt(f.ty, bound),
        NodeKind::Variant(v) => forall|i: int|
            0 <= i < v.fields@.len() ==> ty_dids_lt(#[trigger] v.fields@[i], bound),
        NodeKind::Method(m) => method_dids_lt(*m, bound),
    }
}

/// Every tag id inside the item is a member of `tags`.
pub open spec fn item_tags_in(it: Item, tags: Set<nat>) -> bool {
    match it {
        Item::Message(m) => forall|i: int|
            0 <= i < m.fields@.len() ==> ty_tags_in((*(#[trigger] m.fields@[i])).ty, tags),
        Item::Enum(e) => forall|i: int, j: int|
            0 <= i < e.variants@.len() && 0 <= j < (*(#[trigger] e.variants@[i])).fields@.len()
                ==> ty_tags_in(#[trigger] (*e.variants@[i]).fields@[j], tags),
        Item::Service(s) => forall|i: int|
            0 <= i < s.methods@.len() ==> method_tags_in(*(#[trigger] s.methods@[i]), tags),
        Item::NewType(n) => ty_tags_in(n.ty, tags),
        Item::Const(c) => ty_tags_in(c.ty, tags),
        Item::Mod(_) => true,
    }
}

/// Every tag id inside the method is a member of `tags`.
pub open spec fn method_tags_in(m: Method, tags: Set<nat>) -> bool {
    &&& forall|i: int| 0 <= i < m.args@.len() ==> ty_tags_in((#[trigger] m.args@[i]).ty, tags)
    &&& ty_tags_in(m.ret, tags)
}

/// Every tag id inside the node, the node's own included, is in `tags`.
pub open spec fn node_tags_in(n: Node, tags: Set<nat>) -> bool {
    &&& tags.contains(n.tags.0 as nat)
    &&& match n.kind {
        NodeKind::Item(it) => item_tags_in(*it, tags),
        NodeKind::Field(f) => ty_tags_in(f.ty, tags),
        NodeKind::Variant(v) => forall|i: int|
            0 <= i < v.fields@.len() ==> ty_tags_in(#[trigger] v.fields@[i], tags),
        NodeKind::Method(m) => method_tags_in(*m, tags),
    }
}

/// The node stands for a constant definition.
pub open spec fn is_const_item(n: Node) -> bool {
    match n.kind {
        NodeKind::Item(it) => (*it) is Const,
        _ => false,
    }
}

/// The node stands for a type-namespace definition: an item that is not a
/// constant.
pub open spec fn is_type_item(n: Node) -> bool {
    match n.kind {
        NodeKind::Item(it) => !((*it) is Const),
        _ => false,
    }
}

/// Field names held by the node are snake case.
pub open spec fn node_names_snake(n: Node) -> bool {
    match n.kind {
        NodeKind::Item(it) => match *it {
            Item::Message(m) => forall|i: int|
                0 <= i < m.fields@.len() ==> crate::symbol::is_snake_case(
                    (*(#[trigger] m.fields@[i])).name@,
                ),
            _ => true,
        },
        NodeKind::Field(f) => crate::symbol::is_snake_case(f.name@),
        _ => true,
    }
}

/// Larger bounds keep `ty_dids_lt` true.
pub proof fn lemma_ty_dids_lt_mono(t: &Ty, b1: nat, b2: nat)
    requires
        ty_dids_lt(*t, b1),
        b1 <= b2,
    ensures
        ty_dids_lt(*t, b2),
    decreases *t,
{
    match &t.kind {
        TyKind::Vec(inner) => lemma_ty_dids_lt_mono(&**inner, b1, b2),
        TyKind::SetOf(inner) => lemma_ty_dids_lt_mono(&**inner, b1, b2),
        TyKind::Arc(inner) => lemma_ty_dids_lt_mono(&**inner, b1, b2),
        TyKind::MapOf(k, v) => {
            lemma_ty_dids_lt_mono(&**k, b1, b2);
            lemma_ty_dids_lt_mono(&**v, b1, b2);
        },
        _ => {},
    }
}

/// Larger tag sets keep `ty_tags_in` true.
pub proof fn lemma_ty_tags_in_mono(t: &Ty, s1: Set<nat>, s2: Set<nat>)
    requires
        ty_tags_in(*t, s1),
        s1.subset_of(s2),
    ensures
        ty_tags_in(*t, s2),
    decreases *t,
{
    match &t.kind {
        TyKind::Vec(inner) => lemma_ty_tags_in_mono(&**inner, s1, s2),
        TyKind::SetOf(inner) => lemma_ty_tags_in_mono(&**inner, s1, s2),
        TyKind::Arc(inner) => lemma_ty_tags_in_mono(&**inner, s1, s2),
        TyKind::MapOf(k, v) => {
            lemma_ty_tags_in_mono(&**k, s1, s2);
            lemma_ty_tags_in_mono(&**v, s1, s2);
        },
        _ => {},
    }
}

/// Larger bounds keep `lit_dids_lt` true.
pub proof fn lemma_lit_dids_lt_mono(l: Literal, b1: nat, b2: nat)
    requires
        lit_dids_lt(l, b1),
        b1 <= b2,
    ensures
        lit_dids_lt(l, b2),
    decreases l,
{
    match l {
        Literal::List(ls) => {
            assert forall|i: int| 0 <= i < ls@.len() implies lit_dids_lt(
                #[trigger] ls@[i],
                b2,
            ) by {
                lemma_lit_dids_lt_mono(ls@[i], b1, b2);
            }
        },
        Literal::MapOf(ps) => {
            assert forall|i: int| 0 <= i < ps@.len() implies lit_dids_lt((#[trigger] ps@[i]).0, b2)
                && lit_dids_lt(ps@[i].1, b2) by {
                lemma_lit_dids_lt_mono(ps@[i].0, b1, b2);
                lemma_lit_dids_lt_mono(ps@[i].1, b1, b2);
            }
        },
        _ => {},
    }
}

/// Larger bounds and tag sets keep the node predicates true.
pub proof fn lemma_node_mono(n: &Node, b1: nat, b2: nat, s1: Set<nat>, s2: Set<nat>)
    requires
        node_dids_lt(*n, b1),
        node_tags_in(*n, s1),
        b1 <= b2,
        s1.subset_of(s2),
    ensures
        node_dids_lt(*n, b2),
        node_tags_in(*n, s2),
{
    match &n.kind {
        NodeKind::Item(it) => {
            lemma_item_mono(&**it, b1, b2, s1, s2);
        },
        NodeKind::Field(f) => {
            lemma_ty_dids_lt_mono(&(**f).ty, b1, b2);
            lemma_ty_tags_in_mono(&(**f).ty, s1, s2);
        },
        NodeKind::Variant(v) => {
            assert forall|i: int| 0 <= i < (*v).fields@.len() implies ty_dids_lt(
                #[trigger] (*v).fields@[i],
                b2,
            ) && ty_tags_in((*v).fields@[i], s2) by {
                lemma_ty_dids_lt_mono(&(*v).fields@[i], b1, b2);
                lemma_ty_tags_in_mono(&(*v).fields@[i], s1, s2);
            }
        },
        NodeKind::Method(m) => {
            lemma_method_mono(&**m, b1, b2, s1, s2);
        },
    }
}

/// Larger bounds and tag sets keep the method predicates true.
pub proof fn lemma_method_mono(m: &Method, b1: nat, b2: nat, s1: Set<nat>, s2: Set<nat>)
    requires
        method_dids_lt(*m, b1),
        method_tags_in(*m, s1),
        b1 <= b2,
        s1.subset_of(s2),
    ensures
        method_dids_lt(*m, b2),
        method_tags_in(*m, s2),
{
    assert forall|i: int| 0 <= i < m.args@.len() implies ty_dids_lt(
        (#[trigger] m.args@[i]).ty,
        b2,
    ) && ty_tags_in(m.args@[i].ty, s2) by {
        lemma_ty_dids_lt_mono(&m.args@[i].ty, b1, b2);
        lemma_ty_tags_in_mono(&m.args@[i].ty, s1, s2);
    }
    lemma_ty_dids_lt_mono(&m.ret, b1, b2);
    lemma_ty_tags_in_mono(&m.ret, s1, s2);
}

/// Larger bounds and tag sets keep the item predicates true.
pub proof fn lemma_item_mono(it: &Item, b1: nat, b2: nat, s1: Set<nat>, s2: Set<nat>)
    requires
        item_dids_lt(*it, b1),
        item_tags_in(*it, s1),
        b1 <= b2,
        s1.subset_of(s2),
    ensures
        item_dids_lt(*it, b2),
        item_tags_in(*it, s2),
{
    match it {
        Item::Message(m) => {
            assert forall|i: int| 0 <= i < m.fields@.len() implies ty_dids_lt(
                (*(#[trigger] m.fields@[i])).ty,
                b2,
            ) && ty_tags_in((*m.fields@[i]).ty, s2) by {
                lemma_ty_dids_lt_mono(&(*m.fields@[i]).ty, b1, b2);
                lemma_ty_tags_in_mono(&(*m.fields@[i]).ty, s1, s2);
            }
        },
        Item::Enum(e) => {
            assert forall|i: int, j: int|
                0 <= i < e.variants@.len() && 0 <= j
                    < (*(#[trigger] e.variants@[i])).fields@.len() implies ty_dids_lt(
                #[trigger] (*e.variants@[i]).fields@[j],
                b2,
            ) && ty_tags_in((*e.variants@[i]).fields@[j], s2) by {
                lemma_ty_dids_lt_mono(&(*e.variants@[i]).fields@[j], b1, b2);
                lemma_ty_tags_in_mono(&(*e.variants@[i]).fields@[j], s1, s2);
            }
        },
        Item::Service(s) => {
            assert forall|i: int| 0 <= i < s.methods@.len() implies method_dids_lt(
                *(#[trigger] s.methods@[i]),
                b2,
            ) && method_tags_in(*s.methods@[i], s2) by {
                lemma_method_mono(&*s.methods@[i], b1, b2, s1, s2);
            }
        },
        Item::NewType(n) => {
            lemma_ty_dids_lt_mono(&n.ty, b1, b2);
            lemma_ty_tags_in_mono(&n.ty, s1, s2);
        },
        Item::Const(c) => {
            lemma_ty_dids_lt_mono(&c.ty, b1, b2);
            lemma_ty_tags_in_mono(&c.ty, s1, s2);
            lemma_lit_dids_lt_mono(c.lit, b1, b2);
        },
        Item::Mod(_) => {},
    }
}

} // verus!
