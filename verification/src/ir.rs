//! The input IR, as the front-end parsers deliver it.
//!
//! Every name reference still carries its source segments; the resolver turns
//! this form into RIR. Each file comes with a stable id, its package path,
//! its imports under their local names, and its top-level items.
use vstd::prelude::*;

use crate::index::FileId;
use crate::rir::EnumRepr;
use crate::symbol::Symbol;
use crate::tags::Tags;

verus! {

/// An unresolved reference: the spelled-out segments.
#[derive(Debug)]
pub struct Path {
    pub segments: Vec<Symbol>,
}

/// The shape of a type as spelled in a schema.
#[derive(Debug)]
pub enum TyKind {
    String,
    Void,
    U8,
    Bool,
    Bytes,
    I8,
    I16,
    I32,
    I64,
    UInt32,
    UInt64,
    F32,
    F64,
    Vec(Box<Ty>),
    SetOf(Box<Ty>),
    MapOf(Box<Ty>, Box<Ty>),
    Path(Path),
}

/// A source type: its shape plus its attribute bag.
#[derive(Debug)]
pub struct Ty {
    pub kind: TyKind,
    pub tags: Tags,
}

#[derive(Clone, Copy, Debug, PartialEq, Eq, Structural)]
pub enum FieldKind {
    Required,
    Optional,
}

#[derive(Debug)]
pub struct Field {
    pub name: Symbol,
    pub id: i32,
    pub kind: FieldKind,
    pub ty: Ty,
    pub tags: Tags,
}

#[derive(Debug)]
pub struct Message {
    pub name: Symbol,
    pub fields: Vec<Field>,
}

#[derive(Debug)]
pub struct EnumVariant {
    pub id: i32,
    pub name: Symbol,
    pub discr: Option<i64>,
    pub fields: Vec<Ty>,
    pub tags: Tags,
}

#[derive(Debug)]
pub struct Enum {
    pub name: Symbol,
    pub variants: Vec<EnumVariant>,
    pub repr: Option<EnumRepr>,
}

#[derive(Debug)]
pub struct Arg {
    pub name: Symbol,
    pub id: i32,
    pub ty: Ty,
}

#[derive(Debug)]
pub struct Method {
    pub name: Symbol,
    pub args: Vec<Arg>,
    pub ret: Ty,
    pub oneway: bool,
    pub exceptions: Option<Path>,
    pub tags: Tags,
}

#[derive(Debug)]
pub struct Service {
    pub name: Symbol,
    pub methods: Vec<Method>,
    pub extend: Vec<Path>,
}

#[derive(Debug)]
pub struct NewType {
    pub name: Symbol,
    pub ty: Ty,
}

#[derive(Debug)]
pub enum Literal {
    Path(Path),
    String(Symbol),
    Int(i64),
    Float(Symbol),
    List(Vec<Literal>),
    MapOf(Vec<(Literal, Literal)>),
}

#[derive(Debug)]
pub struct Const {
    pub name: Symbol,
    pub ty: Ty,
    pub lit: Literal,
}

#[derive(Debug)]
pub struct Mod {
    pub name: Symbol,
    pub items: Vec<Item>,
}

/// An import under a local name; the resolver skips these, the file's `uses`
/// map carries the binding.
#[derive(Debug)]
pub struct Use {
    pub path: Symbol,
}

#[derive(Debug)]
pub enum ItemKind {
    Message(Message),
    Enum(Enum),
    Service(Service),
    NewType(NewType),
    Const(Const),
    Mod(Mod),
    Use(Use),
}

/// A top-level or mod-level definition with its attribute bag.
#[derive(Debug)]
pub struct Item {
    pub kind: ItemKind,
    pub tags: Tags,
}

impl Item {
    /// The defining name of this item; `Use` items define no name.
    pub fn name(&self) -> (r: &Symbol)
        requires
            !(self.kind is Use),
        ensures
            r@ == spec_item_name(*self),
    {
        match &self.kind {
            ItemKind::Message(m) => &m.name,
            ItemKind::Enum(e) => &e.name,
            ItemKind::Service(s) => &s.name,
            ItemKind::NewType(n) => &n.name,
            ItemKind::Const(c) => &c.name,
            ItemKind::Mod(m) => &m.name,
            ItemKind::Use(_) => vstd::pervasive::unreached(),
        }
    }
}

/// The defining name of a non-`Use` item.
pub open spec fn spec_item_name(it: Item) -> Seq<u8> {
    match it.kind {
        ItemKind::Message(m) => m.name@,
        ItemKind::Enum(e) => e.name@,
        ItemKind::Service(s) => s.name@,
        ItemKind::NewType(n) => n.name@,
        ItemKind::Const(c) => c.name@,
        ItemKind::Mod(m) => m.name@,
        ItemKind::Use(_) => Seq::empty(),
    }
}

/// The shapes a resolver can lower: the not-yet-implemented ones (`UInt32`,
/// `UInt64`, `F32`) are excluded, references carry at least one segment, and
/// every attribute bag is well formed.
pub open spec fn ty_ok(t: Ty) -> bool
    decreases t,
{
    &&& t.tags.wf()
    &&& match t.kind {
        TyKind::UInt32 => false,
        TyKind::UInt64 => false,
        TyKind::F32 => false,
        TyKind::Vec(inner) => ty_ok(*inner),
        TyKind::SetOf(inner) => ty_ok(*inner),
        TyKind::MapOf(k, v) => ty_ok(*k) && ty_ok(*v),
        TyKind::Path(p) => p.segments@.len() > 0,
        _ => true,
    }
}

/// Literals a resolver can lower: references carry at least one segment.
pub open spec fn lit_ok(l: Literal) -> bool
    decreases l,
{
    match l {
        Literal::Path(p) => p.segments@.len() > 0,
        Literal::List(ls) => forall|i: int| 0 <= i < ls@.len() ==> lit_ok(#[trigger] ls@[i]),
        Literal::MapOf(ps) => forall|i: int|
            0 <= i < ps@.len() ==> lit_ok((#[trigger] ps@[i]).0) && lit_ok(ps@[i].1),
        _ => true,
    }
}

/// Items a resolver can lower.
pub open spec fn item_ok(it: Item) -> bool
    decreases it,
{
    &&& it.tags.wf()
    &&& match it.kind {
        ItemKind::Message(m) => forall|i: int|
            0 <= i < m.fields@.len() ==> ty_ok((#[trigger] m.fields@[i]).ty) && (
            #[trigger] m.fields@[i]).tags.wf(),
        ItemKind::Enum(e) => {
            &&& forall|i: int|
                0 <= i < e.variants@.len() ==> (#[trigger] e.variants@[i]).tags.wf()
            &&& forall|i: int, j: int|
                0 <= i < e.variants@.len() && 0 <= j < (#[trigger] e.variants@[i]).fields@.len()
                    ==> ty_ok(#[trigger] e.variants@[i].fields@[j])
        },
        ItemKind::Service(s) => {
            &&& forall|i: int| 0 <= i < s.methods@.len() ==> method_ok(#[trigger] s.methods@[i])
            &&& forall|i: int|
                0 <= i < s.extend@.len() ==> (#[trigger] s.extend@[i]).segments@.len() > 0
        },
        ItemKind::NewType(n) => ty_ok(n.ty),
        ItemKind::Const(c) => ty_ok(c.ty) && lit_ok(c.lit),
        ItemKind::Mod(m) => forall|i: int| 0 <= i < m.items@.len() ==> item_ok(#[trigger] m.items@[i]),
        ItemKind::Use(_) => true,
    }
}

/// Methods a resolver can lower.
pub open spec fn method_ok(m: Method) -> bool {
    &&& m.tags.wf()
    &&& forall|i: int| 0 <= i < m.args@.len() ==> ty_ok((#[trigger] m.args@[i]).ty)
    &&& ty_ok(m.ret)
    &&& match m.exceptions {
        Some(p) => p.segments@.len() > 0,
        None => true,
    }
}

/// Files a resolver can lower.
pub open spec fn file_ok(f: File) -> bool {
    forall|i: int| 0 <= i < f.items@.len() ==> item_ok(#[trigger] f.items@[i])
}

/// Definition ids pass 1 mints for one item: one for each nameable
/// definition, descending into mods; `Use` items mint nothing.
pub open spec fn item_decl_count(it: Item) -> nat
    decreases it,
{
    match it.kind {
        ItemKind::Mod(m) => 1 + items_decl_count(m.items@),
        ItemKind::Use(_) => 0,
        _ => 1,
    }
}

/// Definition ids pass 1 mints for an item list.
pub open spec fn items_decl_count(items: Seq<Item>) -> nat
    decreases items,
{
    if items.len() == 0 {
        0
    } else {
        items_decl_count(items.drop_last()) + item_decl_count(items.last())
    }
}

/// Definition ids pass 2 mints for one item: one per field, variant or
/// method, descending into mods; `Use` items mint nothing.
pub open spec fn item_member_count(it: Item) -> nat
    decreases it,
{
    match it.kind {
        ItemKind::Message(m) => m.fields@.len(),
        ItemKind::Enum(e) => e.variants@.len(),
        ItemKind::Service(s) => s.methods@.len(),
        ItemKind::Mod(m) => items_member_count(m.items@),
        _ => 0,
    }
}

/// Definition ids pass 2 mints for an item list.
pub open spec fn items_member_count(items: Seq<Item>) -> nat
    decreases items,
{
    if items.len() == 0 {
        0
    } else {
        items_member_count(items.drop_last()) + item_member_count(items.last())
    }
}

/// Definition ids a batch of files mints in pass 1.
pub open spec fn files_decl_count(files: Seq<File>) -> nat
    decreases files.len(),
{
    if files.len() == 0 {
        0
    } else {
        files_decl_count(files.drop_last()) + items_decl_count(files.last().items@)
    }
}

/// Definition ids a batch of files mints in pass 2.
pub open spec fn files_member_count(files: Seq<File>) -> nat
    decreases files.len(),
{
    if files.len() == 0 {
        0
    } else {
        files_member_count(files.drop_last()) + items_member_count(files.last().items@)
    }
}

/// Every definition id a batch of files mints: one per definition plus one
/// per field, enum variant and method.
pub open spec fn files_def_count(files: Seq<File>) -> nat {
    files_decl_count(files) + files_member_count(files)
}

/// Whether the file holds anything besides imports.
pub open spec fn has_non_use(f: File) -> bool {
    exists|i: int| 0 <= i < f.items@.len() && !((#[trigger] f.items@[i]).kind is Use)
}

/// One input file: its stable id, package path, imports and items.
#[derive(Debug)]
pub struct File {
    pub id: FileId,
    pub package: Path,
    pub uses: Vec<(Symbol, FileId)>,
    pub items: Vec<Item>,
}

/// What the front end hands the driver.
#[derive(Debug)]
pub struct ParseResult {
    pub files: Vec<File>,
}

/// Whether a type is lowerable, checked at run time.
pub fn ty_ok_check(t: &Ty) -> (r: bool)
    ensures
        r == ty_ok(*t),
    decreases *t,
{
    if !t.tags.check_wf() {
        return false;
    }
    match &t.kind {
        TyKind::UInt32 => false,
        TyKind::UInt64 => false,
        TyKind::F32 => false,
        TyKind::Vec(inner) => ty_ok_check(inner),
        TyKind::SetOf(inner) => ty_ok_check(inner),
        TyKind::MapOf(k, v) => ty_ok_check(k) && ty_ok_check(v),
        TyKind::Path(p) => p.segments.len() > 0,
        _ => true,
    }
}

/// Whether a literal is lowerable, checked at run time.
pub fn lit_ok_check(l: &Literal) -> (r: bool)
    ensures
        r == lit_ok(*l),
    decreases *l,
{
    match l {
        Literal::Path(p) => p.segments.len() > 0,
        Literal::List(ls) => {
            let n = ls.len();
            let mut i: usize = 0;
            while i < n
                invariant
                    l is List,
                    (*l)->List_0 == *ls,
                    n == ls@.len(),
                    0 <= i <= n,
                    forall|j: int| 0 <= j < i ==> lit_ok(#[trigger] ls@[j]),
                decreases n - i,
            {
                proof {
                    assert(decreases_to!(*l => (*l)->List_0));
                    assert(decreases_to!((*l)->List_0 => (*l)->List_0@));
                    assert(decreases_to!((*l)->List_0@ => (*l)->List_0@[i as int]));
                    assert(decreases_to!(*l => (*l)->List_0@[i as int]));
                }
                if !lit_ok_check(&ls[i]) {
                    return false;
                }
                i = i + 1;
            }
            true
        },
        Literal::MapOf(ps) => {
            let n = ps.len();
            let mut i: usize = 0;
            while i < n
                invariant
                    l is MapOf,
                    (*l)->MapOf_0 == *ps,
                    n == ps@.len(),
                    0 <= i <= n,
                    forall|j: int|
                        0 <= j < i ==> lit_ok((#[trigger] ps@[j]).0) && lit_ok(ps@[j].1),
                decreases n - i,
            {
                proof {
                    assert(decreases_to!(*l => (*l)->MapOf_0));
                    assert(decreases_to!((*l)->MapOf_0 => (*l)->MapOf_0@));
                    assert(decreases_to!((*l)->MapOf_0@ => (*l)->MapOf_0@[i as int]));
                    assert(decreases_to!(
                        (*l)->MapOf_0@[i as int] => (*l)->MapOf_0@[i as int].0));
                    assert(decreases_to!(
                        (*l)->MapOf_0@[i as int] => (*l)->MapOf_0@[i as int].1));
                    assert(decreases_to!(*l => (*l)->MapOf_0@[i as int].0));
                    assert(decreases_to!(*l => (*l)->MapOf_0@[i as int].1));
                }
                if !lit_ok_check(&ps[i].0) {
                    return false;
                }
                if !lit_ok_check(&ps[i].1) {
                    return false;
                }
                i = i + 1;
            }
            true
        },
        _ => true,
    }
}

/// Whether a method is lowerable, checked at run time.
pub fn method_ok_check(m: &Method) -> (r: bool)
    ensures
        r == method_ok(*m),
{
    if !m.tags.check_wf() {
        return false;
    }
    let n = m.args.len();
    let mut i: usize = 0;
    while i < n
        invariant
            n == m.args@.len(),
            0 <= i <= n,
            forall|j: int| 0 <= j < i ==> ty_ok((#[trigger] m.args@[j]).ty),
        decreases n - i,
    {
        if !ty_ok_check(&m.args[i].ty) {
            return false;
        }
        i = i + 1;
    }
    if !ty_ok_check(&m.ret) {
        return false;
    }
    match &m.exceptions {
        Some(p) => p.segments.len() > 0,
        None => true,
    }
}

/// Whether an item is lowerable, checked at run time.
pub fn item_ok_check(it: &Item) -> (r: bool)
    ensures
        r == item_ok(*it),
    decreases *it,
{
    if !it.tags.check_wf() {
        return false;
    }
    match &it.kind {
        ItemKind::Message(m) => {
            let n = m.fields.len();
            let mut i: usize = 0;
            while i < n
                invariant
                    it.kind is Message,
                    it.kind->Message_0 == *m,
                    n == m.fields@.len(),
                    0 <= i <= n,
                    forall|j: int|
                        0 <= j < i ==> ty_ok((#[trigger] m.fields@[j]).ty) && (
                        #[trigger] m.fields@[j]).tags.wf(),
                decreases n - i,
            {
                if !ty_ok_check(&m.fields[i].ty) {
                    return false;
                }
                if !m.fields[i].tags.check_wf() {
                    return false;
                }
                i = i + 1;
            }
            true
        },
        ItemKind::Enum(e) => {
            let n = e.variants.len();
            let mut i: usize = 0;
            while i < n
                invariant
                    it.kind is Enum,
                    it.kind->Enum_0 == *e,
                    n == e.variants@.len(),
                    0 <= i <= n,
                    forall|j: int|
                        0 <= j < i ==> (#[trigger] e.variants@[j]).tags.wf(),
                    forall|j: int, k: int|
                        0 <= j < i && 0 <= k < (#[trigger] e.variants@[j]).fields@.len()
                            ==> ty_ok(#[trigger] e.variants@[j].fields@[k]),
                decreases n - i,
            {
                let v = &e.variants[i];
                if !v.tags.check_wf() {
                    return false;
                }
                let fnn = v.fields.len();
                let mut k: usize = 0;
                while k < fnn
                    invariant
                        it.kind is Enum,
                        it.kind->Enum_0 == *e,
                        n == e.variants@.len(),
                        0 <= i < n,
                        *v == e.variants@[i as int],
                        fnn == v.fields@.len(),
                        0 <= k <= fnn,
                        forall|u: int| 0 <= u < k ==> ty_ok(#[trigger] v.fields@[u]),
                    decreases fnn - k,
                {
                    if !ty_ok_check(&v.fields[k]) {
                        return false;
                    }
                    k = k + 1;
                }
                i = i + 1;
            }
            true
        },
        ItemKind::Service(sv) => {
            let n = sv.methods.len();
            let mut i: usize = 0;
            while i < n
                invariant
                    it.kind is Service,
                    it.kind->Service_0 == *sv,
                    n == sv.methods@.len(),
                    0 <= i <= n,
                    forall|j: int| 0 <= j < i ==> method_ok(#[trigger] sv.methods@[j]),
                decreases n - i,
            {
                if !method_ok_check(&sv.methods[i]) {
                    return false;
                }
                i = i + 1;
            }
            let en = sv.extend.len();
            let mut j: usize = 0;
            while j < en
                invariant
                    it.kind is Service,
                    it.kind->Service_0 == *sv,
                    en == sv.extend@.len(),
                    0 <= j <= en,
                    forall|u: int| 0 <= u < sv.methods@.len() ==> method_ok(
                        #[trigger] sv.methods@[u],
                    ),
                    forall|u: int|
                        0 <= u < j ==> (#[trigger] sv.extend@[u]).segments@.len() > 0,
                decreases en - j,
            {
                if sv.extend[j].segments.len() == 0 {
                    return false;
                }
                j = j + 1;
            }
            true
        },
        ItemKind::NewType(t) => ty_ok_check(&t.ty),
        ItemKind::Const(c) => ty_ok_check(&c.ty) && lit_ok_check(&c.lit),
        ItemKind::Mod(m) => {
            let n = m.items.len();
            let mut i: usize = 0;
            while i < n
                invariant
                    it.kind is Mod,
                    it.kind->Mod_0 == *m,
                    n == m.items@.len(),
                    0 <= i <= n,
                    forall|j: int| 0 <= j < i ==> item_ok(#[trigger] m.items@[j]),
                decreases n - i,
            {
                proof {
                    assert(decreases_to!(*it => it.kind));
                    assert(decreases_to!(it.kind => it.kind->Mod_0));
                    assert(decreases_to!(it.kind->Mod_0 => it.kind->Mod_0.items));
                    assert(decreases_to!(it.kind->Mod_0.items => it.kind->Mod_0.items@));
                    assert(decreases_to!(
                        it.kind->Mod_0.items@ => it.kind->Mod_0.items@[i as int]));
                    assert(decreases_to!(*it => it.kind->Mod_0.items@[i as int]));
                }
                if !item_ok_check(&m.items[i]) {
                    return false;
                }
                i = i + 1;
            }
            true
        },
        ItemKind::Use(_) => true,
    }
}

/// Whether a file is lowerable, checked at run time.
pub fn file_ok_check(f: &File) -> (r: bool)
    ensures
        r == file_ok(*f),
{
    let n = f.items.len();
    let mut i: usize = 0;
    while i < n
        invariant
            n == f.items@.len(),
            0 <= i <= n,
            forall|j: int| 0 <= j < i ==> item_ok(#[trigger] f.items@[j]),
        decreases n - i,
    {
        if !item_ok_check(&f.items[i]) {
            return false;
        }
        i = i + 1;
    }
    true
}

/// Whether a batch of input files can be handed to the resolver: every file
/// lowerable and the file ids pairwise distinct.
pub fn files_ok(files: &Vec<File>) -> (r: bool)
    ensures
        r == ((forall|i: int| 0 <= i < files@.len() ==> file_ok(#[trigger] files@[i])) && (
        forall|i: int, j: int|
            0 <= i < j < files@.len() ==> (#[trigger] files@[i]).id.0 != (
            #[trigger] files@[j]).id.0)),
{
    let n = files.len();
    let mut i: usize = 0;
    while i < n
        invariant
            n == files@.len(),
            0 <= i <= n,
            forall|j: int| 0 <= j < i ==> file_ok(#[trigger] files@[j]),
            forall|a: int, b: int|
                0 <= a < b < n && a < i ==> (#[trigger] files@[a]).id.0 != (
                #[trigger] files@[b]).id.0,
        decreases n - i,
    {
        if !file_ok_check(&files[i]) {
            return false;
        }
        let mut j: usize = i + 1;
        while j < n
            invariant
                n == files@.len(),
                0 <= i < j <= n,
                forall|b: int| i < b < j ==> (#[trigger] files@[b]).id.0
                    != files@[i as int].id.0,
            decreases n - j,
        {
            if files[j].id.as_usize() == files[i].id.as_usize() {
                return false;
            }
            j = j + 1;
        }
        i = i + 1;
    }
    true
}

} // verus!
