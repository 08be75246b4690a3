//! The two type lattices of the middle end.
//!
//! `TyKind` is the resolved source-side shape of a schema type; `CodegenTy`
//! is the target-language shape the emitter renders. A `TyTransformer`
//! rewrites the former into the latter; the item-context and const-context
//! strategies differ only in their string and container hooks.
use vstd::prelude::*;

use crate::context::CodegenCx;
use crate::index::{DefId, TagId};
use crate::rir::Path;

verus! {

/// The resolved source-side type shape.
#[derive(Debug, PartialEq, Eq, Hash)]
pub enum TyKind {
    String,
    Void,
    U8,
    Bool,
    Bytes,
    I8,
    I16,
    I32,
    I64,
    UInt32,
    UInt64,
    F32,
    F64,
    Vec(Box<Ty>),
    SetOf(Box<Ty>),
    MapOf(Box<Ty>, Box<Ty>),
    Arc(Box<Ty>),
    Path(Path),
}

/// A source-side type: its shape plus the id of its tag set.
#[derive(Debug, PartialEq, Eq, Hash)]
pub struct Ty {
    pub kind: TyKind,
    pub tags_id: TagId,
}

/// A reference to a user-defined target type.
#[derive(Hash, PartialEq, Eq, Debug)]
pub struct AdtDef {
    pub did: DefId,
    pub kind: AdtKind,
}

#[derive(Hash, PartialEq, Eq, Debug)]
pub enum AdtKind {
    Struct,
    Enum,
    NewType(Box<CodegenTy>),
}

/// The target-language type shape used by the emitter.
#[derive(Hash, PartialEq, Eq, Debug)]
pub enum CodegenTy {
    String,
    Str,
    Void,
    U8,
    Bool,
    I8,
    I16,
    I32,
    I64,
    UInt32,
    UInt64,
    F32,
    F64,
    LazyStaticRef(Box<CodegenTy>),
    StaticRef(Box<CodegenTy>),
    Vec(Box<CodegenTy>),
    SetOf(Box<CodegenTy>),
    MapOf(Box<CodegenTy>, Box<CodegenTy>),
    Adt(AdtDef),
    Arc(Box<CodegenTy>),
}

/// Whether a constant of this type needs deferred static initialization.
pub open spec fn spec_should_lazy_static(t: CodegenTy) -> bool
    decreases t,
{
    match t {
        CodegenTy::String => true,
        CodegenTy::LazyStaticRef(_) => true,
        CodegenTy::StaticRef(_) => true,
        CodegenTy::Vec(_) => true,
        CodegenTy::MapOf(_, _) => true,
        CodegenTy::Adt(def) => match def.kind {
            AdtKind::NewType(inner) => spec_should_lazy_static(*inner),
            _ => false,
        },
        _ => false,
    }
}

impl CodegenTy {
    /// Whether a constant of this type needs deferred static initialization:
    /// true for owning strings and containers, for static references, and for
    /// newtypes over such a type.
    pub fn should_lazy_static(&self) -> (r: bool)
        ensures
            r == spec_should_lazy_static(*self),
        decreases *self,
    {
        match self {
            CodegenTy::String => true,
            CodegenTy::LazyStaticRef(_) => true,
            CodegenTy::StaticRef(_) => true,
            CodegenTy::Vec(_) => true,
            CodegenTy::MapOf(_, _) => true,
            CodegenTy::Adt(def) => match &def.kind {
                AdtKind::NewType(inner) => inner.should_lazy_static(),
                _ => false,
            },
            _ => false,
        }
    }
}

/// A structural copy with a known result, used where a looked-up type must be
/// returned by value.
pub fn clone_codegen_ty(t: &CodegenTy) -> (r: CodegenTy)
    ensures
        r == *t,
    decreases *t,
{
    match t {
        CodegenTy::String => CodegenTy::String,
        CodegenTy::Str => CodegenTy::Str,
        CodegenTy::Void => CodegenTy::Void,
        CodegenTy::U8 => CodegenTy::U8,
        CodegenTy::Bool => CodegenTy::Bool,
        CodegenTy::I8 => CodegenTy::I8,
        CodegenTy::I16 => CodegenTy::I16,
        CodegenTy::I32 => CodegenTy::I32,
        CodegenTy::I64 => CodegenTy::I64,
        CodegenTy::UInt32 => CodegenTy::UInt32,
        CodegenTy::UInt64 => CodegenTy::UInt64,
        CodegenTy::F32 => CodegenTy::F32,
        CodegenTy::F64 => CodegenTy::F64,
        CodegenTy::LazyStaticRef(inner) => CodegenTy::LazyStaticRef(
            Box::new(clone_codegen_ty(inner)),
        ),
        CodegenTy::StaticRef(inner) => CodegenTy::StaticRef(Box::new(clone_codegen_ty(inner))),
        CodegenTy::Vec(inner) => CodegenTy::Vec(Box::new(clone_codegen_ty(inner))),
        CodegenTy::SetOf(inner) => CodegenTy::SetOf(Box::new(clone_codegen_ty(inner))),
        CodegenTy::MapOf(k, v) => CodegenTy::MapOf(
            Box::new(clone_codegen_ty(k)),
            Box::new(clone_codegen_ty(v)),
        ),
        CodegenTy::Adt(def) => CodegenTy::Adt(
            AdtDef {
                did: def.did,
                kind: match &def.kind {
                    AdtKind::Struct => AdtKind::Struct,
                    AdtKind::Enum => AdtKind::Enum,
                    AdtKind::NewType(inner) => AdtKind::NewType(Box::new(clone_codegen_ty(inner))),
                },
            },
        ),
        CodegenTy::Arc(inner) => CodegenTy::Arc(Box::new(clone_codegen_ty(inner))),
    }
}

/// Whether a transformer can rewrite this shape with the given `DefId -> CodegenTy`
/// associations: the not-yet-implemented source shapes (`UInt32`, `UInt64`,
/// `F32`, `Arc`) are excluded, and every referenced definition must be known.
pub open spec fn transformable(ty: TyKind, dom: Set<nat>) -> bool
    decreases ty,
{
    match ty {
        TyKind::UInt32 => false,
        TyKind::UInt64 => false,
        TyKind::F32 => false,
        TyKind::Arc(_) => false,
        TyKind::Vec(inner) => transformable((*inner).kind, dom),
        TyKind::SetOf(inner) => transformable((*inner).kind, dom),
        TyKind::MapOf(k, v) => transformable((*k).kind, dom) && transformable((*v).kind, dom),
        TyKind::Path(p) => dom.contains(p.did.0 as nat),
        _ => true,
    }
}

/// The strategy that turns a resolved source type into a codegen type. The
/// hooks for strings and containers are what the two contexts override; the
/// remaining shapes are fixed.
pub trait TyTransformer: Sized {
    /// What this strategy yields for a string.
    spec fn string_ty(&self) -> CodegenTy;

    /// What this strategy yields for a list with lowered element `inner`.
    spec fn vec_ty(&self, inner: CodegenTy) -> CodegenTy;

    /// What this strategy yields for a set with lowered element `inner`.
    spec fn set_ty(&self, inner: CodegenTy) -> CodegenTy;

    /// What this strategy yields for a map with lowered entries `k`, `v`.
    spec fn map_ty(&self, k: CodegenTy, v: CodegenTy) -> CodegenTy;

    fn string(&self) -> (r: CodegenTy)
        ensures
            r == self.string_ty(),
    ;

    fn vec(&self, inner: CodegenTy) -> (r: CodegenTy)
        ensures
            r == self.vec_ty(inner),
    ;

    fn set(&self, inner: CodegenTy) -> (r: CodegenTy)
        ensures
            r == self.set_ty(inner),
    ;

    fn map(&self, k: CodegenTy, v: CodegenTy) -> (r: CodegenTy)
        ensures
            r == self.map_ty(k, v),
    ;

    fn void(&self) -> (r: CodegenTy)
        ensures
            r == CodegenTy::Void,
    {
        CodegenTy::Void
    }

    fn u8(&self) -> (r: CodegenTy)
        ensures
            r == CodegenTy::U8,
    {
        CodegenTy::U8
    }

    fn bool(&self) -> (r: CodegenTy)
        ensures
            r == CodegenTy::Bool,
    {
        CodegenTy::Bool
    }

    fn bytes(&self) -> (r: CodegenTy)
        ensures
            r == CodegenTy::Vec(Box::new(CodegenTy::U8)),
    {
        CodegenTy::Vec(Box::new(CodegenTy::U8))
    }

    fn i8(&self) -> (r: CodegenTy)
        ensures
            r == CodegenTy::I8,
    {
        CodegenTy::I8
    }

    fn i16(&self) -> (r: CodegenTy)
        ensures
            r == CodegenTy::I16,
    {
        CodegenTy::I16
    }

    fn i32(&self) -> (r: CodegenTy)
        ensures
            r == CodegenTy::I32,
    {
        CodegenTy::I32
    }

    fn i64(&self) -> (r: CodegenTy)
        ensures
            r == CodegenTy::I64,
    {
        CodegenTy::I64
    }

    fn double(&self) -> (r: CodegenTy)
        ensures
            r == CodegenTy::F64,
    {
        CodegenTy::F64
    }

    /// A resolved reference maps to whatever codegen type the context
    /// associates with its definition.
    fn path(&self, p: &Path, cx: &CodegenCx) -> (r: CodegenTy)
        requires
            cx.wf(),
            cx.tys_map().contains_key(p.did.0 as nat),
        ensures
            r == cx.tys_map()[p.did.0 as nat],
    {
        let looked = cx.codegen_ty(p.did);
        match looked {
            Some(t) => clone_codegen_ty(t),
            None => vstd::pervasive::unreached(),
        }
    }
}

/// What a strategy yields for a source shape, given the `DefId -> CodegenTy`
/// associations of the ambient context.
pub open spec fn transform_spec<T: TyTransformer>(t: T, ty: TyKind, m: Map<nat, CodegenTy>) -> CodegenTy
    decreases ty,
{
    match ty {
        TyKind::String => t.string_ty(),
        TyKind::Void => CodegenTy::Void,
        TyKind::U8 => CodegenTy::U8,
        TyKind::Bool => CodegenTy::Bool,
        TyKind::Bytes => CodegenTy::Vec(Box::new(CodegenTy::U8)),
        TyKind::I8 => CodegenTy::I8,
        TyKind::I16 => CodegenTy::I16,
        TyKind::I32 => CodegenTy::I32,
        TyKind::I64 => CodegenTy::I64,
        TyKind::F64 => CodegenTy::F64,
        TyKind::Vec(inner) => t.vec_ty(transform_spec(t, (*inner).kind, m)),
        TyKind::SetOf(inner) => t.set_ty(transform_spec(t, (*inner).kind, m)),
        TyKind::MapOf(k, v) => t.map_ty(
            transform_spec(t, (*k).kind, m),
            transform_spec(t, (*v).kind, m),
        ),
        TyKind::Path(p) => m[p.did.0 as nat],
        // the shapes `transformable` excludes; the executable transform
        // never reaches them
        _ => CodegenTy::Void,
    }
}

/// Rewrites a source shape with strategy `t`: primitives and containers map
/// structurally through the hooks, resolved references go through the context.
pub fn transform<T: TyTransformer>(t: &T, ty: &TyKind, cx: &CodegenCx) -> (r: CodegenTy)
    requires
        cx.wf(),
        transformable(*ty, cx.tys_map().dom()),
    ensures
        r == transform_spec(*t, *ty, cx.tys_map()),
    decreases *ty,
{
    match ty {
        TyKind::String => t.string(),
        TyKind::Void => t.void(),
        TyKind::U8 => t.u8(),
        TyKind::Bool => t.bool(),
        TyKind::Bytes => t.bytes(),
        TyKind::I8 => t.i8(),
        TyKind::I16 => t.i16(),
        TyKind::I32 => t.i32(),
        TyKind::I64 => t.i64(),
        TyKind::F64 => t.double(),
        TyKind::Vec(inner) => {
            let c = transform(t, &inner.kind, cx);
            t.vec(c)
        },
        TyKind::SetOf(inner) => {
            let c = transform(t, &inner.kind, cx);
            t.set(c)
        },
        TyKind::MapOf(k, v) => {
            let ck = transform(t, &k.kind, cx);
            let cv = transform(t, &v.kind, cx);
            t.map(ck, cv)
        },
        TyKind::Path(p) => t.path(p, cx),
        TyKind::UInt32 => vstd::pervasive::unreached(),
        TyKind::UInt64 => vstd::pervasive::unreached(),
        TyKind::F32 => vstd::pervasive::unreached(),
        TyKind::Arc(_) => vstd::pervasive::unreached(),
    }
}

/// The item-context strategy, used for field, argument and return types:
/// strings and containers own their data.
pub struct DefaultTyTransformer;

impl TyTransformer for DefaultTyTransformer {
    open spec fn string_ty(&self) -> CodegenTy {
        CodegenTy::String
    }

    open spec fn vec_ty(&self, inner: CodegenTy) -> CodegenTy {
        CodegenTy::Vec(Box::new(inner))
    }

    open spec fn set_ty(&self, inner: CodegenTy) -> CodegenTy {
        CodegenTy::SetOf(Box::new(inner))
    }

    open spec fn map_ty(&self, k: CodegenTy, v: CodegenTy) -> CodegenTy {
        CodegenTy::MapOf(Box::new(k), Box::new(v))
    }

    fn string(&self) -> (r: CodegenTy) {
        CodegenTy::String
    }

    fn vec(&self, inner: CodegenTy) -> (r: CodegenTy) {
        CodegenTy::Vec(Box::new(inner))
    }

    fn set(&self, inner: CodegenTy) -> (r: CodegenTy) {
        CodegenTy::SetOf(Box::new(inner))
    }

    fn map(&self, k: CodegenTy, v: CodegenTy) -> (r: CodegenTy) {
        CodegenTy::MapOf(Box::new(k), Box::new(v))
    }
}

/// The const-context strategy, used for constant declarations: strings borrow
/// static storage and containers sit behind a static reference.
pub struct ConstTyTransformer;

impl TyTransformer for ConstTyTransformer {
    open spec fn string_ty(&self) -> CodegenTy {
        CodegenTy::Str
    }

    open spec fn vec_ty(&self, inner: CodegenTy) -> CodegenTy {
        CodegenTy::StaticRef(Box::new(CodegenTy::Vec(Box::new(inner))))
    }

    open spec fn set_ty(&self, inner: CodegenTy) -> CodegenTy {
        CodegenTy::StaticRef(Box::new(CodegenTy::SetOf(Box::new(inner))))
    }

    open spec fn map_ty(&self, k: CodegenTy, v: CodegenTy) -> CodegenTy {
        CodegenTy::StaticRef(Box::new(CodegenTy::MapOf(Box::new(k), Box::new(v))))
    }

    fn string(&self) -> (r: CodegenTy) {
        CodegenTy::Str
    }

    fn vec(&self, inner: CodegenTy) -> (r: CodegenTy) {
        CodegenTy::StaticRef(Box::new(CodegenTy::Vec(Box::new(inner))))
    }

    fn set(&self, inner: CodegenTy) -> (r: CodegenTy) {
        CodegenTy::StaticRef(Box::new(CodegenTy::SetOf(Box::new(inner))))
    }

    fn map(&self, k: CodegenTy, v: CodegenTy) -> (r: CodegenTy) {
        CodegenTy::StaticRef(Box::new(CodegenTy::MapOf(Box::new(k), Box::new(v))))
    }
}

/// What the item-context strategy yields.
pub open spec fn item_ty_spec(ty: TyKind, m: Map<nat, CodegenTy>) -> CodegenTy {
    transform_spec(DefaultTyTransformer, ty, m)
}

/// What the const-context strategy yields.
pub open spec fn const_ty_spec(ty: TyKind, m: Map<nat, CodegenTy>) -> CodegenTy {
    transform_spec(ConstTyTransformer, ty, m)
}

/// Shapes made only of primitives and containers: no named reference and no
/// not-yet-implemented shape.
pub open spec fn prim_container_only(ty: TyKind) -> bool
    decreases ty,
{
    match ty {
        TyKind::UInt32 => false,
        TyKind::UInt64 => false,
        TyKind::F32 => false,
        TyKind::Arc(_) => false,
        TyKind::Path(_) => false,
        TyKind::Vec(inner) => prim_container_only((*inner).kind),
        TyKind::SetOf(inner) => prim_container_only((*inner).kind),
        TyKind::MapOf(k, v) => prim_container_only((*k).kind) && prim_container_only((*v).kind),
        _ => true,
    }
}

/// The structural correspondence between a source shape and a codegen shape:
/// primitives map one to one, `Bytes` becomes a byte vector, containers
/// correspond element-wise.
pub open spec fn shape_matches(src: TyKind, cg: CodegenTy) -> bool
    decreases src,
{
    match src {
        TyKind::String => cg == CodegenTy::String,
        TyKind::Void => cg == CodegenTy::Void,
        TyKind::U8 => cg == CodegenTy::U8,
        TyKind::Bool => cg == CodegenTy::Bool,
        TyKind::Bytes => cg == CodegenTy::Vec(Box::new(CodegenTy::U8)),
        TyKind::I8 => cg == CodegenTy::I8,
        TyKind::I16 => cg == CodegenTy::I16,
        TyKind::I32 => cg == CodegenTy::I32,
        TyKind::I64 => cg == CodegenTy::I64,
        TyKind::F64 => cg == CodegenTy::F64,
        TyKind::Vec(inner) => match cg {
            CodegenTy::Vec(ci) => shape_matches((*inner).kind, *ci),
            _ => false,
        },
        TyKind::SetOf(inner) => match cg {
            CodegenTy::SetOf(ci) => shape_matches((*inner).kind, *ci),
            _ => false,
        },
        TyKind::MapOf(k, v) => match cg {
            CodegenTy::MapOf(ck, cv) => shape_matches((*k).kind, *ck) && shape_matches(
                (*v).kind,
                *cv,
            ),
            _ => false,
        },
        _ => false,
    }
}

/// Round trip: on a shape of primitives and containers only, the item-context
/// transform returns a codegen type of the same structure, with `Bytes`
/// becoming a byte vector.
pub proof fn lemma_item_transform_round_trip(ty: TyKind, m: Map<nat, CodegenTy>)
    requires
        prim_container_only(ty),
    ensures
        shape_matches(ty, item_ty_spec(ty, m)),
    decreases ty,
{
    match ty {
        TyKind::Vec(inner) => {
            lemma_item_transform_round_trip((*inner).kind, m);
        },
        TyKind::SetOf(inner) => {
            lemma_item_transform_round_trip((*inner).kind, m);
        },
        TyKind::MapOf(k, v) => {
            lemma_item_transform_round_trip((*k).kind, m);
            lemma_item_transform_round_trip((*v).kind, m);
        },
        _ => {},
    }
}

impl TyKind {
    /// The codegen type of this shape in item context.
    pub fn to_codegen_item_ty(&self, cx: &CodegenCx) -> (r: CodegenTy)
        requires
            cx.wf(),
            transformable(*self, cx.tys_map().dom()),
        ensures
            r == item_ty_spec(*self, cx.tys_map()),
    {
        transform(&DefaultTyTransformer, self, cx)
    }

    /// The codegen type of this shape in constant context.
    pub fn to_codegen_const_ty(&self, cx: &CodegenCx) -> (r: CodegenTy)
        requires
            cx.wf(),
            transformable(*self, cx.tys_map().dom()),
        ensures
            r == const_ty_spec(*self, cx.tys_map()),
    {
        transform(&ConstTyTransformer, self, cx)
    }
}

} // verus!
