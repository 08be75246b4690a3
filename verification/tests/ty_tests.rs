use pilota_middle::context::CodegenCx;
use pilota_middle::index::DefId;
use pilota_middle::rir::{DefKind, Path};
use pilota_middle::ty::{
    transform, AdtDef, AdtKind, CodegenTy, ConstTyTransformer, DefaultTyTransformer, TyKind,
};

fn b(t: TyKind) -> Box<pilota_middle::ty::Ty> {
    Box::new(pilota_middle::ty::Ty { kind: t, tags_id: pilota_middle::index::TagId(0) })
}

#[test]
fn item_context_maps_structurally() {
    let cx = CodegenCx::new();
    let ty = TyKind::MapOf(b(TyKind::String), b(TyKind::Vec(b(TyKind::I32))));
    let cg = ty.to_codegen_item_ty(&cx);
    match cg {
        CodegenTy::MapOf(k, v) => {
            assert_eq!(*k, CodegenTy::String);
            assert_eq!(*v, CodegenTy::Vec(Box::new(CodegenTy::I32)));
        },
        _ => panic!("expected a map"),
    }
}

#[test]
fn bytes_becomes_byte_vector() {
    let cx = CodegenCx::new();
    let cg = TyKind::Bytes.to_codegen_item_ty(&cx);
    assert_eq!(cg, CodegenTy::Vec(Box::new(CodegenTy::U8)));
}

#[test]
fn const_context_string_borrows() {
    let cx = CodegenCx::new();
    assert_eq!(TyKind::String.to_codegen_const_ty(&cx), CodegenTy::Str);
}

#[test]
fn const_list_of_string_is_static_ref() {
    // `const list<string> xs`: the const-context codegen type is
    // StaticRef(Vec(Str)) and needs deferred static initialization.
    let cx = CodegenCx::new();
    let ty = TyKind::Vec(b(TyKind::String));
    let cg = ty.to_codegen_const_ty(&cx);
    assert_eq!(
        cg,
        CodegenTy::StaticRef(Box::new(CodegenTy::Vec(Box::new(CodegenTy::Str))))
    );
    assert!(cg.should_lazy_static());
}

#[test]
fn paths_resolve_through_the_context() {
    let mut cx = CodegenCx::new();
    let adt = CodegenTy::Adt(AdtDef { did: DefId(4), kind: AdtKind::Struct });
    cx.define_ty(DefId(4), adt);
    let ty = TyKind::Path(Path { kind: DefKind::Type, did: DefId(4) });
    let cg = transform(&DefaultTyTransformer, &ty, &cx);
    assert_eq!(cg, CodegenTy::Adt(AdtDef { did: DefId(4), kind: AdtKind::Struct }));
    let cg2 = transform(&ConstTyTransformer, &ty, &cx);
    assert_eq!(cg2, CodegenTy::Adt(AdtDef { did: DefId(4), kind: AdtKind::Struct }));
}

#[test]
fn should_lazy_static_cases() {
    assert!(CodegenTy::String.should_lazy_static());
    assert!(CodegenTy::Vec(Box::new(CodegenTy::I32)).should_lazy_static());
    assert!(CodegenTy::MapOf(Box::new(CodegenTy::I32), Box::new(CodegenTy::Bool))
        .should_lazy_static());
    assert!(CodegenTy::StaticRef(Box::new(CodegenTy::I8)).should_lazy_static());
    assert!(CodegenTy::LazyStaticRef(Box::new(CodegenTy::I8)).should_lazy_static());
    assert!(!CodegenTy::I32.should_lazy_static());
    assert!(!CodegenTy::Str.should_lazy_static());
    assert!(!CodegenTy::SetOf(Box::new(CodegenTy::I32)).should_lazy_static());
    // a newtype is lazy exactly when its inner type is
    let lazy_newtype = CodegenTy::Adt(AdtDef {
        did: DefId(0),
        kind: AdtKind::NewType(Box::new(CodegenTy::String)),
    });
    assert!(lazy_newtype.should_lazy_static());
    let plain_newtype = CodegenTy::Adt(AdtDef {
        did: DefId(0),
        kind: AdtKind::NewType(Box::new(CodegenTy::I64)),
    });
    assert!(!plain_newtype.should_lazy_static());
    let plain_struct = CodegenTy::Adt(AdtDef { did: DefId(0), kind: AdtKind::Struct });
    assert!(!plain_struct.should_lazy_static());
}

#[test]
fn context_stores_paths_too() {
    let mut cx = CodegenCx::new();
    let p = pilota_middle::rir::ItemPath::from(vec![
        pilota_middle::symbol::Symbol::from_str("demo"),
        pilota_middle::symbol::Symbol::from_str("Foo"),
    ]);
    cx.define_path(DefId(2), p);
    let got = cx.cur_related_item_path(DefId(2)).expect("path");
    assert_eq!(got.len(), 2);
    assert!(cx.cur_related_item_path(DefId(3)).is_none());
    assert!(cx.codegen_ty(DefId(2)).is_none());
}
