use pilota_middle::index::{DefId, FileId};
use pilota_middle::ir;
use pilota_middle::resolve::Resolver;
use pilota_middle::rir;
use pilota_middle::symbol::Symbol;
use pilota_middle::tags::Tags;

fn sym(s: &str) -> Symbol {
    Symbol::from_str(s)
}

fn prim(kind: ir::TyKind) -> ir::Ty {
    ir::Ty { kind, tags: Tags::new() }
}

fn path_ty(segments: &[&str]) -> ir::Ty {
    let segs: Vec<Symbol> = segments.iter().map(|s| sym(s)).collect();
    ir::Ty { kind: ir::TyKind::Path(ir::Path { segments: segs }), tags: Tags::new() }
}

fn field(name: &str, id: i32, kind: ir::FieldKind, ty: ir::Ty) -> ir::Field {
    ir::Field { name: sym(name), id, kind, ty, tags: Tags::new() }
}

fn message_item(name: &str, fields: Vec<ir::Field>) -> ir::Item {
    ir::Item {
        kind: ir::ItemKind::Message(ir::Message { name: sym(name), fields }),
        tags: Tags::new(),
    }
}

fn file(id: usize, package: &[&str], uses: Vec<(Symbol, FileId)>, items: Vec<ir::Item>) -> ir::File {
    ir::File {
        id: FileId(id),
        package: ir::Path { segments: package.iter().map(|s| sym(s)).collect() },
        uses,
        items,
    }
}

fn item_of(node: &rir::Node) -> &rir::Item {
    match &node.kind {
        rir::NodeKind::Item(it) => it,
        _ => panic!("expected an item node"),
    }
}

#[test]
fn message_with_primitive_field() {
    // One file, package [demo], with `message Foo { 1: required i32 bar }`.
    let f = file(
        0,
        &["demo"],
        vec![],
        vec![message_item("Foo", vec![field("bar", 1, ir::FieldKind::Required, prim(ir::TyKind::I32))])],
    );
    let rr = Resolver::default().resolve_files(&vec![f]).unwrap();
    assert_eq!(rr.nodes.len(), 2);

    let foo = rr.nodes.get(0).expect("Foo node");
    match item_of(foo) {
        rir::Item::Message(m) => {
            assert_eq!(m.name.bytes, b"Foo".to_vec());
            assert_eq!(m.fields.len(), 1);
            let fld = &m.fields[0];
            assert_eq!(fld.name.bytes, b"bar".to_vec());
            assert!(matches!(fld.kind, rir::FieldKind::Required));
            assert!(matches!(fld.ty.kind, pilota_middle::ty::TyKind::I32));
            assert_eq!(fld.id, 1);
        },
        _ => panic!("expected a message"),
    }
    let bar = rr.nodes.get(1).expect("bar node");
    assert!(matches!(bar.kind, rir::NodeKind::Field(_)));
    assert_eq!(bar.file_id, FileId(0));
    // the field's tag set is stored
    assert!(rr.tags.get(bar.tags.0).is_some());
}

#[test]
fn cross_file_reference() {
    // File A: `message Inner {}` in package [a].
    // File B: `message Outer { 1: required A.Inner x }` with uses["A"] = A.
    let fa = file(7, &["a"], vec![], vec![message_item("Inner", vec![])]);
    let fb = file(
        8,
        &["b"],
        vec![(sym("A"), FileId(7))],
        vec![message_item(
            "Outer",
            vec![field("x", 1, ir::FieldKind::Required, path_ty(&["A", "Inner"]))],
        )],
    );
    let rr = Resolver::default().resolve_files(&vec![fa, fb]).unwrap();

    // Inner = 0, Outer = 1, field x = 2.
    let outer = rr.nodes.get(1).expect("Outer node");
    match item_of(outer) {
        rir::Item::Message(m) => match &m.fields[0].ty.kind {
            pilota_middle::ty::TyKind::Path(p) => {
                assert_eq!(p.kind, rir::DefKind::Type);
                assert_eq!(p.did, DefId(0));
            },
            _ => panic!("expected a resolved path"),
        },
        _ => panic!("expected a message"),
    }
    assert!(rr.files.get(7).is_some());
    assert!(rr.files.get(8).is_some());
}

#[test]
fn snake_case_fuzzy_resolution() {
    // A mod `my_proto` holds `MyProto`; a reference to `MyProto` from the
    // file scope resolves through the snake-case fallback.
    let m = ir::Item {
        kind: ir::ItemKind::Mod(ir::Mod {
            name: sym("my_proto"),
            items: vec![message_item("MyProto", vec![])],
        }),
        tags: Tags::new(),
    };
    let outer = message_item(
        "Outer",
        vec![field("x", 1, ir::FieldKind::Required, path_ty(&["MyProto"]))],
    );
    let f = file(0, &["demo"], vec![], vec![m, outer]);
    let rr = Resolver::default().resolve_files(&vec![f]).unwrap();

    // my_proto = 0, MyProto = 1, Outer = 2.
    let outer_node = rr.nodes.get(2).expect("Outer node");
    match item_of(outer_node) {
        rir::Item::Message(msg) => match &msg.fields[0].ty.kind {
            pilota_middle::ty::TyKind::Path(p) => assert_eq!(p.did, DefId(1)),
            _ => panic!("expected a resolved path"),
        },
        _ => panic!("expected a message"),
    }
}

#[test]
fn enum_variant_two_step_path() {
    // `enum E { A = 0, B = 1 }`, then a field of type `E.B`.
    let variants = vec![
        ir::EnumVariant { id: 0, name: sym("A"), discr: None, fields: vec![], tags: Tags::new() },
        ir::EnumVariant { id: 1, name: sym("B"), discr: None, fields: vec![], tags: Tags::new() },
    ];
    let e = ir::Item {
        kind: ir::ItemKind::Enum(ir::Enum { name: sym("E"), variants, repr: None }),
        tags: Tags::new(),
    };
    let m = message_item("M", vec![field("b", 1, ir::FieldKind::Required, path_ty(&["E", "B"]))]);
    let f = file(0, &["demo"], vec![], vec![e, m]);
    let rr = Resolver::default().resolve_files(&vec![f]).unwrap();

    // E = 0, M = 1; variants A = 2, B = 3; field b = 4.
    let m_node = rr.nodes.get(1).expect("M node");
    match item_of(m_node) {
        rir::Item::Message(msg) => match &msg.fields[0].ty.kind {
            pilota_middle::ty::TyKind::Path(p) => {
                assert_eq!(p.kind, rir::DefKind::Type);
                assert_eq!(p.did, DefId(3));
            },
            _ => panic!("expected a resolved path"),
        },
        _ => panic!("expected a message"),
    }
    // the variant has its own node
    let b_node = rr.nodes.get(3).expect("variant node");
    match &b_node.kind {
        rir::NodeKind::Variant(v) => assert_eq!(v.name.bytes, b"B".to_vec()),
        _ => panic!("expected a variant node"),
    }
}

#[test]
fn empty_input_empty_result() {
    let rr = Resolver::default().resolve_files(&vec![]).unwrap();
    assert_eq!(rr.files.len(), 0);
    assert_eq!(rr.nodes.len(), 0);
    assert_eq!(rr.tags.len(), 0);
}

#[test]
fn use_only_file_contributes_no_nodes() {
    let u = ir::Item {
        kind: ir::ItemKind::Use(ir::Use { path: sym("other") }),
        tags: Tags::new(),
    };
    let f = file(0, &["demo"], vec![], vec![u]);
    let rr = Resolver::default().resolve_files(&vec![f]).unwrap();
    assert_eq!(rr.nodes.len(), 0);
    assert_eq!(rr.files.len(), 1);
}

#[test]
fn redefinition_is_fatal() {
    let f = file(
        0,
        &["demo"],
        vec![],
        vec![message_item("Foo", vec![]), message_item("Foo", vec![])],
    );
    let r = Resolver::default().resolve_files(&vec![f]);
    assert!(matches!(r, Err(pilota_middle::resolve::ResolveError::Redefinition(_))));
}

#[test]
fn undefined_reference_is_fatal() {
    let f = file(
        0,
        &["demo"],
        vec![],
        vec![message_item(
            "Foo",
            vec![field("x", 1, ir::FieldKind::Required, path_ty(&["Missing"]))],
        )],
    );
    let r = Resolver::default().resolve_files(&vec![f]);
    assert!(matches!(r, Err(pilota_middle::resolve::ResolveError::Undefined(_))));
}

#[test]
fn missing_nested_name_is_fatal() {
    let fa = file(0, &["a"], vec![], vec![message_item("Inner", vec![])]);
    let fb = file(
        1,
        &["b"],
        vec![(sym("A"), FileId(0))],
        vec![message_item(
            "Outer",
            vec![field("x", 1, ir::FieldKind::Required, path_ty(&["A", "Nope"]))],
        )],
    );
    let r = Resolver::default().resolve_files(&vec![fa, fb]);
    assert!(matches!(r, Err(pilota_middle::resolve::ResolveError::MissingNested(_))));
}

#[test]
fn stepping_into_a_message_is_fatal() {
    let f = file(
        0,
        &["demo"],
        vec![],
        vec![
            message_item("M", vec![]),
            message_item(
                "N",
                vec![field("x", 1, ir::FieldKind::Required, path_ty(&["M", "Q"]))],
            ),
        ],
    );
    let r = Resolver::default().resolve_files(&vec![f]);
    assert!(matches!(r, Err(pilota_middle::resolve::ResolveError::InvalidPathStep)));
}

#[test]
fn field_names_are_snake_cased() {
    let f = file(
        0,
        &["demo"],
        vec![],
        vec![message_item(
            "Foo",
            vec![field("MyField", 1, ir::FieldKind::Optional, prim(ir::TyKind::Bool))],
        )],
    );
    let rr = Resolver::default().resolve_files(&vec![f]).unwrap();
    let foo = rr.nodes.get(0).expect("Foo node");
    match item_of(foo) {
        rir::Item::Message(m) => assert_eq!(m.fields[0].name.bytes, b"my_field".to_vec()),
        _ => panic!("expected a message"),
    }
}

#[test]
fn resolution_is_deterministic_across_runs() {
    let build = || {
        let f = file(
            0,
            &["demo"],
            vec![],
            vec![message_item(
                "Foo",
                vec![field("bar", 1, ir::FieldKind::Required, prim(ir::TyKind::I64))],
            )],
        );
        Resolver::default().resolve_files(&vec![f]).unwrap()
    };
    let a = build();
    let b = build();
    assert_eq!(a.nodes.len(), b.nodes.len());
    let fa = match item_of(a.nodes.get(0).unwrap()) {
        rir::Item::Message(m) => m.fields[0].did,
        _ => panic!(),
    };
    let fb = match item_of(b.nodes.get(0).unwrap()) {
        rir::Item::Message(m) => m.fields[0].did,
        _ => panic!(),
    };
    assert_eq!(fa, fb);
}

#[test]
fn service_methods_get_nodes() {
    let method = ir::Method {
        name: sym("ping"),
        args: vec![ir::Arg { name: sym("x"), id: 1, ty: prim(ir::TyKind::I32) }],
        ret: prim(ir::TyKind::Void),
        oneway: false,
        exceptions: None,
        tags: Tags::new(),
    };
    let svc = ir::Item {
        kind: ir::ItemKind::Service(ir::Service {
            name: sym("Svc"),
            methods: vec![method],
            extend: vec![],
        }),
        tags: Tags::new(),
    };
    let f = file(0, &["demo"], vec![], vec![svc]);
    let rr = Resolver::default().resolve_files(&vec![f]).unwrap();
    // Svc = 0, method ping = 1.
    let svc_node = rr.nodes.get(0).expect("service node");
    match item_of(svc_node) {
        rir::Item::Service(s) => {
            assert_eq!(s.methods.len(), 1);
            assert_eq!(s.methods[0].def_id, DefId(1));
            assert!(matches!(s.methods[0].source, rir::MethodSource::Own));
            assert!(!s.methods[0].oneway);
        },
        _ => panic!("expected a service"),
    }
    let ping = rr.nodes.get(1).expect("method node");
    assert!(matches!(ping.kind, rir::NodeKind::Method(_)));
}

#[test]
fn const_lowering_keeps_literal() {
    let c = ir::Item {
        kind: ir::ItemKind::Const(ir::Const {
            name: sym("xs"),
            ty: ir::Ty {
                kind: ir::TyKind::Vec(Box::new(prim(ir::TyKind::String))),
                tags: Tags::new(),
            },
            lit: ir::Literal::List(vec![ir::Literal::String(sym("a"))]),
        }),
        tags: Tags::new(),
    };
    let f = file(0, &["demo"], vec![], vec![c]);
    let rr = Resolver::default().resolve_files(&vec![f]).unwrap();
    let node = rr.nodes.get(0).expect("const node");
    match item_of(node) {
        rir::Item::Const(rc) => {
            match &rc.ty.kind {
                pilota_middle::ty::TyKind::Vec(inner) => {
                    assert!(matches!(inner.kind, pilota_middle::ty::TyKind::String))
                },
                _ => panic!("expected a list type"),
            }
            match &rc.lit {
                rir::Literal::List(ls) => {
                    assert_eq!(ls.len(), 1);
                    match &ls[0] {
                        rir::Literal::String(s) => assert_eq!(s.bytes, b"a".to_vec()),
                        _ => panic!("expected a string literal"),
                    }
                },
                _ => panic!("expected a list literal"),
            }
        },
        _ => panic!("expected a const"),
    }
}

#[test]
fn value_and_type_namespaces_are_disjoint() {
    // A constant and a message share the spelling `X`; a type reference finds
    // the message, a value reference finds the constant.
    let cx = ir::Item {
        kind: ir::ItemKind::Const(ir::Const {
            name: sym("X"),
            ty: prim(ir::TyKind::I32),
            lit: ir::Literal::Int(1),
        }),
        tags: Tags::new(),
    };
    let mx = message_item("X", vec![]);
    let m_using = message_item("M", vec![field("x", 1, ir::FieldKind::Required, path_ty(&["X"]))]);
    let c_using = ir::Item {
        kind: ir::ItemKind::Const(ir::Const {
            name: sym("Y"),
            ty: prim(ir::TyKind::I32),
            lit: ir::Literal::Path(ir::Path { segments: vec![sym("X")] }),
        }),
        tags: Tags::new(),
    };
    let f = file(0, &["demo"], vec![], vec![cx, mx, m_using, c_using]);
    let rr = Resolver::default().resolve_files(&vec![f]).unwrap();

    // const X = 0, message X = 1, M = 2, Y = 3.
    let m_node = rr.nodes.get(2).expect("M node");
    match item_of(m_node) {
        rir::Item::Message(m) => match &m.fields[0].ty.kind {
            pilota_middle::ty::TyKind::Path(p) => {
                assert_eq!(p.kind, rir::DefKind::Type);
                assert_eq!(p.did, DefId(1));
            },
            _ => panic!("expected a resolved path"),
        },
        _ => panic!("expected a message"),
    }
    let y_node = rr.nodes.get(3).expect("Y node");
    match item_of(y_node) {
        rir::Item::Const(c) => match &c.lit {
            rir::Literal::Path(p) => {
                assert_eq!(p.kind, rir::DefKind::Value);
                assert_eq!(p.did, DefId(0));
            },
            _ => panic!("expected a path literal"),
        },
        _ => panic!("expected a const"),
    }
}

#[test]
fn every_minted_id_has_a_node() {
    let f = file(
        0,
        &["demo"],
        vec![],
        vec![
            message_item("A", vec![field("x", 1, ir::FieldKind::Required, prim(ir::TyKind::I32))]),
            message_item("B", vec![field("y", 2, ir::FieldKind::Optional, prim(ir::TyKind::Bool))]),
        ],
    );
    let rr = Resolver::default().resolve_files(&vec![f]).unwrap();
    let count = rr.nodes.len();
    assert_eq!(count, 4);
    for d in 0..count {
        let node = rr.nodes.get(d).expect("node for every minted id");
        assert!(rr.tags.get(node.tags.0).is_some());
        assert!(rr.files.get(node.file_id.0).is_some());
    }
}

#[test]
fn nested_mod_path_resolves() {
    // mod outer { mod inner { message X {} } }, then a field of type
    // `outer.inner.X`.
    let inner = ir::Item {
        kind: ir::ItemKind::Mod(ir::Mod {
            name: sym("inner"),
            items: vec![message_item("X", vec![])],
        }),
        tags: Tags::new(),
    };
    let outer = ir::Item {
        kind: ir::ItemKind::Mod(ir::Mod { name: sym("outer"), items: vec![inner] }),
        tags: Tags::new(),
    };
    let m = message_item(
        "M",
        vec![field("x", 1, ir::FieldKind::Required, path_ty(&["outer", "inner", "X"]))],
    );
    let f = file(0, &["demo"], vec![], vec![outer, m]);
    let rr = Resolver::default().resolve_files(&vec![f]).unwrap();

    // outer = 0, inner = 1, X = 2, M = 3.
    let m_node = rr.nodes.get(3).expect("M node");
    match item_of(m_node) {
        rir::Item::Message(msg) => match &msg.fields[0].ty.kind {
            pilota_middle::ty::TyKind::Path(p) => assert_eq!(p.did, DefId(2)),
            _ => panic!("expected a resolved path"),
        },
        _ => panic!("expected a message"),
    }
    // the mod node records its member ids
    let outer_node = rr.nodes.get(0).expect("outer node");
    match item_of(outer_node) {
        rir::Item::Mod(md) => assert_eq!(md.items, vec![DefId(1)]),
        _ => panic!("expected a mod"),
    }
}

#[test]
fn service_extend_and_exceptions_resolve() {
    let base = ir::Item {
        kind: ir::ItemKind::Service(ir::Service {
            name: sym("Base"),
            methods: vec![],
            extend: vec![],
        }),
        tags: Tags::new(),
    };
    let err_msg = message_item("Err", vec![]);
    let method = ir::Method {
        name: sym("call"),
        args: vec![],
        ret: prim(ir::TyKind::Void),
        oneway: true,
        exceptions: Some(ir::Path { segments: vec![sym("Err")] }),
        tags: Tags::new(),
    };
    let svc = ir::Item {
        kind: ir::ItemKind::Service(ir::Service {
            name: sym("Svc"),
            methods: vec![method],
            extend: vec![ir::Path { segments: vec![sym("Base")] }],
        }),
        tags: Tags::new(),
    };
    let f = file(0, &["demo"], vec![], vec![base, err_msg, svc]);
    let rr = Resolver::default().resolve_files(&vec![f]).unwrap();

    // Base = 0, Err = 1, Svc = 2, method call = 3.
    let svc_node = rr.nodes.get(2).expect("Svc node");
    match item_of(svc_node) {
        rir::Item::Service(s) => {
            assert_eq!(s.extend.len(), 1);
            assert_eq!(s.extend[0].did, DefId(0));
            assert_eq!(s.extend[0].kind, rir::DefKind::Type);
            let m = &s.methods[0];
            assert!(m.oneway);
            match &m.exceptions {
                Some(p) => assert_eq!(p.did, DefId(1)),
                None => panic!("expected a resolved exception"),
            }
        },
        _ => panic!("expected a service"),
    }
}

#[test]
fn map_literal_lowering() {
    let c = ir::Item {
        kind: ir::ItemKind::Const(ir::Const {
            name: sym("m"),
            ty: ir::Ty {
                kind: ir::TyKind::MapOf(
                    Box::new(prim(ir::TyKind::String)),
                    Box::new(prim(ir::TyKind::I64)),
                ),
                tags: Tags::new(),
            },
            lit: ir::Literal::MapOf(vec![(
                ir::Literal::String(sym("k")),
                ir::Literal::Int(9),
            )]),
        }),
        tags: Tags::new(),
    };
    let f = file(0, &["demo"], vec![], vec![c]);
    let rr = Resolver::default().resolve_files(&vec![f]).unwrap();
    match item_of(rr.nodes.get(0).unwrap()) {
        rir::Item::Const(rc) => match &rc.lit {
            rir::Literal::MapOf(ps) => {
                assert_eq!(ps.len(), 1);
                match &ps[0] {
                    (rir::Literal::String(k), rir::Literal::Int(v)) => {
                        assert_eq!(k.bytes, b"k".to_vec());
                        assert_eq!(*v, 9);
                    },
                    _ => panic!("expected a string/int entry"),
                }
            },
            _ => panic!("expected a map literal"),
        },
        _ => panic!("expected a const"),
    }
}

#[test]
fn node_parents_follow_nesting() {
    let f = file(
        0,
        &["demo"],
        vec![],
        vec![message_item(
            "Foo",
            vec![field("bar", 1, ir::FieldKind::Required, prim(ir::TyKind::I32))],
        )],
    );
    let rr = Resolver::default().resolve_files(&vec![f]).unwrap();
    let foo = rr.nodes.get(0).unwrap();
    assert_eq!(foo.parent, None);
    let bar = rr.nodes.get(1).unwrap();
    assert_eq!(bar.parent, Some(DefId(0)));
}

#[test]
fn files_ok_accepts_and_rejects() {
    let good = vec![file(
        0,
        &["demo"],
        vec![],
        vec![message_item("Foo", vec![field("x", 1, ir::FieldKind::Required, prim(ir::TyKind::I32))])],
    )];
    assert!(ir::files_ok(&good));

    // a not-yet-implemented shape is rejected
    let bad_shape = vec![file(
        0,
        &["demo"],
        vec![],
        vec![message_item("Foo", vec![field("x", 1, ir::FieldKind::Required, prim(ir::TyKind::UInt32))])],
    )];
    assert!(!ir::files_ok(&bad_shape));

    // an empty reference path is rejected
    let bad_path = vec![file(
        0,
        &["demo"],
        vec![],
        vec![message_item("Foo", vec![field("x", 1, ir::FieldKind::Required, path_ty(&[]))])],
    )];
    assert!(!ir::files_ok(&bad_path));

    // duplicate file ids are rejected
    let dup = vec![
        file(3, &["a"], vec![], vec![]),
        file(3, &["b"], vec![], vec![]),
    ];
    assert!(!ir::files_ok(&dup));
}

#[test]
fn method_arguments_are_preserved() {
    let method = ir::Method {
        name: sym("call"),
        args: vec![
            ir::Arg { name: sym("first"), id: 1, ty: prim(ir::TyKind::I32) },
            ir::Arg { name: sym("second"), id: 2, ty: prim(ir::TyKind::String) },
        ],
        ret: prim(ir::TyKind::Bool),
        oneway: false,
        exceptions: None,
        tags: Tags::new(),
    };
    let svc = ir::Item {
        kind: ir::ItemKind::Service(ir::Service {
            name: sym("Svc"),
            methods: vec![method],
            extend: vec![],
        }),
        tags: Tags::new(),
    };
    let f = file(0, &["demo"], vec![], vec![svc]);
    let rr = Resolver::default().resolve_files(&vec![f]).unwrap();
    match item_of(rr.nodes.get(0).unwrap()) {
        rir::Item::Service(s) => {
            let m = &s.methods[0];
            assert_eq!(m.args.len(), 2);
            assert_eq!(m.args[0].name.bytes, b"first".to_vec());
            assert_eq!(m.args[0].id, 1);
            assert!(matches!(m.args[0].ty.kind, pilota_middle::ty::TyKind::I32));
            assert_eq!(m.args[1].name.bytes, b"second".to_vec());
            assert_eq!(m.args[1].id, 2);
            assert!(matches!(m.args[1].ty.kind, pilota_middle::ty::TyKind::String));
            assert!(matches!(m.ret.kind, pilota_middle::ty::TyKind::Bool));
        },
        _ => panic!("expected a service"),
    }
}

#[test]
fn enum_variant_payload_types_are_lowered() {
    let variants = vec![ir::EnumVariant {
        id: 0,
        name: sym("V"),
        discr: Some(7),
        fields: vec![prim(ir::TyKind::I64), prim(ir::TyKind::String)],
        tags: Tags::new(),
    }];
    let e = ir::Item {
        kind: ir::ItemKind::Enum(ir::Enum { name: sym("E"), variants, repr: None }),
        tags: Tags::new(),
    };
    let f = file(0, &["demo"], vec![], vec![e]);
    let rr = Resolver::default().resolve_files(&vec![f]).unwrap();
    match item_of(rr.nodes.get(0).unwrap()) {
        rir::Item::Enum(re) => {
            let v = &re.variants[0];
            assert_eq!(v.discr, Some(7));
            assert_eq!(v.fields.len(), 2);
            assert!(matches!(v.fields[0].kind, pilota_middle::ty::TyKind::I64));
            assert!(matches!(v.fields[1].kind, pilota_middle::ty::TyKind::String));
        },
        _ => panic!("expected an enum"),
    }
}

#[test]
fn node_count_matches_definition_count() {
    // one service (1) + one method (1) + one message (1) + two fields (2)
    let method = ir::Method {
        name: sym("go"),
        args: vec![],
        ret: prim(ir::TyKind::Void),
        oneway: false,
        exceptions: None,
        tags: Tags::new(),
    };
    let svc = ir::Item {
        kind: ir::ItemKind::Service(ir::Service {
            name: sym("Svc"),
            methods: vec![method],
            extend: vec![],
        }),
        tags: Tags::new(),
    };
    let msg = message_item(
        "M",
        vec![
            field("a", 1, ir::FieldKind::Required, prim(ir::TyKind::I32)),
            field("b", 2, ir::FieldKind::Optional, prim(ir::TyKind::Bool)),
        ],
    );
    let f = file(0, &["demo"], vec![], vec![svc, msg]);
    let rr = Resolver::default().resolve_files(&vec![f]).unwrap();
    assert_eq!(rr.nodes.len(), 5);
}
