use pilota_middle::symbol::Symbol;
use pilota_middle::tags::{EntryMessage, TagKey, Tags, TypeMap};

#[test]
fn type_map_insert_get_contains() {
    let mut m = TypeMap::new();
    assert!(m.is_empty());
    assert_eq!(m.len(), 0);
    assert!(!m.contains(TagKey::OneOf));

    m.insert(TagKey::OneOf, vec![]);
    assert!(m.contains(TagKey::OneOf));
    assert!(!m.is_empty());
    assert_eq!(m.len(), 1);
    assert_eq!(m.get(TagKey::OneOf), Some(&vec![]));
    assert_eq!(m.get(TagKey::Repeated), None);

    m.insert(TagKey::Repeated, vec![1]);
    assert_eq!(m.len(), 2);

    // a second insert under the same key overrides the first
    m.insert(TagKey::OneOf, vec![7]);
    assert_eq!(m.len(), 2);
    assert_eq!(m.get(TagKey::OneOf), Some(&vec![7]));
}

#[test]
fn tags_bag_round_trip() {
    let mut t = Tags::new();
    assert!(t.is_empty());
    t.insert(EntryMessage.key(), vec![]);
    assert!(t.contains(TagKey::EntryMessage));
    assert_eq!(t.len(), 1);
    let copy = t.duplicate();
    assert!(copy.contains(TagKey::EntryMessage));
    assert_eq!(copy.len(), 1);
}

#[test]
fn protobuf_marker_keys_are_distinct() {
    let keys = [
        TagKey::OneOf,
        TagKey::Repeated,
        TagKey::ClientStreaming,
        TagKey::ServerStreaming,
        TagKey::SInt32,
        TagKey::SInt64,
        TagKey::Fixed32,
        TagKey::Fixed64,
        TagKey::SFixed32,
        TagKey::SFixed64,
    ];
    let mut t = Tags::new();
    for k in keys {
        t.insert(k, vec![]);
    }
    assert_eq!(t.len(), keys.len());
}

#[test]
fn snake_case_transform() {
    assert_eq!(Symbol::from_str("MyMessage").to_snake_case().bytes, b"my_message".to_vec());
    assert_eq!(Symbol::from_str("already_snake").to_snake_case().bytes, b"already_snake".to_vec());
    assert_eq!(Symbol::from_str("Foo").to_snake_case().bytes, b"foo".to_vec());
    assert_eq!(Symbol::from_str("f1B").to_snake_case().bytes, b"f1_b".to_vec());
    assert_eq!(Symbol::from_str("").to_snake_case().bytes, b"".to_vec());
}

#[test]
fn symbol_equality_by_bytes() {
    let a = Symbol::from_str("abc");
    let b = Symbol::from_str("abc");
    let c = Symbol::from_str("abd");
    assert!(a.eq_sym(&b));
    assert!(!a.eq_sym(&c));
    assert_eq!(a.len(), 3);
}
