use pilota_middle::pkg_tree::PkgNode;
use pilota_middle::rir::ItemPath;
use pilota_middle::symbol::Symbol;

fn path(segments: &[&str]) -> ItemPath {
    ItemPath::from(segments.iter().map(|s| Symbol::from_str(s)).collect())
}

fn seg_bytes(n: &PkgNode) -> Vec<Vec<u8>> {
    n.path.segments.iter().map(|s| s.bytes.clone()).collect()
}

#[test]
fn grouping_by_shared_prefixes() {
    // [[a,b,C],[a,b,D],[a,e,F]]: one root [a], children [a,b] and [a,e],
    // [a,b] holding [a,b,C] and [a,b,D], [a,e] holding [a,e,F].
    let pkgs = vec![path(&["a", "b", "C"]), path(&["a", "b", "D"]), path(&["a", "e", "F"])];
    let roots = PkgNode::from_pkgs(&pkgs);
    assert_eq!(roots.len(), 1);
    let a = &roots[0];
    assert_eq!(seg_bytes(a), vec![b"a".to_vec()]);
    assert_eq!(a.children.len(), 2);
    let ab = &a.children[0];
    let ae = &a.children[1];
    assert_eq!(seg_bytes(ab), vec![b"a".to_vec(), b"b".to_vec()]);
    assert_eq!(seg_bytes(ae), vec![b"a".to_vec(), b"e".to_vec()]);
    assert_eq!(ab.children.len(), 2);
    assert_eq!(seg_bytes(&ab.children[0]), vec![b"a".to_vec(), b"b".to_vec(), b"C".to_vec()]);
    assert_eq!(seg_bytes(&ab.children[1]), vec![b"a".to_vec(), b"b".to_vec(), b"D".to_vec()]);
    assert_eq!(ae.children.len(), 1);
    assert_eq!(seg_bytes(&ae.children[0]), vec![b"a".to_vec(), b"e".to_vec(), b"F".to_vec()]);
    assert!(ab.children[0].children.is_empty());
}

#[test]
fn single_segment_path_single_level() {
    let pkgs = vec![path(&["demo"])];
    let roots = PkgNode::from_pkgs(&pkgs);
    assert_eq!(roots.len(), 1);
    assert_eq!(seg_bytes(&roots[0]), vec![b"demo".to_vec()]);
    assert!(roots[0].children.is_empty());
}

#[test]
fn shared_prefixes_merge() {
    let pkgs = vec![path(&["a"]), path(&["a", "c"]), path(&["a"])];
    let roots = PkgNode::from_pkgs(&pkgs);
    assert_eq!(roots.len(), 1);
    assert_eq!(roots[0].children.len(), 1);
}

#[test]
fn two_distinct_roots() {
    let pkgs = vec![path(&["a"]), path(&["b"])];
    let roots = PkgNode::from_pkgs(&pkgs);
    assert_eq!(roots.len(), 2);
    assert_eq!(seg_bytes(&roots[0]), vec![b"a".to_vec()]);
    assert_eq!(seg_bytes(&roots[1]), vec![b"b".to_vec()]);
}

#[test]
fn sibling_order_follows_first_appearance() {
    let pkgs = vec![path(&["z", "x"]), path(&["a", "y"]), path(&["z", "w"])];
    let roots = PkgNode::from_pkgs(&pkgs);
    assert_eq!(roots.len(), 2);
    assert_eq!(seg_bytes(&roots[0]), vec![b"z".to_vec()]);
    assert_eq!(seg_bytes(&roots[1]), vec![b"a".to_vec()]);
    assert_eq!(roots[0].children.len(), 2);
    assert_eq!(seg_bytes(&roots[0].children[0]), vec![b"z".to_vec(), b"x".to_vec()]);
    assert_eq!(seg_bytes(&roots[0].children[1]), vec![b"z".to_vec(), b"w".to_vec()]);
}

#[test]
fn ident_is_last_segment() {
    let pkgs = vec![path(&["a", "b"])];
    let roots = PkgNode::from_pkgs(&pkgs);
    let child = &roots[0].children[0];
    assert_eq!(child.ident().bytes, b"b".to_vec());
}

#[test]
fn empty_input_empty_tree() {
    let pkgs: Vec<ItemPath> = vec![];
    let roots = PkgNode::from_pkgs(&pkgs);
    assert!(roots.is_empty());
}

#[test]
fn trees_from_equal_inputs_are_equal() {
    let mk = || {
        let pkgs = vec![path(&["a", "b"]), path(&["a", "c"]), path(&["d"])];
        PkgNode::from_pkgs(&pkgs)
    };
    let t1 = mk();
    let t2 = mk();
    fn same(a: &[PkgNode], b: &[PkgNode]) -> bool {
        a.len() == b.len()
            && a.iter().zip(b.iter()).all(|(x, y)| {
                seg_bytes(x) == seg_bytes(y) && same(&x.children, &y.children)
            })
    }
    assert!(same(&t1, &t2));
}
