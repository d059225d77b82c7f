use prefix_tree_map::builder::PrefixTreeMapBuilder;
use prefix_tree_map::key_part::KeyPart;
use prefix_tree_map::prefix_tree_map::Node;

fn node_eq(a: &Node<u64>, b: &Node<u64>) -> bool {
    if a.key_part != b.key_part || a.value != b.value {
        return false;
    }
    match (&a.children, &b.children) {
        (None, None) => true,
        (Some(ca), Some(cb)) => {
            ca.len() == cb.len() && ca.iter().zip(cb.iter()).all(|(x, y)| node_eq(x, y))
        }
        _ => false,
    }
}

#[test]
fn overwrite_same_path_keeps_one_node() {
    let mut b = PrefixTreeMapBuilder::<u64>::new();
    let key = vec![KeyPart::Exact(1), KeyPart::Exact(2)];
    b.insert(&key, 10);
    b.insert(&key, 20);
    let tree = b.build();
    let root_children = tree.root.children.as_ref().unwrap();
    assert_eq!(root_children.len(), 1);
    let child = &root_children[0];
    assert_eq!(child.key_part, Some(KeyPart::Exact(1)));
    assert_eq!(child.value, None);
    let grand = child.children.as_ref().unwrap();
    assert_eq!(grand.len(), 1);
    assert_eq!(grand[0].key_part, Some(KeyPart::Exact(2)));
    assert_eq!(grand[0].value, Some(20));
    assert!(grand[0].children.is_none());
}

#[test]
fn shape_is_order_independent() {
    let prefix = vec![KeyPart::Exact(7)];
    let longer = vec![KeyPart::Exact(7), KeyPart::Wildcard(3)];

    let mut b1 = PrefixTreeMapBuilder::<u64>::new();
    b1.insert(&prefix, 1);
    b1.insert(&longer, 2);
    let t1 = b1.build();

    let mut b2 = PrefixTreeMapBuilder::<u64>::new();
    b2.insert(&longer, 2);
    b2.insert(&prefix, 1);
    let t2 = b2.build();

    assert!(node_eq(&t1.root, &t2.root));
    assert_eq!(t1.max_wildcard_depth, t2.max_wildcard_depth);
}

#[test]
fn wildcard_depth_tracks_maximum() {
    let mut b = PrefixTreeMapBuilder::<u64>::new();
    b.insert(&vec![KeyPart::Wildcard(0), KeyPart::Exact(1), KeyPart::Wildcard(5)], 1);
    b.insert(&vec![KeyPart::Wildcard(9)], 2);
    let tree = b.build();
    assert_eq!(tree.max_wildcard_depth, 2);
}

#[test]
fn exact_only_keys_leave_depth_zero() {
    let mut b = PrefixTreeMapBuilder::<u64>::new();
    b.insert_exact(&vec![4, 5, 6], 1);
    b.insert(&vec![KeyPart::Exact(8)], 2);
    let tree = b.build();
    assert_eq!(tree.max_wildcard_depth, 0);
}

#[test]
fn empty_key_sets_root_value() {
    let mut b = PrefixTreeMapBuilder::<u64>::new();
    b.insert(&vec![], 99);
    let tree = b.build();
    assert_eq!(tree.root.key_part, None);
    assert_eq!(tree.root.value, Some(99));
    assert!(tree.root.children.is_none());
}

#[test]
fn round_trip_two_keys_under_one_parent() {
    let mut b = PrefixTreeMapBuilder::<u64>::new();
    b.insert(&vec![KeyPart::Exact(1), KeyPart::Exact(2)], 1);
    b.insert(&vec![KeyPart::Exact(1), KeyPart::Wildcard(0)], 2);
    let tree = b.build();
    let root_children = tree.root.children.as_ref().unwrap();
    assert_eq!(root_children.len(), 1);
    let a = &root_children[0];
    assert_eq!(a.key_part, Some(KeyPart::Exact(1)));
    assert_eq!(a.value, None);
    let kids = a.children.as_ref().unwrap();
    assert_eq!(kids.len(), 2);
    // exact parts outrank wildcards, so the exact child comes first
    assert_eq!(kids[0].key_part, Some(KeyPart::Exact(2)));
    assert_eq!(kids[0].value, Some(1));
    assert_eq!(kids[1].key_part, Some(KeyPart::Wildcard(0)));
    assert_eq!(kids[1].value, Some(2));
}

#[test]
fn distinct_wildcard_weights_stay_separate() {
    let mut b = PrefixTreeMapBuilder::<u64>::new();
    b.insert(&vec![KeyPart::Wildcard(0)], 1);
    b.insert(&vec![KeyPart::Wildcard(1)], 2);
    let tree = b.build();
    let kids = tree.root.children.as_ref().unwrap();
    assert_eq!(kids.len(), 2);
    // the larger weight outranks the smaller one
    assert_eq!(kids[0].key_part, Some(KeyPart::Wildcard(1)));
    assert_eq!(kids[0].value, Some(2));
    assert_eq!(kids[1].key_part, Some(KeyPart::Wildcard(0)));
    assert_eq!(kids[1].value, Some(1));
}

#[test]
fn siblings_come_out_in_non_increasing_priority() {
    let mut b = PrefixTreeMapBuilder::<u64>::new();
    b.insert(&vec![KeyPart::Wildcard(3)], 1);
    b.insert(&vec![KeyPart::Exact(5)], 2);
    b.insert(&vec![KeyPart::Wildcard(7)], 3);
    b.insert(&vec![KeyPart::Exact(9)], 4);
    let tree = b.build();
    let kids = tree.root.children.as_ref().unwrap();
    let keys: Vec<Option<KeyPart>> = kids.iter().map(|c| c.key_part).collect();
    assert_eq!(
        keys,
        vec![
            Some(KeyPart::Exact(9)),
            Some(KeyPart::Exact(5)),
            Some(KeyPart::Wildcard(7)),
            Some(KeyPart::Wildcard(3)),
        ]
    );
    assert_eq!(kids[0].value, Some(4));
    assert_eq!(kids[1].value, Some(2));
    assert_eq!(kids[2].value, Some(3));
    assert_eq!(kids[3].value, Some(1));
}

#[test]
fn insert_exact_builds_exact_path() {
    let mut b = PrefixTreeMapBuilder::<u64>::new();
    b.insert_exact(&vec![1, 2], 42);
    let tree = b.build();
    let kids = tree.root.children.as_ref().unwrap();
    assert_eq!(kids.len(), 1);
    assert_eq!(kids[0].key_part, Some(KeyPart::Exact(1)));
    let grand = kids[0].children.as_ref().unwrap();
    assert_eq!(grand[0].key_part, Some(KeyPart::Exact(2)));
    assert_eq!(grand[0].value, Some(42));
}

#[test]
fn is_wildcard_reports_category() {
    assert!(KeyPart::Wildcard(0).is_wildcard());
    assert!(!KeyPart::Exact(0).is_wildcard());
}

#[test]
fn default_builder_is_empty() {
    let b = PrefixTreeMapBuilder::<u64>::default();
    let tree = b.build();
    assert_eq!(tree.root.key_part, None);
    assert_eq!(tree.root.value, None);
    assert!(tree.root.children.is_none());
    assert_eq!(tree.max_wildcard_depth, 0);
}
