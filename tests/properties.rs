use bitstring_trees::bits::BitKey;
use bitstring_trees::iter::{iter_between, iter_inclusive, IterInclusive};
use bitstring_trees::map::PrefixMap;
use bitstring_trees::set::PrefixSet;
use bitstring_trees::tree::{
    DefaultCompare, InsertPosition, LeafValueComparer, NoEqual, Tree, TreeProperties,
};
use bitstring_trees::walk_dir::WalkedDirection;
use bitstring_trees::walk_mut::NodeOrTree;

fn b(s: &str) -> BitKey {
    BitKey::from_bits(s.chars().map(|c| c == '1').collect())
}

fn bs(v: &[&str]) -> Vec<BitKey> {
    v.iter().map(|s| b(s)).collect()
}

fn text(k: &BitKey) -> String {
    k.to_bits().iter().map(|&x| if x { '1' } else { '0' }).collect()
}

// value of `k 0*` / `k 1*` over `width` bits
fn low(k: &BitKey, width: usize) -> u64 {
    let bits = k.to_bits();
    (0..width).fold(0, |acc, i| acc * 2 + (i < bits.len() && bits[i]) as u64)
}

fn high(k: &BitKey, width: usize) -> u64 {
    let bits = k.to_bits();
    (0..width).fold(0, |acc, i| acc * 2 + (i >= bits.len() || bits[i]) as u64)
}

fn map_props() -> TreeProperties {
    TreeProperties { empty: true, leaf_empty: false, ignore_leafs: false }
}

#[test]
fn key_operations() {
    let mut k = b("0110");
    assert_eq!(k.len(), 4);
    assert!(k.get(1));
    assert!(!k.get(3));
    k.flip(3);
    assert_eq!(text(&k), "0111");
    k.clip(2);
    assert_eq!(text(&k), "01");
    k.clip(5);
    assert_eq!(text(&k), "01");
    k.append(false);
    assert_eq!(text(&k), "010");
    assert_eq!(b("0101").shared_prefix_len(&b("0110")), 2);
    assert_eq!(b("01").shared_prefix_len(&b("0110")), 2);
    assert!(b("01").is_prefix_of(&b("0110")));
    assert!(!b("0110").is_prefix_of(&b("01")));
    assert!(b("").is_prefix_of(&b("1")));
    assert!(b("10").equals(&b("10")));
    assert!(!b("10").equals(&b("100")));
    assert_eq!(BitKey::null().len(), 0);
    assert_eq!(text(&b("1011").duplicate()), "1011");
}

#[test]
fn inclusive_single_point() {
    for s in ["", "0", "1", "0110", "0111", "1000"] {
        assert_eq!(iter_inclusive(b(s), b(s)).collect_vec(), bs(&[s]));
    }
}

#[test]
fn inclusive_wrong_order_is_empty() {
    assert_eq!(iter_inclusive(b("1"), b("0")).collect_vec(), bs(&[]));
    assert_eq!(iter_inclusive(b("0110"), b("0101")).collect_vec(), bs(&[]));
}

#[test]
fn inclusive_examples() {
    // 1 ..= 6 on three bits
    assert_eq!(
        iter_inclusive(b("001"), b("110")).collect_vec(),
        bs(&["001", "01", "10", "110"])
    );
    // whole space
    assert_eq!(iter_inclusive(b("000"), b("111")).collect_vec(), bs(&[""]));
    // first is a prefix of last
    assert_eq!(iter_inclusive(b("0"), b("0101")).collect_vec(), bs(&["00", "010"]));
    // last is a prefix of first
    assert_eq!(iter_inclusive(b("0101"), b("0")).collect_vec(), bs(&["0101", "011"]));
}

#[test]
fn inclusive_tiles_range() {
    let width = 6;
    for first in 0..64u64 {
        for last in 0..64u64 {
            let to_key = |v: u64| {
                BitKey::from_bits((0..width).map(|i| (v >> (width - 1 - i)) & 1 == 1).collect())
            };
            let out = iter_inclusive(to_key(first), to_key(last)).collect_vec();
            if first > last {
                assert!(out.is_empty());
                continue;
            }
            assert_eq!(low(&out[0], width), first);
            assert_eq!(high(&out[out.len() - 1], width), last);
            for w in out.windows(2) {
                assert_eq!(high(&w[0], width) + 1, low(&w[1], width));
                let (x, y) = (w[0].to_bits(), w[1].to_bits());
                let siblings = x.len() == y.len()
                    && !x.is_empty()
                    && x[..x.len() - 1] == y[..y.len() - 1]
                    && !x[x.len() - 1]
                    && y[y.len() - 1];
                assert!(!siblings);
            }
        }
    }
}

#[test]
fn inclusive_iterator_steps() {
    let mut it = iter_inclusive(b("001"), b("010"));
    assert_eq!(it.next().map(|k| text(&k)), Some("001".to_string()));
    assert_eq!(it.next().map(|k| text(&k)), Some("010".to_string()));
    assert_eq!(it.next().map(|k| text(&k)), None);
    assert_eq!(it.next().map(|k| text(&k)), None);
    assert_eq!(IterInclusive::empty().collect_vec(), bs(&[]));
    assert_eq!(IterInclusive::all().collect_vec(), bs(&[""]));
}

#[test]
fn between_bounds() {
    // nothing after all ones, nothing before all zeros
    assert_eq!(iter_between(Some(b("11")), None).collect_vec(), bs(&[]));
    assert_eq!(iter_between(None, Some(b("00"))).collect_vec(), bs(&[]));
    assert_eq!(iter_between(None, None).collect_vec(), bs(&[""]));
    // neighbours leave no gap
    assert_eq!(iter_between(Some(b("01")), Some(b("10"))).collect_vec(), bs(&[]));
    // the gap between 00 and 11
    assert_eq!(iter_between(Some(b("00")), Some(b("11"))).collect_vec(), bs(&["01", "10"]));
    // after 010: 011 and 1
    assert_eq!(iter_between(Some(b("010")), None).collect_vec(), bs(&["011", "1"]));
    // before 101: 0 and 100
    assert_eq!(iter_between(None, Some(b("101"))).collect_vec(), bs(&["0", "100"]));
}

#[test]
fn longest_prefix_value() {
    let mut map = PrefixMap::<u64>::new();
    map.insert(b("0"), 1);
    map.insert(b("01"), 2);
    map.insert(b("0110"), 3);
    assert_eq!(map.get(&b("0000")), Some(1));
    assert_eq!(map.get(&b("0100")), Some(2));
    assert_eq!(map.get(&b("01101")), Some(3));
    assert_eq!(map.get(&b("0111")), Some(2));
    assert_eq!(map.get(&b("1")), None);
    let mut tree = Tree::<(), u64, DefaultCompare>::new(map_props());
    tree.set_leaf_value(b("0"), 1);
    tree.set_leaf_value(b("01"), 2);
    let node = tree.get_most_specific(&b("0111")).unwrap();
    assert_eq!(text(node.get_key()), "01");
    assert_eq!(node.get_leaf_value(), Some(&2));
    assert!(tree.get_most_specific(&b("1")).is_none());
}

#[test]
fn insert_twice_same_as_once() {
    let mut once = PrefixMap::<u64>::new();
    let mut twice = PrefixMap::<u64>::new();
    for (k, v) in [("001", 5), ("1", 7), ("0", 5)] {
        once.insert(b(k), v);
        twice.insert(b(k), v);
        twice.insert(b(k), v);
    }
    assert_eq!(once.iter(), twice.iter());
    assert_eq!(once.iter_full(), twice.iter_full());
}

#[test]
fn siblings_merge() {
    let mut set = PrefixSet::new();
    set.insert(b("00"));
    set.insert(b("01"));
    assert_eq!(set.iter(), bs(&["0"]));
    set.insert(b("1"));
    assert_eq!(set.iter(), bs(&[""]));
    let mut map = PrefixMap::<u64>::new();
    map.insert(b("10"), 4);
    map.insert(b("11"), 4);
    map.insert(b("01"), 3);
    map.insert(b("00"), 2);
    assert_eq!(map.iter(), vec![(b("00"), 2), (b("01"), 3), (b("1"), 4)]);
}

#[test]
fn no_merge_with_no_equal() {
    let mut tree = Tree::<(), u64, NoEqual>::new(map_props());
    tree.set_leaf_value(b("0"), 4);
    tree.set_leaf_value(b("1"), 4);
    assert_eq!(tree.iter_leaf(), vec![(b("0"), 4), (b("1"), 4)]);
    assert!(!NoEqual::eq(&1u64, &1u64));
    assert!(<DefaultCompare as LeafValueComparer<u64>>::eq(&1u64, &1u64));
}

#[test]
fn inner_nodes_have_two_children() {
    let mut tree = Tree::<(), u64, DefaultCompare>::new(map_props());
    tree.set_leaf_value(b("0010"), 1);
    tree.set_leaf_value(b("0111"), 2);
    tree.set_leaf_value(b("1"), 3);
    let root = tree.root().unwrap();
    assert_eq!(text(root.get_key()), "");
    let (l, r) = root.get_children().unwrap();
    assert_eq!(text(l.get_key()), "0");
    assert_eq!(text(r.get_key()), "1");
    assert!(r.is_leaf());
    assert_eq!(text(l.get_left().unwrap().get_key()), "0010");
    assert_eq!(text(l.get_child(true).unwrap().get_key()), "0111");
    assert!(l.get_right().is_some());
    let pre: Vec<String> = tree.iter_pre_order().iter().map(text).collect();
    assert_eq!(pre, vec!["", "0", "0010", "0111", "1"]);
    let ino: Vec<String> = tree.iter_in_order().iter().map(text).collect();
    assert_eq!(ino, vec!["0010", "0", "0111", "", "1"]);
    let post: Vec<String> = tree.iter_post_order().iter().map(text).collect();
    assert_eq!(post, vec!["0010", "0111", "0", "1", ""]);
}

#[test]
fn split_below_leaf() {
    let mut tree = Tree::<(), u64, DefaultCompare>::new(map_props());
    tree.set_leaf_value(b("0"), 1);
    tree.set_leaf_value(b("0011"), 2);
    assert_eq!(
        tree.iter_leaf(),
        vec![(b("000"), 1), (b("0010"), 1), (b("0011"), 2), (b("01"), 1)]
    );
    // setting the old value again merges the chain back
    tree.set_leaf_value(b("0011"), 1);
    assert_eq!(tree.iter_leaf(), vec![(b("0"), 1)]);
}

#[test]
fn positions() {
    let mut tree = Tree::<(), u64, DefaultCompare>::new(map_props());
    assert!(tree.goto_insert(&b("0")).is_none());
    tree.set_leaf_value(b("01"), 1);
    assert_eq!(tree.goto_insert(&b("01")).unwrap().position(), InsertPosition::AlreadyExists);
    assert_eq!(tree.goto_insert(&b("011")).unwrap().position(), InsertPosition::BelowLeaf);
    assert_eq!(tree.goto_insert(&b("00")).unwrap().position(), InsertPosition::ReplaceNode);
    assert_eq!(tree.goto_insert(&b("0")).unwrap().position(), InsertPosition::ReplaceNode);
    assert!(tree.get(&b("01")).is_some());
    assert!(tree.get(&b("011")).is_none());
    assert_eq!(text(tree.get(&b("01")).unwrap().get_key()), "01");
}

#[test]
fn remove_restores() {
    let mut set = PrefixSet::new();
    set.insert(b("0"));
    set.remove(b("010"));
    assert!(!set.contains(&b("0101")));
    assert!(set.contains(&b("011")));
    assert!(set.contains(&b("00")));
    assert_eq!(set.iter(), bs(&["00", "011"]));
    set.insert(b("010"));
    assert_eq!(set.iter(), bs(&["0"]));
    set.remove(b("1"));
    assert_eq!(set.iter(), bs(&["0"]));
    set.remove(b(""));
    assert_eq!(set.iter(), bs(&[]));
    let mut map = PrefixMap::<u64>::new();
    map.insert(b("1"), 9);
    map.remove(b("1"));
    assert_eq!(map.get(&b("1")), None);
    assert_eq!(map.iter_full(), vec![(b(""), None)]);
}

#[test]
fn remove_collapses_subtree() {
    let mut set = PrefixSet::new();
    set.insert(b("0110"));
    set.insert(b("0010"));
    set.insert(b("1"));
    set.remove(b("1"));
    let pre: Vec<String> = set.tree().iter_pre_order().iter().map(text).collect();
    assert_eq!(pre, vec!["0", "0010", "0110"]);
}

#[test]
fn full_cover_of_map() {
    let mut map = PrefixMap::<u64>::new();
    map.insert(b("01"), 3);
    map.insert(b("110"), 4);
    assert_eq!(
        map.iter_full(),
        vec![(b("00"), None), (b("01"), Some(3)), (b("10"), None), (b("110"), Some(4)), (b("111"), None)]
    );
}

#[test]
fn walk_helpers() {
    assert_eq!(WalkedDirection::from_side(true), WalkedDirection::Right);
    assert_eq!(WalkedDirection::from_side(false), WalkedDirection::Left);
    let n: NodeOrTree<u8, u16> = NodeOrTree::Node(3);
    assert_eq!(n.map_node(|x| x + 1).node(), Some(4));
    let t: NodeOrTree<u8, u16> = NodeOrTree::Tree(2);
    assert_eq!(t.map_tree(|x| x as u32 * 5).node(), None);
    let t: NodeOrTree<u8, u16> = NodeOrTree::Tree(2);
    assert!(matches!(t.map_tree(|x| x as u32 * 5), NodeOrTree::Tree(10)));
    let same: NodeOrTree<u8, u8> = NodeOrTree::Tree(7);
    assert_eq!(same.flatten(), 7);
    let opt: NodeOrTree<Option<u8>, u8> = NodeOrTree::Tree(None);
    assert_eq!(opt.flatten_optional(), None);
    let opt: NodeOrTree<Option<u8>, u8> = NodeOrTree::Node(1);
    assert_eq!(opt.flatten_optional(), Some(1));
}

fn valued_props() -> TreeProperties {
    TreeProperties { empty: false, leaf_empty: true, ignore_leafs: true }
}

#[test]
fn inner_values_and_pruning() {
    let mut tree = Tree::<Option<u64>, (), NoEqual>::new(valued_props());
    tree.set_leaf_value(b("00"), ());
    tree.set_leaf_value(b("01"), ());
    assert!(tree.set_value(&b("0"), Some(7)));
    assert!(tree.set_value(&b("00"), Some(1)));
    assert!(!tree.set_value(&b("1"), Some(2)));
    assert_eq!(*tree.get(&b("00")).unwrap().get_value(), Some(1));
    // a value that is not empty keeps everything
    tree.compact_if_empty(&b("00"), |v: &Option<u64>| v.is_none());
    assert_eq!(tree.iter_pre_order().len(), 3);
    // both children empty leaves: the parent becomes a leaf, keeping its value
    assert!(tree.set_value(&b("00"), None));
    tree.compact_if_empty(&b("00"), |v: &Option<u64>| v.is_none());
    let root = tree.root().unwrap();
    assert_eq!(text(root.get_key()), "0");
    assert!(root.is_leaf());
    assert_eq!(*root.get_value(), Some(7));
    // the root as an empty leaf: nothing is left
    assert!(tree.set_value(&b("0"), None));
    tree.compact_if_empty(&b("0"), |v: &Option<u64>| v.is_none());
    assert!(tree.root().is_none());
}

#[test]
fn pruning_removes_empty_parent() {
    let mut tree = Tree::<Option<u64>, (), NoEqual>::new(valued_props());
    tree.set_leaf_value(b("00"), ());
    tree.set_leaf_value(b("01"), ());
    assert!(tree.set_value(&b("01"), Some(3)));
    tree.compact_if_empty(&b("00"), |v: &Option<u64>| v.is_none());
    let root = tree.root().unwrap();
    assert_eq!(text(root.get_key()), "01");
    assert_eq!(*root.get_value(), Some(3));
    // an empty inner node drops its empty leaf child
    let mut tree = Tree::<Option<u64>, (), NoEqual>::new(valued_props());
    tree.set_leaf_value(b("10"), ());
    tree.set_leaf_value(b("110"), ());
    tree.set_leaf_value(b("111"), ());
    assert!(tree.set_value(&b("110"), Some(1)));
    tree.compact_if_empty(&b("1"), |v: &Option<u64>| v.is_none());
    let pre: Vec<String> = tree.iter_pre_order().iter().map(text).collect();
    assert_eq!(pre, vec!["11", "110", "111"]);
}

#[test]
fn path_to_key() {
    let mut tree = Tree::<(), u64, DefaultCompare>::new(map_props());
    tree.set_leaf_value(b("0010"), 1);
    tree.set_leaf_value(b("0111"), 2);
    tree.set_leaf_value(b("1"), 3);
    let path: Vec<String> = tree.iter_path(&b("01110")).iter().map(text).collect();
    assert_eq!(path, vec!["", "0", "0111"]);
    let path: Vec<String> = tree.iter_path(&b("000")).iter().map(text).collect();
    assert_eq!(path, vec!["", "0"]);
}

#[test]
fn nodes_for_inner_values() {
    let mut tree = Tree::<Option<u64>, (), NoEqual>::new(valued_props());
    tree.insert_node(&b("01"));
    assert!(tree.set_value(&b("01"), Some(1)));
    tree.insert_node(&b("0"));
    assert!(tree.set_value(&b("0"), Some(2)));
    tree.insert_node(&b("011"));
    assert!(tree.set_value(&b("011"), Some(3)));
    tree.insert_node(&b("1"));
    let pre: Vec<String> = tree.iter_pre_order().iter().map(text).collect();
    assert_eq!(pre, vec!["", "0", "00", "01", "010", "011", "1"]);
    assert_eq!(*tree.get(&b("01")).unwrap().get_value(), Some(1));
    assert_eq!(*tree.get(&b("0")).unwrap().get_value(), Some(2));
    assert_eq!(*tree.get(&b("011")).unwrap().get_value(), Some(3));
    assert_eq!(*tree.get(&b("1")).unwrap().get_value(), None);
    // clearing values prunes the branches that hold nothing
    tree.compact_if_empty(&b("1"), |v: &Option<u64>| v.is_none());
    let pre: Vec<String> = tree.iter_pre_order().iter().map(text).collect();
    assert_eq!(pre, vec!["0", "00", "01", "010", "011"]);
    assert!(tree.set_value(&b("011"), None));
    tree.compact_if_empty(&b("011"), |v: &Option<u64>| v.is_none());
    let pre: Vec<String> = tree.iter_pre_order().iter().map(text).collect();
    assert_eq!(pre, vec!["0", "00", "01"]);
}

#[test]
fn insert_twice_same_tree() {
    let mut once = Tree::<(), u64, NoEqual>::new(map_props());
    let mut twice = Tree::<(), u64, NoEqual>::new(map_props());
    for (k, v) in [("0", 1), ("011", 2), ("0110", 2), ("1", 3)] {
        once.set_leaf_value(b(k), v);
        twice.set_leaf_value(b(k), v);
        twice.set_leaf_value(b(k), v);
    }
    let keys = |t: &Tree<(), u64, NoEqual>| -> Vec<String> { t.iter_pre_order().iter().map(text).collect() };
    assert_eq!(keys(&once), keys(&twice));
    assert_eq!(once.iter_leaf(), twice.iter_leaf());
}

#[test]
fn insert_drops_subtree_below_key() {
    let mut tree = Tree::<(), u64, DefaultCompare>::new(map_props());
    tree.set_leaf_value(b("0010"), 1);
    tree.set_leaf_value(b("0111"), 2);
    tree.set_leaf_value(b("1"), 3);
    tree.set_leaf_value(b("0"), 4);
    let pre: Vec<String> = tree.iter_pre_order().iter().map(text).collect();
    assert_eq!(pre, vec!["", "0", "1"]);
}
