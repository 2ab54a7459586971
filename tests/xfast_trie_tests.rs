use xfast::{TrieError, XFastTrie, DEFAULT_WIDTH};

fn scenario_trie() -> XFastTrie<String> {
    let mut t: XFastTrie<String> = XFastTrie::new();
    for k in [15u32, 16, 27, 33] {
        assert_eq!(t.insert(k, format!("value{}", k)), Ok(true));
    }
    t
}

#[test]
fn scenario_lookups() {
    let t = scenario_trie();
    assert_eq!(t.get(&15), Some("value15".to_string()));
    assert_eq!(t.get(&16), Some("value16".to_string()));
    assert_eq!(t.get(&27), Some("value27".to_string()));
    assert_eq!(t.get(&33), Some("value33".to_string()));
    assert_eq!(t.get(&17), None);
}

#[test]
fn scenario_predecessors() {
    let t = scenario_trie();
    assert_eq!(t.predecessor(&18), Some(16));
    assert_eq!(t.predecessor(&19), Some(16));
    assert_eq!(t.predecessor(&26), Some(16));
    assert_eq!(t.predecessor(&35), Some(33));
    assert_eq!(t.predecessor(&15), None);
}

#[test]
fn predecessor_of_present_key_is_strict() {
    let t = scenario_trie();
    assert_eq!(t.predecessor(&16), Some(15));
    assert_eq!(t.predecessor(&27), Some(16));
    assert_eq!(t.predecessor(&33), Some(27));
    assert_eq!(t.predecessor(&0), None);
}

#[test]
fn empty_structure() {
    let t: XFastTrie<u32> = XFastTrie::new();
    for q in [0u32, 1, 15, 1 << 30, u32::MAX] {
        assert_eq!(t.predecessor(&q), None);
        assert_eq!(t.get(&q), None);
        assert!(!t.contains(&q));
    }
    assert_eq!(t.min_key(), None);
    assert_eq!(t.max_key(), None);
}

#[test]
fn duplicate_insert_keeps_value() {
    let mut t: XFastTrie<u32> = XFastTrie::new();
    assert_eq!(t.insert(7, 70), Ok(true));
    assert_eq!(t.insert(7, 71), Ok(false));
    assert_eq!(t.get(&7), Some(70));
    assert!(t.contains(&7));
}

#[test]
fn key_wider_than_width_is_refused() {
    let mut t: XFastTrie<u32> = XFastTrie::new();
    assert_eq!(t.width(), DEFAULT_WIDTH);
    assert_eq!(t.insert(1 << 31, 1), Err(TrieError::KeyTooWide));
    assert_eq!(t.insert(u32::MAX, 1), Err(TrieError::KeyTooWide));
    assert!(!t.contains(&(1 << 31)));
    assert_eq!(t.insert((1 << 31) - 1, 2), Ok(true));
    assert_eq!(t.predecessor(&u32::MAX), Some((1 << 31) - 1));
}

#[test]
fn full_width_keys() {
    let mut t: XFastTrie<u8> = XFastTrie::with_width(32);
    assert_eq!(t.insert(u32::MAX, 1), Ok(true));
    assert_eq!(t.insert(0, 2), Ok(true));
    assert_eq!(t.insert(1 << 31, 3), Ok(true));
    assert_eq!(t.predecessor(&u32::MAX), Some(1 << 31));
    assert_eq!(t.predecessor(&(1 << 31)), Some(0));
    assert_eq!(t.predecessor(&0), None);
    assert_eq!(t.min_key(), Some(0));
    assert_eq!(t.max_key(), Some(u32::MAX));
}

#[test]
fn min_max_follow_inserts() {
    let mut t: XFastTrie<u32> = XFastTrie::with_width(8);
    assert_eq!(t.insert(100, 0), Ok(true));
    assert_eq!((t.min_key(), t.max_key()), (Some(100), Some(100)));
    assert_eq!(t.insert(200, 0), Ok(true));
    assert_eq!((t.min_key(), t.max_key()), (Some(100), Some(200)));
    assert_eq!(t.insert(3, 0), Ok(true));
    assert_eq!((t.min_key(), t.max_key()), (Some(3), Some(200)));
    assert_eq!(t.insert(150, 0), Ok(true));
    assert_eq!((t.min_key(), t.max_key()), (Some(3), Some(200)));
}

#[test]
fn matches_sorted_list_on_many_keys() {
    let mut t: XFastTrie<u32> = XFastTrie::with_width(12);
    let mut keys: Vec<u32> = Vec::new();
    let mut x: u32 = 12345;
    for _ in 0..300 {
        x = x.wrapping_mul(1103515245).wrapping_add(12345);
        let k = (x >> 8) % 4096;
        let fresh = !keys.contains(&k);
        assert_eq!(t.insert(k, k * 2), Ok(fresh));
        if fresh {
            keys.push(k);
        }
    }
    keys.sort();
    for q in 0..4200u32 {
        let expected = keys.iter().copied().filter(|&s| s < q).max();
        assert_eq!(t.predecessor(&q), expected, "query {}", q);
        let present = keys.binary_search(&q).is_ok();
        assert_eq!(t.contains(&q), present);
        assert_eq!(t.get(&q), if present { Some(q * 2) } else { None });
    }
    assert_eq!(t.min_key(), keys.first().copied());
    assert_eq!(t.max_key(), keys.last().copied());
}

#[test]
fn nodes_keep_their_links() {
    let mut n = xfast::XFastNode::new_leaf(5, "five");
    assert!(n.is_leaf());
    assert_eq!(n.get_left(), None);
    n.set_left(3);
    n.set_right(9);
    assert_eq!(n.get_left(), Some(3));
    assert_eq!(n.get_right(), Some(9));
    let inner: xfast::XFastNode<u8> = xfast::XFastNode::new();
    assert!(!inner.is_leaf());
}

#[test]
fn chain_walk_is_sorted_and_complete() {
    let mut t: XFastTrie<u32> = XFastTrie::with_width(16);
    for k in [900u32, 4, 65535, 77, 78, 0, 1000, 77] {
        let _ = t.insert(k, k);
    }
    assert_eq!(t.keys_in_order(), vec![0, 4, 77, 78, 900, 1000, 65535]);
    let empty: XFastTrie<u32> = XFastTrie::new();
    assert_eq!(empty.keys_in_order(), Vec::<u32>::new());
}

#[test]
fn node_count_grows_with_paths() {
    let mut t: XFastTrie<u32> = XFastTrie::with_width(4);
    assert_eq!(t.node_count(), 0);
    assert_eq!(t.insert(0, 0), Ok(true));
    assert_eq!(t.node_count(), 4);
    assert_eq!(t.insert(1, 0), Ok(true));
    assert_eq!(t.node_count(), 5);
    assert_eq!(t.insert(15, 0), Ok(true));
    assert_eq!(t.node_count(), 9);
}

#[test]
fn prefix_counts_per_depth() {
    let mut t: XFastTrie<u32> = XFastTrie::with_width(4);
    for k in [0u32, 1, 15] {
        assert_eq!(t.insert(k, k), Ok(true));
    }
    assert_eq!(t.prefix_count(1), 2);
    assert_eq!(t.prefix_count(2), 2);
    assert_eq!(t.prefix_count(3), 2);
    assert_eq!(t.prefix_count(4), 3);
}
