use antichess_tree::moves::mov_parse;
use antichess_tree::query::{
    query_result, query_result_add, query_result_clear, query_result_sort, query_result_try_add,
};
use antichess_tree::tree::{
    arr_get_bit, arr_set_bit, bb_popcount, compute_hash, node, node_at, node_has_child,
    node_is_trans, node_mov, node_trans_and_sibling, node_trans_index, tree_debug,
    tree_from_index, tree_lookup_subtree_size, tree_mov, tree_next, tree_next_sibling, tree_open,
    tree_query, tree_query_checked, tree_query_children, tree_save_subtree_size, tree_subtree_size, tree_trans,
    tree_walk, NO_LINK, tree_lookup_checked, tree_save_checked, tree_subtree_size_checked,
    tree_mov_checked, tree_query_children_checked, tree_walk_checked,
};

fn record(out: &mut Vec<u8>, data: u32, mov: u16) {
    out.extend_from_slice(&data.to_le_bytes());
    out.extend_from_slice(&mov.to_le_bytes());
    out.extend_from_slice(&[0, 0]);
}

/// A tree of four nodes: the root with children e2e4 (with child e7e5) and
/// d2d4, after the given prolog, followed by the given stored sizes.
fn small_tree(prolog: &[u16], pairs: &[(u32, u32)]) -> Vec<u8> {
    let mut out = Vec::new();
    out.extend_from_slice(&(0x4000_0000u32 | 4).to_le_bytes());
    out.extend_from_slice(&(prolog.len() as u16).to_le_bytes());
    out.extend_from_slice(&[0, 0]);
    for m in prolog {
        out.extend_from_slice(&m.to_le_bytes());
    }
    record(&mut out, 0x4000_0000 | 3, mov_parse(b"e2e4"));
    record(&mut out, 0, mov_parse(b"e7e5"));
    record(&mut out, 0, mov_parse(b"d2d4"));
    for (i, s) in pairs {
        out.extend_from_slice(&i.to_le_bytes());
        out.extend_from_slice(&s.to_le_bytes());
    }
    out
}

fn empty_result() -> query_result {
    query_result { movs: [7; 256], sizes: [9; 256], num_children: 3 }
}

#[test]
fn node_records() {
    let n = node { data: 0xc000_0005, mov: 0x0123 };
    assert!(node_is_trans(&n));
    assert!(node_trans_and_sibling(&n));
    assert!(!node_has_child(&n));
    assert_eq!(node_trans_index(&n), 5);
    assert_eq!(node_mov(&node { data: 0, mov: 0xfedc }), 0);
    assert_eq!(node_mov(&node { data: 0, mov: 0x0edc }), 0);
    assert_eq!(node_mov(&node { data: 0, mov: 0x9abc }), 0x6abc);
    assert_eq!(node_mov(&node { data: 0, mov: 0x7123 }), 0x0123);
    assert_eq!(node_mov(&node { data: 0, mov: 0x8123 }), 0x0123);
    assert_eq!(node_mov(&node { data: 0, mov: 0x5123 }), 0x5123);
    let parent = node { data: 0x4000_0007, mov: 0 };
    assert!(node_has_child(&parent));
    assert!(!node_has_child(&node { data: 0x4000_0000 | NO_LINK, mov: 0 }));
}

#[test]
fn hashes_and_bits() {
    assert_eq!(compute_hash(0), 678249);
    assert_eq!(compute_hash(1), 678185);
    assert_eq!(compute_hash(12345), 626086);
    assert_eq!(compute_hash(0x3fff_ffff), 372245);
    assert_eq!(bb_popcount(0), 0);
    assert_eq!(bb_popcount(u64::MAX), 64);
    assert_eq!(bb_popcount(0b1011), 3);
    let mut arr = vec![0u64; 2];
    arr_set_bit(&mut arr, 70);
    assert_eq!(arr, vec![0, 1 << 6]);
    assert!(arr_get_bit(&arr, 70));
    assert!(!arr_get_bit(&arr, 6));
}

#[test]
fn opening_short_and_empty_files() {
    // No bytes: the node count reads as 0.
    assert!(tree_open(&[]).is_none());
    // A root link of 0 nodes.
    let mut zero = small_tree(&[], &[]);
    zero[0] = 0;
    zero[1] = 0;
    zero[2] = 0;
    zero[3] = 0x40;
    assert!(tree_open(&zero).is_none());
    // Eight bytes naming two nodes: the second record lies past the end
    // and reads as zero.
    let t = tree_open(&[2, 0, 0, 0, 0, 0, 0, 0]).unwrap();
    assert_eq!(t.size, 2);
    assert_eq!(t.nodes.len(), 1);
    let n = node_at(&t, 1);
    assert_eq!((n.data, n.mov), (0, 0));
    // Three bytes: the missing byte reads as zero.
    let t = tree_open(&[1, 2, 3]).unwrap();
    assert_eq!(t.size, 0x030201);
    assert_eq!(t.prolog_len, 0);
    assert_eq!(t.nodes.len(), 1);
    // A tree whose last record is cut short still opens and answers.
    let mut bytes = small_tree(&[], &[]);
    bytes.pop();
    let mut t = tree_open(&bytes).unwrap();
    assert_eq!((t.size, t.nodes.len()), (4, 4));
    let mut r = empty_result();
    query_result_clear(&mut r);
    assert!(tree_query(&mut t, &[], &mut r));
    assert_eq!((r.num_children, r.sizes[0], r.sizes[1]), (2, 2, 1));
}

#[test]
fn opening_reads_a_pair_cut_short() {
    let mut bytes = small_tree(&[], &[(1, 7)]);
    bytes.truncate(bytes.len() - 2);
    let t = tree_open(&bytes).unwrap();
    assert_eq!(tree_lookup_subtree_size(&t, 1), 7);
    // Only the index is left: the size reads as 0.
    let mut bytes = small_tree(&[], &[(3, 7)]);
    bytes.truncate(bytes.len() - 4);
    let t = tree_open(&bytes).unwrap();
    assert_eq!(t.num_hash_entries, 1);
    assert_eq!(tree_lookup_subtree_size(&t, 3), 0);
}

#[test]
fn opening_stores_sizes_of_nodes_past_the_count() {
    // Two nodes, then a pair naming node 2: the record at index 2 is the
    // pair itself (a plain node without children), and its size is stored.
    let mut bytes = Vec::new();
    record(&mut bytes, 2, 0);
    record(&mut bytes, 0, mov_parse(b"e2e4"));
    bytes.extend_from_slice(&2u32.to_le_bytes());
    bytes.extend_from_slice(&3u32.to_le_bytes());
    let t = tree_open(&bytes).unwrap();
    assert_eq!((t.size, t.nodes.len()), (2, 3));
    assert_eq!(tree_lookup_subtree_size(&t, 2), 3);
    // A pair naming a node past the end of the file: that record reads as
    // zero.
    let t = tree_open(&small_tree(&[], &[(9, 5)])).unwrap();
    assert_eq!(tree_lookup_subtree_size(&t, 9), 5);
}

#[test]
fn opening_refuses_sizes_that_cannot_be_loaded() {
    // A stored size for a transposition that leads nowhere.
    let mut bytes = Vec::new();
    record(&mut bytes, 0x4000_0000 | 2, 0);
    record(&mut bytes, 0x8000_0000, mov_parse(b"e2e4"));
    bytes.extend_from_slice(&1u32.to_le_bytes());
    bytes.extend_from_slice(&1u32.to_le_bytes());
    assert!(tree_open(&bytes).is_none());
}

#[test]
fn open_and_navigate() {
    let t = tree_open(&small_tree(&[], &[])).unwrap();
    assert_eq!(t.size, 4);
    assert_eq!(t.prolog_len, 0);
    assert_eq!(t.nodes.len(), 4);
    assert_eq!(tree_next(&t, 0), 1);
    assert_eq!(tree_next_sibling(&t, 1), Some(3));
    assert_eq!(tree_next_sibling(&t, 2), None);
    assert_eq!(tree_next_sibling(&t, 3), None);
    assert_eq!(tree_from_index(&t, 0), None);
    assert_eq!(tree_from_index(&t, 2), Some(2));
    assert_eq!(tree_trans(&t, 1), Some(3));
    assert_eq!(tree_mov(&t, mov_parse(b"e2e4"), Some(0)), Some(1));
    assert_eq!(tree_mov(&t, mov_parse(b"d2d4"), Some(0)), Some(3));
    assert_eq!(tree_mov(&t, mov_parse(b"c2c4"), Some(0)), None);
    assert_eq!(tree_mov(&t, mov_parse(b"e7e5"), Some(1)), Some(2));
    assert_eq!(tree_mov(&t, mov_parse(b"e7e5"), Some(3)), None);
    assert_eq!(tree_mov(&t, mov_parse(b"e7e5"), None), None);
}

#[test]
fn subtree_sizes_are_counted_and_stored() {
    let mut t = tree_open(&small_tree(&[], &[])).unwrap();
    assert_eq!(tree_subtree_size(&mut t, 0), 4);
    assert_eq!(tree_lookup_subtree_size(&t, 1), 0);
    assert_eq!(tree_subtree_size(&mut t, 1), 2);
    assert_eq!(tree_lookup_subtree_size(&t, 1), 2);
    assert_eq!(tree_subtree_size(&mut t, 3), 1);
    assert_eq!(tree_subtree_size(&mut t, 2), 1);
    assert_eq!(t.num_hash_entries, 3);
}

#[test]
fn stored_sizes_are_read_back() {
    let mut t = tree_open(&small_tree(&[], &[])).unwrap();
    assert!(tree_save_subtree_size(&mut t, 1, 7));
    assert_eq!(tree_lookup_subtree_size(&t, 1), 7);
    // The single child of node 1 is stored too, one smaller.
    assert_eq!(tree_lookup_subtree_size(&t, 2), 6);
    assert_eq!(t.num_hash_entries, 2);
}

#[test]
fn open_loads_stored_sizes() {
    let mut t = tree_open(&small_tree(&[], &[(1, 7), (1, 9), (3, 5)])).unwrap();
    assert_eq!(tree_lookup_subtree_size(&t, 1), 7);
    assert_eq!(tree_lookup_subtree_size(&t, 2), 6);
    assert_eq!(tree_lookup_subtree_size(&t, 3), 5);
    let mut r = empty_result();
    query_result_clear(&mut r);
    assert!(tree_query(&mut t, &[], &mut r));
    assert_eq!(r.num_children, 2);
    assert_eq!((r.movs[0], r.sizes[0]), (mov_parse(b"e2e4"), 7));
    assert_eq!((r.movs[1], r.sizes[1]), (mov_parse(b"d2d4"), 5));
}

#[test]
fn tree_walk_marks_the_subtree() {
    let mut t = tree_open(&small_tree(&[], &[])).unwrap();
    tree_walk(&mut t, 1, false);
    assert_eq!(t.arr[0], 0b0110);
    tree_walk(&mut t, 3, true);
    assert_eq!(t.arr[0], 0b1110);
}

#[test]
fn queries() {
    let mut t = tree_open(&small_tree(&[], &[])).unwrap();
    let mut r = empty_result();
    query_result_clear(&mut r);
    assert!(tree_query(&mut t, &[], &mut r));
    assert_eq!(r.num_children, 2);
    assert_eq!((r.movs[0], r.sizes[0]), (mov_parse(b"e2e4"), 2));
    assert_eq!((r.movs[1], r.sizes[1]), (mov_parse(b"d2d4"), 1));
    let mut r = empty_result();
    query_result_clear(&mut r);
    assert!(tree_query(&mut t, &[mov_parse(b"e2e4")], &mut r));
    assert_eq!(r.num_children, 1);
    assert_eq!((r.movs[0], r.sizes[0]), (mov_parse(b"e7e5"), 1));
    query_result_clear(&mut r);
    assert!(!tree_query(&mut t, &[mov_parse(b"d2d4")], &mut r));
    assert!(!tree_query(&mut t, &[mov_parse(b"c2c4")], &mut r));
    assert_eq!(r.num_children, 0);
}

#[test]
fn queries_in_the_prolog() {
    let e3 = mov_parse(b"e2e3");
    let e6 = mov_parse(b"e7e6");
    let mut t = tree_open(&small_tree(&[e3, e6], &[])).unwrap();
    let mut r = empty_result();
    query_result_clear(&mut r);
    assert!(tree_query(&mut t, &[], &mut r));
    assert_eq!((r.num_children, r.movs[0], r.sizes[0]), (1, e3, 6));
    query_result_clear(&mut r);
    assert!(tree_query(&mut t, &[e3], &mut r));
    assert_eq!((r.num_children, r.movs[0], r.sizes[0]), (1, e6, 5));
    query_result_clear(&mut r);
    assert!(!tree_query(&mut t, &[e6], &mut r));
    assert!(tree_query(&mut t, &[e3, e6], &mut r));
    assert_eq!(r.num_children, 2);
    query_result_clear(&mut r);
    assert!(tree_query(&mut t, &[e3, e6, mov_parse(b"e2e4")], &mut r));
    assert_eq!((r.num_children, r.movs[0], r.sizes[0]), (1, mov_parse(b"e7e5"), 1));
}

#[test]
fn query_results_accumulate() {
    let mut r = empty_result();
    query_result_clear(&mut r);
    assert_eq!(r.num_children, 0);
    assert_eq!(r.movs[0], 0);
    query_result_add(&mut r, 10, 5);
    query_result_add(&mut r, 11, 1);
    query_result_add(&mut r, 10, u32::MAX);
    assert_eq!(r.num_children, 2);
    assert_eq!((r.movs[0], r.sizes[0]), (10, 4));
    assert_eq!((r.movs[1], r.sizes[1]), (11, 1));
    let before = r;
    query_result_sort(&mut r);
    assert_eq!(r.movs, before.movs);
    assert_eq!(r.sizes, before.sizes);
}

/// Root with children e2e4 (child d7d5, with child g1f3) and d2d4 (child
/// d7d5, a transposition to the node after e2e4 d7d5).
fn transposing_tree() -> Vec<u8> {
    let mut out = Vec::new();
    record(&mut out, 0x4000_0000 | 6, 0);
    record(&mut out, 0x4000_0000 | 4, mov_parse(b"e2e4"));
    record(&mut out, 0x4000_0000, mov_parse(b"d7d5"));
    record(&mut out, 0, mov_parse(b"g1f3"));
    record(&mut out, 0x4000_0000, mov_parse(b"d2d4"));
    record(&mut out, 0x8000_0000 | 2, mov_parse(b"d7d5"));
    out
}

#[test]
fn transpositions_are_counted_once() {
    let mut t = tree_open(&transposing_tree()).unwrap();
    assert_eq!(tree_mov(&t, mov_parse(b"d7d5"), Some(4)), Some(2));
    assert_eq!(tree_next_sibling(&t, 5), None);
    assert_eq!(tree_subtree_size(&mut t, 1), 3);
    assert_eq!(tree_subtree_size(&mut t, 4), 3);
    assert_eq!(tree_subtree_size(&mut t, 5), 2);
    let mut r = empty_result();
    query_result_clear(&mut r);
    assert!(tree_query(&mut t, &[], &mut r));
    assert_eq!(r.num_children, 2);
    assert_eq!((r.movs[0], r.sizes[0]), (mov_parse(b"e2e4"), 3));
    assert_eq!((r.movs[1], r.sizes[1]), (mov_parse(b"d2d4"), 3));
    query_result_clear(&mut r);
    assert!(tree_query(&mut t, &[mov_parse(b"d2d4"), mov_parse(b"d7d5")], &mut r));
    assert_eq!((r.num_children, r.movs[0], r.sizes[0]), (1, mov_parse(b"g1f3"), 1));
}

#[test]
fn walking_with_transpositions_marks_them() {
    let mut t = tree_open(&transposing_tree()).unwrap();
    tree_walk(&mut t, 4, true);
    assert_eq!(t.arr[0], 0b11_1100);
}

/// A root whose only child is a transposition that leads nowhere.
fn broken_tree() -> Vec<u8> {
    let mut out = Vec::new();
    record(&mut out, 0x4000_0000 | 2, 0);
    record(&mut out, 0x8000_0000, mov_parse(b"e2e4"));
    out
}

#[test]
fn checked_queries() {
    let mut t = tree_open(&small_tree(&[], &[])).unwrap();
    let mut r = empty_result();
    query_result_clear(&mut r);
    assert_eq!(tree_query_checked(&mut t, &[], &mut r), Some(true));
    assert_eq!((r.num_children, r.sizes[0], r.sizes[1]), (2, 2, 1));
    query_result_clear(&mut r);
    assert_eq!(tree_query_checked(&mut t, &[mov_parse(b"c2c4")], &mut r), Some(false));
    assert_eq!(r.num_children, 0);
    let mut b = tree_open(&broken_tree()).unwrap();
    assert_eq!(tree_query_checked(&mut b, &[], &mut r), None);
    assert_eq!(tree_query_checked(&mut b, &[mov_parse(b"e2e4")], &mut r), None);
    query_result_clear(&mut r);
    assert_eq!(tree_query_checked(&mut b, &[mov_parse(b"d2d4")], &mut r), Some(false));
}

#[test]
fn queries_in_the_prolog_leave_the_bitset() {
    let e3 = mov_parse(b"e2e3");
    let mut t = tree_open(&small_tree(&[e3], &[])).unwrap();
    t.arr[0] = 0b101;
    let mut r = empty_result();
    query_result_clear(&mut r);
    assert!(tree_query(&mut t, &[], &mut r));
    assert_eq!(t.arr[0], 0b101);
    // Counting the children leaves the marks of the last subtree counted.
    assert!(tree_query(&mut t, &[e3], &mut r));
    assert_eq!(t.arr[0], 0b1000);
    // With the sizes stored, nothing is counted and the bitset stays.
    t.arr[0] = 0b11;
    query_result_clear(&mut r);
    assert!(tree_query(&mut t, &[e3], &mut r));
    assert_eq!(t.arr[0], 0b11);
}

#[test]
fn asking_twice_gives_the_same_size() {
    let mut t = tree_open(&small_tree(&[], &[])).unwrap();
    assert_eq!(tree_subtree_size(&mut t, 1), 2);
    let arr = t.arr.clone();
    let entries = t.num_hash_entries;
    assert_eq!(tree_subtree_size(&mut t, 1), 2);
    assert_eq!(t.arr, arr);
    assert_eq!(t.num_hash_entries, entries);
}

#[test]
fn full_answers_refuse_new_moves() {
    let mut r = empty_result();
    query_result_clear(&mut r);
    for m in 0..256u16 {
        assert!(query_result_try_add(&mut r, m, 1));
    }
    assert_eq!(r.num_children, 256);
    let before = r;
    assert!(!query_result_try_add(&mut r, 300, 1));
    assert_eq!(r.num_children, before.num_children);
    assert_eq!(r.movs, before.movs);
    assert_eq!(r.sizes, before.sizes);
    assert!(query_result_try_add(&mut r, 5, 2));
    assert_eq!(r.sizes[5], 3);
}

#[test]
fn describing_a_tree() {
    let e3 = mov_parse(b"e2e3");
    let mut t = tree_open(&small_tree(&[e3], &[(1, 7)])).unwrap();
    let text = tree_debug(&t, false);
    assert_eq!(String::from_utf8(text).unwrap(), "tree size = 4 (0mb) \nprolog[0] = e2e3\n");
    assert!(tree_save_subtree_size(&mut t, 3, 0xffff_fff0));
    let (h1, h2, h3) = (compute_hash(1), compute_hash(2), compute_hash(3));
    let mut lines = vec![(h1, "<1, 7>"), (h2, "<2, 6>"), (h3, "<3, -16>")];
    lines.sort();
    let mut expected = String::from("tree size = 4 (0mb) \nprolog[0] = e2e3\n");
    for (h, l) in lines {
        expected.push_str(&format!("hashtable[{}] = {}\n", h, l));
    }
    assert_eq!(String::from_utf8(tree_debug(&t, true)).unwrap(), expected);
    let big = tree_open(&[0, 0, 0x20, 0]).unwrap();
    assert_eq!(
        String::from_utf8(tree_debug(&big, false)).unwrap(),
        "tree size = 2097152 (16mb) \n"
    );
}

#[test]
fn checked_steps() {
    let mut t = tree_open(&small_tree(&[], &[])).unwrap();
    assert_eq!(tree_lookup_checked(&t, 1), Some(0));
    assert_eq!(tree_lookup_checked(&t, 9), Some(0));
    assert_eq!(tree_mov_checked(&t, mov_parse(b"e2e4"), Some(0)), Some(Some(1)));
    assert_eq!(tree_mov_checked(&t, mov_parse(b"c2c4"), Some(0)), Some(None));
    assert_eq!(tree_mov_checked(&t, mov_parse(b"e2e4"), Some(9)), Some(None));
    assert_eq!(tree_subtree_size_checked(&mut t, 1), Some(2));
    // Node 600 lies past the 512 bits of the bitset: the walk fails.
    assert_eq!(tree_subtree_size_checked(&mut t, 600), None);
    assert_eq!(tree_save_checked(&mut t, 3, 4), Some(true));
    assert_eq!(tree_lookup_checked(&t, 3), Some(4));
    assert_eq!(tree_save_checked(&mut t, 9, 4), Some(true));
    assert_eq!(tree_lookup_checked(&t, 9), Some(4));
    t.arr[0] = 0;
    assert!(tree_walk_checked(&mut t, 1, false));
    assert_eq!(t.arr[0], 0b0110);
    assert!(!tree_walk_checked(&mut t, 600, false));
    let mut r = empty_result();
    query_result_clear(&mut r);
    assert_eq!(tree_query_children_checked(&mut t, 2, &mut r), Some(false));
    assert_eq!(tree_query_children_checked(&mut t, 0, &mut r), Some(true));
    assert_eq!((r.num_children, r.sizes[0], r.sizes[1]), (2, 2, 4));
    let mut b = tree_open(&broken_tree()).unwrap();
    assert_eq!(tree_lookup_checked(&b, 1), None);
    assert_eq!(tree_mov_checked(&b, mov_parse(b"e2e4"), Some(0)), None);
    assert_eq!(tree_subtree_size_checked(&mut b, 1), None);
    assert_eq!(tree_save_checked(&mut b, 1, 3), None);
    assert!(!tree_walk_checked(&mut b, 1, false));
    query_result_clear(&mut r);
    assert_eq!(tree_query_children_checked(&mut b, 0, &mut r), None);
}

#[test]
fn nodes_past_the_count_are_walked() {
    let mut t = tree_open(&small_tree(&[], &[])).unwrap();
    assert_eq!(t.arr.len(), 8);
    // Node 9 has a bit in the word the count clears: it counts itself.
    assert_eq!(tree_subtree_size(&mut t, 9), 1);
    // Node 100 has its bit past that word: it is marked but not counted,
    // and its mark stays through later counts.
    assert_eq!(tree_subtree_size(&mut t, 100), 0);
    assert_eq!(t.arr[1], 1 << 36);
    assert_eq!(tree_subtree_size(&mut t, 1), 2);
    assert_eq!(t.arr[0], 0b0110);
    assert_eq!(t.arr[1], 1 << 36);
}

#[test]
fn answered_false_changes_nothing() {
    let mut t = tree_open(&small_tree(&[], &[])).unwrap();
    t.arr[0] = 0b1001;
    let mut r = empty_result();
    query_result_clear(&mut r);
    assert!(tree_query_children(&mut t, 1, &mut r));
    let (movs, sizes, n, arr) = (r.movs, r.sizes, r.num_children, t.arr.clone());
    assert!(!tree_query(&mut t, &[mov_parse(b"c2c4")], &mut r));
    assert!(!tree_query_children(&mut t, 2, &mut r));
    assert_eq!((r.movs, r.sizes, r.num_children), (movs, sizes, n));
    assert_eq!(t.arr, arr);
}
