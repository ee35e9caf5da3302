//! The opening tree: a file of 8-byte node records in depth-first order,
//! each with a move and a word of links (transposition, child, sibling),
//! with a hash table from node index to the size of the subtree below it.
//!
//! A node is named by its index: 0 is the root, `k` the `k`-th record after
//! it. A link to index 0 is no link. Every 32-bit index names a record: the
//! records of the file go on past the node count (into the stored sizes),
//! and a record past the end of the file reads as zero.
use vstd::prelude::*;
use crate::bits::{bb_view, has, bb_set, bb_test, lemma_view_zero};
use crate::query::{query_result, QueryView, query_wf, add_model, query_result_try_add};
use crate::decimal::{dec_text, signed_text, push_decimal, push_signed, push_bytes};
use crate::moves::{uci_text, mov_uci};

verus! {

/// The mask that reduces a hash to a bucket of the table.
pub const HASHTABLE_MASK: u32 = 0xfffff;

/// The number of buckets of the table.
pub const TABLE_SIZE: usize = 0x100000;

/// The number of node indices: every 32-bit index names a node.
pub const NODE_SPACE: u64 = 0x1_0000_0000;

/// The link field value that stands for "no link".
pub const NO_LINK: u32 = 0x3fff_ffff;

/// A node record: a word of flags and link, and a move.
#[derive(Clone, Copy)]
pub struct node {
    pub data: u32,
    pub mov: u16,
}

/// A bucket of the table: a node index (0 for an empty bucket) and the size
/// of that node's subtree.
#[derive(Clone, Copy)]
pub struct hash_entry {
    pub index: u32,
    pub size: u32,
}

/// An opened tree: the moves leading to the root, the node records held
/// (the root first; those of a file cut short stop early), the tree size,
/// the table of subtree sizes with its entry count, and a bitset of node
/// indices used while counting a subtree.
pub struct tree {
    pub prolog_len: u32,
    pub prolog: Vec<u16>,
    pub nodes: Vec<node>,
    pub size: u32,
    pub hashtable: Vec<hash_entry>,
    pub num_hash_entries: usize,
    pub arr: Vec<u64>,
}

/// What a tree holds, as mathematical values: a record for each of the
/// `size` nodes, those past the records held (past the end of the file)
/// reading as zero, and how many records are held.
#[verifier::ext_equal]
pub struct TreeView {
    pub prolog_len: u32,
    pub prolog: Seq<u16>,
    pub nodes: Seq<node>,
    pub stored_records: int,
    pub size: u32,
    pub table: Seq<hash_entry>,
    pub entries: int,
    pub arr: Seq<u64>,
}

impl View for tree {
    type V = TreeView;

    open spec fn view(&self) -> TreeView {
        TreeView {
            prolog_len: self.prolog_len,
            prolog: self.prolog@,
            nodes: Seq::new(
                NODE_SPACE as nat,
                |j: int| if j < self.nodes.len() { self.nodes@[j] } else { zero_record() },
            ),
            stored_records: self.nodes.len() as int,
            size: self.size,
            table: self.hashtable@,
            entries: self.num_hash_entries as int,
            arr: self.arr@,
        }
    }
}

/// A record of zero bytes: a plain node without link or move.
pub open spec fn zero_record() -> node {
    node { data: 0, mov: 0 }
}

/// The number of words of the bitset of a tree of `size` nodes: whole
/// words in `size / 8 + 64` bytes.
pub open spec fn words_for(size: int) -> int {
    (size / 8 + 64) / 8
}

/// The number of words of the bitset that counting a subtree clears and
/// counts: a bit for each of the `size` nodes, rounded up to whole words.
pub open spec fn clear_words(size: int) -> int {
    (size + 63) / 64
}

/// The shape of an opened tree: the prolog of its stated length, a record
/// for every node index (zero past the records held), a table of
/// `TABLE_SIZE` buckets and a bitset of `words_for(size)` words.
pub open spec fn tree_wf(t: TreeView) -> bool {
    &&& t.prolog.len() == t.prolog_len
    &&& t.prolog_len <= 0xffff
    &&& t.nodes.len() == NODE_SPACE
    &&& 1 <= t.stored_records < NODE_SPACE
    &&& forall|j: int| t.stored_records <= j < NODE_SPACE ==> #[trigger] t.nodes[j] == zero_record()
    &&& 1 <= t.size < 0x4000_0000
    &&& t.table.len() == TABLE_SIZE
    &&& t.arr.len() == words_for(t.size as int)
    &&& 0 <= t.entries <= usize::MAX
}

// ---- node records ----

/// Bit 31: the node stands for a transposition, linking to another node.
pub open spec fn is_trans(n: node) -> bool {
    n.data >= 0x8000_0000
}

/// Bit 30: the node is followed by a sibling (or, for a plain node with a
/// link, by its first child).
pub open spec fn flag30(n: node) -> bool {
    (n.data / 0x4000_0000) % 2 == 1
}

/// Bits 0 to 29: the link.
pub open spec fn link_of(n: node) -> u32 {
    (n.data % 0x4000_0000) as u32
}

/// A plain node with a link and bit 30 has children.
pub open spec fn has_child(n: node) -> bool {
    !is_trans(n) && flag30(n) && link_of(n) != NO_LINK
}

/// The move of a record: the codes `0xfedc` and `0x0edc` stand for no
/// move; otherwise a top nibble of 7 or above 8 stands for its complement
/// to 15, and the top bit is dropped.
pub open spec fn move_of_record(m: u16) -> u16 {
    if m == 0xfedc || m == 0x0edc {
        0
    } else {
        let k = m / 4096;
        let k2: int = if k > 8 || k == 7 { 15 - k } else { k as int };
        ((k2 % 8) * 4096 + m % 4096) as u16
    }
}

/// The move of a node (`node_mov`).
pub fn node_mov(node: &node) -> (r: u16)
    ensures
        r == move_of_record(node.mov),
{
    let m0 = node.mov;
    if m0 == 0xfedc || m0 == 0x0edc {
        return 0;
    }
    let k = m0 >> 12;
    assert(k == m0 / 4096) by (bit_vector)
        requires
            k == m0 >> 12u16,
    ;
    if k > 8 || k == 7 {
        let m1 = m0 ^ 0xf000;
        assert(m1 & 0x7fffu16 == ((15 - m0 / 4096) % 8) * 4096 + m0 % 4096)
            by (bit_vector)
            requires
                m1 == m0 ^ 0xf000u16,
        ;
        m1 & 0x7fff
    } else {
        assert(m0 & 0x7fffu16 == ((m0 / 4096) % 8) * 4096 + m0 % 4096) by (bit_vector);
        m0 & 0x7fff
    }
}

/// Whether the node is a transposition (`node_is_trans`).
pub fn node_is_trans(node: &node) -> (r: bool)
    ensures
        r == is_trans(*node),
{
    let d = node.data;
    assert((d & (1u32 << 31u32) == 1u32 << 31u32) == (d >= 0x8000_0000u32)) by (bit_vector);
    d & (1u32 << 31) == 1u32 << 31
}

/// Whether the node is a transposition followed by a sibling
/// (`node_trans_and_sibling`).
pub fn node_trans_and_sibling(node: &node) -> (r: bool)
    ensures
        r == (is_trans(*node) && flag30(*node)),
{
    let d = node.data;
    assert((d & (3u32 << 30u32) == 3u32 << 30u32) == (d >= 0x8000_0000u32 && (d / 0x4000_0000u32)
        % 2 == 1)) by (bit_vector);
    d & (3u32 << 30) == 3u32 << 30
}

/// The link of a node (`node_trans_index`).
pub fn node_trans_index(node: &node) -> (r: u32)
    ensures
        r == link_of(*node),
        r <= NO_LINK,
{
    let d = node.data;
    assert(d & 0x3fff_ffffu32 == d % 0x4000_0000u32) by (bit_vector);
    d & 0x3fff_ffff
}

/// Whether the node has children (`node_has_child`).
pub fn node_has_child(node: &node) -> (r: bool)
    ensures
        r == has_child(*node),
{
    let d = node.data;
    assert((d & (3u32 << 30u32) == 1u32 << 30u32) == (d < 0x8000_0000u32 && (d / 0x4000_0000u32) % 2
        == 1)) by (bit_vector);
    assert(d & 0x3fff_ffffu32 == d % 0x4000_0000u32) by (bit_vector);
    d & (3u32 << 30) == 1u32 << 30 && d & 0x3fff_ffff != 0x3fff_ffff
}

// ---- the bitset ----

/// The set of indices whose bits are set in a bitset of words.
pub open spec fn bitset_view(a: Seq<u64>) -> Set<int> {
    Set::new(|n: int| 0 <= n < 64 * a.len() && has(a[n / 64], n % 64))
}

/// Whether bit `n` is set (`arr_get_bit`).
pub fn arr_get_bit(arr: &[u64], n: usize) -> (r: bool)
    requires
        n / 64 < arr.len(),
    ensures
        r == bitset_view(arr@).contains(n as int),
{
    assert((n >> 6usize) == n / 64) by (bit_vector);
    assert((n & 0x3fusize) == n % 64) by (bit_vector);
    let w = arr[n >> 6];
    bb_test(w, (n & 0x3f) as u8)
}

/// Sets bit `n` (`arr_set_bit`).
pub fn arr_set_bit(arr: &mut Vec<u64>, n: usize)
    requires
        n / 64 < old(arr).len(),
    ensures
        final(arr).len() == old(arr).len(),
        bitset_view(final(arr)@) == bitset_view(old(arr)@).insert(n as int),
{
    assert((n >> 6usize) == n / 64) by (bit_vector);
    assert((n & 0x3fusize) == n % 64) by (bit_vector);
    let i = n >> 6;
    let w = arr[i];
    let w2 = bb_set(w, (n & 0x3f) as u8);
    let ghost a0 = arr@;
    arr.set(i, w2);
    assert forall|m: int| bitset_view(arr@).contains(m) <==> bitset_view(a0).insert(n as int).contains(m) by {
        if 0 <= m < 64 * a0.len() && m / 64 == i as int {
            assert(bb_view(w2).contains(m % 64) <==> bb_view(w).insert((n % 64) as int).contains(m % 64));
        }
    }
    assert(bitset_view(arr@) =~= bitset_view(a0).insert(n as int));
}

// ---- the hash table ----

/// The bucket where the search for node index `n` starts (`compute_hash`).
pub open spec fn hash_of(n: u32) -> u32 {
    let k0 = n.wrapping_mul(n);
    let k1 = k0.wrapping_add((n >> 10u32) ^ (!n & 0x3ffu32));
    let k2 = k1.wrapping_add(((n >> 5u32) ^ (!n & 0x7fffu32)) << 5u32);
    let k3 = k2.wrapping_add(((!n >> 15u32) ^ (n & 0x1fu32)) << 5u32);
    let k4 = k3.wrapping_add((n >> 4u32) & 0x55aa55u32);
    let k5 = k4.wrapping_add((!n >> 8u32) & 0xaa55aau32);
    k5 & HASHTABLE_MASK
}

/// The bucket where the search for node index `n` starts (`compute_hash`).
pub fn compute_hash(n: u32) -> (r: u32)
    ensures
        r == hash_of(n),
        r < TABLE_SIZE,
{
    let mut k: u32 = n.wrapping_mul(n);
    k = k.wrapping_add((n >> 10) ^ (!n & 0x3ff));
    k = k.wrapping_add(((n >> 5) ^ (!n & 0x7fff)) << 5);
    k = k.wrapping_add(((!n >> 15) ^ (n & 0x1f)) << 5);
    k = k.wrapping_add((n >> 4) & 0x55aa55);
    k = k.wrapping_add((!n >> 8) & 0xaa55aa);
    assert(k & 0xfffffu32 < 0x100000u32) by (bit_vector);
    k & HASHTABLE_MASK
}

/// The bucket after `b`, wrapping around.
pub open spec fn next_bucket(b: int) -> int {
    (b + 1) % (TABLE_SIZE as int)
}

/// The first bucket at or after `b` (at most `steps` of them) that is empty
/// or holds `key`; `None` when every one of them holds another index.
pub open spec fn probe(table: Seq<hash_entry>, key: u32, b: int, steps: nat) -> Option<int>
    decreases steps,
{
    if steps == 0 {
        None
    } else if table[b].index == 0 || table[b].index == key {
        Some(b)
    } else {
        probe(table, key, next_bucket(b), (steps - 1) as nat)
    }
}

/// The first empty bucket at or after `b` (at most `steps` of them).
pub open spec fn probe_empty(table: Seq<hash_entry>, b: int, steps: nat) -> Option<int>
    decreases steps,
{
    if steps == 0 {
        None
    } else if table[b].index == 0 {
        Some(b)
    } else {
        probe_empty(table, next_bucket(b), (steps - 1) as nat)
    }
}

/// The size stored for node index `key`: 0 when the search reaches an empty
/// bucket first; `None` when the search would go on for ever (a full table
/// without `key`).
pub open spec fn table_lookup(table: Seq<hash_entry>, key: u32) -> Option<u32> {
    match probe(table, key, hash_of(key) as int, TABLE_SIZE as nat) {
        Some(b) => Some(if table[b].index == 0 { 0 } else { table[b].size }),
        None => None,
    }
}

/// The search for `key` in the table.
fn find_bucket(table: &Vec<hash_entry>, key: u32) -> (r: Option<u32>)
    requires
        table.len() == TABLE_SIZE,
    ensures
        r matches Some(b) ==> probe(table@, key, hash_of(key) as int, TABLE_SIZE as nat) == Some(b as int)
            && b < TABLE_SIZE,
        r is None ==> probe(table@, key, hash_of(key) as int, TABLE_SIZE as nat) is None,
{
    let mut bucket = compute_hash(key);
    let mut steps: usize = 0;
    while steps < TABLE_SIZE
        invariant
            table.len() == TABLE_SIZE,
            steps <= TABLE_SIZE,
            bucket < TABLE_SIZE,
            probe(table@, key, hash_of(key) as int, TABLE_SIZE as nat) == probe(
                table@,
                key,
                bucket as int,
                (TABLE_SIZE - steps) as nat,
            ),
        decreases TABLE_SIZE - steps,
    {
        let e = table[bucket as usize];
        let ghost old_bucket = bucket;
        if e.index == 0 || e.index == key {
            return Some(bucket);
        }
        let b1: u32 = bucket + 1;
        assert(b1 & 0xfffffu32 == b1 % 0x100000) by (bit_vector)
            requires
                b1 <= 0x100000u32,
        ;
        bucket = b1 & HASHTABLE_MASK;
        assert(bucket == next_bucket(old_bucket as int));
        steps = steps + 1;
    }
    None
}

/// The search for an empty bucket.
fn find_empty_bucket(table: &Vec<hash_entry>, start: u32) -> (r: Option<u32>)
    requires
        table.len() == TABLE_SIZE,
        start < TABLE_SIZE,
    ensures
        r matches Some(b) ==> probe_empty(table@, start as int, TABLE_SIZE as nat) == Some(b as int)
            && b < TABLE_SIZE && table@[b as int].index == 0,
        r is None ==> probe_empty(table@, start as int, TABLE_SIZE as nat) is None,
{
    let mut bucket = start;
    let mut steps: usize = 0;
    while steps < TABLE_SIZE
        invariant
            table.len() == TABLE_SIZE,
            steps <= TABLE_SIZE,
            bucket < TABLE_SIZE,
            probe_empty(table@, start as int, TABLE_SIZE as nat) == probe_empty(
                table@,
                bucket as int,
                (TABLE_SIZE - steps) as nat,
            ),
        decreases TABLE_SIZE - steps,
    {
        let ghost old_bucket = bucket;
        if table[bucket as usize].index == 0 {
            return Some(bucket);
        }
        let b1: u32 = bucket + 1;
        assert(b1 & 0xfffffu32 == b1 % 0x100000) by (bit_vector)
            requires
                b1 <= 0x100000u32,
        ;
        bucket = b1 & HASHTABLE_MASK;
        assert(bucket == next_bucket(old_bucket as int));
        steps = steps + 1;
    }
    None
}


// ---- links between nodes ----

/// A link field as a node index: 0 is no link.
pub open spec fn index_link(k: u32) -> Option<int> {
    if k == 0 { None } else { Some(k as int) }
}

/// A link returned by a function, as an optional index.
pub open spec fn link_view(o: Option<u32>) -> Option<int> {
    match o {
        Some(k) => Some(k as int),
        None => None,
    }
}

/// The node a transposition stands for.
pub open spec fn trans_link(t: TreeView, i: int) -> Option<int> {
    index_link(link_of(t.nodes[i]))
}

/// The next sibling of a plain node: its link if it has one, else the next
/// record if bit 30 is set, else none.
pub open spec fn trans_ns_link(t: TreeView, i: int) -> Option<int> {
    let n = t.nodes[i];
    if link_of(n) != NO_LINK {
        index_link(link_of(n))
    } else if flag30(n) {
        Some(i + 1)
    } else {
        None
    }
}

/// The next sibling of a node: the next record for a transposition with bit
/// 30, none for another transposition, as `trans_ns_link` for a plain node.
pub open spec fn sibling_link(t: TreeView, i: int) -> Option<int> {
    let n = t.nodes[i];
    if is_trans(n) && flag30(n) {
        Some(i + 1)
    } else if is_trans(n) {
        None
    } else {
        trans_ns_link(t, i)
    }
}

/// The record of node `i`; zero past the records held.
pub fn node_at(tree: &tree, i: u32) -> (r: node)
    requires
        tree_wf(tree@),
    ensures
        r == tree@.nodes[i as int],
{
    if (i as usize) < tree.nodes.len() {
        tree.nodes[i as usize]
    } else {
        node { data: 0, mov: 0 }
    }
}

/// The record after `node` (`tree_next`); the first child of a node with
/// children.
pub fn tree_next(tree: &tree, node: u32) -> (r: u32)
    requires
        node < u32::MAX,
    ensures
        r == node + 1,
{
    node + 1
}

/// The node of a link field; none for 0 (`tree_from_index`).
pub fn tree_from_index(tree: &tree, index: u32) -> (r: Option<u32>)
    ensures
        link_view(r) == index_link(index),
{
    if index == 0 { None } else { Some(index) }
}

/// The node a transposition stands for (`tree_trans`).
pub fn tree_trans(tree: &tree, node: u32) -> (r: Option<u32>)
    requires
        tree_wf(tree@),
    ensures
        link_view(r) == trans_link(tree@, node as int),
{
    tree_from_index(tree, node_trans_index(&node_at(tree, node)))
}

/// The next sibling of a plain node (`tree_trans_ns`).
pub fn tree_trans_ns(tree: &tree, node: u32) -> (r: Option<u32>)
    requires
        tree_wf(tree@),
    ensures
        link_view(r) == trans_ns_link(tree@, node as int),
{
    let n = &node_at(tree, node);
    let link = node_trans_index(n);
    let d = n.data;
    assert((d & (1u32 << 30u32) == 1u32 << 30u32) == ((d / 0x4000_0000u32) % 2 == 1)) by (bit_vector);
    if link != NO_LINK {
        tree_from_index(tree, link)
    } else if d & (1u32 << 30) == 1u32 << 30 {
        assert(node < u32::MAX) by {
            if node == u32::MAX {
                assert(tree@.nodes[node as int] == zero_record());
            }
        }
        Some(tree_next(tree, node))
    } else {
        None
    }
}

/// The next sibling of a node (`tree_next_sibling`).
pub fn tree_next_sibling(tree: &tree, node: u32) -> (r: Option<u32>)
    requires
        tree_wf(tree@),
    ensures
        link_view(r) == sibling_link(tree@, node as int),
{
    let n = &node_at(tree, node);
    if node_trans_and_sibling(n) {
        assert(node < u32::MAX) by {
            if node == u32::MAX {
                assert(tree@.nodes[node as int] == zero_record());
            }
        }
        Some(tree_next(tree, node))
    } else if node_is_trans(n) {
        None
    } else {
        tree_trans_ns(tree, node)
    }
}

/// The plain node reached from `i` by following transpositions, at most
/// `fuel` of them; `None` when a link is missing (it would be followed to
/// no node), leads outside the 32-bit indices, or the chain is longer (it
/// then loops).
pub open spec fn resolve(t: TreeView, i: int, fuel: nat) -> Option<int>
    decreases fuel,
{
    if !(0 <= i < t.nodes.len()) {
        None
    } else if !is_trans(t.nodes[i]) {
        Some(i)
    } else if fuel == 0 {
        None
    } else {
        match trans_link(t, i) {
            None => None,
            Some(k) => resolve(t, k, (fuel - 1) as nat),
        }
    }
}

/// The plain node that a node stands for.
pub open spec fn resolved(t: TreeView, i: int) -> Option<int> {
    resolve(t, i, t.nodes.len() as nat)
}

/// Follows transpositions from `node` to the plain node it stands for.
fn tree_resolve(tree: &tree, node: u32) -> (r: Option<u32>)
    requires
        tree_wf(tree@),
    ensures
        link_view(r) == resolved(tree@, node as int),
        r matches Some(k) ==> !is_trans(tree@.nodes[k as int]),
{
    let mut cur = node;
    let mut fuel: u64 = NODE_SPACE;
    loop
        invariant
            tree_wf(tree@),
            fuel <= NODE_SPACE,
            resolved(tree@, node as int) == resolve(tree@, cur as int, fuel as nat),
        decreases fuel,
    {
        if !node_is_trans(&node_at(tree, cur)) {
            return Some(cur);
        }
        if fuel == 0 {
            return None;
        }
        match tree_trans(tree, cur) {
            None => {
                return None;
            },
            Some(k) => {
                cur = k;
                fuel = fuel - 1;
            },
        }
    }
}

// ---- subtree sizes ----

/// The greatest number of entries the table takes (`HASHTABLE_MASK / 8`).
pub const MAX_HASH_ENTRIES: usize = 0x1ffff;

/// The subtree size stored for a node: `None` when the lookup would crash
/// or loop (the node leads nowhere, or the table is full without it).
pub open spec fn lookup_model(t: TreeView, i: int) -> Option<u32> {
    match resolved(t, i) {
        None => None,
        Some(r) => table_lookup(t.table, r as u32),
    }
}

/// The subtree size stored for a node (0 if none is), for any node:
/// `None` when the lookup cannot be done (the node leads nowhere, or the
/// table is full without it).
pub fn tree_lookup_checked(tree: &tree, node: u32) -> (r: Option<u32>)
    requires
        tree_wf(tree@),
    ensures
        r == lookup_model(tree@, node as int),
{
    match tree_resolve(tree, node) {
        None => None,
        Some(r) => match find_bucket(&tree.hashtable, r) {
            Some(b) => {
                let e = tree.hashtable[b as usize];
                Some(if e.index == 0 { 0 } else { e.size })
            },
            None => None,
        },
    }
}

/// The subtree size stored for a node, 0 if none is (`tree_lookup_subtree_size`).
pub fn tree_lookup_subtree_size(tree: &tree, node: u32) -> (r: u32)
    requires
        tree_wf(tree@),
        lookup_model(tree@, node as int) is Some,
    ensures
        Some(r) == lookup_model(tree@, node as int),
{
    tree_lookup_checked(tree, node).unwrap()
}

/// One less, but not below 0.
pub open spec fn minus_one(size: u32) -> u32 {
    if size > 0 { (size - 1) as u32 } else { 0 }
}

/// Stores a subtree size: refused (`false`) once the table holds
/// `MAX_HASH_ENTRIES` entries; otherwise the size goes into the first empty
/// bucket from the node's hash, and when the node has a single child the
/// child is stored too, one smaller. `None` when storing cannot be done: a
/// link leads nowhere, the child would lie past the 32-bit indices, or no
/// bucket is empty (the search would go on for ever).
pub open spec fn save_model(t: TreeView, i: int, size: u32) -> Option<(TreeView, bool)>
    decreases 0x20000 - t.entries,
{
    if t.entries > MAX_HASH_ENTRIES {
        Some((t, false))
    } else {
        match resolved(t, i) {
            None => None,
            Some(r) => match probe_empty(t.table, hash_of(r as u32) as int, TABLE_SIZE as nat) {
                None => None,
                Some(b) => {
                    let t1 = TreeView {
                        table: t.table.update(b, hash_entry { index: r as u32, size }),
                        entries: t.entries + 1,
                        ..t
                    };
                    if !has_child(t.nodes[r]) {
                        Some((t1, true))
                    } else if !(r + 1 < t.nodes.len()) {
                        None
                    } else if sibling_link(t1, r + 1) is None {
                        save_model(t1, r + 1, minus_one(size))
                    } else {
                        Some((t1, true))
                    }
                },
            },
        }
    }
}

/// Stores a subtree size as `save_model` says, for any node: `None` when
/// storing cannot be done (the table may then hold some of the sizes).
pub fn tree_save_checked(tree: &mut tree, node: u32, size: u32) -> (r: Option<bool>)
    requires
        tree_wf(old(tree)@),
    ensures
        tree_wf(final(tree)@),
        final(tree)@.nodes == old(tree)@.nodes,
        final(tree).arr@ == old(tree).arr@,
        match save_model(old(tree)@, node as int, size) {
            Some((t2, ok)) => r == Some(ok) && final(tree)@ == t2,
            None => r is None,
        },
    decreases 0x20000 - old(tree).num_hash_entries,
{
    if tree.num_hash_entries > MAX_HASH_ENTRIES {
        return Some(false);
    }
    let r = match tree_resolve(tree, node) {
        None => {
            return None;
        },
        Some(r) => r,
    };
    let h = compute_hash(r);
    let b = match find_empty_bucket(&tree.hashtable, h) {
        None => {
            return None;
        },
        Some(b) => b,
    };
    let ghost t0 = tree@;
    tree.hashtable.set(b as usize, hash_entry { index: r, size });
    tree.num_hash_entries = tree.num_hash_entries + 1;
    assert(tree@ =~~= TreeView {
        table: t0.table.update(b as int, hash_entry { index: r, size }),
        entries: t0.entries + 1,
        ..t0
    });
    if !node_has_child(&node_at(tree, r)) {
        return Some(true);
    }
    assert(r < u32::MAX) by {
        if r == u32::MAX {
            assert(tree@.nodes[r as int] == zero_record());
        }
    }
    let child = tree_next(tree, r);
    if tree_next_sibling(tree, child).is_none() {
        let s = if size > 0 { size - 1 } else { 0 };
        tree_save_checked(tree, child, s)
    } else {
        Some(true)
    }
}

/// Stores the size of the subtree below a node (`tree_save_subtree_size`).
pub fn tree_save_subtree_size(tree: &mut tree, node: u32, size: u32) -> (r: bool)
    requires
        tree_wf(old(tree)@),
        save_model(old(tree)@, node as int, size) is Some,
    ensures
        tree_wf(final(tree)@),
        save_model(old(tree)@, node as int, size) == Some((final(tree)@, r)),
{
    tree_save_checked(tree, node, size).unwrap()
}

// ---- what the table keeps ----

/// Table `b` keeps every entry of table `a`, and differs only in buckets
/// that were empty in `a`.
pub open spec fn table_extends(a: Seq<hash_entry>, b: Seq<hash_entry>) -> bool {
    &&& a.len() == b.len()
    &&& forall|k: int| 0 <= k < a.len() && #[trigger] a[k].index != 0 ==> b[k] == a[k]
}

/// The search for `key` finds a bucket holding it.
pub open spec fn stored(table: Seq<hash_entry>, key: u32) -> bool {
    probe(table, key, hash_of(key) as int, TABLE_SIZE as nat) matches Some(b) && table[b].index == key
}

proof fn lemma_hash_range(n: u32)
    ensures
        hash_of(n) < TABLE_SIZE,
{
    let k0 = n.wrapping_mul(n);
    let k1 = k0.wrapping_add((n >> 10u32) ^ (!n & 0x3ffu32));
    let k2 = k1.wrapping_add(((n >> 5u32) ^ (!n & 0x7fffu32)) << 5u32);
    let k3 = k2.wrapping_add(((!n >> 15u32) ^ (n & 0x1fu32)) << 5u32);
    let k4 = k3.wrapping_add((n >> 4u32) & 0x55aa55u32);
    let k5 = k4.wrapping_add((!n >> 8u32) & 0xaa55aau32);
    assert(k5 & 0xfffffu32 < 0x100000u32) by (bit_vector);
}

proof fn lemma_probe_empty_range(table: Seq<hash_entry>, b: int, n: nat)
    requires
        table.len() == TABLE_SIZE,
        0 <= b < TABLE_SIZE,
    ensures
        probe_empty(table, b, n) matches Some(e) ==> 0 <= e < TABLE_SIZE && table[e].index == 0,
    decreases n,
{
    if n > 0 && table[b].index != 0 {
        lemma_probe_empty_range(table, next_bucket(b), (n - 1) as nat);
    }
}

/// When the search for `key` does not find it, it stops where the search
/// for an empty bucket stops.
proof fn lemma_probe_missing(table: Seq<hash_entry>, key: u32, b: int, n: nat)
    requires
        table.len() == TABLE_SIZE,
        0 <= b < TABLE_SIZE,
        !(probe(table, key, b, n) matches Some(e) && table[e].index == key),
    ensures
        probe_empty(table, b, n) == probe(table, key, b, n),
    decreases n,
{
    if n > 0 && table[b].index != 0 && table[b].index != key {
        lemma_probe_missing(table, key, next_bucket(b), (n - 1) as nat);
    }
}

/// Writing `key` into the empty bucket where its search stops makes the
/// search stop there again.
proof fn lemma_probe_after_write(table: Seq<hash_entry>, key: u32, size: u32, e: int, b: int, n: nat)
    requires
        table.len() == TABLE_SIZE,
        0 <= b < TABLE_SIZE,
        0 <= e < TABLE_SIZE,
        key != 0,
        probe(table, key, b, n) == Some(e),
        table[e].index == 0,
    ensures
        probe(table.update(e, hash_entry { index: key, size }), key, b, n) == Some(e),
    decreases n,
{
    if b != e {
        lemma_probe_after_write(table, key, size, e, next_bucket(b), (n - 1) as nat);
    }
}

/// A key found in a table is found, in the same bucket, in every table
/// that extends it.
proof fn lemma_probe_extends(a: Seq<hash_entry>, t: Seq<hash_entry>, key: u32, e: int, b: int, n: nat)
    requires
        a.len() == TABLE_SIZE,
        table_extends(a, t),
        0 <= b < TABLE_SIZE,
        0 <= e < TABLE_SIZE,
        key != 0,
        probe(a, key, b, n) == Some(e),
        a[e].index == key,
    ensures
        probe(t, key, b, n) == Some(e),
        t[e] == a[e],
    decreases n,
{
    if b != e {
        assert(a[b].index != 0);
        lemma_probe_extends(a, t, key, e, next_bucket(b), (n - 1) as nat);
    }
}

/// Storing subtree sizes only fills empty buckets: every size stored before
/// stays, and the nodes, the prolog and the bitset stay as they are.
pub proof fn lemma_save_extends(t: TreeView, i: int, size: u32)
    requires
        tree_wf(t),
        save_model(t, i, size) is Some,
    ensures
        table_extends(t.table, save_model(t, i, size).unwrap().0.table),
        save_model(t, i, size).unwrap().0.nodes == t.nodes,
        save_model(t, i, size).unwrap().0.arr == t.arr,
        tree_wf(save_model(t, i, size).unwrap().0),
    decreases 0x20000 - t.entries,
{
    if t.entries <= MAX_HASH_ENTRIES {
        let r = resolved(t, i)->0;
        let h = hash_of(r as u32) as int;
        lemma_hash_range(r as u32);
        let b = probe_empty(t.table, h, TABLE_SIZE as nat)->0;
        lemma_probe_empty_range(t.table, h, TABLE_SIZE as nat);
        let t1 = TreeView {
            table: t.table.update(b, hash_entry { index: r as u32, size }),
            entries: t.entries + 1,
            ..t
        };
        assert(table_extends(t.table, t1.table));
        if has_child(t.nodes[r]) && r + 1 < t.nodes.len() && sibling_link(t1, r + 1) is None {
            lemma_save_extends(t1, r + 1, minus_one(size));
            let t2 = save_model(t1, r + 1, minus_one(size)).unwrap().0;
            assert forall|k: int| 0 <= k < t.table.len() && #[trigger] t.table[k].index != 0 implies t2.table[k]
                == t.table[k] by {
                assert(t1.table[k] == t.table[k]);
                assert(t1.table[k].index != 0);
            }
        }
    }
}

/// What is stored is read back: once a node's subtree size has been stored
/// in a table that held no size for it and had room, looking the node up
/// gives that size.
pub proof fn lemma_lookup_after_save(t: TreeView, i: int, size: u32)
    requires
        tree_wf(t),
        t.entries <= MAX_HASH_ENTRIES,
        save_model(t, i, size) is Some,
        resolved(t, i) matches Some(r) && r != 0 && !stored(t.table, r as u32),
    ensures
        lookup_model(save_model(t, i, size).unwrap().0, i) == Some(size),
{
    let r = resolved(t, i)->0;
    let key = r as u32;
    let h = hash_of(key) as int;
    lemma_resolve_range(t, i, t.nodes.len() as nat);
    lemma_hash_range(key);
    lemma_probe_missing(t.table, key, h, TABLE_SIZE as nat);
    let b = probe_empty(t.table, h, TABLE_SIZE as nat)->0;
    lemma_probe_empty_range(t.table, h, TABLE_SIZE as nat);
    let t1 = TreeView {
        table: t.table.update(b, hash_entry { index: key, size }),
        entries: t.entries + 1,
        ..t
    };
    lemma_probe_after_write(t.table, key, size, b, h, TABLE_SIZE as nat);
    let t2 = save_model(t, i, size).unwrap().0;
    if has_child(t.nodes[r]) && r + 1 < t.nodes.len() && sibling_link(t1, r + 1) is None {
        lemma_save_extends(t1, r + 1, minus_one(size));
        lemma_probe_extends(t1.table, t2.table, key, b, h, TABLE_SIZE as nat);
    }
    lemma_resolve_same_nodes(t, t2, i, t.nodes.len() as nat);
}

proof fn lemma_resolve_range(t: TreeView, i: int, fuel: nat)
    ensures
        resolve(t, i, fuel) matches Some(r) ==> 0 <= r < t.nodes.len() && !is_trans(t.nodes[r]),
    decreases fuel,
{
    if 0 <= i < t.nodes.len() && is_trans(t.nodes[i]) && fuel > 0 {
        if let Some(k) = trans_link(t, i) {
            lemma_resolve_range(t, k, (fuel - 1) as nat);
        }
    }
}

proof fn lemma_resolve_same_nodes(t: TreeView, u: TreeView, i: int, fuel: nat)
    requires
        t.nodes == u.nodes,
    ensures
        resolve(t, i, fuel) == resolve(u, i, fuel),
    decreases fuel,
{
    if 0 <= i < t.nodes.len() && is_trans(t.nodes[i]) && fuel > 0 {
        if let Some(k) = trans_link(t, i) {
            lemma_resolve_same_nodes(t, u, k, (fuel - 1) as nat);
        }
    }
}


// ---- counting marks ----

/// The number of set bits of `w` below position `k`.
pub open spec fn bits_below(w: u64, k: int) -> nat
    decreases k,
{
    if k <= 0 {
        0
    } else {
        bits_below(w, k - 1) + if has(w, k - 1) { 1nat } else { 0nat }
    }
}

/// The number of set bits of a word (`bb_popcount`).
pub fn bb_popcount(bb: u64) -> (r: u32)
    ensures
        r == bits_below(bb, 64),
{
    let mut count: u32 = 0;
    let mut k: u8 = 0;
    while k < 64
        invariant
            k <= 64,
            count == bits_below(bb, k as int),
            count <= k,
        decreases 64 - k,
    {
        if bb_test(bb, k) {
            count = count + 1;
        }
        k = k + 1;
    }
    count
}

/// The number of marked indices below `m`.
pub open spec fn marked_below(a: Seq<u64>, m: int) -> nat
    decreases m,
{
    if m <= 0 {
        0
    } else {
        marked_below(a, m - 1) + if bitset_view(a).contains(m - 1) { 1nat } else { 0nat }
    }
}

proof fn lemma_marked_set(a: Seq<u64>, m: int)
    requires
        0 <= m,
    ensures
        Set::new(|i: int| 0 <= i < m && bitset_view(a).contains(i)).finite(),
        Set::new(|i: int| 0 <= i < m && bitset_view(a).contains(i)).len() == marked_below(a, m),
    decreases m,
{
    let s = Set::new(|i: int| 0 <= i < m && bitset_view(a).contains(i));
    if m == 0 {
        assert(s =~= Set::<int>::empty());
    } else {
        lemma_marked_set(a, m - 1);
        let s0 = Set::new(|i: int| 0 <= i < m - 1 && bitset_view(a).contains(i));
        if bitset_view(a).contains(m - 1) {
            assert(s =~= s0.insert(m - 1));
        } else {
            assert(s =~= s0);
        }
    }
}

proof fn lemma_word_index(w: int, j: int)
    requires
        0 <= w,
        0 <= j < 64,
    ensures
        (64 * w + j) / 64 == w,
        (64 * w + j) % 64 == j,
{
    vstd::arithmetic::div_mod::lemma_fundamental_div_mod_converse(64 * w + j, 64, w, j);
}

proof fn lemma_word_count(a: Seq<u64>, w: int, k: int)
    requires
        0 <= w < a.len(),
        0 <= k <= 64,
    ensures
        marked_below(a, 64 * w + k) == marked_below(a, 64 * w) + bits_below(a[w], k),
    decreases k,
{
    if k > 0 {
        lemma_word_count(a, w, k - 1);
        lemma_word_index(w, k - 1);
        assert(bitset_view(a).contains(64 * w + k - 1) == has(a[w], k - 1));
    }
}

/// The number of marked indices is the size of the set they make.
proof fn lemma_marks_len(a: Seq<u64>)
    ensures
        bitset_view(a).finite(),
        bitset_view(a).len() == marked_below(a, 64 * a.len() as int),
{
    lemma_marked_set(a, 64 * a.len() as int);
    assert(bitset_view(a) =~= Set::new(
        |i: int| 0 <= i < 64 * a.len() && bitset_view(a).contains(i),
    ));
}

/// The number of marked indices in the first `words` words of a bitset.
fn count_marks(arr: &Vec<u64>, words: usize) -> (r: u32)
    requires
        words <= arr.len(),
        64 * words < 0x1_0000_0000,
    ensures
        r == Set::new(|i: int| 0 <= i < 64 * words && bitset_view(arr@).contains(i)).len(),
        Set::new(|i: int| 0 <= i < 64 * words && bitset_view(arr@).contains(i)).finite(),
{
    let mut count: u32 = 0;
    let mut w: usize = 0;
    while w < words
        invariant
            w <= words,
            words <= arr.len(),
            64 * words < 0x1_0000_0000,
            count == marked_below(arr@, 64 * w),
            count <= 64 * w,
        decreases words - w,
    {
        let c = bb_popcount(arr[w]);
        proof {
            lemma_word_count(arr@, w as int, 64);
            lemma_bits_below_bound(arr@[w as int], 64);
        }
        count = count + c;
        w = w + 1;
    }
    proof {
        lemma_marked_set(arr@, 64 * words as int);
    }
    count
}

proof fn lemma_bits_below_bound(x: u64, k: int)
    requires
        0 <= k,
    ensures
        bits_below(x, k) <= k,
    decreases k,
{
    if k > 0 {
        lemma_bits_below_bound(x, k - 1);
    }
}


// ---- walking a subtree ----

/// The checks made on each node walked: it has a link, and its move record
/// is the root's code or has a top nibble below 9 other than 7.
pub open spec fn walk_ok(n: node) -> bool {
    link_of(n) != NO_LINK && (n.mov == 0xfedc || (n.mov / 4096 != 7 && n.mov / 4096 < 9))
}

/// A bound on the depth of a walk that ends.
pub open spec fn walk_fuel(t: TreeView) -> nat {
    (2 * t.nodes.len() + 2) as nat
}

/// The number of node indices the bitset has a bit for.
pub open spec fn mark_capacity(t: TreeView) -> int {
    64 * words_for(t.size as int)
}

/// The marks after walking from node `i` with marks `m`: each plain node
/// reached (and, when `transp`, each transposition too) is marked once, a
/// marked node is not walked again, a transposition is walked through to
/// the node it stands for, and a plain node's children are walked in turn.
/// `None` when a check fails, a link leads nowhere, a node lies past the
/// bits of the bitset, or the walk does not end.
pub open spec fn walk(t: TreeView, m: Set<int>, i: int, transp: bool, fuel: nat) -> Option<Set<int>>
    decreases fuel, 0nat,
{
    if fuel == 0 || !(0 <= i < t.nodes.len()) || i >= mark_capacity(t) || !walk_ok(t.nodes[i]) {
        None
    } else if transp && m.contains(i) {
        Some(m)
    } else {
        let m1 = if transp { m.insert(i) } else { m };
        let n = t.nodes[i];
        if is_trans(n) {
            match trans_link(t, i) {
                None => None,
                Some(k) => walk(t, m1, k, transp, (fuel - 1) as nat),
            }
        } else if !transp && m1.contains(i) {
            Some(m1)
        } else {
            let m2 = if transp { m1 } else { m1.insert(i) };
            if !has_child(n) {
                Some(m2)
            } else {
                walk_children(t, m2, i + 1, transp, (fuel - 1) as nat, t.nodes.len() as nat)
            }
        }
    }
}

/// The marks after walking child `c` and its next siblings (at most `steps`).
pub open spec fn walk_children(t: TreeView, m: Set<int>, c: int, transp: bool, fuel: nat, steps: nat) -> Option<Set<int>>
    decreases fuel, steps + 1,
{
    if steps == 0 {
        None
    } else {
        match walk(t, m, c, transp, fuel) {
            None => None,
            Some(m2) => match sibling_link(t, c) {
                None => Some(m2),
                Some(c2) => walk_children(t, m2, c2, transp, fuel, (steps - 1) as nat),
            },
        }
    }
}

/// The tree with its bitset replaced.
pub open spec fn with_arr(t: TreeView, arr: Seq<u64>) -> TreeView {
    TreeView { arr, ..t }
}

/// The checks of `walk_ok` on a record.
fn node_walk_ok(n: &node) -> (r: bool)
    ensures
        r == walk_ok(*n),
{
    let k = n.mov / 4096;
    node_trans_index(n) != NO_LINK && (n.mov == 0xfedc || (k != 7 && k < 9))
}

/// Walks as `walk` says, within `fuel`; `false` (with some nodes marked)
/// when the walk fails.
fn walk_rec(tree: &mut tree, node: u32, transp: bool, fuel: u64, Ghost(t0): Ghost<TreeView>) -> (ok: bool)
    requires
        tree_wf(old(tree)@),
        old(tree)@.nodes == t0.nodes,
        old(tree)@.size == t0.size,
    ensures
        final(tree)@ == with_arr(old(tree)@, final(tree).arr@),
        final(tree).arr.len() == old(tree).arr.len(),
        ok == walk(t0, bitset_view(old(tree).arr@), node as int, transp, fuel as nat) is Some,
        ok ==> Some(bitset_view(final(tree).arr@)) == walk(t0, bitset_view(old(tree).arr@), node as int, transp, fuel as nat),
    decreases fuel,
{
    let ghost t_in = tree@;
    if fuel == 0 || node as u64 >= 64 * tree.arr.len() as u64 {
        return false;
    }
    let n = node_at(tree, node);
    if !node_walk_ok(&n) {
        return false;
    }
    if transp {
        if arr_get_bit(&tree.arr, node as usize) {
            assert(tree@ =~~= with_arr(t_in, tree.arr@));
            return true;
        }
        arr_set_bit(&mut tree.arr, node as usize);
    }
    if node_is_trans(&n) {
        let k = match tree_trans(tree, node) {
            None => {
                assert(tree@ =~~= with_arr(t_in, tree.arr@));
                return false;
            },
            Some(k) => k,
        };
        let ok = walk_rec(tree, k, transp, fuel - 1, Ghost(t0));
        assert(tree@ =~~= with_arr(t_in, tree.arr@));
        return ok;
    }
    if !transp {
        if arr_get_bit(&tree.arr, node as usize) {
            assert(tree@ =~~= with_arr(t_in, tree.arr@));
            return true;
        }
        arr_set_bit(&mut tree.arr, node as usize);
    }
    if !node_has_child(&n) {
        assert(tree@ =~~= with_arr(t_in, tree.arr@));
        return true;
    }
    assert(node < u32::MAX) by {
        if node == u32::MAX {
            assert(tree@.nodes[node as int] == zero_record());
        }
    }
    let ghost target = walk_children(t0, bitset_view(tree.arr@), node + 1, transp, (fuel - 1) as nat, t0.nodes.len() as nat);
    let mut child: u32 = tree_next(tree, node);
    let mut steps: u64 = NODE_SPACE;
    assert(tree@ =~~= with_arr(t_in, tree.arr@));
    assert(target == walk(t0, bitset_view(t_in.arr), node as int, transp, fuel as nat));
    loop
        invariant_except_break
            walk_children(t0, bitset_view(tree.arr@), child as int, transp, (fuel - 1) as nat, steps as nat) == target,
        invariant
            tree_wf(tree@),
            tree@ == with_arr(t_in, tree.arr@),
            tree.arr.len() == t_in.arr.len(),
            t_in == old(tree)@,
            t_in.nodes == t0.nodes,
            t_in.size == t0.size,
            steps <= NODE_SPACE,
            target == walk(t0, bitset_view(old(tree).arr@), node as int, transp, fuel as nat),
            fuel > 0,
        ensures
            tree@ == with_arr(t_in, tree.arr@),
            target is Some,
            Some(bitset_view(tree.arr@)) == target,
        decreases steps,
    {
        if steps == 0 {
            return false;
        }
        if !walk_rec(tree, child, transp, fuel - 1, Ghost(t0)) {
            assert(tree@ =~~= with_arr(t_in, tree.arr@));
            return false;
        }
        match tree_next_sibling(tree, child) {
            None => {
                break;
            },
            Some(c) => {
                child = c;
                steps = steps - 1;
            },
        }
    }
    true
}

/// Walks the subtree below a node as `walk` says, for any node: `false`
/// when the walk fails (a check fails, a link leads nowhere, a node lies
/// past the bits of the bitset, or the walk does not end); the bitset may
/// then hold some of the marks.
pub fn tree_walk_checked(tree: &mut tree, node: u32, transpositions: bool) -> (ok: bool)
    requires
        tree_wf(old(tree)@),
    ensures
        final(tree)@ == with_arr(old(tree)@, final(tree).arr@),
        final(tree).arr.len() == old(tree).arr.len(),
        ok == walk(old(tree)@, bitset_view(old(tree).arr@), node as int, transpositions, walk_fuel(old(tree)@)) is Some,
        ok ==> Some(bitset_view(final(tree).arr@)) == walk(old(tree)@, bitset_view(old(tree).arr@), node as int, transpositions, walk_fuel(old(tree)@)),
{
    let ghost t0 = tree@;
    walk_rec(tree, node, transpositions, 2 * NODE_SPACE + 2, Ghost(t0))
}

/// Walks the subtree below a node, marking the nodes reached in the
/// bitset (`tree_walk`).
pub fn tree_walk(tree: &mut tree, node: u32, transpositions: bool)
    requires
        tree_wf(old(tree)@),
        walk(old(tree)@, bitset_view(old(tree).arr@), node as int, transpositions, walk_fuel(old(tree)@)) is Some,
    ensures
        final(tree)@ == with_arr(old(tree)@, final(tree).arr@),
        final(tree).arr.len() == old(tree).arr.len(),
        Some(bitset_view(final(tree).arr@)) == walk(old(tree)@, bitset_view(old(tree).arr@), node as int, transpositions, walk_fuel(old(tree)@)),
{
    let _ = tree_walk_checked(tree, node, transpositions);
}


// ---- subtree sizes ----

/// Whether `tree_subtree_size` counts the subtree of node `i` (it is not
/// the root and no size is stored for it).
pub open spec fn counts_subtree(t: TreeView, i: int) -> bool {
    i != 0 && (resolved(t, i) matches Some(r) && table_lookup(t.table, r as u32) == Some(0u32))
}

/// The marks of `m` that counting a subtree leaves in place: those past the
/// words it clears.
pub open spec fn high_marks(m: Set<int>, size: u32) -> Set<int> {
    Set::new(|x: int| m.contains(x) && x >= 64 * clear_words(size as int))
}

/// The marks of `m` that counting a subtree counts: those in the words it
/// clears.
pub open spec fn low_marks(m: Set<int>, size: u32) -> Set<int> {
    Set::new(|x: int| m.contains(x) && x < 64 * clear_words(size as int))
}

/// The marks left by counting the subtree of node `i` when the bitset
/// holds `cur`: the words for the `size` nodes are cleared, then the nodes
/// reached from the plain node it stands for are marked.
pub open spec fn subtree_marks_from(t: TreeView, i: int, cur: Set<int>) -> Option<Set<int>> {
    match resolved(t, i) {
        None => None,
        Some(r) => walk(t, high_marks(cur, t.size), r, false, walk_fuel(t)),
    }
}

/// The marks left by counting the subtree of node `i`.
pub open spec fn subtree_marks(t: TreeView, i: int) -> Option<Set<int>> {
    subtree_marks_from(t, i, bitset_view(t.arr))
}

/// The size of the subtree below node `i` when the bitset holds `cur`, and
/// the tree after (its bitset aside): the tree size for the root; the
/// stored size if there is one; otherwise the number of marks in the words
/// cleared, which is then stored. `None` when a check fails, a link leads
/// nowhere, or the count does not end.
pub open spec fn subtree_model_from(t: TreeView, i: int, cur: Set<int>) -> Option<(TreeView, u32)> {
    if i == 0 {
        Some((t, t.size))
    } else if !(0 <= i < t.nodes.len()) || !walk_ok(t.nodes[i]) {
        None
    } else {
        match resolved(t, i) {
            None => None,
            Some(r) => match table_lookup(t.table, r as u32) {
                None => None,
                Some(v) => if v != 0 {
                    Some((t, v))
                } else {
                    match subtree_marks_from(t, i, cur) {
                        None => None,
                        Some(marks) => {
                            let count = low_marks(marks, t.size).len() as u32;
                            match save_model(t, r, count) {
                                None => None,
                                Some((t2, _)) => Some((t2, count)),
                            }
                        },
                    }
                },
            },
        }
    }
}

/// The size of the subtree below node `i`, and the tree after (its bitset
/// aside).
pub open spec fn subtree_model(t: TreeView, i: int) -> Option<(TreeView, u32)> {
    subtree_model_from(t, i, bitset_view(t.arr))
}

proof fn lemma_save_with_arr(t: TreeView, a: Seq<u64>, i: int, s: u32)
    ensures
        save_model(with_arr(t, a), i, s) == (match save_model(t, i, s) {
            None => None,
            Some((t2, b)) => Some((with_arr(t2, a), b)),
        }),
    decreases 0x20000 - t.entries,
{
    let ta = with_arr(t, a);
    lemma_resolve_same_nodes(t, ta, i, t.nodes.len() as nat);
    if t.entries <= MAX_HASH_ENTRIES {
        if let Some(r) = resolved(t, i) {
            if let Some(b) = probe_empty(t.table, hash_of(r as u32) as int, TABLE_SIZE as nat) {
                let t1 = TreeView {
                    table: t.table.update(b, hash_entry { index: r as u32, size: s }),
                    entries: t.entries + 1,
                    ..t
                };
                let ta1 = TreeView {
                    table: ta.table.update(b, hash_entry { index: r as u32, size: s }),
                    entries: ta.entries + 1,
                    ..ta
                };
                assert(ta1 == with_arr(t1, a));
                if has_child(t.nodes[r]) && r + 1 < t.nodes.len() && sibling_link(t1, r + 1) is None {
                    lemma_save_with_arr(t1, a, r + 1, minus_one(s));
                }
            }
        }
    }
}

/// The size of the subtree below a node as `subtree_model` says, for any
/// node: `None` when it cannot be had (the tree may then hold a cleared or
/// partly marked bitset, and some of the sizes). When the subtree is
/// counted and the bitset held no marks past the words cleared, the size
/// is the number of positions below the node with a bit in those words.
pub fn tree_subtree_size_checked(tree: &mut tree, node: u32) -> (r: Option<u32>)
    requires
        tree_wf(old(tree)@),
    ensures
        tree_wf(final(tree)@),
        final(tree).arr.len() == old(tree).arr.len(),
        final(tree)@.nodes == old(tree)@.nodes,
        match subtree_model(old(tree)@, node as int) {
            None => r is None,
            Some((t2, v)) => {
                &&& r == Some(v)
                &&& t2 == with_arr(final(tree)@, old(tree).arr@)
                &&& counts_subtree(old(tree)@, node as int) ==> subtree_marks(old(tree)@, node as int)
                    == Some(bitset_view(final(tree).arr@))
                &&& counts_subtree(old(tree)@, node as int) && high_marks(bitset_view(old(tree).arr@), old(tree).size)
                    == Set::<int>::empty() ==> v == low_marks(
                    subtree_nodes(old(tree)@, resolved(old(tree)@, node as int).unwrap()),
                    old(tree).size,
                ).len()
                &&& !counts_subtree(old(tree)@, node as int) ==> final(tree)@ == old(tree)@
            },
        },
{
    let ghost t0 = tree@;
    let ghost cur = bitset_view(t0.arr);
    if node == 0 {
        assert(with_arr(tree@, t0.arr) =~~= t0);
        return Some(tree.size);
    }
    if !node_walk_ok(&node_at(tree, node)) {
        return None;
    }
    let r = match tree_resolve(tree, node) {
        None => {
            return None;
        },
        Some(r) => r,
    };
    proof {
        lemma_resolve_range(tree@, node as int, tree@.nodes.len() as nat);
        assert(resolved(tree@, r as int) == Some(r as int));
    }
    let cached = match tree_lookup_checked(tree, r) {
        None => {
            return None;
        },
        Some(c) => c,
    };
    if cached != 0 {
        assert(with_arr(tree@, t0.arr) =~~= t0);
        return Some(cached);
    }
    let words = (tree.size as usize + 63) / 64;
    proof {
        let sz = tree.size as int;
        assert((sz + 63) / 64 <= (sz / 8 + 64) / 8) by (nonlinear_arith)
            requires
                sz >= 0,
        ;
        assert(64 * ((sz + 63) / 64) <= sz + 63) by (nonlinear_arith)
            requires
                sz >= 0,
        ;
    }
    let mut w: usize = 0;
    while w < words
        invariant
            w <= words,
            words == clear_words(t0.size as int),
            words <= tree.arr.len(),
            tree.arr.len() == t0.arr.len(),
            tree@ == with_arr(t0, tree.arr@),
            forall|j: int| 0 <= j < w ==> tree.arr@[j] == 0u64,
            forall|j: int| w <= j < tree.arr.len() ==> tree.arr@[j] == t0.arr[j],
        decreases words - w,
    {
        tree.arr.set(w, 0);
        w = w + 1;
    }
    proof {
        lemma_view_zero();
        assert forall|j: int| bitset_view(tree.arr@).contains(j) == high_marks(cur, t0.size).contains(j) by {
            if 0 <= j < 64 * tree.arr.len() {
                if j < 64 * words {
                    assert(j / 64 < words);
                    assert(tree.arr@[j / 64] == 0u64);
                    assert(!bb_view(0u64).contains(j % 64));
                } else {
                    assert(j / 64 >= words);
                    assert(tree.arr@[j / 64] == t0.arr[j / 64]);
                }
            }
        }
        assert(bitset_view(tree.arr@) =~= high_marks(cur, t0.size));
        assert(tree_wf(tree@));
    }
    if !walk_rec(tree, r, false, 2 * NODE_SPACE + 2, Ghost(t0)) {
        return None;
    }
    let count = count_marks(&tree.arr, words);
    proof {
        assert(low_marks(bitset_view(tree.arr@), t0.size) =~= Set::new(
            |i: int| 0 <= i < 64 * words && bitset_view(tree.arr@).contains(i),
        ));
        if high_marks(cur, t0.size) == Set::<int>::empty() {
            lemma_subtree_marks_reachable(t0, node as int);
        }
        lemma_save_with_arr(t0, tree.arr@, r as int, count);
        assert(with_arr(t0, tree.arr@) =~~= tree@);
    }
    match tree_save_checked(tree, r, count) {
        None => {
            return None;
        },
        Some(_) => {},
    }
    proof {
        let t2 = save_model(t0, r as int, count).unwrap().0;
        lemma_save_extends(t0, r as int, count);
        assert(with_arr(tree@, t0.arr) =~~= t2);
    }
    Some(count)
}

/// The size of the subtree below a node, counted and stored if no size is
/// stored for it yet (`tree_subtree_size`).
pub fn tree_subtree_size(tree: &mut tree, node: u32) -> (r: u32)
    requires
        tree_wf(old(tree)@),
        subtree_model(old(tree)@, node as int) is Some,
    ensures
        tree_wf(final(tree)@),
        final(tree).arr.len() == old(tree).arr.len(),
        final(tree)@.nodes == old(tree)@.nodes,
        subtree_model(old(tree)@, node as int) == Some((with_arr(final(tree)@, old(tree).arr@), r)),
        counts_subtree(old(tree)@, node as int) ==> subtree_marks(old(tree)@, node as int) == Some(
            bitset_view(final(tree).arr@),
        ),
        counts_subtree(old(tree)@, node as int) && high_marks(bitset_view(old(tree).arr@), old(tree).size)
            == Set::<int>::empty() ==> r == low_marks(
            subtree_nodes(old(tree)@, resolved(old(tree)@, node as int).unwrap()),
            old(tree).size,
        ).len(),
        !counts_subtree(old(tree)@, node as int) ==> final(tree)@ == old(tree)@,
{
    tree_subtree_size_checked(tree, node).unwrap()
}


// ---- following moves ----

/// The first of child `c` and its next siblings (at most `steps` of them)
/// whose move is `mov`: `Some(None)` when there is none, `None` when a link
/// leads outside the 32-bit indices or the siblings loop.
pub open spec fn find_child(t: TreeView, mov: u16, c: int, steps: nat) -> Option<Option<int>>
    decreases steps,
{
    if steps == 0 || !(0 <= c < t.nodes.len()) {
        None
    } else if move_of_record(t.nodes[c].mov) == mov {
        Some(Some(c))
    } else {
        match sibling_link(t, c) {
            None => Some(None),
            Some(c2) => find_child(t, mov, c2, (steps - 1) as nat),
        }
    }
}

/// The node reached from `node` by `mov`: the child with that move, through
/// transpositions to the plain node it stands for; `Some(None)` when there
/// is no node, no child or no child with that move; `None` when the
/// node is missing, a link leads nowhere, or the siblings loop.
pub open spec fn mov_model(t: TreeView, mov: u16, node: Option<int>) -> Option<Option<int>> {
    match node {
        None => Some(None),
        Some(i) => if !(0 <= i < t.nodes.len()) {
            None
        } else if !has_child(t.nodes[i]) {
            Some(None)
        } else {
            match find_child(t, mov, i + 1, t.nodes.len() as nat) {
                None => None,
                Some(None) => Some(None),
                Some(Some(c)) => match resolved(t, c) {
                    None => None,
                    Some(r) => Some(Some(r)),
                },
            }
        },
    }
}

/// The node reached from `node` by playing `mov`, for any node: `None`
/// when the node is missing, a link leads nowhere, or the siblings loop.
pub fn tree_mov_checked(tree: &tree, mov: u16, node: Option<u32>) -> (r: Option<Option<u32>>)
    requires
        tree_wf(tree@),
    ensures
        r is None <==> mov_model(tree@, mov, link_view(node)) is None,
        r matches Some(y) ==> mov_model(tree@, mov, link_view(node)) == Some(link_view(y)),
{
    let i = match node {
        None => {
            return Some(None);
        },
        Some(i) => i,
    };
    if !node_has_child(&node_at(tree, i)) {
        return Some(None);
    }
    assert(i < u32::MAX) by {
        if i == u32::MAX {
            assert(tree@.nodes[i as int] == zero_record());
        }
    }
    let mut child: u32 = tree_next(tree, i);
    let mut steps: u64 = NODE_SPACE;
    let ghost target = find_child(tree@, mov, i + 1, tree@.nodes.len() as nat);
    loop
        invariant
            tree_wf(tree@),
            node == Some(i),
            steps <= NODE_SPACE,
            has_child(tree@.nodes[i as int]),
            target == find_child(tree@, mov, i + 1, tree@.nodes.len() as nat),
            find_child(tree@, mov, child as int, steps as nat) == target,
        ensures
            target == Some(Some(child as int)),
        decreases steps,
    {
        if steps == 0 {
            return None;
        }
        if node_mov(&node_at(tree, child)) == mov {
            break;
        }
        match tree_next_sibling(tree, child) {
            None => {
                return Some(None);
            },
            Some(c) => {
                child = c;
                steps = steps - 1;
            },
        }
    }
    match tree_resolve(tree, child) {
        None => None,
        Some(r) => Some(Some(r)),
    }
}

/// The node reached from `node` by playing `mov` (`tree_mov`).
pub fn tree_mov(tree: &tree, mov: u16, node: Option<u32>) -> (r: Option<u32>)
    requires
        tree_wf(tree@),
        mov_model(tree@, mov, link_view(node)) is Some,
    ensures
        Some(link_view(r)) == mov_model(tree@, mov, link_view(node)),
{
    tree_mov_checked(tree, mov, node).unwrap()
}


// ---- what depends on the nodes alone ----

proof fn lemma_walk_same_nodes(t: TreeView, u: TreeView, m: Set<int>, i: int, transp: bool, fuel: nat)
    requires
        t.nodes == u.nodes,
        t.size == u.size,
    ensures
        walk(t, m, i, transp, fuel) == walk(u, m, i, transp, fuel),
    decreases fuel, 0nat,
{
    if fuel > 0 && 0 <= i < t.nodes.len() && walk_ok(t.nodes[i]) && !(transp && m.contains(i)) {
        let m1 = if transp { m.insert(i) } else { m };
        let n = t.nodes[i];
        if is_trans(n) {
            if let Some(k) = trans_link(t, i) {
                lemma_walk_same_nodes(t, u, m1, k, transp, (fuel - 1) as nat);
            }
        } else if !(!transp && m1.contains(i)) && has_child(n) {
            let m2 = if transp { m1 } else { m1.insert(i) };
            lemma_walk_children_same_nodes(t, u, m2, i + 1, transp, (fuel - 1) as nat, t.nodes.len() as nat);
        }
    }
}

proof fn lemma_walk_children_same_nodes(
    t: TreeView,
    u: TreeView,
    m: Set<int>,
    c: int,
    transp: bool,
    fuel: nat,
    steps: nat,
)
    requires
        t.nodes == u.nodes,
        t.size == u.size,
    ensures
        walk_children(t, m, c, transp, fuel, steps) == walk_children(u, m, c, transp, fuel, steps),
    decreases fuel, steps + 1,
{
    if steps > 0 {
        lemma_walk_same_nodes(t, u, m, c, transp, fuel);
        if let Some(m2) = walk(t, m, c, transp, fuel) {
            if let Some(c2) = sibling_link(t, c) {
                lemma_walk_children_same_nodes(t, u, m2, c2, transp, fuel, (steps - 1) as nat);
            }
        }
    }
}

/// Counting a subtree from given marks does not depend on the bitset
/// held in the tree.
proof fn lemma_subtree_with_arr(t: TreeView, a: Seq<u64>, i: int, cur: Set<int>)
    ensures
        subtree_model_from(with_arr(t, a), i, cur) == (match subtree_model_from(t, i, cur) {
            None => None,
            Some((t2, v)) => Some((with_arr(t2, a), v)),
        }),
        subtree_marks_from(with_arr(t, a), i, cur) == subtree_marks_from(t, i, cur),
        counts_subtree(with_arr(t, a), i) == counts_subtree(t, i),
{
    let ta = with_arr(t, a);
    lemma_resolve_same_nodes(t, ta, i, t.nodes.len() as nat);
    if let Some(r) = resolved(t, i) {
        lemma_walk_same_nodes(t, ta, high_marks(cur, t.size), r, false, walk_fuel(t));
        if let Some(marks) = walk(t, high_marks(cur, t.size), r, false, walk_fuel(t)) {
            lemma_save_with_arr(t, a, r, low_marks(marks, t.size).len() as u32);
        }
    }
    if i == 0 {
        assert(with_arr(t, a) == ta);
    }
}

// ---- answering queries ----

/// What a step leaves in the bitset: `None` when it is untouched, `Some(m)`
/// when it was cleared and now marks exactly the nodes of `m`.
pub open spec fn bitset_after(before: Seq<u64>, after: Seq<u64>, marks: Option<Set<int>>) -> bool {
    &&& after.len() == before.len()
    &&& match marks {
        None => after == before,
        Some(m) => bitset_view(after) == m,
    }
}

/// The marks the bitset holds: those of the tree's bitset while it is
/// untouched (`None`), otherwise `m`.
pub open spec fn current_marks(t: TreeView, marks: Option<Set<int>>) -> Set<int> {
    match marks {
        None => bitset_view(t.arr),
        Some(m) => m,
    }
}

/// The bitset after counting child `c`: the marks left by counting its
/// subtree when it is counted, otherwise as before.
pub open spec fn marks_after(t: TreeView, c: int, marks: Option<Set<int>>) -> Option<Set<int>> {
    if counts_subtree(t, c) { subtree_marks_from(t, c, current_marks(t, marks)) } else { marks }
}

/// Adds each child from `c` on (at most `steps`) with its move and subtree
/// size, with what the bitset holds after (`marks` before); `None` when a
/// child cannot be counted or added, a link leads outside the 32-bit
/// indices, or the siblings loop.
pub open spec fn children_model(t: TreeView, q: QueryView, marks: Option<Set<int>>, c: int, steps: nat) -> Option<
    (TreeView, QueryView, Option<Set<int>>),
>
    decreases steps,
{
    if steps == 0 || !(0 <= c < t.nodes.len()) {
        None
    } else {
        match subtree_model_from(t, c, current_marks(t, marks)) {
            None => None,
            Some((t2, size)) => match add_model(q, move_of_record(t.nodes[c].mov), size) {
                None => None,
                Some(q2) => {
                    let m2 = marks_after(t, c, marks);
                    match sibling_link(t2, c) {
                        None => Some((t2, q2, m2)),
                        Some(c2) => children_model(t2, q2, m2, c2, (steps - 1) as nat),
                    }
                },
            },
        }
    }
}

/// The answer for the children of node `i`: unchanged and `false` when it
/// has none, otherwise each child's move with its subtree size, and `true`;
/// then what the bitset holds (`None`: untouched).
pub open spec fn query_children_model(t: TreeView, q: QueryView, i: int) -> Option<
    (TreeView, QueryView, bool, Option<Set<int>>),
> {
    if !(0 <= i < t.nodes.len()) {
        None
    } else if !has_child(t.nodes[i]) {
        Some((t, q, false, None))
    } else {
        match children_model(t, q, None, i + 1, t.nodes.len() as nat) {
            None => None,
            Some((t2, q2, m)) => Some((t2, q2, true, m)),
        }
    }
}

/// Adds the moves from a node with their subtree sizes to the answer, for
/// any node: `None` when a child cannot be counted or added (the tree and
/// the answer may then hold part of the work).
pub fn tree_query_children_checked(tree: &mut tree, node: u32, result: &mut query_result) -> (r: Option<bool>)
    requires
        tree_wf(old(tree)@),
        query_wf(old(result)@),
    ensures
        tree_wf(final(tree)@),
        query_wf(final(result)@),
        match query_children_model(old(tree)@, old(result)@, node as int) {
            None => r is None,
            Some((t2, q2, b, m)) => r == Some(b) && t2 == with_arr(final(tree)@, old(tree).arr@) && q2
                == final(result)@ && bitset_after(old(tree).arr@, final(tree).arr@, m),
        },
{
    let ghost a0 = tree.arr@;
    let ghost t0 = tree@;
    let ghost q0 = result@;
    if !node_has_child(&node_at(tree, node)) {
        assert(with_arr(tree@, a0) =~~= t0);
        return Some(false);
    }
    assert(node < u32::MAX) by {
        if node == u32::MAX {
            assert(tree@.nodes[node as int] == zero_record());
        }
    }
    let ghost target = children_model(t0, result@, None, node + 1, t0.nodes.len() as nat);
    let ghost mut marks: Option<Set<int>> = None;
    let mut child: u32 = tree_next(tree, node);
    let mut steps: u64 = NODE_SPACE;
    assert(with_arr(tree@, a0) =~~= t0);
    loop
        invariant_except_break
            children_model(with_arr(tree@, a0), result@, marks, child as int, steps as nat) == target,
        invariant
            tree_wf(tree@),
            query_wf(result@),
            bitset_after(a0, tree.arr@, marks),
            tree@.nodes == t0.nodes,
            t0 == old(tree)@,
            a0 == t0.arr,
            q0 == old(result)@,
            steps <= NODE_SPACE,
            has_child(t0.nodes[node as int]),
            target == children_model(t0, q0, None, node + 1, t0.nodes.len() as nat),
        ensures
            target == Some((with_arr(tree@, a0), result@, marks)),
        decreases steps,
    {
        if steps == 0 {
            return None;
        }
        let ghost tb = tree@;
        proof {
            lemma_subtree_with_arr(tb, a0, child as int, bitset_view(tb.arr));
            assert(current_marks(with_arr(tb, a0), marks) == bitset_view(tb.arr));
        }
        let mov = node_mov(&node_at(tree, child));
        let size = match tree_subtree_size_checked(tree, child) {
            None => {
                return None;
            },
            Some(size) => size,
        };
        proof {
            assert(with_arr(with_arr(tree@, tb.arr), a0) =~~= with_arr(tree@, a0));
            marks = marks_after(with_arr(tb, a0), child as int, marks);
        }
        if !query_result_try_add(result, mov, size) {
            return None;
        }
        match tree_next_sibling(tree, child) {
            None => {
                break;
            },
            Some(c) => {
                child = c;
                steps = steps - 1;
            },
        }
    }
    Some(true)
}

/// Adds the moves from a node with their subtree sizes to the answer
/// (`tree_query_children`). The bitset is left as it was unless a child's
/// subtree is counted; then it marks the nodes of the last one counted.
pub fn tree_query_children(tree: &mut tree, node: u32, result: &mut query_result) -> (r: bool)
    requires
        tree_wf(old(tree)@),
        query_wf(old(result)@),
        query_children_model(old(tree)@, old(result)@, node as int) is Some,
    ensures
        tree_wf(final(tree)@),
        query_wf(final(result)@),
        query_children_model(old(tree)@, old(result)@, node as int) matches Some((t2, q2, b, m)) && t2
            == with_arr(final(tree)@, old(tree).arr@) && q2 == final(result)@ && b == r && bitset_after(
            old(tree).arr@,
            final(tree).arr@,
            m,
        ),
        !r ==> final(result)@ == old(result)@ && final(tree)@ == old(tree)@,
{
    let ghost t0 = tree@;
    let r = tree_query_children_checked(tree, node, result).unwrap();
    proof {
        lemma_query_children_false_unchanged(t0, old(result)@, node as int);
        if !r {
            assert(final(tree)@ =~~= with_arr(final(tree)@, t0.arr));
        }
    }
    r
}

/// The node reached from node `node` by the moves of `movs` from index `i`
/// on; `Some(None)` when one of them leads nowhere.
pub open spec fn path_model(t: TreeView, movs: Seq<u16>, i: int, node: Option<int>) -> Option<Option<int>>
    decreases movs.len() - i,
{
    if i >= movs.len() {
        Some(node)
    } else {
        match mov_model(t, movs[i], node) {
            None => None,
            Some(None) => Some(None),
            Some(Some(n2)) => path_model(t, movs, i + 1, Some(n2)),
        }
    }
}

/// The answer for the position after `movs`: when they stop inside the
/// prolog, its next move with the size of everything below it; otherwise
/// the children of the node they lead to. `false` (answer unchanged) when
/// the moves leave the prolog or the tree. Last, what the bitset holds
/// after (`None`: untouched, as in every case but counting children).
pub open spec fn query_model(t: TreeView, movs: Seq<u16>, q: QueryView) -> Option<
    (TreeView, QueryView, bool, Option<Set<int>>),
> {
    let pl = t.prolog_len as int;
    let ml = movs.len() as int;
    if pl > ml {
        if forall|k: int| 0 <= k < ml ==> t.prolog[k] == #[trigger] movs[k] {
            match add_model(q, t.prolog[ml], (t.size + pl - ml) as u32) {
                None => None,
                Some(q2) => Some((t, q2, true, None)),
            }
        } else {
            Some((t, q, false, None))
        }
    } else {
        if forall|k: int| 0 <= k < pl ==> t.prolog[k] == #[trigger] movs[k] {
            match path_model(t, movs, pl, Some(0)) {
                None => None,
                Some(None) => Some((t, q, false, None)),
                Some(Some(n)) => query_children_model(t, q, n),
            }
        } else {
            Some((t, q, false, None))
        }
    }
}

/// Whether the first `n` moves of `a` and `b` agree.
fn prefix_matches(a: &Vec<u16>, b: &[u16], n: usize) -> (r: bool)
    requires
        n <= a.len(),
        n <= b.len(),
    ensures
        r == forall|k: int| 0 <= k < n ==> a@[k] == #[trigger] b@[k],
{
    let mut i: usize = 0;
    while i < n
        invariant
            i <= n,
            n <= a.len(),
            n <= b.len(),
            forall|k: int| 0 <= k < i ==> a@[k] == #[trigger] b@[k],
        decreases n - i,
    {
        if a[i] != b[i] {
            return false;
        }
        i = i + 1;
    }
    true
}

/// Answers a query as `query_model` says, for any tree and moves: `None`
/// exactly when the model is `None` (a link leads nowhere, a walk check
/// fails, a count does not end, or the answer has no room); the tree and
/// the answer may then hold part of the work.
pub fn tree_query_checked(tree: &mut tree, movs: &[u16], result: &mut query_result) -> (r: Option<bool>)
    requires
        tree_wf(old(tree)@),
        query_wf(old(result)@),
    ensures
        tree_wf(final(tree)@),
        query_wf(final(result)@),
        match query_model(old(tree)@, movs@, old(result)@) {
            None => r is None,
            Some((t2, q2, b, m)) => r == Some(b) && t2 == with_arr(final(tree)@, old(tree).arr@) && q2
                == final(result)@ && bitset_after(old(tree).arr@, final(tree).arr@, m),
        },
{
    let ghost a0 = tree.arr@;
    let ghost t0 = tree@;
    let ghost q0 = result@;
    assert(with_arr(tree@, a0) =~~= t0);
    let pl = tree.prolog_len as usize;
    let ml = movs.len();
    if pl > ml {
        if !prefix_matches(&tree.prolog, movs, ml) {
            return Some(false);
        }
        let size = ((tree.size.wrapping_add(tree.prolog_len)) as usize).wrapping_sub(ml) as u32;
        if !query_result_try_add(result, tree.prolog[ml], size) {
            return None;
        }
        return Some(true);
    }
    if !prefix_matches(&tree.prolog, movs, pl) {
        return Some(false);
    }
    let ghost target = path_model(t0, movs@, pl as int, Some(0));
    assert(query_model(t0, movs@, q0) == match target {
        None => None,
        Some(None) => Some((t0, q0, false, None)),
        Some(Some(n)) => query_children_model(t0, q0, n),
    });
    let mut node: Option<u32> = Some(0);
    let mut i: usize = pl;
    while i < ml
        invariant_except_break
            path_model(t0, movs@, i as int, link_view(node)) == target,
        invariant
            tree@ == t0,
            result@ == q0,
            t0 == old(tree)@,
            q0 == old(result)@,
            query_wf(q0),
            tree_wf(t0),
            ml == movs.len(),
            pl <= i <= ml,
            query_model(t0, movs@, q0) == match target {
                None => None,
                Some(None) => Some((t0, q0, false, None)),
                Some(Some(n)) => query_children_model(t0, q0, n),
            },
        ensures
            target == Some(link_view(node)),
        decreases ml - i,
    {
        node = match tree_mov_checked(tree, movs[i], node) {
            None => {
                return None;
            },
            Some(n) => n,
        };
        if node.is_none() {
            break;
        }
        i = i + 1;
    }
    match node {
        None => Some(false),
        Some(n) => tree_query_children_checked(tree, n, result),
    }
}

/// Answers a query: the moves from the position reached by `movs`, with
/// the number of positions below each (`tree_query`). The bitset is left
/// as it was unless the subtree of a child is counted.
pub fn tree_query(tree: &mut tree, movs: &[u16], result: &mut query_result) -> (r: bool)
    requires
        tree_wf(old(tree)@),
        query_wf(old(result)@),
        query_model(old(tree)@, movs@, old(result)@) is Some,
    ensures
        tree_wf(final(tree)@),
        query_wf(final(result)@),
        query_model(old(tree)@, movs@, old(result)@) matches Some((t2, q2, b, m)) && t2 == with_arr(
            final(tree)@,
            old(tree).arr@,
        ) && q2 == final(result)@ && b == r && bitset_after(old(tree).arr@, final(tree).arr@, m),
        !r ==> final(result)@ == old(result)@ && final(tree)@ == old(tree)@,
{
    let ghost t0 = tree@;
    let r = tree_query_checked(tree, movs, result).unwrap();
    proof {
        lemma_query_false_unchanged(t0, movs@, old(result)@);
        if !r {
            assert(final(tree)@ =~~= with_arr(final(tree)@, t0.arr));
        }
    }
    r
}

/// A query answered `false` changes nothing: the answer and the tree,
/// bitset included, stay as they were.
pub proof fn lemma_query_false_unchanged(t: TreeView, movs: Seq<u16>, q: QueryView)
    ensures
        query_model(t, movs, q) matches Some((t2, q2, b, m)) ==> (!b ==> t2 == t && q2 == q && m is None),
{
    let pl = t.prolog_len as int;
    if pl <= movs.len() {
        if let Some(Some(n)) = path_model(t, movs, pl, Some(0)) {
            lemma_query_children_false_unchanged(t, q, n);
        }
    }
}

/// Asking for the children of a node that has none changes nothing; a
/// node with children is answered `true`.
pub proof fn lemma_query_children_false_unchanged(t: TreeView, q: QueryView, i: int)
    ensures
        query_children_model(t, q, i) matches Some((t2, q2, b, m)) ==> (!b ==> t2 == t && q2 == q && m
            is None),
{
}


// ---- opening a tree file ----

/// The byte at offset `o`; bytes past the end of the file read as zero.
pub open spec fn byte_at(b: Seq<u8>, o: int) -> int {
    if 0 <= o < b.len() { b[o] as int } else { 0 }
}

/// A little-endian 16-bit number at offset `o`.
pub open spec fn u16_at(b: Seq<u8>, o: int) -> int {
    byte_at(b, o) + 256 * byte_at(b, o + 1)
}

/// A little-endian 32-bit number at offset `o`.
pub open spec fn u32_at(b: Seq<u8>, o: int) -> int {
    byte_at(b, o) + 256 * byte_at(b, o + 1) + 65536 * byte_at(b, o + 2) + 16777216 * byte_at(b, o + 3)
}

/// The node record at offset `o`: the link word, then the move.
pub open spec fn record_at(b: Seq<u8>, o: int) -> node {
    node { data: u32_at(b, o) as u32, mov: u16_at(b, o + 4) as u16 }
}

/// The number of moves of the prolog, stored as the root's move.
pub open spec fn file_prolog_len(b: Seq<u8>) -> int {
    u16_at(b, 4)
}

/// The number of nodes, stored as the root's link.
pub open spec fn file_size(b: Seq<u8>) -> int {
    u32_at(b, 0) % 0x4000_0000
}

/// Where the records after the root begin: after the root and the prolog.
pub open spec fn nodes_start(b: Seq<u8>) -> int {
    8 + 2 * file_prolog_len(b)
}

/// Where the stored subtree sizes begin: after the last record.
pub open spec fn data_start(b: Seq<u8>) -> int {
    nodes_start(b) + 8 * (file_size(b) - 1)
}

/// The number of records that begin inside the file: the root, and those
/// after the prolog that start before the end (at most `NODE_SPACE - 1`,
/// the records that have a 32-bit index with a next one).
pub open spec fn stored_count(b: Seq<u8>) -> int {
    if b.len() <= nodes_start(b) {
        1
    } else {
        let c = 1 + (b.len() - nodes_start(b) + 7) / 8;
        if c < NODE_SPACE - 1 { c } else { NODE_SPACE - 1 }
    }
}

/// The tree a file holds before its stored sizes are loaded: its prolog,
/// its records (the root first; records past the end read as zero), an
/// empty table and a clear bitset.
pub open spec fn file_view(b: Seq<u8>) -> TreeView {
    TreeView {
        prolog_len: file_prolog_len(b) as u32,
        prolog: Seq::new(file_prolog_len(b) as nat, |k: int| u16_at(b, 8 + 2 * k) as u16),
        nodes: Seq::new(
            NODE_SPACE as nat,
            |k: int|
                if k >= stored_count(b) {
                    zero_record()
                } else if k == 0 {
                    record_at(b, 0)
                } else {
                    record_at(b, nodes_start(b) + 8 * (k - 1))
                },
        ),
        stored_records: stored_count(b),
        size: file_size(b) as u32,
        table: Seq::new(TABLE_SIZE as nat, |k: int| hash_entry { index: 0, size: 0 }),
        entries: 0,
        arr: Seq::new(words_for(file_size(b)) as nat, |k: int| 0u64),
    }
}

/// The number of pairs of stored sizes: one for each 8 bytes, or part of
/// them, after the last record.
pub open spec fn pair_count(b: Seq<u8>) -> int {
    if data_start(b) < b.len() { (b.len() - data_start(b) + 7) / 8 } else { 0 }
}

/// The stored sizes of a file: pairs of a node index and a subtree size
/// (a pair cut short by the end of the file is completed with zeros).
pub open spec fn file_pairs(b: Seq<u8>) -> Seq<(u32, u32)> {
    Seq::new(
        pair_count(b) as nat,
        |k: int| (u32_at(b, data_start(b) + 8 * k) as u32, u32_at(b, data_start(b) + 8 * k + 4) as u32),
    )
}

/// The tree after loading pairs `k..`: a size is stored for each node that
/// has none yet. `None` when a lookup or a store cannot be done, or a
/// store is refused.
pub open spec fn load_model(t: TreeView, pairs: Seq<(u32, u32)>, k: int) -> Option<TreeView>
    decreases pairs.len() - k,
{
    if k >= pairs.len() {
        Some(t)
    } else {
        let (index, size) = pairs[k];
        match lookup_model(t, index as int) {
            None => None,
            Some(v) => if v != 0 {
                load_model(t, pairs, k + 1)
            } else {
                match save_model(t, index as int, size) {
                    None => None,
                    Some((t2, ok)) => if ok { load_model(t2, pairs, k + 1) } else { None },
                }
            },
        }
    }
}

/// The tree a file holds, once opened: `None` when its node count is 0 or
/// its stored sizes cannot be loaded.
pub open spec fn open_model(b: Seq<u8>) -> Option<TreeView> {
    if file_size(b) >= 1 {
        load_model(file_view(b), file_pairs(b), 0)
    } else {
        None
    }
}

/// The byte at offset `o + d`, zero past the end.
fn read_byte(b: &[u8], o: u64, d: u64) -> (r: u8)
    ensures
        r == byte_at(b@, o + d),
{
    let len = b.len() as u64;
    if o < len && d < len - o { b[(o + d) as usize] } else { 0 }
}

/// The 16-bit number at offset `o + d`.
fn read_u16(b: &[u8], o: u64, d: u64) -> (r: u16)
    requires
        d <= 4,
    ensures
        r == u16_at(b@, o + d),
{
    let x0 = read_byte(b, o, d) as u16;
    let x1 = read_byte(b, o, d + 1) as u16;
    assert(x0 | (x1 << 8u16) == x0 + 256 * x1) by (bit_vector)
        requires
            x0 < 256,
            x1 < 256,
    ;
    x0 | (x1 << 8)
}

/// The 32-bit number at offset `o + d`.
fn read_u32(b: &[u8], o: u64, d: u64) -> (r: u32)
    requires
        d <= 4,
    ensures
        r == u32_at(b@, o + d),
{
    let x0 = read_byte(b, o, d) as u32;
    let x1 = read_byte(b, o, d + 1) as u32;
    let x2 = read_byte(b, o, d + 2) as u32;
    let x3 = read_byte(b, o, d + 3) as u32;
    assert(x0 | (x1 << 8u32) | (x2 << 16u32) | (x3 << 24u32) == x0 + 256 * x1 + 65536 * x2 + 16777216
        * x3) by (bit_vector)
        requires
            x0 < 256,
            x1 < 256,
            x2 < 256,
            x3 < 256,
    ;
    x0 | (x1 << 8) | (x2 << 16) | (x3 << 24)
}

fn read_record(b: &[u8], o: u64) -> (r: node)
    ensures
        r == record_at(b@, o as int),
{
    node { data: read_u32(b, o, 0), mov: read_u16(b, o, 4) }
}

fn read_prolog(data: &[u8], pl: u16) -> (prolog: Vec<u16>)
    ensures
        prolog@ =~= Seq::new(pl as nat, |j: int| u16_at(data@, 8 + 2 * j) as u16),
{
    let mut prolog: Vec<u16> = Vec::new();
    let mut k: u64 = 0;
    while k < pl as u64
        invariant
            k <= pl,
            prolog@ =~= Seq::new(k as nat, |j: int| u16_at(data@, 8 + 2 * j) as u16),
        decreases pl - k,
    {
        prolog.push(read_u16(data, 8 + 2 * k, 0));
        k = k + 1;
    }
    prolog
}

/// The records of a file that begin inside it: the root, then those after
/// the prolog, whatever the node count says (the stored sizes after the
/// last node read as records too), at most `NODE_SPACE - 1` of them.
fn read_nodes(data: &[u8], root: node, ns: u64) -> (nodes: Vec<node>)
    requires
        root == record_at(data@, 0),
        ns == nodes_start(data@),
    ensures
        nodes.len() == stored_count(data@),
        forall|j: int| 0 <= j < nodes.len() ==> #[trigger] nodes@[j] == (
            if j == 0 { record_at(data@, 0) } else { record_at(data@, ns + 8 * (j - 1)) }),
{
    let mut nodes: Vec<node> = Vec::new();
    nodes.push(root);
    let len = data.len() as u64;
    let mut k: u64 = 1;
    while k < NODE_SPACE - 1 && ns + 8 * (k - 1) < len
        invariant
            1 <= k <= NODE_SPACE - 1,
            ns <= 8 + 2 * 0xffff,
            len == data.len(),
            ns == nodes_start(data@),
            root == record_at(data@, 0),
            nodes.len() == k,
            k >= 2 ==> ns + 8 * (k - 2) < len,
            forall|j: int| 0 <= j < nodes.len() ==> #[trigger] nodes@[j] == (
                if j == 0 { record_at(data@, 0) } else { record_at(data@, ns + 8 * (j - 1)) }),
        decreases NODE_SPACE - 1 - k,
    {
        nodes.push(read_record(data, ns + 8 * (k - 1)));
        k = k + 1;
    }
    proof {
        let l = data.len() as int;
        let nsi = ns as int;
        let ki = k as int;
        let s = NODE_SPACE - 1;
        if l <= nsi {
            assert(ki == 1);
        } else {
            let c = 1 + (l - nsi + 7) / 8;
            assert(ki >= 2 ==> ki <= c) by (nonlinear_arith)
                requires
                    ki >= 2 ==> nsi + 8 * (ki - 2) < l,
                    c == 1 + (l - nsi + 7) / 8,
                    l > nsi,
            ;
            assert(ki < s ==> ki >= c) by (nonlinear_arith)
                requires
                    ki < s ==> nsi + 8 * (ki - 1) >= l,
                    c == 1 + (l - nsi + 7) / 8,
                    l > nsi,
            ;
        }
    }
    nodes
}

fn empty_table() -> (table: Vec<hash_entry>)
    ensures
        table@ =~= Seq::new(TABLE_SIZE as nat, |j: int| hash_entry { index: 0, size: 0 }),
{
    let mut table: Vec<hash_entry> = Vec::new();
    let mut k: usize = 0;
    while k < TABLE_SIZE
        invariant
            k <= TABLE_SIZE,
            table@ =~= Seq::new(k as nat, |j: int| hash_entry { index: 0, size: 0 }),
        decreases TABLE_SIZE - k,
    {
        table.push(hash_entry { index: 0, size: 0 });
        k = k + 1;
    }
    table
}

fn zero_words(words: usize) -> (arr: Vec<u64>)
    ensures
        arr@ =~= Seq::new(words as nat, |j: int| 0u64),
{
    let mut arr: Vec<u64> = Vec::new();
    let mut k: usize = 0;
    while k < words
        invariant
            k <= words,
            arr@ =~= Seq::new(k as nat, |j: int| 0u64),
        decreases words - k,
    {
        arr.push(0);
        k = k + 1;
    }
    arr
}

/// Opens a tree from the bytes of its file (`tree_open`). Bytes past the
/// end of the file read as zero, so a file cut short still opens. `None`
/// when the node count is 0, or when a stored size cannot be loaded (a
/// lookup or a store cannot be done, or the table refuses the size);
/// otherwise the tree with the stored subtree sizes loaded.
pub fn tree_open(data: &[u8]) -> (r: Option<tree>)
    ensures
        r is Some <==> open_model(data@) is Some,
        r matches Some(t) ==> Some(t@) == open_model(data@) && tree_wf(t@),
{
    let len = data.len() as u64;
    let root = read_record(data, 0);
    let pl = read_u16(data, 0, 4);
    let size = node_trans_index(&root);
    proof {
        assert(root.data % 0x4000_0000 == file_size(data@));
    }
    if size == 0 {
        return None;
    }
    let ns: u64 = 8 + 2 * pl as u64;
    let ds: u64 = ns + 8 * (size as u64 - 1);
    let prolog = read_prolog(data, pl);
    let nodes = read_nodes(data, root, ns);
    let hashtable = empty_table();
    let arr = zero_words((size as usize / 8 + 64) / 8);
    let mut tree = tree {
        prolog_len: pl as u32,
        prolog,
        nodes,
        size,
        hashtable,
        num_hash_entries: 0,
        arr,
    };
    proof {
        let fv = file_view(data@);
        assert(tree@.nodes =~= fv.nodes);
    }
    assert(tree@ =~~= file_view(data@));
    let ghost pairs = file_pairs(data@);
    let npairs: u64 = if ds < len { (len - ds + 7) / 8 } else { 0 };
    let mut k: u64 = 0;
    while k < npairs
        invariant
            k <= npairs,
            npairs == pairs.len(),
            pairs == file_pairs(data@),
            ds == data_start(data@),
            len == data.len(),
            npairs <= len,
            ds <= 8 + 2 * 0xffff + 8 * 0x4000_0000,
            tree_wf(tree@),
            file_size(data@) >= 1,
            load_model(tree@, pairs, k as int) == open_model(data@),
        decreases npairs - k,
    {
        proof {
            assert(ds + 8 * k < len) by (nonlinear_arith)
                requires
                    k < npairs,
                    npairs == (if ds < len { (len - ds + 7) / 8 } else { 0 }),
            ;
        }
        let index = read_u32(data, ds + 8 * k, 0);
        let sz = read_u32(data, ds + 8 * k, 4);
        assert(pairs[k as int] == (index, sz));
        let stored = match tree_lookup_checked(&tree, index) {
            None => {
                return None;
            },
            Some(s) => s,
        };
        if stored == 0 {
            match tree_save_checked(&mut tree, index, sz) {
                Some(true) => {},
                _ => {
                    return None;
                },
            }
        }
        k = k + 1;
    }
    Some(tree)
}


// ---- describing a tree ----

/// `tree size = ` and the size, ` (`, the size of the records in whole
/// megabytes and `mb) ` on a line.
pub open spec fn size_line(size: u32) -> Seq<u8> {
    seq![
        't' as u8, 'r' as u8, 'e' as u8, 'e' as u8, ' ' as u8, 's' as u8, 'i' as u8, 'z' as u8,
        'e' as u8, ' ' as u8, '=' as u8, ' ' as u8,
    ] + dec_text(size as nat) + seq![' ' as u8, '(' as u8] + dec_text(((8 * size) / 0x100000) as nat)
        + seq!['m' as u8, 'b' as u8, ')' as u8, ' ' as u8, '\n' as u8]
}

/// `prolog[k] = ` and the move's UCI text on a line.
pub open spec fn prolog_line(k: int, mov: u16) -> Seq<u8> {
    seq!['p' as u8, 'r' as u8, 'o' as u8, 'l' as u8, 'o' as u8, 'g' as u8, '[' as u8] + dec_text(
        k as nat,
    ) + seq![']' as u8, ' ' as u8, '=' as u8, ' ' as u8] + uci_text(mov) + seq!['\n' as u8]
}

/// The lines of the first `n` moves of the prolog.
pub open spec fn prolog_lines(p: Seq<u16>, n: int) -> Seq<u8>
    decreases n,
{
    if n <= 0 {
        Seq::empty()
    } else {
        prolog_lines(p, n - 1) + prolog_line(n - 1, p[n - 1])
    }
}

/// `hashtable[k] = <index, size>` on a line for a bucket in use (both read
/// as signed numbers); nothing for an empty bucket.
pub open spec fn table_line(k: int, e: hash_entry) -> Seq<u8> {
    if e.index != 0 {
        seq![
            'h' as u8, 'a' as u8, 's' as u8, 'h' as u8, 't' as u8, 'a' as u8, 'b' as u8, 'l' as u8,
            'e' as u8, '[' as u8,
        ] + dec_text(k as nat) + seq![']' as u8, ' ' as u8, '=' as u8, ' ' as u8, '<' as u8]
            + signed_text(e.index) + seq![',' as u8, ' ' as u8] + signed_text(e.size) + seq![
            '>' as u8,
            '\n' as u8,
        ]
    } else {
        Seq::empty()
    }
}

/// The lines of the first `n` buckets of the table.
pub open spec fn table_lines(tb: Seq<hash_entry>, n: int) -> Seq<u8>
    decreases n,
{
    if n <= 0 {
        Seq::empty()
    } else {
        table_lines(tb, n - 1) + table_line(n - 1, tb[n - 1])
    }
}

/// The description of a tree: its size, its prolog, and the buckets in use
/// when asked for.
pub open spec fn debug_text(t: TreeView, dump_hashtable: bool) -> Seq<u8> {
    size_line(t.size) + prolog_lines(t.prolog, t.prolog.len() as int) + if dump_hashtable {
        table_lines(t.table, t.table.len() as int)
    } else {
        Seq::empty()
    }
}

/// Describes a tree (`tree_debug`): the text that would be printed.
pub fn tree_debug(tree: &tree, dump_hashtable: bool) -> (text: Vec<u8>)
    ensures
        text@ == debug_text(tree@, dump_hashtable),
{
    let mut out: Vec<u8> = Vec::new();
    push_bytes(
        &mut out,
        &[
            't' as u8, 'r' as u8, 'e' as u8, 'e' as u8, ' ' as u8, 's' as u8, 'i' as u8, 'z' as u8,
            'e' as u8, ' ' as u8, '=' as u8, ' ' as u8,
        ],
    );
    push_decimal(&mut out, tree.size as u64);
    push_bytes(&mut out, &[' ' as u8, '(' as u8]);
    push_decimal(&mut out, (8 * tree.size as u64) / 0x100000);
    push_bytes(&mut out, &['m' as u8, 'b' as u8, ')' as u8, ' ' as u8, '\n' as u8]);
    assert(out@ =~= size_line(tree.size));
    let ghost head = out@;
    let n = tree.prolog.len();
    let mut k: usize = 0;
    while k < n
        invariant
            k <= n,
            n == tree.prolog.len(),
            out@ == head + prolog_lines(tree.prolog@, k as int),
        decreases n - k,
    {
        let ghost before = out@;
        push_bytes(&mut out, &['p' as u8, 'r' as u8, 'o' as u8, 'l' as u8, 'o' as u8, 'g' as u8, '[' as u8]);
        push_decimal(&mut out, k as u64);
        push_bytes(&mut out, &[']' as u8, ' ' as u8, '=' as u8, ' ' as u8]);
        let uci = mov_uci(tree.prolog[k]);
        push_bytes(&mut out, uci.as_slice());
        out.push('\n' as u8);
        assert(out@ =~= before + prolog_line(k as int, tree.prolog@[k as int]));
        k = k + 1;
        assert(out@ =~= head + prolog_lines(tree.prolog@, k as int));
    }
    let ghost mid = out@;
    if dump_hashtable {
        let m = tree.hashtable.len();
        let mut i: usize = 0;
        while i < m
            invariant
                i <= m,
                m == tree.hashtable.len(),
                out@ == mid + table_lines(tree.hashtable@, i as int),
            decreases m - i,
        {
            let ghost before = out@;
            let e = tree.hashtable[i];
            if e.index != 0 {
                push_bytes(
                    &mut out,
                    &[
                        'h' as u8, 'a' as u8, 's' as u8, 'h' as u8, 't' as u8, 'a' as u8, 'b' as u8,
                        'l' as u8, 'e' as u8, '[' as u8,
                    ],
                );
                push_decimal(&mut out, i as u64);
                push_bytes(&mut out, &[']' as u8, ' ' as u8, '=' as u8, ' ' as u8, '<' as u8]);
                push_signed(&mut out, e.index);
                push_bytes(&mut out, &[',' as u8, ' ' as u8]);
                push_signed(&mut out, e.size);
                push_bytes(&mut out, &['>' as u8, '\n' as u8]);
            }
            assert(out@ =~= before + table_line(i as int, tree.hashtable@[i as int]));
            i = i + 1;
            assert(out@ =~= mid + table_lines(tree.hashtable@, i as int));
        }
    }
    assert(out@ =~= debug_text(tree@, dump_hashtable));
    out
}


// ---- asking twice ----

/// A walk only adds marks: every mark before is still there after, and
/// each new mark is a node of the tree.
pub proof fn lemma_walk_grows(t: TreeView, m: Set<int>, i: int, transp: bool, fuel: nat)
    requires
        m.finite(),
    ensures
        walk(t, m, i, transp, fuel) matches Some(m2) ==> m.subset_of(m2) && m2.finite() && forall|x: int|
            #[trigger] m2.contains(x) ==> m.contains(x) || 0 <= x < t.nodes.len(),
    decreases fuel, 0nat,
{
    if fuel > 0 && 0 <= i < t.nodes.len() && walk_ok(t.nodes[i]) && !(transp && m.contains(i)) {
        let m1 = if transp { m.insert(i) } else { m };
        let n = t.nodes[i];
        if is_trans(n) {
            if let Some(k) = trans_link(t, i) {
                lemma_walk_grows(t, m1, k, transp, (fuel - 1) as nat);
            }
        } else if !(!transp && m1.contains(i)) && has_child(n) {
            let m2 = if transp { m1 } else { m1.insert(i) };
            lemma_walk_children_grows(t, m2, i + 1, transp, (fuel - 1) as nat, t.nodes.len() as nat);
        }
    }
}

/// Walking children in turn only adds marks, each a node of the tree.
pub proof fn lemma_walk_children_grows(t: TreeView, m: Set<int>, c: int, transp: bool, fuel: nat, steps: nat)
    requires
        m.finite(),
    ensures
        walk_children(t, m, c, transp, fuel, steps) matches Some(m2) ==> m.subset_of(m2) && m2.finite()
            && forall|x: int| #[trigger] m2.contains(x) ==> m.contains(x) || 0 <= x < t.nodes.len(),
    decreases fuel, steps + 1,
{
    if steps > 0 {
        lemma_walk_grows(t, m, c, transp, fuel);
        if let Some(m2) = walk(t, m, c, transp, fuel) {
            if let Some(c2) = sibling_link(t, c) {
                lemma_walk_children_grows(t, m2, c2, transp, fuel, (steps - 1) as nat);
            }
        }
    }
}

/// A stored size is the answer: for a node other than the root whose
/// record passes the walk checks and for which a nonzero size is stored,
/// counting its subtree gives that size and leaves the tree as it was.
pub proof fn lemma_subtree_size_cached(t: TreeView, i: int, c: u32)
    requires
        i != 0,
        0 <= i < t.nodes.len(),
        walk_ok(t.nodes[i]),
        lookup_model(t, i) == Some(c),
        c != 0,
    ensures
        subtree_model(t, i) == Some((t, c)),
        !counts_subtree(t, i),
{
}

/// Asking twice for the size of a subtree gives the same answer: once a
/// node's subtree has been counted (no size was stored for it), counting is
/// not needed again and the same size comes back. (A node standing for a
/// plain node past the words the count clears is left out: its count may
/// be 0, which reads as no size.)
pub proof fn lemma_subtree_size_stable(t: TreeView, i: int)
    requires
        tree_wf(t),
        subtree_model(t, i) is Some,
        counts_subtree(t, i),
        t.entries <= MAX_HASH_ENTRIES,
        resolved(t, i) matches Some(r) && r != 0 && !stored(t.table, r as u32) && r < 64 * clear_words(
            t.size as int,
        ),
    ensures
        subtree_model(subtree_model(t, i).unwrap().0, i) matches Some((t3, c)) && c == subtree_model(
            t,
            i,
        ).unwrap().1 && !counts_subtree(subtree_model(t, i).unwrap().0, i),
{
    let r = resolved(t, i).unwrap();
    let cw = 64 * clear_words(t.size as int);
    lemma_resolve_range(t, i, t.nodes.len() as nat);
    let m0 = high_marks(bitset_view(t.arr), t.size);
    lemma_marks_len(t.arr);
    assert(m0.subset_of(bitset_view(t.arr)));
    vstd::set_lib::lemma_len_subset(m0, bitset_view(t.arr));
    let marks = subtree_marks(t, i).unwrap();
    lemma_walk_grows(t, m0, r, false, walk_fuel(t));
    let fuel = walk_fuel(t);
    // The walk marks the plain node it starts from.
    assert(marks.contains(r)) by {
        assert(!m0.contains(r));
        let m2 = m0.insert(r);
        if has_child(t.nodes[r]) {
            lemma_walk_children_grows(t, m2, r + 1, false, (fuel - 1) as nat, t.nodes.len() as nat);
        }
    }
    let low = low_marks(marks, t.size);
    assert(low.contains(r));
    let sz = t.size as int;
    assert(cw <= sz + 63) by (nonlinear_arith)
        requires
            cw == 64 * ((sz + 63) / 64),
            sz >= 0,
    ;
    assert(low.subset_of(vstd::set_lib::set_int_range(0, cw)));
    vstd::set_lib::lemma_int_range(0, cw);
    vstd::set_lib::lemma_len_subset(set![r], low);
    vstd::set_lib::lemma_len_subset(low, vstd::set_lib::set_int_range(0, cw));
    let c = low.len() as u32;
    assert(c != 0);
    assert(resolved(t, r) == Some(r));
    let (t2, ok) = save_model(t, r, c).unwrap();
    lemma_save_extends(t, r, c);
    lemma_resolve_same_nodes(t, t2, i, t.nodes.len() as nat);
    lemma_lookup_after_save(t, r, c);
    lemma_resolve_same_nodes(t, t2, r, t.nodes.len() as nat);
    assert(table_lookup(t2.table, r as u32) == Some(c));
}


// ---- what a count counts ----

/// Node `x` is child `c` or one of its next siblings (at most `steps`).
pub open spec fn in_chain(t: TreeView, c: int, steps: nat, x: int) -> bool
    decreases steps,
{
    if steps == 0 || !(0 <= c < t.nodes.len()) {
        false
    } else if x == c {
        true
    } else {
        match sibling_link(t, c) {
            None => false,
            Some(c2) => in_chain(t, c2, (steps - 1) as nat, x),
        }
    }
}

/// From plain node `y` a move leads to plain node `z`: `z` is what a child
/// of `y` stands for (the child itself, or the node a transposition stands
/// for).
pub open spec fn plain_edge(t: TreeView, y: int, z: int) -> bool {
    &&& 0 <= y < t.nodes.len()
    &&& !is_trans(t.nodes[y])
    &&& has_child(t.nodes[y])
    &&& exists|c: int| #[trigger] in_chain(t, y + 1, t.nodes.len() as nat, c) && resolve(t, c, walk_fuel(t)) == Some(z)
}

/// A sequence of plain nodes, each reached from the one before by a move.
pub open spec fn is_plain_path(t: TreeView, p: Seq<int>) -> bool {
    p.len() >= 1 && forall|k: int| 0 <= k < p.len() - 1 ==> #[trigger] plain_edge(t, p[k], p[k + 1])
}

/// Plain node `b` is reached from plain node `a` by moves.
pub open spec fn plain_reach(t: TreeView, a: int, b: int) -> bool {
    exists|p: Seq<int>| #[trigger] is_plain_path(t, p) && p[0] == a && p.last() == b
}

/// The distinct positions below plain node `r`, itself included.
pub open spec fn subtree_nodes(t: TreeView, r: int) -> Set<int> {
    Set::new(|x: int| plain_reach(t, r, x))
}

/// Node `c` stands for a plain node from which plain node `x` is reached.
pub open spec fn leads_to(t: TreeView, c: int, x: int) -> bool {
    resolve(t, c, walk_fuel(t)) matches Some(z) && plain_reach(t, z, x)
}

/// Node `c` stands for a plain node of `m`.
pub open spec fn stands_in(t: TreeView, c: int, m: Set<int>) -> bool {
    resolve(t, c, walk_fuel(t)) matches Some(z) && m.contains(z)
}

/// Every child of plain node `y` stands for a node of `m`.
pub open spec fn children_marked(t: TreeView, y: int, m: Set<int>) -> bool {
    has_child(t.nodes[y]) ==> forall|c: int| #[trigger] in_chain(t, y + 1, t.nodes.len() as nat, c) ==> stands_in(t, c, m)
}

proof fn lemma_resolve_more_fuel(t: TreeView, x: int, f1: nat, f2: nat)
    requires
        f1 <= f2,
        resolve(t, x, f1) is Some,
    ensures
        resolve(t, x, f2) == resolve(t, x, f1),
    decreases f1,
{
    if 0 <= x < t.nodes.len() && is_trans(t.nodes[x]) && f1 > 0 {
        if let Some(k) = trans_link(t, x) {
            lemma_resolve_more_fuel(t, k, (f1 - 1) as nat, (f2 - 1) as nat);
        }
    }
}

proof fn lemma_path_prepend(t: TreeView, a: int, b: int, x: int)
    requires
        plain_edge(t, a, b),
        plain_reach(t, b, x),
    ensures
        plain_reach(t, a, x),
{
    let p = choose|p: Seq<int>| #[trigger] is_plain_path(t, p) && p[0] == b && p.last() == x;
    let q = seq![a] + p;
    assert forall|k: int| 0 <= k < q.len() - 1 implies #[trigger] plain_edge(t, q[k], q[k + 1]) by {
        if k > 0 {
            assert(q[k] == p[k - 1] && q[k + 1] == p[k]);
            assert(plain_edge(t, p[k - 1], p[k - 1 + 1]));
        }
    }
    assert(is_plain_path(t, q));
    assert(q.last() == x);
}

proof fn lemma_reach_self(t: TreeView, a: int)
    ensures
        plain_reach(t, a, a),
{
    let p = seq![a];
    assert(is_plain_path(t, p));
}

/// What a walk without transposition marks does: it only adds marks; the
/// node it starts from stands for a marked node; every node it newly marks
/// is plain, in the tree and reached by moves from the plain node the start
/// stands for; and the children of every such node stand for marked nodes.
pub proof fn lemma_walk_reach(t: TreeView, m: Set<int>, i: int, f: nat)
    requires
        f <= walk_fuel(t),
        walk(t, m, i, false, f) is Some,
    ensures
        ({
            let m2 = walk(t, m, i, false, f).unwrap();
            &&& resolve(t, i, f) matches Some(z) && m2.contains(z)
            &&& m.subset_of(m2)
            &&& forall|x: int| #[trigger] m2.contains(x) && !m.contains(x) ==> 0 <= x < t.nodes.len()
                && !is_trans(t.nodes[x]) && plain_reach(t, resolve(t, i, f).unwrap(), x)
                && children_marked(t, x, m2)
        }),
    decreases f, 0nat,
{
    let m2 = walk(t, m, i, false, f).unwrap();
    let n = t.nodes[i];
    if is_trans(n) {
        let k = trans_link(t, i).unwrap();
        lemma_walk_reach(t, m, k, (f - 1) as nat);
    } else if m.contains(i) {
    } else {
        let m1 = m.insert(i);
        lemma_reach_self(t, i);
        if !has_child(n) {
        } else {
            lemma_walk_children_reach(t, m1, i + 1, (f - 1) as nat, t.nodes.len() as nat);
            assert forall|x: int| #[trigger] m2.contains(x) && !m.contains(x) implies 0 <= x < t.nodes.len()
                && !is_trans(t.nodes[x]) && plain_reach(t, i, x) && children_marked(t, x, m2) by {
                if x != i {
                    assert(m2.contains(x) && !m1.contains(x));
                    let c = choose|c: int| #[trigger] in_chain(t, i + 1, t.nodes.len() as nat, c) && leads_to(t, c, x);
                    let z = resolve(t, c, walk_fuel(t)).unwrap();
                    assert(plain_edge(t, i, z));
                    lemma_path_prepend(t, i, z, x);
                }
            }
        }
    }
}

/// Walking children in turn without transposition marks: it only adds
/// marks; each child walked stands for a marked node; and every node newly
/// marked is plain, in the tree, with its children standing for marked
/// nodes, and reached from one of the children walked.
pub proof fn lemma_walk_children_reach(t: TreeView, m: Set<int>, c: int, f: nat, steps: nat)
    requires
        f < walk_fuel(t),
        walk_children(t, m, c, false, f, steps) is Some,
    ensures
        ({
            let m2 = walk_children(t, m, c, false, f, steps).unwrap();
            &&& m.subset_of(m2)
            &&& forall|x: int| #[trigger] in_chain(t, c, steps, x) ==> stands_in(t, x, m2)
            &&& forall|x: int| #[trigger] m2.contains(x) && !m.contains(x) ==> 0 <= x < t.nodes.len()
                && !is_trans(t.nodes[x]) && children_marked(t, x, m2) && exists|c2: int| #[trigger] in_chain(t, c, steps, c2) && leads_to(t, c2, x)
        }),
    decreases f, steps + 1,
{
    let m2 = walk_children(t, m, c, false, f, steps).unwrap();
    lemma_walk_reach(t, m, c, f);
    let mc = walk(t, m, c, false, f).unwrap();
    let zc = resolve(t, c, f).unwrap();
    lemma_resolve_more_fuel(t, c, f, walk_fuel(t));
    assert(in_chain(t, c, steps, c));
    match sibling_link(t, c) {
        None => {
            assert forall|x: int| #[trigger] in_chain(t, c, steps, x) implies stands_in(t, x, m2) by {
                assert(x == c);
            }
            assert forall|x: int| #[trigger] m2.contains(x) && !m.contains(x) implies 0 <= x < t.nodes.len()
                && !is_trans(t.nodes[x]) && children_marked(t, x, m2) && exists|c2: int| #[trigger] in_chain(t, c, steps, c2) && leads_to(t, c2, x) by {
                assert(in_chain(t, c, steps, c) && leads_to(t, c, x));
            }
        },
        Some(c2) => {
            lemma_walk_children_reach(t, mc, c2, f, (steps - 1) as nat);
            assert forall|x: int| #[trigger] in_chain(t, c, steps, x) implies stands_in(t, x, m2) by {
                if x != c {
                    assert(in_chain(t, c2, (steps - 1) as nat, x));
                }
            }
            assert forall|x: int| #[trigger] m2.contains(x) && !m.contains(x) implies 0 <= x < t.nodes.len()
                && !is_trans(t.nodes[x]) && children_marked(t, x, m2) && exists|c3: int| #[trigger] in_chain(t, c, steps, c3) && leads_to(t, c3, x) by {
                if mc.contains(x) {
                    assert(in_chain(t, c, steps, c) && leads_to(t, c, x));
                    assert(children_marked(t, x, mc));
                    if has_child(t.nodes[x]) {
                        assert forall|c4: int| #[trigger] in_chain(t, x + 1, t.nodes.len() as nat, c4) implies stands_in(t, c4, m2) by {
                            assert(stands_in(t, c4, mc));
                        }
                    }
                } else {
                    let c5 = choose|c5: int| #[trigger] in_chain(t, c2, (steps - 1) as nat, c5) && leads_to(t, c5, x);
                    assert(in_chain(t, c, steps, c5));
                }
            }
        },
    }
}

/// One step down the tree: from a transposition to the node it stands
/// for, or from a plain node with children to one of its children.
pub open spec fn tree_step(t: TreeView, y: int, z: int) -> bool {
    &&& 0 <= y < t.nodes.len()
    &&& if is_trans(t.nodes[y]) {
        trans_link(t, y) == Some(z)
    } else {
        has_child(t.nodes[y]) && in_chain(t, y + 1, t.nodes.len() as nat, z)
    }
}

/// A sequence of nodes, each one step down from the one before.
pub open spec fn is_step_path(t: TreeView, p: Seq<int>) -> bool {
    p.len() >= 1 && forall|k: int| 0 <= k < p.len() - 1 ==> #[trigger] tree_step(t, p[k], p[k + 1])
}

/// Node `b` is reached from node `a` by steps down the tree.
pub open spec fn step_reach(t: TreeView, a: int, b: int) -> bool {
    exists|p: Seq<int>| #[trigger] is_step_path(t, p) && p[0] == a && p.last() == b
}

proof fn lemma_step_reach_self(t: TreeView, a: int)
    ensures
        step_reach(t, a, a),
{
    let p = seq![a];
    assert(is_step_path(t, p));
}

proof fn lemma_step_prepend(t: TreeView, a: int, b: int, x: int)
    requires
        tree_step(t, a, b),
        step_reach(t, b, x),
    ensures
        step_reach(t, a, x),
{
    let p = choose|p: Seq<int>| #[trigger] is_step_path(t, p) && p[0] == b && p.last() == x;
    let q = seq![a] + p;
    assert forall|k: int| 0 <= k < q.len() - 1 implies #[trigger] tree_step(t, q[k], q[k + 1]) by {
        if k > 0 {
            assert(q[k] == p[k - 1] && q[k + 1] == p[k]);
            assert(tree_step(t, p[k - 1], p[k - 1 + 1]));
        }
    }
    assert(is_step_path(t, q));
    assert(q.last() == x);
}

/// Each mark a walk adds, with or without transposition marks, is a node
/// reached from the node the walk starts from by steps down the tree.
pub proof fn lemma_walk_marks_reached(t: TreeView, m: Set<int>, i: int, transp: bool, fuel: nat)
    ensures
        walk(t, m, i, transp, fuel) matches Some(m2) ==> forall|x: int| #[trigger] m2.contains(x) && !m.contains(
            x,
        ) ==> step_reach(t, i, x),
    decreases fuel, 0nat,
{
    if fuel > 0 && 0 <= i < t.nodes.len() && walk_ok(t.nodes[i]) && !(transp && m.contains(i)) {
        let m1 = if transp { m.insert(i) } else { m };
        let n = t.nodes[i];
        lemma_step_reach_self(t, i);
        if is_trans(n) {
            if let Some(k) = trans_link(t, i) {
                lemma_walk_marks_reached(t, m1, k, transp, (fuel - 1) as nat);
                if let Some(m2) = walk(t, m, i, transp, fuel) {
                    assert forall|x: int| #[trigger] m2.contains(x) && !m.contains(x) implies step_reach(t, i, x) by {
                        if x != i {
                            assert(tree_step(t, i, k));
                            lemma_step_prepend(t, i, k, x);
                        }
                    }
                }
            }
        } else if !(!transp && m1.contains(i)) && has_child(n) {
            let m2 = if transp { m1 } else { m1.insert(i) };
            lemma_walk_children_marks_reached(t, m2, i + 1, transp, (fuel - 1) as nat, t.nodes.len() as nat);
            if let Some(m3) = walk(t, m, i, transp, fuel) {
                assert forall|x: int| #[trigger] m3.contains(x) && !m.contains(x) implies step_reach(t, i, x) by {
                    if x != i {
                        assert(m3.contains(x) && !m2.contains(x));
                        let c = choose|c: int| #[trigger] in_chain(t, i + 1, t.nodes.len() as nat, c) && step_reach(t, c, x);
                        assert(tree_step(t, i, c));
                        lemma_step_prepend(t, i, c, x);
                    }
                }
            }
        }
    }
}

/// Each mark a walk over child `c` and its next siblings adds is reached
/// by steps down the tree from one of those children.
pub proof fn lemma_walk_children_marks_reached(t: TreeView, m: Set<int>, c: int, transp: bool, fuel: nat, steps: nat)
    ensures
        walk_children(t, m, c, transp, fuel, steps) matches Some(m2) ==> forall|x: int| #[trigger] m2.contains(x)
            && !m.contains(x) ==> exists|c2: int| #[trigger] in_chain(t, c, steps, c2) && step_reach(t, c2, x),
    decreases fuel, steps + 1,
{
    if steps > 0 {
        lemma_walk_marks_reached(t, m, c, transp, fuel);
        if let Some(mc) = walk(t, m, c, transp, fuel) {
            assert(0 <= c < t.nodes.len());
            assert(in_chain(t, c, steps, c));
            match sibling_link(t, c) {
                None => {
                    assert forall|x: int| #[trigger] mc.contains(x) && !m.contains(x) implies exists|c2: int|
                        #[trigger] in_chain(t, c, steps, c2) && step_reach(t, c2, x) by {
                        assert(in_chain(t, c, steps, c) && step_reach(t, c, x));
                    }
                },
                Some(c2) => {
                    lemma_walk_children_marks_reached(t, mc, c2, transp, fuel, (steps - 1) as nat);
                    if let Some(m2) = walk_children(t, m, c, transp, fuel, steps) {
                        assert forall|x: int| #[trigger] m2.contains(x) && !m.contains(x) implies exists|c3: int|
                            #[trigger] in_chain(t, c, steps, c3) && step_reach(t, c3, x) by {
                            if mc.contains(x) {
                                assert(in_chain(t, c, steps, c) && step_reach(t, c, x));
                            } else {
                                let c4 = choose|c4: int| #[trigger] in_chain(t, c2, (steps - 1) as nat, c4) && step_reach(t, c4, x);
                                assert(in_chain(t, c, steps, c4));
                            }
                        }
                    }
                },
            }
        }
    }
}

/// A set holding plain node `r` and, with every plain node with children,
/// what each of its children stands for, holds every position below `r`.
proof fn lemma_closed_holds_reach(t: TreeView, m: Set<int>, p: Seq<int>)
    requires
        is_plain_path(t, p),
        m.contains(p[0]),
        forall|x: int| #[trigger] m.contains(x) ==> children_marked(t, x, m),
    ensures
        m.contains(p.last()),
    decreases p.len(),
{
    if p.len() > 1 {
        let q = p.drop_last();
        assert forall|k: int| 0 <= k < q.len() - 1 implies #[trigger] plain_edge(t, q[k], q[k + 1]) by {
            assert(plain_edge(t, p[k], p[k + 1]));
        }
        lemma_closed_holds_reach(t, m, q);
        let y = q.last();
        let z = p.last();
        assert(plain_edge(t, p[p.len() - 2], p[p.len() - 2 + 1]));
        assert(y == p[p.len() - 2]);
        let c = choose|c: int| #[trigger] in_chain(t, y + 1, t.nodes.len() as nat, c) && resolve(t, c, walk_fuel(t)) == Some(z);
        assert(children_marked(t, y, m));
    }
}

/// Counting a subtree counts the distinct positions below it: when the
/// bitset holds no marks past the words the count clears, the marks left by
/// the count are the plain nodes reached by moves from the plain node that
/// the counted node stands for, transpositions followed and each position
/// marked once (the count is those of them with a bit in the cleared words).
pub proof fn lemma_subtree_marks_reachable(t: TreeView, i: int)
    requires
        subtree_marks(t, i) is Some,
        high_marks(bitset_view(t.arr), t.size) == Set::<int>::empty(),
    ensures
        subtree_marks(t, i) == Some(subtree_nodes(t, resolved(t, i).unwrap())),
{
    let r = resolved(t, i).unwrap();
    lemma_resolve_range(t, i, t.nodes.len() as nat);
    let marks = subtree_marks(t, i).unwrap();
    lemma_walk_reach(t, Set::empty(), r, walk_fuel(t));
    assert(resolve(t, r, walk_fuel(t)) == Some(r));
    assert forall|x: int| #[trigger] marks.contains(x) implies children_marked(t, x, marks) by {}
    assert forall|x: int| marks.contains(x) <==> subtree_nodes(t, r).contains(x) by {
        if subtree_nodes(t, r).contains(x) {
            let p = choose|p: Seq<int>| #[trigger] is_plain_path(t, p) && p[0] == r && p.last() == x;
            lemma_closed_holds_reach(t, marks, p);
        }
    }
    assert(marks =~= subtree_nodes(t, r));
}

// ---- laws of moves, queries and stores ----

/// A transposition with bit 30 set is followed by its next sibling, the
/// next record.
pub proof fn lemma_transposition_sibling(t: TreeView, i: int)
    requires
        0 <= i < t.nodes.len(),
        is_trans(t.nodes[i]),
        flag30(t.nodes[i]),
    ensures
        sibling_link(t, i) == Some(i + 1),
{
}

/// A child listed after a transposition child is reached by its move: when
/// node `i` has children, its first child is a transposition with bit 30
/// set and another move, and the record after it is a plain node with move
/// `mov`, playing `mov` from `i` leads to that node.
pub proof fn lemma_mov_past_transposition(t: TreeView, i: int, mov: u16)
    requires
        tree_wf(t),
        0 <= i,
        i + 2 < NODE_SPACE,
        has_child(t.nodes[i]),
        is_trans(t.nodes[i + 1]),
        flag30(t.nodes[i + 1]),
        move_of_record(t.nodes[i + 1].mov) != mov,
        !is_trans(t.nodes[i + 2]),
        move_of_record(t.nodes[i + 2].mov) == mov,
    ensures
        mov_model(t, mov, Some(i)) == Some(Some(i + 2)),
{
    let n = t.nodes.len() as nat;
    assert(sibling_link(t, i + 1) == Some(i + 2));
    assert(find_child(t, mov, i + 2, (n - 1) as nat) == Some(Some(i + 2)));
    assert(find_child(t, mov, i + 1, n) == Some(Some(i + 2)));
    assert(resolved(t, i + 2) == Some(i + 2));
}

/// Moves that leave the prolog are refused: when one of the first
/// `prolog_len` moves differs from the prolog, the query is answered
/// `false`, with the answer and the tree unchanged.
pub proof fn lemma_query_off_prolog(t: TreeView, movs: Seq<u16>, q: QueryView, k: int)
    requires
        0 <= k < t.prolog_len,
        k < movs.len(),
        movs[k] != t.prolog[k],
    ensures
        query_model(t, movs, q) matches Some((t2, q2, b, m)) && t2 == t && q2 == q && !b && (m is None),
{
    assert(!(t.prolog[k] == movs[k]));
}

/// Storing a size for a node whose first child has a next sibling (or that
/// has no child) stores that node alone: exactly one bucket, empty before,
/// now holds the plain node it stands for with the size, and nothing else
/// of the tree changes.
pub proof fn lemma_save_single_entry(t: TreeView, i: int, size: u32, r: int)
    requires
        tree_wf(t),
        t.entries <= MAX_HASH_ENTRIES,
        resolved(t, i) == Some(r),
        !has_child(t.nodes[r]) || sibling_link(t, r + 1) is Some,
        save_model(t, i, size) is Some,
    ensures
        save_model(t, i, size) matches Some((t2, ok)) && ok && (exists|b: int|
            0 <= b < TABLE_SIZE && t.table[b].index == 0 && t2 == (TreeView {
                table: t.table.update(b, hash_entry { index: r as u32, size }),
                entries: t.entries + 1,
                ..t
            })),
{
    let h = hash_of(r as u32) as int;
    lemma_hash_range(r as u32);
    lemma_probe_empty_range(t.table, h, TABLE_SIZE as nat);
    let b = probe_empty(t.table, h, TABLE_SIZE as nat).unwrap();
    let t1 = TreeView {
        table: t.table.update(b, hash_entry { index: r as u32, size }),
        entries: t.entries + 1,
        ..t
    };
    if has_child(t.nodes[r]) {
        lemma_resolve_range(t, i, t.nodes.len() as nat);
        assert(sibling_link(t1, r + 1) == sibling_link(t, r + 1));
    }
    assert(save_model(t, i, size) == Some((t1, true)));
}

} // verus!
