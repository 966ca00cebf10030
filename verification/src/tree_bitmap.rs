//! A prefix tree over strings of nibbles.
//!
//! Each node stands for a string of nibbles (its path from the root) and
//! holds the values of the prefixes that extend its path by zero to three
//! bits, in fifteen result slots; a prefix of `4 d + r` bits is stored in the
//! node at depth `d`, in the slot for its last `r` bits. Nodes live in one
//! vector and point to their children by index (zero: no child); each node
//! also records its parent, the nibble that leads to it, and its depth.
use vstd::prelude::*;

use crate::address::{
    all_nibbles, lemma_nibble_bits_arith, lemma_nibbles_bits_injective, lemma_nibbles_bits_take, nibble_bits,
    nibbles_bits,
};
use crate::allocator::{lemma_bytes_mono, saturate, saturating_product, vec_capacity};

verus! {

/// `Some(m[k])` when `m` has key `k`, `None` otherwise.
pub open spec fn map_get<K, V>(m: Map<K, V>, k: K) -> Option<V> {
    if m.contains_key(k) {
        Some(m[k])
    } else {
        None
    }
}

/// Number of extra bits stored by result slot `s`.
pub open spec fn slot_len(s: int) -> nat {
    if s == 0 {
        0
    } else if s < 3 {
        1
    } else if s < 7 {
        2
    } else {
        3
    }
}

/// The extra bits stored by result slot `s`: slot 0 for none, slots 1..2
/// for one bit, 3..6 for two bits and 7..14 for three bits.
pub open spec fn slot_bits(s: int) -> Seq<bool> {
    if s == 0 {
        seq![]
    } else if s == 1 {
        seq![false]
    } else if s == 2 {
        seq![true]
    } else if s == 3 {
        seq![false, false]
    } else if s == 4 {
        seq![false, true]
    } else if s == 5 {
        seq![true, false]
    } else if s == 6 {
        seq![true, true]
    } else if s == 7 {
        seq![false, false, false]
    } else if s == 8 {
        seq![false, false, true]
    } else if s == 9 {
        seq![false, true, false]
    } else if s == 10 {
        seq![false, true, true]
    } else if s == 11 {
        seq![true, false, false]
    } else if s == 12 {
        seq![true, false, true]
    } else if s == 13 {
        seq![true, true, false]
    } else {
        seq![true, true, true]
    }
}

/// One for a set bit, zero otherwise.
pub open spec fn bit_value(b: bool) -> int {
    if b {
        1
    } else {
        0
    }
}

/// The result slot for up to three extra bits.
pub open spec fn slot_index(t: Seq<bool>) -> int {
    if t.len() == 0 {
        0
    } else if t.len() == 1 {
        1 + bit_value(t[0])
    } else if t.len() == 2 {
        3 + 2 * bit_value(t[0]) + bit_value(t[1])
    } else {
        7 + 4 * bit_value(t[0]) + 2 * bit_value(t[1]) + bit_value(t[2])
    }
}

/// Each slot has the slot index of its own bits.
pub proof fn lemma_slot_index_bits(s: int)
    requires
        0 <= s < 15,
    ensures
        slot_index(slot_bits(s)) == s,
        slot_bits(s).len() == slot_len(s),
        slot_len(s) <= 3,
{
}

/// Up to three bits have a slot, whose bits they are.
pub proof fn lemma_slot_bits_index(t: Seq<bool>)
    requires
        t.len() <= 3,
    ensures
        slot_bits(slot_index(t)) == t,
        0 <= slot_index(t) < 15,
{
    if t.len() == 0 {
        assert(t =~= seq![]);
    } else if t.len() == 1 {
        assert(t =~= seq![t[0]]);
    } else if t.len() == 2 {
        assert(t =~= seq![t[0], t[1]]);
    } else {
        assert(t =~= seq![t[0], t[1], t[2]]);
    }
}

/// The result slot of a prefix whose last `r` bits are the top `r` bits of
/// `nibble`.
pub fn slot_of(nibble: u8, r: u32) -> (s: usize)
    requires
        nibble < 16,
        r < 4,
    ensures
        s == slot_index(nibble_bits(nibble).take(r as int)),
        s < 15,
    no_unwind
{
    let ghost t = nibble_bits(nibble).take(r as int);
    if r == 0 {
        0
    } else if r == 1 {
        proof {
            assert((nibble >> 3u8) == (if (nibble >> 3u8) & 1u8 == 1u8 {
                1u8
            } else {
                0u8
            })) by (bit_vector)
                requires
                    nibble < 16,
            ;
        }
        1 + (nibble >> 3) as usize
    } else if r == 2 {
        proof {
            assert((nibble >> 2u8) == 2 * (if (nibble >> 3u8) & 1u8 == 1u8 {
                1u8
            } else {
                0u8
            }) + (if (nibble >> 2u8) & 1u8 == 1u8 {
                1u8
            } else {
                0u8
            })) by (bit_vector)
                requires
                    nibble < 16,
            ;
        }
        3 + (nibble >> 2) as usize
    } else {
        proof {
            assert((nibble >> 1u8) == 4 * (if (nibble >> 3u8) & 1u8 == 1u8 {
                1u8
            } else {
                0u8
            }) + 2 * (if (nibble >> 2u8) & 1u8 == 1u8 {
                1u8
            } else {
                0u8
            }) + (if (nibble >> 1u8) & 1u8 == 1u8 {
                1u8
            } else {
                0u8
            })) by (bit_vector)
                requires
                    nibble < 16,
            ;
        }
        7 + (nibble >> 1) as usize
    }
}

/// A nibble whose first `slot_len(s)` bits are the bits of slot `s`, the
/// rest being zero.
pub fn slot_nibble(s: usize) -> (nibble: u8)
    requires
        s < 15,
    ensures
        nibble < 16,
        nibble_bits(nibble).take(slot_len(s as int) as int) == slot_bits(s as int),
        forall|j: int| slot_len(s as int) <= j < 4 ==> !#[trigger] nibble_bits(nibble)[j],
{
    let r: u8 = if s == 0 {
        0
    } else if s < 3 {
        ((s - 1) * 8) as u8
    } else if s < 7 {
        ((s - 3) * 4) as u8
    } else {
        ((s - 7) * 2) as u8
    };
    proof {
        lemma_nibble_bits_arith(r);
        assert(nibble_bits(r).take(slot_len(s as int) as int) =~= slot_bits(s as int));
    }
    r
}

/// A node of the tree.
#[derive(Clone, Copy, Debug)]
pub struct Node<T> {
    /// Index of the child for each nibble; zero when there is none.
    children: [u32; 16],
    /// The value of each result slot.
    results: [Option<T>; 15],
    /// Index of the parent (zero for the root).
    parent: u32,
    /// The nibble that leads from the parent to this node.
    nibble: u8,
    /// Number of nibbles of the path to this node.
    depth: u8,
}

/// The path of node `i`, following `f` parent links.
spec fn path_at<T>(nodes: Seq<Node<T>>, i: int, f: nat) -> Seq<u8>
    decreases f,
{
    if f == 0 {
        seq![]
    } else {
        path_at(nodes, nodes[i].parent as int, (f - 1) as nat).push(nodes[i].nibble)
    }
}

/// The string of nibbles that leads from the root to node `i`.
spec fn path<T>(nodes: Seq<Node<T>>, i: int) -> Seq<u8> {
    path_at(nodes, i, nodes[i].depth as nat)
}

/// Node `i` is consistent with its parent, its children and the depth limit
/// `n`.
spec fn node_ok<T>(nodes: Seq<Node<T>>, n: nat, i: int) -> bool {
    &&& nodes[i].depth <= n
    &&& 0 <= nodes[i].parent < nodes.len()
    &&& i == 0 ==> nodes[i].depth == 0
    &&& i != 0 ==> {
        &&& nodes[i].parent < i
        &&& nodes[nodes[i].parent as int].depth + 1 == nodes[i].depth
        &&& nodes[i].nibble < 16
        &&& nodes[nodes[i].parent as int].children[nodes[i].nibble as int] == i
    }
    &&& forall|c: int|
        0 <= c < 16 ==> (#[trigger] nodes[i].children[c] == 0 || (0 < nodes[i].children[c] < nodes.len()
            && nodes[nodes[i].children[c] as int].parent == i && nodes[nodes[i].children[c] as int].nibble
            == c))
    &&& nodes[i].depth == n ==> forall|s: int| 1 <= s < 15 ==> (#[trigger] nodes[i].results[s]).is_none()
}

/// All nodes are consistent; node 0 is the root.
spec fn nodes_wf<T>(nodes: Seq<Node<T>>, n: nat) -> bool {
    &&& 1 <= nodes.len() <= u32::MAX
    &&& forall|i: int| 0 <= i < nodes.len() ==> #[trigger] node_ok(nodes, n, i)
}

/// The prefix stored in slot `s` of node `i`.
spec fn key_of<T>(nodes: Seq<Node<T>>, i: int, s: int) -> Seq<bool> {
    nibbles_bits(path(nodes, i)) + slot_bits(s)
}

/// Slot `s` of node `i` holds a value for the prefix `k`.
spec fn is_entry<T>(nodes: Seq<Node<T>>, i: int, s: int, k: Seq<bool>) -> bool {
    &&& 0 <= i < nodes.len()
    &&& 0 <= s < 15
    &&& nodes[i].results[s].is_some()
    &&& key_of(nodes, i, s) == k
}

/// The prefixes stored in the tree, with their values.
spec fn view_of<T>(nodes: Seq<Node<T>>) -> Map<Seq<bool>, T> {
    Map::new(
        |k: Seq<bool>| exists|i: int, s: int| #[trigger] is_entry(nodes, i, s, k),
        |k: Seq<bool>|
            {
                let (i, s) = choose|i: int, s: int| #[trigger] is_entry(nodes, i, s, k);
                nodes[i].results[s].unwrap()
            },
    )
}

/// The path of a node has one valid nibble per level and extends the path
/// of its parent by its own nibble.
proof fn lemma_path<T>(nodes: Seq<Node<T>>, n: nat, i: int)
    requires
        nodes_wf(nodes, n),
        0 <= i < nodes.len(),
    ensures
        path(nodes, i).len() == nodes[i].depth,
        all_nibbles(path(nodes, i)),
        i != 0 ==> path(nodes, i) == path(nodes, nodes[i].parent as int).push(nodes[i].nibble),
        nodes[i].depth == 0 ==> i == 0,
    decreases nodes[i].depth,
{
    assert(node_ok(nodes, n, i));
    if i != 0 {
        let p = nodes[i].parent as int;
        assert(node_ok(nodes, n, p));
        lemma_path(nodes, n, p);
        let pp = path(nodes, p);
        assert(path(nodes, i) == pp.push(nodes[i].nibble));
        assert forall|j: int| 0 <= j < path(nodes, i).len() implies #[trigger] path(nodes, i)[j] < 16 by {
            if j < pp.len() {
                assert(path(nodes, i)[j] == pp[j]);
            }
        }
    }
}

/// Different nodes have different paths.
proof fn lemma_path_unique<T>(nodes: Seq<Node<T>>, n: nat, i: int, j: int)
    requires
        nodes_wf(nodes, n),
        0 <= i < nodes.len(),
        0 <= j < nodes.len(),
        path(nodes, i) == path(nodes, j),
    ensures
        i == j,
    decreases nodes[i].depth,
{
    lemma_path(nodes, n, i);
    lemma_path(nodes, n, j);
    assert(node_ok(nodes, n, i));
    assert(node_ok(nodes, n, j));
    assert(node_ok(nodes, n, 0));
    if i != 0 && j != 0 {
        let pi = nodes[i].parent as int;
        let pj = nodes[j].parent as int;
        assert(node_ok(nodes, n, i));
        assert(node_ok(nodes, n, j));
        assert(path(nodes, pi) == path(nodes, i).drop_last());
        assert(path(nodes, pj) == path(nodes, j).drop_last());
        lemma_path_unique(nodes, n, pi, pj);
        assert(nodes[i].nibble == path(nodes, i).last());
        assert(nodes[j].nibble == path(nodes, j).last());
    }
}

/// Every prefix of a node's path is the path of a node.
proof fn lemma_ancestor<T>(nodes: Seq<Node<T>>, n: nat, j: int, k: int) -> (a: int)
    requires
        nodes_wf(nodes, n),
        0 <= j < nodes.len(),
        0 <= k <= nodes[j].depth,
    ensures
        0 <= a < nodes.len(),
        a <= j,
        path(nodes, a) == path(nodes, j).take(k),
    decreases nodes[j].depth - k,
{
    lemma_path(nodes, n, j);
    assert(node_ok(nodes, n, j));
    assert(node_ok(nodes, n, 0));
    if k == nodes[j].depth {
        assert(path(nodes, j).take(k) =~= path(nodes, j));
        j
    } else {
        assert(j != 0);
        assert(node_ok(nodes, n, j));
        let p = nodes[j].parent as int;
        lemma_path(nodes, n, p);
        let a = lemma_ancestor(nodes, n, p, k);
        assert(path(nodes, p).take(k) =~= path(nodes, j).take(k));
        a
    }
}

/// When the path of `cur` is a proper prefix of the path of `j`, `cur` has a
/// child towards `j`, whose path is one nibble longer.
proof fn lemma_descend<T>(nodes: Seq<Node<T>>, n: nat, cur: int, j: int)
    requires
        nodes_wf(nodes, n),
        0 <= cur < nodes.len(),
        0 <= j < nodes.len(),
        path(nodes, cur).len() < path(nodes, j).len(),
        path(nodes, cur) == path(nodes, j).take(path(nodes, cur).len() as int),
    ensures
        ({
            let c = path(nodes, j)[path(nodes, cur).len() as int];
            let child = nodes[cur].children[c as int] as int;
            &&& c < 16
            &&& child != 0
            &&& 0 < child < nodes.len()
            &&& path(nodes, child) == path(nodes, j).take(path(nodes, cur).len() + 1 as int)
        }),
{
    lemma_path(nodes, n, cur);
    lemma_path(nodes, n, j);
    let d = path(nodes, cur).len() as int;
    let a = lemma_ancestor(nodes, n, j, d + 1);
    lemma_path(nodes, n, a);
    assert(node_ok(nodes, n, 0));
    assert(a != 0);
    assert(node_ok(nodes, n, a));
    let p = nodes[a].parent as int;
    assert(path(nodes, p) == path(nodes, a).drop_last());
    assert(path(nodes, a).drop_last() =~= path(nodes, j).take(d));
    lemma_path_unique(nodes, n, p, cur);
    assert(nodes[a].nibble == path(nodes, a).last());
    assert(path(nodes, j)[d] == path(nodes, a)[d]);
    assert(all_nibbles(path(nodes, j)));
    assert(path(nodes, j)[d] < 16);
}

/// A stored prefix that is a proper prefix of another comes from a slot
/// that `entries` reads first: from an ancestor node, or from the same node
/// at a lower slot.
proof fn lemma_nested_order<T>(nodes: Seq<Node<T>>, n: nat, a1: int, b1: int, a2: int, b2: int)
    requires
        nodes_wf(nodes, n),
        0 <= a1 < nodes.len(),
        0 <= a2 < nodes.len(),
        0 <= b1 < 15,
        0 <= b2 < 15,
        key_of(nodes, a1, b1).len() < key_of(nodes, a2, b2).len(),
        key_of(nodes, a2, b2).take(key_of(nodes, a1, b1).len() as int) == key_of(nodes, a1, b1),
    ensures
        15 * a1 + b1 < 15 * a2 + b2,
{
    lemma_path(nodes, n, a1);
    lemma_path(nodes, n, a2);
    lemma_slot_index_bits(b1);
    lemma_slot_index_bits(b2);
    let p1 = path(nodes, a1);
    let p2 = path(nodes, a2);
    let d1 = p1.len() as int;
    let d2 = p2.len() as int;
    let k1 = key_of(nodes, a1, b1);
    let k2 = key_of(nodes, a2, b2);
    assert(k1.len() == 4 * d1 + slot_len(b1));
    assert(k2.len() == 4 * d2 + slot_len(b2));
    assert(d1 <= d2);
    assert(k1.take(4 * d1) =~= nibbles_bits(p1));
    assert(k2.take(4 * d1) =~= k1.take(4 * d1));
    assert(k2.take(4 * d1) =~= nibbles_bits(p2).take(4 * d1));
    lemma_nibbles_bits_take(p2, d1);
    let a = lemma_ancestor(nodes, n, a2, d1);
    lemma_nibbles_bits_injective(p1, p2.take(d1));
    lemma_path_unique(nodes, n, a, a1);
    if a1 == a2 {
        assert(slot_len(b1) < slot_len(b2));
    }
}

/// Two nodes have the same parent link, nibble and depth.
spec fn same_skeleton<T>(a: Node<T>, b: Node<T>) -> bool {
    &&& a.parent == b.parent
    &&& a.nibble == b.nibble
    &&& a.depth == b.depth
}

/// Paths stay as they are when the parent links, nibbles and depths of the
/// existing nodes stay as they are.
proof fn lemma_path_frame<T>(old: Seq<Node<T>>, new: Seq<Node<T>>, i: int, f: nat)
    requires
        old.len() <= new.len(),
        0 <= i < old.len(),
        forall|j: int| 0 <= j < old.len() ==> #[trigger] same_skeleton(old[j], new[j]),
        forall|j: int| 0 <= j < old.len() ==> #[trigger] old[j].parent < old.len(),
    ensures
        path_at(new, i, f) == path_at(old, i, f),
    decreases f,
{
    if f > 0 {
        assert(same_skeleton(old[i], new[i]));
        assert(old[i].parent < old.len());
        lemma_path_frame(old, new, old[i].parent as int, (f - 1) as nat);
    }
}

/// A stored prefix made of the bits of `p` and up to three more bits `t`
/// lives in slot `slot_index(t)` of the node whose path is `p`.
proof fn lemma_key_match<T>(nodes: Seq<Node<T>>, n: nat, i: int, s: int, p: Seq<u8>, t: Seq<bool>)
    requires
        nodes_wf(nodes, n),
        0 <= i < nodes.len(),
        0 <= s < 15,
        all_nibbles(p),
        t.len() <= 3,
        key_of(nodes, i, s) == nibbles_bits(p) + t,
    ensures
        path(nodes, i) == p,
        s == slot_index(t),
{
    lemma_path(nodes, n, i);
    lemma_slot_index_bits(s);
    let q = path(nodes, i);
    let k = key_of(nodes, i, s);
    assert(k.len() == 4 * q.len() + slot_len(s));
    assert(k.len() == 4 * p.len() + t.len());
    assert(q.len() == p.len());
    assert(nibbles_bits(q) =~= k.take(4 * q.len() as int));
    assert(nibbles_bits(p) =~= k.take(4 * p.len() as int));
    lemma_nibbles_bits_injective(q, p);
    assert(slot_bits(s) =~= k.skip(4 * q.len() as int));
    assert(t =~= k.skip(4 * p.len() as int));
}

/// Slot `s` of node `i` holds the value of prefix `key_of(i, s)` in the
/// view, if any.
proof fn lemma_view_slot<T>(nodes: Seq<Node<T>>, n: nat, i: int, s: int)
    requires
        nodes_wf(nodes, n),
        0 <= i < nodes.len(),
        0 <= s < 15,
    ensures
        view_of(nodes).contains_key(key_of(nodes, i, s)) == nodes[i].results[s].is_some(),
        nodes[i].results[s].is_some() ==> view_of(nodes)[key_of(nodes, i, s)] == nodes[i].results[s].unwrap(),
{
    let k = key_of(nodes, i, s);
    lemma_path(nodes, n, i);
    lemma_slot_index_bits(s);
    if nodes[i].results[s].is_some() {
        assert(is_entry(nodes, i, s, k));
        let (i2, s2) = choose|i2: int, s2: int| #[trigger] is_entry(nodes, i2, s2, k);
        lemma_key_match(nodes, n, i2, s2, path(nodes, i), slot_bits(s));
        lemma_path_unique(nodes, n, i2, i);
    } else {
        if view_of(nodes).contains_key(k) {
            let (i2, s2) = choose|i2: int, s2: int| #[trigger] is_entry(nodes, i2, s2, k);
            lemma_key_match(nodes, n, i2, s2, path(nodes, i), slot_bits(s));
            lemma_path_unique(nodes, n, i2, i);
        }
    }
}

/// The first `4 d + r` bits of a nibble string are the bits of its first `d`
/// nibbles followed by the first `r` bits of nibble `d`.
proof fn lemma_key_split(ns: Seq<u8>, d: int, r: int)
    requires
        0 <= d,
        0 <= r < 4,
        d < ns.len() || (d == ns.len() && r == 0),
    ensures
        nibbles_bits(ns).take(4 * d + r) == nibbles_bits(ns.take(d)) + (if r == 0 {
            Seq::<bool>::empty()
        } else {
            nibble_bits(ns[d]).take(r)
        }),
{
    lemma_nibbles_bits_take(ns, d);
    let lhs = nibbles_bits(ns).take(4 * d + r);
    let rhs = nibbles_bits(ns.take(d)) + (if r == 0 {
        Seq::<bool>::empty()
    } else {
        nibble_bits(ns[d]).take(r)
    });
    assert forall|x: int| 0 <= x < lhs.len() implies lhs[x] == rhs[x] by {
        if x >= 4 * d {
            assert(x / 4 == d);
            assert(x % 4 == x - 4 * d);
        } else {
            assert(nibbles_bits(ns.take(d))[x] == nibbles_bits(ns).take(4 * d)[x]);
        }
    }
    assert(lhs =~= rhs);
}

/// No stored prefix extends the bits of `p` by up to three bits when no node
/// has path `p`.
proof fn lemma_no_node_no_key<T>(nodes: Seq<Node<T>>, n: nat, p: Seq<u8>, t: Seq<bool>)
    requires
        nodes_wf(nodes, n),
        all_nibbles(p),
        t.len() <= 3,
        forall|j: int| 0 <= j < nodes.len() ==> path(nodes, j) != p,
    ensures
        !view_of(nodes).contains_key(nibbles_bits(p) + t),
{
    let k = nibbles_bits(p) + t;
    if view_of(nodes).contains_key(k) {
        let (i2, s2) = choose|i2: int, s2: int| #[trigger] is_entry(nodes, i2, s2, k);
        lemma_key_match(nodes, n, i2, s2, p, t);
    }
}

/// Only node `i0`'s slot `s0` changed: every other stored prefix keeps its
/// value, and the prefix of that slot is stored exactly when the slot holds a
/// value.
proof fn lemma_view_update<T>(old: Seq<Node<T>>, new: Seq<Node<T>>, n: nat, i0: int, s0: int)
    requires
        nodes_wf(old, n),
        nodes_wf(new, n),
        old.len() == new.len(),
        0 <= i0 < old.len(),
        0 <= s0 < 15,
        forall|i: int|
            0 <= i < old.len() ==> #[trigger] new[i].parent == old[i].parent && new[i].nibble == old[i].nibble
                && new[i].depth == old[i].depth,
        forall|i: int, s: int|
            0 <= i < old.len() && 0 <= s < 15 && !(i == i0 && s == s0) ==> #[trigger] new[i].results[s]
                == old[i].results[s],
    ensures
        key_of(new, i0, s0) == key_of(old, i0, s0),
        forall|k: Seq<bool>|
            #![trigger view_of(new).contains_key(k)]
            #![trigger view_of(old).contains_key(k)]
            k != key_of(old, i0, s0) ==> (view_of(new).contains_key(k) == view_of(old).contains_key(k)) && (
            view_of(new).contains_key(k) ==> view_of(new)[k] == view_of(old)[k]),
        view_of(new).contains_key(key_of(old, i0, s0)) == new[i0].results[s0].is_some(),
        new[i0].results[s0].is_some() ==> view_of(new)[key_of(old, i0, s0)] == new[i0].results[s0].unwrap(),
{
    assert forall|i: int| 0 <= i < old.len() implies #[trigger] path(new, i) == path(old, i) by {
        assert forall|j: int| 0 <= j < old.len() implies #[trigger] old[j].parent < old.len() by {
            assert(node_ok(old, n, j));
        }
        assert forall|j: int| 0 <= j < old.len() implies #[trigger] same_skeleton(old[j], new[j]) by {
            assert(new[j].parent == old[j].parent);
        }
        lemma_path_frame(old, new, i, old[i].depth as nat);
    }
    lemma_view_slot(new, n, i0, s0);
    assert forall|k: Seq<bool>|
        #![trigger view_of(new).contains_key(k)]
        #![trigger view_of(old).contains_key(k)]
        k != key_of(old, i0, s0) implies (view_of(new).contains_key(k)
        == view_of(old).contains_key(k)) && (view_of(new).contains_key(k) ==> view_of(new)[k]
        == view_of(old)[k]) by {
        if view_of(new).contains_key(k) {
            let (i, s) = choose|i: int, s: int| #[trigger] is_entry(new, i, s, k);
            if i == i0 && s == s0 {
                assert(key_of(new, i0, s0) == key_of(old, i0, s0));
                assert(false);
            }
            assert(path(new, i) == path(old, i));
            assert(new[i].results[s] == old[i].results[s]);
            assert(is_entry(old, i, s, k));
            lemma_view_slot(new, n, i, s);
            lemma_view_slot(old, n, i, s);
        }
        if view_of(old).contains_key(k) {
            let (i, s) = choose|i: int, s: int| #[trigger] is_entry(old, i, s, k);
            if i == i0 && s == s0 {
                assert(key_of(new, i0, s0) == key_of(old, i0, s0));
                assert(false);
            }
            assert(path(new, i) == path(old, i));
            assert(new[i].results[s] == old[i].results[s]);
            assert(is_entry(new, i, s, k));
        }
    }
}

/// Adding empty nodes and child links leaves the stored prefixes as they are.
proof fn lemma_view_grow<T>(old: Seq<Node<T>>, new: Seq<Node<T>>, n: nat)
    requires
        nodes_wf(old, n),
        nodes_wf(new, n),
        old.len() <= new.len(),
        forall|i: int|
            0 <= i < old.len() ==> #[trigger] new[i].parent == old[i].parent && new[i].nibble == old[i].nibble
                && new[i].depth == old[i].depth && new[i].results == old[i].results,
        forall|i: int, s: int| old.len() <= i < new.len() && 0 <= s < 15 ==> (#[trigger] new[i].results[s]).is_none(),
    ensures
        view_of(new) == view_of(old),
{
    assert forall|i: int| 0 <= i < old.len() implies #[trigger] path(new, i) == path(old, i) by {
        assert forall|j: int| 0 <= j < old.len() implies #[trigger] old[j].parent < old.len() by {
            assert(node_ok(old, n, j));
        }
        assert forall|j: int| 0 <= j < old.len() implies #[trigger] same_skeleton(old[j], new[j]) by {
            assert(new[j].parent == old[j].parent);
        }
        lemma_path_frame(old, new, i, old[i].depth as nat);
    }
    assert forall|k: Seq<bool>| #[trigger] view_of(new).contains_key(k) == view_of(old).contains_key(k) && (
    view_of(new).contains_key(k) ==> view_of(new)[k] == view_of(old)[k]) by {
        if view_of(new).contains_key(k) {
            let (i, s) = choose|i: int, s: int| #[trigger] is_entry(new, i, s, k);
            if i >= old.len() {
                assert(new[i].results[s].is_none());
            }
            assert(new[i].parent == old[i].parent);
            assert(path(new, i) == path(old, i));
            assert(is_entry(old, i, s, k));
            lemma_view_slot(new, n, i, s);
            lemma_view_slot(old, n, i, s);
        }
        if view_of(old).contains_key(k) {
            let (i, s) = choose|i: int, s: int| #[trigger] is_entry(old, i, s, k);
            assert(new[i].parent == old[i].parent);
            assert(path(new, i) == path(old, i));
            assert(is_entry(new, i, s, k));
        }
    }
    assert(view_of(new) =~= view_of(old));
}

/// The node depth and result slot of the first `masklen` bits of `nibbles`:
/// the node at depth `masklen / 4`, and the slot of the remaining bits.
fn key_position(nibbles: &[u8], masklen: u32) -> (r: (usize, usize))
    requires
        all_nibbles(nibbles@),
        masklen <= 4 * nibbles@.len(),
    ensures
        r.0 <= nibbles@.len(),
        r.1 < 15,
        r.0 == nibbles@.len() ==> r.1 == 0,
        4 * r.0 + slot_len(r.1 as int) == masklen,
        nibbles_bits(nibbles@.take(r.0 as int)) + slot_bits(r.1 as int) == nibbles_bits(nibbles@).take(masklen as int),
    no_unwind
{
    let d = (masklen / 4) as usize;
    let rem = masklen % 4;
    let s = if rem == 0 {
        0
    } else {
        slot_of(nibbles[d], rem)
    };
    proof {
        let ns = nibbles@;
        lemma_key_split(ns, d as int, rem as int);
        if rem == 0 {
            assert(slot_bits(0) =~= Seq::<bool>::empty());
        } else {
            assert(ns[d as int] < 16);
            lemma_slot_bits_index(nibble_bits(ns[d as int]).take(rem as int));
        }
        lemma_slot_index_bits(s as int);
    }
    (d, s)
}

/// When the walk along `nibbles` stops at depth `k` for want of a child, no
/// prefix of the nibbles longer than `4 k + 3` bits is stored.
proof fn lemma_absent_beyond<T>(nodes: Seq<Node<T>>, n: nat, ns: Seq<u8>, cur: int, k: int)
    requires
        nodes_wf(nodes, n),
        all_nibbles(ns),
        ns.len() == n,
        0 <= k < n,
        0 <= cur < nodes.len(),
        path(nodes, cur) == ns.take(k),
        nodes[cur].children[ns[k] as int] == 0,
    ensures
        forall|l: int| 4 * k + 4 <= l <= 4 * n ==> !#[trigger] view_of(nodes).contains_key(nibbles_bits(ns).take(l)),
{
    assert forall|l: int| 4 * k + 4 <= l <= 4 * n implies !#[trigger] view_of(nodes).contains_key(
        nibbles_bits(ns).take(l),
    ) by {
        let d = l / 4;
        let r = l % 4;
        lemma_key_split(ns, d, r);
        let t = if r == 0 {
            Seq::<bool>::empty()
        } else {
            nibble_bits(ns[d]).take(r)
        };
        let p = ns.take(d);
        assert(all_nibbles(p)) by {
            assert forall|x: int| 0 <= x < p.len() implies #[trigger] p[x] < 16 by {
                assert(p[x] == ns[x]);
            }
        }
        if view_of(nodes).contains_key(nibbles_bits(ns).take(l)) {
            let key = nibbles_bits(ns).take(l);
            let (i2, s2) = choose|i2: int, s2: int| #[trigger] is_entry(nodes, i2, s2, key);
            lemma_key_match(nodes, n, i2, s2, p, t);
            lemma_path(nodes, n, cur);
            lemma_path(nodes, n, i2);
            assert(path(nodes, cur) =~= path(nodes, i2).take(k));
            lemma_descend(nodes, n, cur, i2);
            assert(path(nodes, i2)[k] == ns[k]);
        }
    }
}

/// `after` is `before` with slot `s` of node `i` possibly rewritten and
/// nothing else changed.
spec fn slot_rewritten<T>(before: Seq<Node<T>>, after: Seq<Node<T>>, i: int, s: int) -> bool {
    &&& after.len() == before.len()
    &&& forall|j: int| 0 <= j < before.len() && j != i ==> after[j] == before[j]
    &&& after[i].children == before[i].children
    &&& after[i].parent == before[i].parent
    &&& after[i].nibble == before[i].nibble
    &&& after[i].depth == before[i].depth
    &&& after[i].results[s].is_some() == before[i].results[s].is_some()
    &&& forall|t: int| 0 <= t < 15 && t != s ==> after[i].results[t] == before[i].results[t]
}

/// Rewriting the value of a slot, without emptying or filling it, keeps the
/// tree well-formed and rewrites the value of its prefix.
proof fn lemma_slot_rewrite<T>(before: Seq<Node<T>>, n: nat, i: int, s: int)
    requires
        nodes_wf(before, n),
        0 <= i < before.len(),
        0 <= s < 15,
    ensures
        forall|after: Seq<Node<T>>|
            #![trigger nodes_wf(after, n)]
            #![trigger view_of(after)]
            slot_rewritten(before, after, i, s) ==> nodes_wf(after, n) && view_of(after) == (if after[i].results[s].is_some() {
                view_of(before).insert(key_of(before, i, s), after[i].results[s].unwrap())
            } else {
                view_of(before)
            }),
{
    assert forall|after: Seq<Node<T>>|
        #![trigger nodes_wf(after, n)]
        #![trigger view_of(after)]
        slot_rewritten(before, after, i, s) implies nodes_wf(after, n) && view_of(after) == (if after[i].results[s].is_some() {
            view_of(before).insert(key_of(before, i, s), after[i].results[s].unwrap())
        } else {
            view_of(before)
        }) by {
        assert forall|j: int| 0 <= j < after.len() implies #[trigger] node_ok(after, n, j) by {
            assert(node_ok(before, n, j));
            if j != 0 {
                assert(node_ok(before, n, before[j].parent as int));
            }
            assert forall|cc: int| 0 <= cc < 16 implies (#[trigger] after[j].children[cc] == 0 || (0
                < after[j].children[cc] < after.len() && after[after[j].children[cc] as int].parent == j
                && after[after[j].children[cc] as int].nibble == cc)) by {
                assert(after[j].children[cc] == before[j].children[cc]);
            }
            if before[j].depth == n {
                assert forall|t: int| 1 <= t < 15 implies (#[trigger] after[j].results[t]).is_none() by {
                    if j == i && t == s {
                        assert(before[i].results[s].is_none());
                    }
                }
            }
        }
        assert forall|j: int| 0 <= j < before.len() implies #[trigger] after[j].parent == before[j].parent
            && after[j].nibble == before[j].nibble && after[j].depth == before[j].depth by {
        }
        assert forall|j: int, t: int|
            0 <= j < before.len() && 0 <= t < 15 && !(j == i && t == s) implies #[trigger] after[j].results[t]
            == before[j].results[t] by {
        }
        lemma_view_update(before, after, n, i, s);
        lemma_view_slot(before, n, i, s);
        if after[i].results[s].is_some() {
            assert(view_of(after) =~= view_of(before).insert(key_of(before, i, s), after[i].results[s].unwrap()));
        } else {
            assert(view_of(after) =~= view_of(before));
        }
    }
}

/// The stored prefix that an entry `(nibbles, masklen, value)` stands for:
/// the first `masklen` bits of the nibbles.
pub open spec fn entry_key<T>(e: (Vec<u8>, u32, T)) -> Seq<bool> {
    nibbles_bits(e.0@).take(e.1 as int)
}

/// A prefix tree over strings of nibbles.
#[derive(Debug)]
pub struct TreeBitmap<T> {
    nodes: Vec<Node<T>>,
    len: usize,
}

impl<T: Copy> TreeBitmap<T> {
    /// The stored prefixes, as strings of bits, with their values.
    pub closed spec fn view(&self) -> Map<Seq<bool>, T> {
        view_of(self.nodes@)
    }

    /// Well-formedness for nibble strings of length `n`.
    pub closed spec fn wf(&self, n: nat) -> bool {
        &&& nodes_wf(self.nodes@, n)
        &&& view_of(self.nodes@).dom().finite()
        &&& self.len == view_of(self.nodes@).len()
    }

    /// The number of nodes.
    pub closed spec fn node_count(&self) -> nat {
        self.nodes@.len()
    }

    /// A well-formed tree stores finitely many prefixes.
    pub proof fn lemma_wf(&self, n: nat)
        requires
            self.wf(n),
        ensures
            self@.dom().finite(),
    {
    }

    /// The index of the node whose path is the first `d` nibbles, if any.
    fn find_node(&self, Ghost(n): Ghost<nat>, nibbles: &[u8], d: usize) -> (r: Option<usize>)
        requires
            self.wf(n),
            all_nibbles(nibbles@),
            d <= nibbles@.len(),
        ensures
            match r {
                Some(i) => i < self.nodes@.len() && path(self.nodes@, i as int) == nibbles@.take(d as int),
                None => forall|j: int| 0 <= j < self.nodes@.len() ==> path(self.nodes@, j) != nibbles@.take(d as int),
            },
        no_unwind
    {
        let ghost nodes = self.nodes@;
        let mut cur: usize = 0;
        let mut k: usize = 0;
        proof {
            assert(node_ok(nodes, n, 0));
            assert(path(nodes, 0) =~= nibbles@.take(0));
        }
        while k < d
            invariant
                self.wf(n),
                nodes == self.nodes@,
                all_nibbles(nibbles@),
                k <= d <= nibbles@.len(),
                cur < nodes.len(),
                path(nodes, cur as int) == nibbles@.take(k as int),
            decreases d - k,
        {
            let c = nibbles[k];
            let child = self.nodes[cur].children[c as usize];
            if child == 0 {
                proof {
                    assert forall|j: int| 0 <= j < nodes.len() implies path(nodes, j) != nibbles@.take(d as int) by {
                        if path(nodes, j) == nibbles@.take(d as int) {
                            lemma_path(nodes, n, j);
                            lemma_path(nodes, n, cur as int);
                            assert(path(nodes, cur as int) =~= path(nodes, j).take(k as int));
                            lemma_descend(nodes, n, cur as int, j);
                            assert(path(nodes, j)[k as int] == c);
                        }
                    }
                }
                return None;
            }
            proof {
                assert(node_ok(nodes, n, cur as int));
                assert(node_ok(nodes, n, child as int));
                lemma_path(nodes, n, child as int);
                assert(path(nodes, child as int) =~= nibbles@.take(k + 1));
            }
            cur = child as usize;
            k = k + 1;
        }
        Some(cur)
    }

    /// An empty tree: just the root.
    pub fn new() -> (r: TreeBitmap<T>)
        ensures
            forall|n: nat| r.wf(n),
            r@ == Map::<Seq<bool>, T>::empty(),
            r.node_count() == 1,
    {
        Self::with_capacity(0)
    }

    /// An empty tree with room for `n` nodes.
    pub fn with_capacity(n: usize) -> (r: TreeBitmap<T>)
        ensures
            forall|m: nat| r.wf(m),
            r@ == Map::<Seq<bool>, T>::empty(),
            r.node_count() == 1,
    {
        let mut nodes: Vec<Node<T>> = Vec::with_capacity(n);
        nodes.push(Node { children: [0u32; 16], results: [None; 15], parent: 0, nibble: 0, depth: 0 });
        let r = TreeBitmap { nodes, len: 0 };
        proof {
            assert forall|m: nat| r.wf(m) by {
                assert(node_ok(r.nodes@, m, 0));
                assert(view_of(r.nodes@) =~= Map::<Seq<bool>, T>::empty()) by {
                    assert forall|k: Seq<bool>| !view_of(r.nodes@).contains_key(k) by {
                        if view_of(r.nodes@).contains_key(k) {
                            let (i, s) = choose|i: int, s: int| #[trigger] is_entry(r.nodes@, i, s, k);
                        }
                    }
                }
            }
            assert(view_of(r.nodes@) =~= Map::<Seq<bool>, T>::empty()) by {
                assert forall|k: Seq<bool>| !view_of(r.nodes@).contains_key(k) by {
                    if view_of(r.nodes@).contains_key(k) {
                        let (i, s) = choose|i: int, s: int| #[trigger] is_entry(r.nodes@, i, s, k);
                    }
                }
            }
        }
        r
    }

    /// The number of nodes.
    pub fn nodes_len(&self) -> (r: usize)
        ensures
            r == self.node_count(),
    {
        self.nodes.len()
    }

    /// The number of stored prefixes.
    pub fn len(&self, Ghost(n): Ghost<nat>) -> (r: usize)
        requires
            self.wf(n),
        ensures
            r == self@.len(),
    {
        self.len
    }

    /// Bytes reserved for the nodes, result slots included, and bytes taken
    /// by the stored values, each capped at `usize::MAX`. The reservation
    /// depends on the memory allocator; it is at least what the nodes take.
    pub fn mem_usage(&self, Ghost(n): Ghost<nat>) -> (r: (usize, usize))
        requires
            self.wf(n),
        ensures
            r.0 >= saturate((vstd::layout::size_of::<Node<T>>() * self.node_count()) as int),
            r.1 == saturate((vstd::layout::size_of::<T>() * self@.len()) as int),
    {
        let cap = vec_capacity(&self.nodes);
        let node_bytes = saturating_product(core::mem::size_of::<Node<T>>(), cap);
        proof {
            lemma_bytes_mono(core::mem::size_of::<Node<T>>(), cap, self.nodes@.len());
        }
        (node_bytes, saturating_product(core::mem::size_of::<T>(), self.len))
    }

    /// The value stored for the first `masklen` bits of `nibbles`.
    pub fn exact_match(&self, nibbles: &[u8], masklen: u32) -> (r: Option<&T>)
        requires
            self.wf(nibbles@.len()),
            all_nibbles(nibbles@),
            masklen <= 4 * nibbles@.len(),
        ensures
            r.is_some() == self@.contains_key(nibbles_bits(nibbles@).take(masklen as int)),
            r.is_some() ==> *r.unwrap() == self@[nibbles_bits(nibbles@).take(masklen as int)],
    {
        let ghost n = nibbles@.len();
        let (d, s) = key_position(nibbles, masklen);
        match self.find_node(Ghost(n), nibbles, d) {
            None => {
                proof {
                    lemma_no_node_no_key(self.nodes@, n, nibbles@.take(d as int), slot_bits(s as int));
                    lemma_slot_index_bits(s as int);
                }
                None
            },
            Some(i) => {
                proof {
                    lemma_view_slot(self.nodes@, n, i as int, s as int);
                }
                match &self.nodes[i].results[s] {
                    Some(v) => Some(v),
                    None => None,
                }
            },
        }
    }

    /// Store `value` for the first `masklen` bits of `nibbles`; returns the
    /// value stored before, if any.
    pub fn insert(&mut self, nibbles: &[u8], masklen: u32, value: T) -> (r: Option<T>)
        requires
            old(self).wf(nibbles@.len()),
            all_nibbles(nibbles@),
            nibbles@.len() <= 32,
            masklen <= 4 * nibbles@.len(),
            old(self).node_count() + nibbles@.len() <= u32::MAX,
            old(self)@.len() < usize::MAX,
        ensures
            final(self).wf(nibbles@.len()),
            final(self)@ == old(self)@.insert(nibbles_bits(nibbles@).take(masklen as int), value),
            r == map_get(old(self)@, nibbles_bits(nibbles@).take(masklen as int)),
            final(self).node_count() <= old(self).node_count() + nibbles@.len(),
    {
        let ghost n = nibbles@.len();
        let ghost old_nodes = self.nodes@;
        let (d, s) = key_position(nibbles, masklen);
        let mut cur: usize = 0;
        let mut k: usize = 0;
        proof {
            assert(node_ok(self.nodes@, n, 0));
            assert(path(self.nodes@, 0) =~= nibbles@.take(0));
        }
        while k < d
            invariant
                self.wf(n),
                self.len == old(self).len,
                view_of(self.nodes@) == view_of(old_nodes),
                all_nibbles(nibbles@),
                n == nibbles@.len(),
                k <= d <= n,
                n <= 32,
                cur < self.nodes@.len(),
                path(self.nodes@, cur as int) == nibbles@.take(k as int),
                self.nodes@.len() <= old_nodes.len() + k,
                old_nodes.len() + n <= u32::MAX,
            decreases d - k,
        {
            let ghost before = self.nodes@;
            let c = nibbles[k];
            let child = self.nodes[cur].children[c as usize];
            proof {
                assert(node_ok(before, n, cur as int));
                lemma_path(before, n, cur as int);
            }
            if child == 0 {
                let new_index = self.nodes.len() as u32;
                let depth = self.nodes[cur].depth + 1;
                let node = Node { children: [0u32; 16], results: [None; 15], parent: cur as u32, nibble: c, depth };
                self.nodes.push(node);
                let mut parent = self.nodes[cur];
                parent.children[c as usize] = new_index;
                self.nodes.set(cur, parent);
                proof {
                    let after = self.nodes@;
                    assert forall|i: int| 0 <= i < after.len() implies #[trigger] node_ok(after, n, i) by {
                        if i < before.len() {
                            assert(node_ok(before, n, i));
                            if i != 0 {
                                let p = before[i].parent as int;
                                assert(node_ok(before, n, p));
                                if p == cur as int {
                                    assert(before[p].children[before[i].nibble as int] == i);
                                    assert(before[i].nibble != c);
                                }
                            }
                            assert forall|cc: int| 0 <= cc < 16 implies (#[trigger] after[i].children[cc] == 0 || (0
                                < after[i].children[cc] < after.len() && after[after[i].children[cc] as int].parent
                                == i && after[after[i].children[cc] as int].nibble == cc)) by {
                                if !(i == cur as int && cc == c as int) {
                                    assert(after[i].children[cc] == before[i].children[cc]);
                                }
                            }
                        } else {
                            assert(i == before.len());
                            assert(after[i].depth <= n);
                            assert forall|cc: int| 0 <= cc < 16 implies (#[trigger] after[i].children[cc] == 0 || (0
                                < after[i].children[cc] < after.len() && after[after[i].children[cc] as int].parent
                                == i && after[after[i].children[cc] as int].nibble == cc)) by {
                            }
                        }
                    }
                    lemma_view_grow(before, after, n);
                    lemma_path(after, n, new_index as int);
                    assert(path(after, cur as int) == path(before, cur as int)) by {
                        assert forall|j: int| 0 <= j < before.len() implies #[trigger] before[j].parent < before.len() by {
                            assert(node_ok(before, n, j));
                        }
                        assert forall|j: int| 0 <= j < before.len() implies #[trigger] same_skeleton(before[j], after[j]) by {
                        }
                        lemma_path_frame(before, after, cur as int, before[cur as int].depth as nat);
                    }
                    assert(path(after, new_index as int) =~= nibbles@.take(k + 1));
                }
                cur = new_index as usize;
            } else {
                proof {
                    assert(node_ok(before, n, child as int));
                    lemma_path(before, n, child as int);
                    assert(path(before, child as int) =~= nibbles@.take(k + 1));
                }
                cur = child as usize;
            }
            k = k + 1;
        }
        let ghost before = self.nodes@;
        let old_value = self.nodes[cur].results[s];
        let mut node = self.nodes[cur];
        node.results[s] = Some(value);
        self.nodes.set(cur, node);
        proof {
            let after = self.nodes@;
            lemma_path(before, n, cur as int);
            assert forall|i: int| 0 <= i < after.len() implies #[trigger] node_ok(after, n, i) by {
                assert(node_ok(before, n, i));
                if i != 0 {
                    assert(node_ok(before, n, before[i].parent as int));
                }
                assert forall|cc: int| 0 <= cc < 16 implies (#[trigger] after[i].children[cc] == 0 || (0
                    < after[i].children[cc] < after.len() && after[after[i].children[cc] as int].parent == i
                    && after[after[i].children[cc] as int].nibble == cc)) by {
                    assert(after[i].children[cc] == before[i].children[cc]);
                }
            }
            lemma_view_slot(before, n, cur as int, s as int);
            lemma_view_update(before, after, n, cur as int, s as int);
            let key = nibbles_bits(nibbles@).take(masklen as int);
            assert(key_of(before, cur as int, s as int) == key);
            assert(view_of(after) =~= view_of(before).insert(key, value));
        }
        if old_value.is_none() {
            self.len = self.len + 1;
        }
        old_value
    }

    /// Remove the value stored for the first `masklen` bits of `nibbles`;
    /// returns it, if there was one. Nodes are kept.
    pub fn remove(&mut self, nibbles: &[u8], masklen: u32) -> (r: Option<T>)
        requires
            old(self).wf(nibbles@.len()),
            all_nibbles(nibbles@),
            masklen <= 4 * nibbles@.len(),
        ensures
            final(self).wf(nibbles@.len()),
            final(self)@ == old(self)@.remove(nibbles_bits(nibbles@).take(masklen as int)),
            r == map_get(old(self)@, nibbles_bits(nibbles@).take(masklen as int)),
            final(self).node_count() == old(self).node_count(),
    {
        let ghost n = nibbles@.len();
        let (d, s) = key_position(nibbles, masklen);
        let ghost key = nibbles_bits(nibbles@).take(masklen as int);
        match self.find_node(Ghost(n), nibbles, d) {
            None => {
                proof {
                    lemma_no_node_no_key(self.nodes@, n, nibbles@.take(d as int), slot_bits(s as int));
                    assert(self@.remove(key) =~= self@);
                }
                None
            },
            Some(cur) => {
                let ghost before = self.nodes@;
                let old_value = self.nodes[cur].results[s];
                let mut node = self.nodes[cur];
                node.results[s] = None;
                self.nodes.set(cur, node);
                proof {
                    let after = self.nodes@;
                    assert forall|i: int| 0 <= i < after.len() implies #[trigger] node_ok(after, n, i) by {
                        assert(node_ok(before, n, i));
                        if i != 0 {
                            assert(node_ok(before, n, before[i].parent as int));
                        }
                        assert forall|cc: int| 0 <= cc < 16 implies (#[trigger] after[i].children[cc] == 0 || (0
                            < after[i].children[cc] < after.len() && after[after[i].children[cc] as int].parent
                            == i && after[after[i].children[cc] as int].nibble == cc)) by {
                            assert(after[i].children[cc] == before[i].children[cc]);
                        }
                    }
                    lemma_view_slot(before, n, cur as int, s as int);
                    lemma_view_update(before, after, n, cur as int, s as int);
                    assert(key_of(before, cur as int, s as int) == key);
                    assert(view_of(after) =~= view_of(before).remove(key));
                }
                if old_value.is_some() {
                    self.len = self.len - 1;
                }
                old_value
            },
        }
    }

    /// Whether slot `s` of node `cur` holds a value, where `s` is the slot of
    /// the first `4 k + r` bits of `nibbles` and `cur` the node of their first
    /// `k` nibbles.
    fn slot_for(&self, Ghost(n): Ghost<nat>, nibbles: &[u8], cur: usize, k: usize, r: u32) -> (s: usize)
        requires
            self.wf(n),
            all_nibbles(nibbles@),
            nibbles@.len() == n,
            k <= n,
            n <= 32,
            r < 4,
            k == n ==> r == 0,
            cur < self.nodes@.len(),
            path(self.nodes@, cur as int) == nibbles@.take(k as int),
        ensures
            s < 15,
            key_of(self.nodes@, cur as int, s as int) == nibbles_bits(nibbles@).take(4 * k + r),
            self@.contains_key(nibbles_bits(nibbles@).take(4 * k + r)) == self.nodes@[cur as int].results[s as int].is_some(),
            self.nodes@[cur as int].results[s as int].is_some() ==> self@[nibbles_bits(nibbles@).take(4 * k + r)]
                == self.nodes@[cur as int].results[s as int].unwrap(),
        no_unwind
    {
        let (d, s) = key_position(nibbles, 4 * (k as u32) + r);
        proof {
            lemma_slot_index_bits(s as int);
            assert(d == k);
            lemma_view_slot(self.nodes@, n, cur as int, s as int);
        }
        s
    }

    /// Where the longest stored prefix of `nibbles` lives: its length in
    /// bits, its node and its slot.
    fn longest_position(&self, nibbles: &[u8], n_exec: usize) -> (r: Option<(u32, usize, usize)>)
        requires
            n_exec == nibbles@.len(),
            self.wf(nibbles@.len()),
            all_nibbles(nibbles@),
            nibbles@.len() <= 32,
        ensures
            match r {
                None => forall|l: int|
                    0 <= l <= 4 * nibbles@.len() ==> !#[trigger] self@.contains_key(nibbles_bits(nibbles@).take(l)),
                Some((len, i, s)) => {
                    &&& len <= 4 * nibbles@.len()
                    &&& i < self.nodes@.len()
                    &&& s < 15
                    &&& self.nodes@[i as int].results[s as int].is_some()
                    &&& key_of(self.nodes@, i as int, s as int) == nibbles_bits(nibbles@).take(len as int)
                    &&& self@.contains_key(nibbles_bits(nibbles@).take(len as int))
                    &&& self@[nibbles_bits(nibbles@).take(len as int)] == self.nodes@[i as int].results[s as int].unwrap()
                    &&& forall|l: int|
                        len < l <= 4 * nibbles@.len() ==> !#[trigger] self@.contains_key(nibbles_bits(nibbles@).take(l))
                },
            },
        no_unwind
    {
        let ghost n = nibbles@.len();
        let ghost nodes = self.nodes@;
        let ghost bits = nibbles_bits(nibbles@);
        let mut found = false;
        let mut best_len: u32 = 0;
        let mut best_node: usize = 0;
        let mut best_slot: usize = 0;
        let mut cur: usize = 0;
        let mut k: usize = 0;
        proof {
            assert(node_ok(nodes, n, 0));
            assert(path(nodes, 0) =~= nibbles@.take(0));
        }
        loop
            invariant_except_break
                found ==> {
                    &&& best_len < 4 * k
                    &&& best_node < nodes.len()
                    &&& best_slot < 15
                    &&& nodes[best_node as int].results[best_slot as int].is_some()
                    &&& key_of(nodes, best_node as int, best_slot as int) == bits.take(best_len as int)
                    &&& self@.contains_key(bits.take(best_len as int))
                    &&& self@[bits.take(best_len as int)] == nodes[best_node as int].results[best_slot as int].unwrap()
                },
                forall|l: int|
                    (if found {
                        best_len as int
                    } else {
                        -1
                    }) < l < 4 * k ==> !#[trigger] self@.contains_key(bits.take(l)),
            invariant
                self.wf(n),
                nodes == self.nodes@,
                n == nibbles@.len(),
                n_exec == n,
                n <= 32,
                all_nibbles(nibbles@),
                bits == nibbles_bits(nibbles@),
                k <= n,
                cur < nodes.len(),
                path(nodes, cur as int) == nibbles@.take(k as int),
            ensures
                found ==> {
                    &&& best_len <= 4 * n
                    &&& best_node < nodes.len()
                    &&& best_slot < 15
                    &&& nodes[best_node as int].results[best_slot as int].is_some()
                    &&& key_of(nodes, best_node as int, best_slot as int) == bits.take(best_len as int)
                    &&& self@.contains_key(bits.take(best_len as int))
                    &&& self@[bits.take(best_len as int)] == nodes[best_node as int].results[best_slot as int].unwrap()
                },
                forall|l: int|
                    (if found {
                        best_len as int
                    } else {
                        -1
                    }) < l <= 4 * n ==> !#[trigger] self@.contains_key(bits.take(l)),
            decreases n - k,
        {
            let maxr: u32 = if k < n_exec {
                3
            } else {
                0
            };
            let mut r: u32 = 0;
            while r <= maxr
                invariant
                    self.wf(n),
                    nodes == self.nodes@,
                    n == nibbles@.len(),
                    n_exec == n,
                    n <= 32,
                    all_nibbles(nibbles@),
                    bits == nibbles_bits(nibbles@),
                    k <= n,
                    maxr == (if k < n {
                        3u32
                    } else {
                        0u32
                    }),
                    r <= maxr + 1,
                    cur < nodes.len(),
                    path(nodes, cur as int) == nibbles@.take(k as int),
                    found ==> {
                        &&& best_len < 4 * k + r
                        &&& best_node < nodes.len()
                        &&& best_slot < 15
                        &&& nodes[best_node as int].results[best_slot as int].is_some()
                        &&& key_of(nodes, best_node as int, best_slot as int) == bits.take(best_len as int)
                        &&& self@.contains_key(bits.take(best_len as int))
                        &&& self@[bits.take(best_len as int)] == nodes[best_node as int].results[best_slot as int].unwrap()
                    },
                    forall|l: int|
                        (if found {
                            best_len as int
                        } else {
                            -1
                        }) < l < 4 * k + r ==> !#[trigger] self@.contains_key(bits.take(l)),
                decreases maxr + 1 - r,
            {
                let s = self.slot_for(Ghost(n), nibbles, cur, k, r);
                if match &self.nodes[cur].results[s] {
                    Some(_) => true,
                    None => false,
                } {
                    found = true;
                    best_len = 4 * (k as u32) + r;
                    best_node = cur;
                    best_slot = s;
                }
                r = r + 1;
            }
            if k == n_exec {
                break;
            }
            let c = nibbles[k];
            let child = self.nodes[cur].children[c as usize];
            if child == 0 {
                proof {
                    lemma_absent_beyond(nodes, n, nibbles@, cur as int, k as int);
                }
                break;
            }
            proof {
                assert(node_ok(nodes, n, cur as int));
                assert(node_ok(nodes, n, child as int));
                lemma_path(nodes, n, child as int);
                assert(path(nodes, child as int) =~= nibbles@.take(k + 1));
            }
            cur = child as usize;
            k = k + 1;
        }
        if found {
            Some((best_len, best_node, best_slot))
        } else {
            None
        }
    }

    /// The longest stored prefix of `nibbles`: its length in bits and its value.
    pub fn longest_match(&self, nibbles: &[u8]) -> (r: Option<(u32, &T)>)
        requires
            self.wf(nibbles@.len()),
            all_nibbles(nibbles@),
            nibbles@.len() <= 32,
        ensures
            match r {
                None => forall|l: int|
                    0 <= l <= 4 * nibbles@.len() ==> !#[trigger] self@.contains_key(nibbles_bits(nibbles@).take(l)),
                Some((len, v)) => {
                    &&& len <= 4 * nibbles@.len()
                    &&& self@.contains_key(nibbles_bits(nibbles@).take(len as int))
                    &&& *v == self@[nibbles_bits(nibbles@).take(len as int)]
                    &&& forall|l: int|
                        len < l <= 4 * nibbles@.len() ==> !#[trigger] self@.contains_key(nibbles_bits(nibbles@).take(l))
                },
            },
    {
        match self.longest_position(nibbles, nibbles.len()) {
            Some((len, i, s)) => match &self.nodes[i].results[s] {
                Some(v) => Some((len, v)),
                None => None,
            },
            None => None,
        }
    }

    /// The longest stored prefix of `nibbles`: its length in bits and its
    /// value, to be changed in place. `len` is the number of nibbles.
    pub fn longest_match_mut(&mut self, nibbles: &[u8], len: usize) -> (r: Option<(u32, &mut T)>)
        requires
            len == nibbles@.len(),
            old(self).wf(nibbles@.len()),
            all_nibbles(nibbles@),
            nibbles@.len() <= 32,
        ensures
            match r {
                None => {
                    &&& forall|l: int|
                        0 <= l <= 4 * nibbles@.len() ==> !#[trigger] old(self)@.contains_key(
                            nibbles_bits(nibbles@).take(l),
                        )
                    &&& final(self).wf(nibbles@.len())
                    &&& final(self)@ == old(self)@
                    &&& final(self).node_count() == old(self).node_count()
                },
                Some((len, v)) => {
                    &&& len <= 4 * nibbles@.len()
                    &&& old(self)@.contains_key(nibbles_bits(nibbles@).take(len as int))
                    &&& *v == old(self)@[nibbles_bits(nibbles@).take(len as int)]
                    &&& forall|l: int|
                        len < l <= 4 * nibbles@.len() ==> !#[trigger] old(self)@.contains_key(
                            nibbles_bits(nibbles@).take(l),
                        )
                    &&& final(self).wf(nibbles@.len())
                    &&& final(self)@ == old(self)@.insert(nibbles_bits(nibbles@).take(len as int), *final(v))
                    &&& final(self).node_count() == old(self).node_count()
                },
            },
        no_unwind
    {
        let ghost n = nibbles@.len();
        match self.longest_position(nibbles, len) {
            Some((len, i, s)) => {
                proof {
                    lemma_slot_rewrite(self.nodes@, n, i as int, s as int);
                }
                match &mut self.nodes[i].results[s] {
                    Some(v) => Some((len, v)),
                    None => None,
                }
            },
            None => None,
        }
    }

    /// Every stored prefix of `nibbles`, shortest first: its length in bits
    /// and its value.
    pub fn matches(&self, nibbles: &[u8]) -> (r: Vec<(u32, T)>)
        requires
            self.wf(nibbles@.len()),
            all_nibbles(nibbles@),
            nibbles@.len() <= 32,
        ensures
            forall|j: int|
                0 <= j < r@.len() ==> {
                    &&& (#[trigger] r@[j]).0 <= 4 * nibbles@.len()
                    &&& self@.contains_key(nibbles_bits(nibbles@).take(r@[j].0 as int))
                    &&& r@[j].1 == self@[nibbles_bits(nibbles@).take(r@[j].0 as int)]
                },
            forall|j1: int, j2: int| 0 <= j1 < j2 < r@.len() ==> (#[trigger] r@[j1]).0 < (#[trigger] r@[j2]).0,
            forall|l: int|
                0 <= l <= 4 * nibbles@.len() && #[trigger] self@.contains_key(nibbles_bits(nibbles@).take(l))
                    ==> exists|j: int| 0 <= j < r@.len() && r@[j].0 == l,
    {
        let ghost n = nibbles@.len();
        let ghost nodes = self.nodes@;
        let ghost bits = nibbles_bits(nibbles@);
        let n_exec = nibbles.len();
        let mut out: Vec<(u32, T)> = Vec::new();
        let mut cur: usize = 0;
        let mut k: usize = 0;
        proof {
            assert(node_ok(nodes, n, 0));
            assert(path(nodes, 0) =~= nibbles@.take(0));
        }
        loop
            invariant_except_break
                forall|j: int|
                    0 <= j < out@.len() ==> {
                        &&& (#[trigger] out@[j]).0 < 4 * k
                        &&& self@.contains_key(bits.take(out@[j].0 as int))
                        &&& out@[j].1 == self@[bits.take(out@[j].0 as int)]
                    },
                forall|j1: int, j2: int| 0 <= j1 < j2 < out@.len() ==> (#[trigger] out@[j1]).0 < (#[trigger] out@[j2]).0,
                forall|l: int|
                    0 <= l < 4 * k && #[trigger] self@.contains_key(bits.take(l)) ==> exists|j: int|
                        0 <= j < out@.len() && out@[j].0 == l,
            invariant
                self.wf(n),
                nodes == self.nodes@,
                n == nibbles@.len(),
                n_exec == n,
                n <= 32,
                all_nibbles(nibbles@),
                bits == nibbles_bits(nibbles@),
                k <= n,
                cur < nodes.len(),
                path(nodes, cur as int) == nibbles@.take(k as int),
            ensures
                forall|j: int|
                    0 <= j < out@.len() ==> {
                        &&& (#[trigger] out@[j]).0 <= 4 * n
                        &&& self@.contains_key(bits.take(out@[j].0 as int))
                        &&& out@[j].1 == self@[bits.take(out@[j].0 as int)]
                    },
                forall|j1: int, j2: int| 0 <= j1 < j2 < out@.len() ==> (#[trigger] out@[j1]).0 < (#[trigger] out@[j2]).0,
                forall|l: int|
                    0 <= l <= 4 * n && #[trigger] self@.contains_key(bits.take(l)) ==> exists|j: int|
                        0 <= j < out@.len() && out@[j].0 == l,
            decreases n - k,
        {
            let maxr: u32 = if k < n_exec {
                3
            } else {
                0
            };
            let mut r: u32 = 0;
            while r <= maxr
                invariant
                    self.wf(n),
                    nodes == self.nodes@,
                    n == nibbles@.len(),
                    n_exec == n,
                    n <= 32,
                    all_nibbles(nibbles@),
                    bits == nibbles_bits(nibbles@),
                    k <= n,
                    maxr == (if k < n {
                        3u32
                    } else {
                        0u32
                    }),
                    r <= maxr + 1,
                    cur < nodes.len(),
                    path(nodes, cur as int) == nibbles@.take(k as int),
                    forall|j: int|
                        0 <= j < out@.len() ==> {
                            &&& (#[trigger] out@[j]).0 < 4 * k + r
                            &&& self@.contains_key(bits.take(out@[j].0 as int))
                            &&& out@[j].1 == self@[bits.take(out@[j].0 as int)]
                        },
                    forall|j1: int, j2: int|
                        0 <= j1 < j2 < out@.len() ==> (#[trigger] out@[j1]).0 < (#[trigger] out@[j2]).0,
                    forall|l: int|
                        0 <= l < 4 * k + r && #[trigger] self@.contains_key(bits.take(l)) ==> exists|j: int|
                            0 <= j < out@.len() && out@[j].0 == l,
                decreases maxr + 1 - r,
            {
                let s = self.slot_for(Ghost(n), nibbles, cur, k, r);
                let ghost before = out@;
                match self.nodes[cur].results[s] {
                    Some(v) => {
                        out.push((4 * (k as u32) + r, v));
                        proof {
                            assert forall|l: int|
                                0 <= l < 4 * k + r + 1 && #[trigger] self@.contains_key(bits.take(l)) implies exists|j: int|
                                0 <= j < out@.len() && out@[j].0 == l by {
                                if l < 4 * k + r {
                                    let j = choose|j: int| 0 <= j < before.len() && before[j].0 == l;
                                    assert(out@[j] == before[j]);
                                } else {
                                    assert(out@[before.len() as int].0 == l);
                                }
                            }
                        }
                    },
                    None => {},
                }
                r = r + 1;
            }
            if k == n_exec {
                break;
            }
            let c = nibbles[k];
            let child = self.nodes[cur].children[c as usize];
            if child == 0 {
                proof {
                    lemma_absent_beyond(nodes, n, nibbles@, cur as int, k as int);
                }
                break;
            }
            proof {
                assert(node_ok(nodes, n, cur as int));
                assert(node_ok(nodes, n, child as int));
                lemma_path(nodes, n, child as int);
                assert(path(nodes, child as int) =~= nibbles@.take(k + 1));
            }
            cur = child as usize;
            k = k + 1;
        }
        out
    }

    /// The value stored for the first `masklen` bits of `nibbles`, to be
    /// changed in place.
    pub fn exact_match_mut(&mut self, nibbles: &[u8], masklen: u32) -> (r: Option<&mut T>)
        requires
            old(self).wf(nibbles@.len()),
            all_nibbles(nibbles@),
            masklen <= 4 * nibbles@.len(),
        ensures
            r.is_some() == old(self)@.contains_key(nibbles_bits(nibbles@).take(masklen as int)),
            r.is_some() ==> {
                &&& *r.unwrap() == old(self)@[nibbles_bits(nibbles@).take(masklen as int)]
                &&& final(self).wf(nibbles@.len())
                &&& final(self)@ == old(self)@.insert(nibbles_bits(nibbles@).take(masklen as int), *final(r.unwrap()))
                &&& final(self).node_count() == old(self).node_count()
            },
            r.is_none() ==> {
                &&& final(self).wf(nibbles@.len())
                &&& final(self)@ == old(self)@
                &&& final(self).node_count() == old(self).node_count()
            },
        no_unwind
    {
        let ghost n = nibbles@.len();
        let (d, s) = key_position(nibbles, masklen);
        match self.find_node(Ghost(n), nibbles, d) {
            None => {
                proof {
                    lemma_no_node_no_key(self.nodes@, n, nibbles@.take(d as int), slot_bits(s as int));
                    lemma_slot_index_bits(s as int);
                }
                None
            },
            Some(i) => {
                proof {
                    lemma_view_slot(self.nodes@, n, i as int, s as int);
                    lemma_slot_rewrite(self.nodes@, n, i as int, s as int);
                }
                match &mut self.nodes[i].results[s] {
                    Some(v) => Some(v),
                    None => None,
                }
            },
        }
    }

    /// The path of node `i`.
    fn node_path(&self, Ghost(n): Ghost<nat>, i: usize) -> (r: Vec<u8>)
        requires
            self.wf(n),
            i < self.nodes@.len(),
        ensures
            r@ == path(self.nodes@, i as int),
    {
        let ghost nodes = self.nodes@;
        let mut rev: Vec<u8> = Vec::new();
        let mut j = i;
        proof {
            lemma_path(nodes, n, i as int);
        }
        while self.nodes[j].depth > 0
            invariant
                self.wf(n),
                nodes == self.nodes@,
                j < nodes.len(),
                path(nodes, i as int) == path(nodes, j as int) + Seq::new(rev@.len(), |x: int| rev@[rev@.len() - 1 - x]),
            decreases nodes[j as int].depth,
        {
            proof {
                lemma_path(nodes, n, j as int);
                assert(node_ok(nodes, n, j as int));
                assert(node_ok(nodes, n, 0));
            }
            let ghost old_rev = rev@;
            rev.push(self.nodes[j].nibble);
            let ghost pj = path(nodes, j as int);
            j = self.nodes[j].parent as usize;
            proof {
                assert(pj == path(nodes, j as int).push(rev@.last()));
                assert(path(nodes, i as int) =~= path(nodes, j as int) + Seq::new(rev@.len(), |x: int| rev@[rev@.len() - 1 - x]));
            }
        }
        proof {
            lemma_path(nodes, n, j as int);
        }
        let mut out: Vec<u8> = Vec::with_capacity(rev.len());
        let mut x: usize = 0;
        while x < rev.len()
            invariant
                x <= rev@.len(),
                out@.len() == x,
                forall|y: int| 0 <= y < x ==> #[trigger] out@[y] == rev@[rev@.len() - 1 - y],
            decreases rev@.len() - x,
        {
            out.push(rev[rev.len() - 1 - x]);
            x = x + 1;
        }
        proof {
            assert(out@ =~= path(nodes, i as int));
        }
        out
    }

    /// Every stored prefix with its value, as a string of nibbles (the bits
    /// after the prefix are zero), the prefix length in bits and the value.
    /// A node's prefixes come before those of the nodes created after it.
    pub fn entries(&self, Ghost(n): Ghost<nat>) -> (r: Vec<(Vec<u8>, u32, T)>)
        requires
            self.wf(n),
            n <= 32,
        ensures
            forall|j: int|
                0 <= j < r@.len() ==> {
                    &&& all_nibbles((#[trigger] r@[j]).0@)
                    &&& r@[j].0@.len() <= n
                    &&& r@[j].1 <= 4 * r@[j].0@.len()
                    &&& forall|x: int| r@[j].1 <= x < 4 * r@[j].0@.len() ==> !#[trigger] nibbles_bits(r@[j].0@)[x]
                    &&& self@.contains_key(entry_key(r@[j]))
                    &&& r@[j].2 == self@[entry_key(r@[j])]
                },
            forall|j1: int, j2: int|
                0 <= j1 < r@.len() && 0 <= j2 < r@.len() && j1 != j2 ==> entry_key(#[trigger] r@[j1]) != entry_key(
                    #[trigger] r@[j2],
                ),
            forall|k: Seq<bool>| #[trigger] self@.contains_key(k) ==> exists|j: int| 0 <= j < r@.len() && entry_key(r@[j]) == k,
            forall|j1: int, j2: int|
                0 <= j1 < r@.len() && 0 <= j2 < r@.len() && entry_key(#[trigger] r@[j1]).len() < entry_key(
                    #[trigger] r@[j2],
                ).len() && entry_key(r@[j2]).take(entry_key(r@[j1]).len() as int) == entry_key(r@[j1]) ==> j1 < j2,
    {
        let ghost nodes = self.nodes@;
        let mut out: Vec<(Vec<u8>, u32, T)> = Vec::new();
        let ghost mut src: Seq<(int, int)> = Seq::empty();
        let mut i: usize = 0;
        while i < self.nodes.len()
            invariant
                self.wf(n),
                n <= 32,
                nodes == self.nodes@,
                i <= nodes.len(),
                out@.len() == src.len(),
                forall|j: int|
                    0 <= j < src.len() ==> {
                        &&& 0 <= (#[trigger] src[j]).0 < i
                        &&& 0 <= src[j].1 < 15
                        &&& nodes[src[j].0].results[src[j].1].is_some()
                        &&& entry_key(out@[j]) == key_of(nodes, src[j].0, src[j].1)
                        &&& out@[j].2 == nodes[src[j].0].results[src[j].1].unwrap()
                        &&& all_nibbles(out@[j].0@)
                        &&& out@[j].0@.len() <= n
                        &&& out@[j].1 <= 4 * out@[j].0@.len()
                        &&& forall|x: int| out@[j].1 <= x < 4 * out@[j].0@.len() ==> !#[trigger] nibbles_bits(out@[j].0@)[x]
                    },
                forall|j1: int, j2: int|
                    0 <= j1 < j2 < src.len() ==> 15 * (#[trigger] src[j1]).0 + src[j1].1 < 15 * (#[trigger] src[j2]).0
                        + src[j2].1,
                forall|a: int, b: int|
                    0 <= a < i && 0 <= b < 15 && (#[trigger] nodes[a].results[b]).is_some() ==> exists|j: int|
                        0 <= j < src.len() && src[j] == (a, b),
            decreases nodes.len() - i,
        {
            let p = self.node_path(Ghost(n), i);
            proof {
                lemma_path(nodes, n, i as int);
                assert(node_ok(nodes, n, i as int));
            }
            let depth = self.nodes[i].depth;
            let mut s: usize = 0;
            while s < 15
                invariant
                    self.wf(n),
                    n <= 32,
                    nodes == self.nodes@,
                    i < nodes.len(),
                    s <= 15,
                    p@ == path(nodes, i as int),
                    depth == nodes[i as int].depth,
                    out@.len() == src.len(),
                    forall|j: int|
                        0 <= j < src.len() ==> {
                            &&& 15 * (#[trigger] src[j]).0 + src[j].1 < 15 * i + s
                            &&& 0 <= src[j].0 <= i
                            &&& 0 <= src[j].1 < 15
                            &&& nodes[src[j].0].results[src[j].1].is_some()
                            &&& entry_key(out@[j]) == key_of(nodes, src[j].0, src[j].1)
                            &&& out@[j].2 == nodes[src[j].0].results[src[j].1].unwrap()
                            &&& all_nibbles(out@[j].0@)
                            &&& out@[j].0@.len() <= n
                            &&& out@[j].1 <= 4 * out@[j].0@.len()
                            &&& forall|x: int| out@[j].1 <= x < 4 * out@[j].0@.len() ==> !#[trigger] nibbles_bits(out@[j].0@)[x]
                        },
                    forall|j1: int, j2: int|
                        0 <= j1 < j2 < src.len() ==> 15 * (#[trigger] src[j1]).0 + src[j1].1 < 15 * (#[trigger] src[j2]).0
                            + src[j2].1,
                    forall|a: int, b: int|
                        0 <= a < nodes.len() && 0 <= b < 15 && 15 * a + b < 15 * i + s && (#[trigger] nodes[a].results[b]).is_some() ==> exists|j: int|
                            0 <= j < src.len() && src[j] == (a, b),
                decreases 15 - s,
            {
                match self.nodes[i].results[s] {
                    Some(v) => {
                        let mut ns = p.clone();
                        let sn = slot_nibble(s);
                        let rlen: u32 = if s == 0 {
                            0
                        } else if s < 3 {
                            1
                        } else if s < 7 {
                            2
                        } else {
                            3
                        };
                        if rlen > 0 {
                            ns.push(sn);
                        }
                        let masklen = 4 * (depth as u32) + rlen;
                        let ghost before_src = src;
                        let ghost before_out = out@;
                        proof {
                            assert(ns@ == p@ || ns@ == p@.push(sn));
                            let pp = path(nodes, i as int);
                            lemma_path(nodes, n, i as int);
                            assert(node_ok(nodes, n, i as int));
                            assert(all_nibbles(pp));
                            if rlen > 0 {
                                assert(depth < n) by {
                                    if depth == n {
                                        assert(nodes[i as int].results[s as int].is_none());
                                    }
                                }
                                assert(ns@ == pp.push(sn));
                                assert(nibbles_bits(ns@).take(masklen as int) =~= nibbles_bits(pp) + slot_bits(s as int)) by {
                                    assert forall|x: int| 0 <= x < masklen implies #[trigger] nibbles_bits(ns@)[x] == (nibbles_bits(pp) + slot_bits(s as int))[x] by {
                                        if x >= 4 * pp.len() {
                                            assert(x / 4 == pp.len());
                                            assert(nibble_bits(sn).take(slot_len(s as int) as int)[x - 4 * pp.len()] == nibble_bits(sn)[x % 4]);
                                        } else {
                                            assert(ns@[x / 4] == pp[x / 4]);
                                        }
                                    }
                                }
                                assert forall|x: int| masklen <= x < 4 * ns@.len() implies !#[trigger] nibbles_bits(ns@)[x] by {
                                    assert(x / 4 == pp.len());
                                }
                                assert(all_nibbles(ns@)) by {
                                    assert forall|y: int| 0 <= y < ns@.len() implies #[trigger] ns@[y] < 16 by {
                                        if y < pp.len() {
                                            assert(ns@[y] == pp[y]);
                                        }
                                    }
                                }
                            } else {
                                assert(ns@ == pp);
                                assert(slot_bits(s as int) =~= Seq::<bool>::empty());
                                assert(nibbles_bits(ns@).take(masklen as int) =~= nibbles_bits(pp) + slot_bits(s as int));
                            }
                        }
                        out.push((ns, masklen, v));
                        proof {
                            src = src.push((i as int, s as int));
                            assert(out@[out@.len() - 1] == (ns, masklen, v));
                            assert forall|j: int| 0 <= j < src.len() implies {
                                &&& 15 * (#[trigger] src[j]).0 + src[j].1 < 15 * i + s + 1
                                &&& 0 <= src[j].0 <= i
                                &&& 0 <= src[j].1 < 15
                                &&& nodes[src[j].0].results[src[j].1].is_some()
                                &&& entry_key(out@[j]) == key_of(nodes, src[j].0, src[j].1)
                                &&& out@[j].2 == nodes[src[j].0].results[src[j].1].unwrap()
                                &&& all_nibbles(out@[j].0@)
                                &&& out@[j].0@.len() <= n
                                &&& out@[j].1 <= 4 * out@[j].0@.len()
                                &&& forall|x: int| out@[j].1 <= x < 4 * out@[j].0@.len() ==> !#[trigger] nibbles_bits(out@[j].0@)[x]
                            } by {
                                if j < before_src.len() {
                                    assert(src[j] == before_src[j]);
                                    assert(out@[j] == before_out[j]);
                                }
                            }
                            assert forall|a: int, b: int|
                                0 <= a < nodes.len() && 0 <= b < 15 && 15 * a + b < 15 * i + s + 1 && (#[trigger] nodes[a].results[b]).is_some() implies exists|j: int|
                                0 <= j < src.len() && src[j] == (a, b) by {
                                if 15 * a + b < 15 * i + s {
                                    let j = choose|j: int| 0 <= j < before_src.len() && before_src[j] == (a, b);
                                    assert(src[j] == before_src[j]);
                                } else {
                                    assert(a == i && b == s);
                                    assert(src[src.len() - 1] == (a, b));
                                }
                            }
                        }
                    },
                    None => {},
                }
                s = s + 1;
            }
            i = i + 1;
        }
        proof {
            assert forall|j: int| 0 <= j < out@.len() implies self@.contains_key(entry_key(#[trigger] out@[j]))
                && out@[j].2 == self@[entry_key(out@[j])] by {
                lemma_view_slot(nodes, n, src[j].0, src[j].1);
            }
            assert forall|j1: int, j2: int|
                0 <= j1 < out@.len() && 0 <= j2 < out@.len() && j1 != j2 implies entry_key(#[trigger] out@[j1])
                != entry_key(#[trigger] out@[j2]) by {
                if entry_key(out@[j1]) == entry_key(out@[j2]) {
                    let (a1, b1) = src[j1];
                    let (a2, b2) = src[j2];
                    lemma_path(nodes, n, a1);
                    lemma_slot_index_bits(b1);
                    lemma_key_match(nodes, n, a2, b2, path(nodes, a1), slot_bits(b1));
                    lemma_path_unique(nodes, n, a1, a2);
                    if j1 < j2 {
                        assert(15 * src[j1].0 + src[j1].1 < 15 * src[j2].0 + src[j2].1);
                    } else {
                        assert(15 * src[j2].0 + src[j2].1 < 15 * src[j1].0 + src[j1].1);
                    }
                }
            }
            assert forall|j1: int, j2: int|
                0 <= j1 < out@.len() && 0 <= j2 < out@.len() && entry_key(#[trigger] out@[j1]).len() < entry_key(
                    #[trigger] out@[j2],
                ).len() && entry_key(out@[j2]).take(entry_key(out@[j1]).len() as int) == entry_key(out@[j1]) implies j1
                < j2 by {
                lemma_nested_order(nodes, n, src[j1].0, src[j1].1, src[j2].0, src[j2].1);
                if j2 < j1 {
                    assert(15 * src[j2].0 + src[j2].1 < 15 * src[j1].0 + src[j1].1);
                }
            }
            assert forall|k: Seq<bool>| #[trigger] self@.contains_key(k) implies exists|j: int|
                0 <= j < out@.len() && entry_key(out@[j]) == k by {
                let (a, b) = choose|a: int, b: int| #[trigger] is_entry(nodes, a, b, k);
                assert(nodes[a].results[b].is_some());
                let j = choose|j: int| 0 <= j < src.len() && src[j] == (a, b);
                assert(entry_key(out@[j]) == k);
            }
        }
        out
    }
}

} // verus!
