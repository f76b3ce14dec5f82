//! Crit-bit tree mapping 64-bit prices to 32-bit payload indices.
//!
//! Each internal node records the highest bit position at which the keys of
//! its two subtrees differ; keys with a zero bit there sit on the left, keys
//! with a one bit on the right, and all keys of a subtree agree on every bit
//! above it. This routing invariant makes lookup, insertion and removal walk
//! one root-to-leaf path, and puts the minimum key at the leftmost leaf and
//! the maximum at the rightmost.
//!
//! The tree is specified as a finite `Map<u64, u32>`.

use vstd::prelude::*;

verus! {

/// Why a tree operation was refused.
#[derive(Clone, Copy, Debug, PartialEq, Eq, Structural)]
pub enum ErrorCode {
    /// No node capacity is left.
    OrderBookFull,
    /// The key is not in the tree.
    OrderNotFound,
}

/// Bit `bit_pos` of `key` (false for positions past the top bit).
pub open spec fn spec_bit_set(key: u64, bit_pos: u8) -> bool {
    if bit_pos >= 64 {
        false
    } else {
        (key >> (bit_pos as u64)) & 1 == 1
    }
}

/// The bits of `key` strictly above position `bit_pos`.
pub open spec fn spec_bits_above(key: u64, bit_pos: u8) -> u64 {
    (key >> (bit_pos as u64)) >> 1
}

/// A node of the crit-bit tree. A leaf stores one key and its payload; an
/// internal node stores the critical bit its subtrees differ at, keeps a
/// representative key of its subtree in `key`, and owns both children.
#[derive(Debug)]
pub struct CritBitNode {
    /// For a leaf: its key. For an internal node: the key of its leftmost
    /// leaf, kept as a representative of the subtree.
    pub key: u64,
    /// Payload of a leaf (unused on internal nodes).
    pub order_index: u32,
    /// Critical bit of an internal node (unused on leaves).
    pub crit_bit: u8,
    /// Whether this node is a leaf.
    pub is_leaf: bool,
    /// Left child (keys with a zero critical bit); `None` on leaves.
    pub left: Option<Box<CritBitNode>>,
    /// Right child (keys with a one critical bit); `None` on leaves.
    pub right: Option<Box<CritBitNode>>,
}

impl CritBitNode {
    /// The key-to-payload map held by this subtree.
    pub closed spec fn as_map(self) -> Map<u64, u32>
        decreases self,
    {
        if self.is_leaf {
            map![self.key => self.order_index]
        } else {
            match (self.left, self.right) {
                (Some(l), Some(r)) => l.as_map().union_prefer_right(r.as_map()),
                _ => map![self.key => self.order_index],
            }
        }
    }

    /// Structural soundness: leaves have no children; an internal node has
    /// two children whose keys all agree above the critical bit and split on
    /// it, and records its leftmost leaf's key as representative.
    pub closed spec fn wf(self) -> bool
        decreases self,
    {
        if self.is_leaf {
            self.left is None && self.right is None
        } else {
            &&& self.left is Some
            &&& self.right is Some
            &&& self.crit_bit < 64
            &&& self.left.unwrap().wf()
            &&& self.right.unwrap().wf()
            &&& (forall|k: u64| self.left.unwrap().as_map().dom().contains(k)
                ==> !spec_bit_set(k, self.crit_bit))
            &&& (forall|k: u64| self.right.unwrap().as_map().dom().contains(k)
                ==> spec_bit_set(k, self.crit_bit))
            &&& (forall|k1: u64, k2: u64|
                self.as_map().dom().contains(k1) && self.as_map().dom().contains(k2)
                    ==> spec_bits_above(k1, self.crit_bit) == spec_bits_above(k2, self.crit_bit))
            &&& self.key == self.left.unwrap().key
        }
    }

    /// Number of leaves below (and including) this node.
    pub closed spec fn leaf_count_spec(self) -> nat
        decreases self,
    {
        if self.is_leaf {
            1
        } else {
            match (self.left, self.right) {
                (Some(l), Some(r)) => l.leaf_count_spec() + r.leaf_count_spec(),
                _ => 1,
            }
        }
    }

    /// A fresh leaf holding `key` and `order_index`.
    pub fn new_leaf(key: u64, order_index: u32) -> (r: CritBitNode)
        ensures
            r.wf(),
            r.is_leaf,
            r.key == key,
            r.order_index == order_index,
            r.as_map() =~= map![key => order_index],
            r.leaf_count_spec() == 1,
    {
        CritBitNode { key, order_index, crit_bit: 0, is_leaf: true, left: None, right: None }
    }

    /// A fresh internal node at critical bit `crit_bit`, before its children
    /// are attached (not well formed until they are).
    pub fn new_inner(crit_bit: u8) -> (r: CritBitNode)
        ensures
            !r.is_leaf,
            r.crit_bit == crit_bit,
            r.key == 0,
            r.order_index == 0,
    {
        CritBitNode { key: 0, order_index: 0, crit_bit, is_leaf: false, left: None, right: None }
    }
}

/// `b` is the critical bit of two distinct keys: the highest bit position at
/// which they differ.
pub open spec fn spec_is_critical_bit(k1: u64, k2: u64, b: u8) -> bool {
    &&& b < 64
    &&& spec_bit_set(k1 ^ k2, b)
    &&& spec_bits_above(k1 ^ k2, b) == 0
}

/// Two keys agree above their critical bit and differ exactly there.
proof fn lemma_critical_bit_facts(k1: u64, k2: u64, b: u8)
    requires
        spec_is_critical_bit(k1, k2, b),
    ensures
        spec_bits_above(k1, b) == spec_bits_above(k2, b),
        spec_bit_set(k1, b) != spec_bit_set(k2, b),
        k1 != k2,
{
    let bb = b as u64;
    assert({
        let p = bb < 64 && ((k1 ^ k2) >> bb) & 1 == 1 && ((k1 ^ k2) >> bb) >> 1 == 0;
        let q = (k1 >> bb) >> 1 == (k2 >> bb) >> 1 && (((k1 >> bb) & 1 == 1) != ((k2 >> bb) & 1
            == 1)) && k1 != k2;
        p ==> q
    }) by (bit_vector);
}

/// A key with a zero bit is smaller than a key with a one bit when the two
/// agree on everything above that bit.
proof fn lemma_bit_order(k1: u64, k2: u64, b: u8)
    requires
        b < 64,
        spec_bits_above(k1, b) == spec_bits_above(k2, b),
        !spec_bit_set(k1, b),
        spec_bit_set(k2, b),
    ensures
        k1 < k2,
{
    let bb = b as u64;
    assert({
        let p = bb < 64 && (k1 >> bb) >> 1 == (k2 >> bb) >> 1 && !((k1 >> bb) & 1 == 1) && (k2
            >> bb) & 1 == 1;
        p ==> k1 < k2
    }) by (bit_vector);
}

/// Agreement above a low bit carries up: the keys also agree at and above
/// any higher bit.
#[verifier::rlimit(60)]
proof fn lemma_agree_above_transfer(ka: u64, kb: u64, b_low: u8, b_high: u8)
    requires
        b_low < 64,
        b_high < 64,
        b_low < b_high,
        spec_bits_above(ka, b_low) == spec_bits_above(kb, b_low),
    ensures
        spec_bits_above(ka, b_high) == spec_bits_above(kb, b_high),
        spec_bit_set(ka, b_high) == spec_bit_set(kb, b_high),
{
    let lo = b_low as u64;
    let hi = b_high as u64;
    assert({
        let p = lo < 64 && hi < 64 && lo < hi && (ka >> lo) >> 1 == (kb >> lo) >> 1;
        let q = (ka >> hi) >> 1 == (kb >> hi) >> 1 && (((ka >> hi) & 1 == 1) == ((kb >> hi) & 1
            == 1));
        p ==> q
    }) by (bit_vector);
}

/// Keys that first differ at bit `c` agree above any bit at or above `c`.
proof fn lemma_crit_le_implies_agree_above(k1: u64, k2: u64, c: u8, b: u8)
    requires
        spec_is_critical_bit(k1, k2, c),
        c <= b,
        b < 64,
    ensures
        spec_bits_above(k1, b) == spec_bits_above(k2, b),
{
    let cc = c as u64;
    let bb = b as u64;
    assert({
        let p = cc < 64 && bb < 64 && cc <= bb && ((k1 ^ k2) >> cc) >> 1 == 0;
        p ==> (k1 >> bb) >> 1 == (k2 >> bb) >> 1
    }) by (bit_vector);
}

/// Bit `bit_pos` of `key` as an executable test.
fn get_bit(key: u64, bit_pos: u8) -> (r: bool)
    ensures
        r == spec_bit_set(key, bit_pos),
{
    if bit_pos >= 64 {
        false
    } else {
        (key >> (bit_pos as u64)) & 1 == 1
    }
}

/// Position of the highest bit at which two keys differ; 64 when the keys
/// are identical.
fn find_critical_bit(key1: u64, key2: u64) -> (r: u8)
    ensures
        key1 == key2 ==> r == 64,
        key1 != key2 ==> spec_is_critical_bit(key1, key2, r),
{
    let x: u64 = key1 ^ key2;
    if x == 0 {
        proof {
            assert((key1 ^ key2 == 0) ==> key1 == key2) by (bit_vector);
        }
        return 64;
    }
    proof {
        assert((key1 ^ key2 != 0) ==> key1 != key2) by (bit_vector);
    }
    let mut b: u8 = 63;
    proof {
        assert((x >> 63u64) >> 1 == 0) by (bit_vector);
    }
    while (x >> (b as u64)) & 1 == 0
        invariant
            x == key1 ^ key2,
            x != 0,
            b < 64,
            spec_bits_above(x, b) == 0,
        decreases b,
    {
        let ghost bb = b as u64;
        proof {
            assert({
                let p = x != 0 && bb < 64 && (x >> bb) >> 1 == 0 && !((x >> bb) & 1 == 1);
                p ==> bb > 0
            }) by (bit_vector);
            assert({
                let p = bb > 0 && bb < 64 && (x >> bb) >> 1 == 0 && !((x >> bb) & 1 == 1);
                p ==> (x >> (bb - 1) as u64) >> 1 == 0
            }) by (bit_vector);
        }
        b = b - 1;
    }
    let ghost bb = b as u64;
    proof {
        assert((x >> bb) & 1 == 0 || (x >> bb) & 1 == 1) by (bit_vector);
    }
    b
}

/// Looks a key up in a well-formed subtree by following its bits.
fn find_node(node: &CritBitNode, key: u64) -> (r: Option<u32>)
    requires
        node.wf(),
    ensures
        node.as_map().dom().contains(key) ==> r == Some(node.as_map()[key]),
        !node.as_map().dom().contains(key) ==> r is None,
    decreases *node,
{
    if node.is_leaf {
        if node.key == key {
            Some(node.order_index)
        } else {
            None
        }
    } else {
        proof {
            lemma_node_map_basics(*node);
        }
        let b: u8 = node.crit_bit;
        if get_bit(key, b) {
            match &node.right {
                Some(r) => {
                    proof {
                        assert(!node.left.unwrap().as_map().dom().contains(key));
                    }
                    find_node(r, key)
                },
                None => {
                    proof {
                        assert(false);
                    }
                    None
                },
            }
        } else {
            match &node.left {
                Some(l) => {
                    proof {
                        assert(!node.right.unwrap().as_map().dom().contains(key));
                    }
                    find_node(l, key)
                },
                None => {
                    proof {
                        assert(false);
                    }
                    None
                },
            }
        }
    }
}

/// In a well-formed subtree the left keys are all below the right keys.
proof fn lemma_children_ordered(n: CritBitNode)
    requires
        n.wf(),
        !n.is_leaf,
    ensures
        forall|k1: u64, k2: u64|
            n.left.unwrap().as_map().dom().contains(k1) && n.right.unwrap().as_map().dom().contains(
                k2,
            ) ==> k1 < k2,
{
    assert forall|k1: u64, k2: u64|
        n.left.unwrap().as_map().dom().contains(k1) && n.right.unwrap().as_map().dom().contains(
            k2,
        ) implies k1 < k2 by {
        assert(n.as_map().dom().contains(k1) && n.as_map().dom().contains(k2)) by {
            lemma_node_map_basics(n);
        }
        lemma_bit_order(k1, k2, n.crit_bit);
    }
}

/// The leftmost leaf of a well-formed subtree: its minimum key, with its
/// payload.
fn find_min_leaf(node: &CritBitNode) -> (r: (u64, u32))
    requires
        node.wf(),
    ensures
        node.as_map().dom().contains(r.0),
        node.as_map()[r.0] == r.1,
        forall|k: u64| node.as_map().dom().contains(k) ==> r.0 <= k,
    decreases *node,
{
    if node.is_leaf {
        (node.key, node.order_index)
    } else {
        proof {
            lemma_node_map_basics(*node);
            lemma_children_ordered(*node);
        }
        match &node.left {
            Some(l) => {
                let r = find_min_leaf(l);
                proof {
                    let lm = node.left.unwrap().as_map();
                    let rm = node.right.unwrap().as_map();
                    assert(!spec_bit_set(r.0, node.crit_bit));
                    assert(!rm.dom().contains(r.0));
                    assert(node.as_map() == lm.union_prefer_right(rm));
                    assert(node.as_map()[r.0] == lm[r.0]);
                    assert forall|k: u64| node.as_map().dom().contains(k) implies r.0 <= k by {
                        if lm.dom().contains(k) {
                        } else {
                            assert(rm.dom().contains(k));
                            assert(r.0 < k);
                        }
                    }
                }
                r
            },
            None => {
                proof {
                    assert(false);
                }
                (0, 0)
            },
        }
    }
}

/// The rightmost leaf of a well-formed subtree: its maximum key, with its
/// payload.
fn find_max_leaf(node: &CritBitNode) -> (r: (u64, u32))
    requires
        node.wf(),
    ensures
        node.as_map().dom().contains(r.0),
        node.as_map()[r.0] == r.1,
        forall|k: u64| node.as_map().dom().contains(k) ==> r.0 >= k,
    decreases *node,
{
    if node.is_leaf {
        (node.key, node.order_index)
    } else {
        proof {
            lemma_node_map_basics(*node);
            lemma_children_ordered(*node);
        }
        match &node.right {
            Some(rc) => {
                let r = find_max_leaf(rc);
                proof {
                    let lm = node.left.unwrap().as_map();
                    let rm = node.right.unwrap().as_map();
                    assert(spec_bit_set(r.0, node.crit_bit));
                    assert(!lm.dom().contains(r.0));
                    assert(node.as_map() == lm.union_prefer_right(rm));
                    assert(node.as_map()[r.0] == rm[r.0]);
                    assert forall|k: u64| node.as_map().dom().contains(k) implies r.0 >= k by {
                        if rm.dom().contains(k) {
                        } else {
                            assert(lm.dom().contains(k));
                            assert(k < r.0);
                        }
                    }
                }
                r
            },
            None => {
                proof {
                    assert(false);
                }
                (0, 0)
            },
        }
    }
}

/// In a well-formed subtree, the map is finite, non-empty, its size is the
/// leaf count, and the representative key is one of its keys.
pub proof fn lemma_node_map_basics(n: CritBitNode)
    requires
        n.wf(),
    ensures
        n.as_map().dom().finite(),
        n.as_map().dom().len() == n.leaf_count_spec(),
        n.as_map().dom().contains(n.key),
        n.leaf_count_spec() >= 1,
    decreases n,
{
    if !n.is_leaf {
        let l = n.left.unwrap();
        let r = n.right.unwrap();
        lemma_node_map_basics(*l);
        lemma_node_map_basics(*r);
        assert(n.as_map() == l.as_map().union_prefer_right(r.as_map()));
        assert(l.as_map().dom().disjoint(r.as_map().dom())) by {
            assert forall|k: u64|
                l.as_map().dom().contains(k) implies !r.as_map().dom().contains(k) by {
                assert(!spec_bit_set(k, n.crit_bit));
            }
        }
        assert(n.as_map().dom() =~= l.as_map().dom() + r.as_map().dom());
        vstd::set_lib::lemma_set_disjoint_lens(l.as_map().dom(), r.as_map().dom());
        assert(n.as_map().dom().contains(n.key)) by {
            assert(l.as_map().dom().contains(l.key));
        }
    }
}

/// Replaces a well-formed subtree that diverges from `key` at bit `c` by a
/// new internal node at `c` holding the old subtree on one side and a fresh
/// leaf for `key` on the other.
fn split_node(node: &mut CritBitNode, key: u64, order_index: u32, c: u8)
    requires
        old(node).wf(),
        c < 64,
        forall|k: u64| old(node).as_map().dom().contains(k) ==> spec_bits_above(k, c)
            == spec_bits_above(key, c) && spec_bit_set(k, c) != spec_bit_set(key, c),
    ensures
        final(node).wf(),
        final(node).as_map() == old(node).as_map().insert(key, order_index),
        final(node).leaf_count_spec() == old(node).leaf_count_spec() + 1,
{
    let old_left = node.left.take();
    let old_right = node.right.take();
    let old_sub = CritBitNode {
        key: node.key,
        order_index: node.order_index,
        crit_bit: node.crit_bit,
        is_leaf: node.is_leaf,
        left: old_left,
        right: old_right,
    };
    proof {
        assert(old_sub == *old(node));
        lemma_node_map_basics(old_sub);
    }
    let new_leaf = CritBitNode::new_leaf(key, order_index);
    node.is_leaf = false;
    node.crit_bit = c;
    node.order_index = 0;
    if get_bit(key, c) {
        node.key = old_sub.key;
        node.left = Some(Box::new(old_sub));
        node.right = Some(Box::new(new_leaf));
    } else {
        node.key = key;
        node.left = Some(Box::new(new_leaf));
        node.right = Some(Box::new(old_sub));
    }
    proof {
        let om = old(node).as_map();
        assert(!om.dom().contains(key));
        assert(node.as_map() =~= om.insert(key, order_index));
        assert(node.wf());
    }
}

/// Inserts or overwrites `key` in a well-formed subtree, preserving the
/// routing invariant.
fn insert_node(node: &mut CritBitNode, key: u64, order_index: u32)
    requires
        old(node).wf(),
    ensures
        final(node).wf(),
        final(node).as_map() == old(node).as_map().insert(key, order_index),
        final(node).leaf_count_spec() == old(node).leaf_count_spec() + if old(
            node,
        ).as_map().dom().contains(key) {
            0int
        } else {
            1int
        },
    decreases *old(node),
{
    if node.is_leaf {
        if node.key == key {
            node.order_index = order_index;
            proof {
                assert(node.as_map() =~= old(node).as_map().insert(key, order_index));
            }
        } else {
            let c = find_critical_bit(key, node.key);
            proof {
                lemma_critical_bit_facts(key, node.key, c);
            }
            split_node(node, key, order_index, c);
            proof {
                assert(!old(node).as_map().dom().contains(key));
            }
        }
    } else {
        let c = find_critical_bit(key, node.key);
        let b: u8 = node.crit_bit;
        proof {
            lemma_node_map_basics(*node);
        }
        if c < 64 && c > b {
            proof {
                lemma_critical_bit_facts(key, node.key, c);
                let rep = node.key;
                assert forall|k: u64| node.as_map().dom().contains(k) implies spec_bits_above(
                    k,
                    c,
                ) == spec_bits_above(key, c) && spec_bit_set(k, c) != spec_bit_set(key, c) by {
                    assert(spec_bits_above(k, b) == spec_bits_above(rep, b));
                    lemma_agree_above_transfer(k, rep, b, c);
                }
            }
            split_node(node, key, order_index, c);
            proof {
                assert(!old(node).as_map().dom().contains(key)) by {
                    if old(node).as_map().dom().contains(key) {
                        assert(spec_bit_set(key, c) != spec_bit_set(key, c));
                    }
                }
            }
        } else {
            proof {
                if key != node.key {
                    lemma_crit_le_implies_agree_above(key, node.key, c, b);
                }
                assert(spec_bits_above(key, b) == spec_bits_above(old(node).key, b));
            }
            let ghost om = node.as_map();
            let ghost olm = node.left.unwrap().as_map();
            let ghost orm = node.right.unwrap().as_map();
            if get_bit(key, b) {
                let mut child = node.right.take().unwrap();
                insert_node(&mut *child, key, order_index);
                node.right = Some(child);
                proof {
                    assert(!olm.dom().contains(key));
                    assert(node.as_map() =~= om.insert(key, order_index));
                    assert forall|k1: u64, k2: u64|
                        node.as_map().dom().contains(k1) && node.as_map().dom().contains(
                            k2,
                        ) implies spec_bits_above(k1, node.crit_bit) == spec_bits_above(
                        k2,
                        node.crit_bit,
                    ) by {
                        if k1 != key && k2 != key {
                            assert(om.dom().contains(k1) && om.dom().contains(k2));
                        }
                        if k1 == key || k2 == key {
                            assert(om.dom().contains(old(node).key));
                        }
                    }
                    assert(node.wf());
                }
            } else {
                let mut child = node.left.take().unwrap();
                insert_node(&mut *child, key, order_index);
                let ck: u64 = child.key;
                node.left = Some(child);
                node.key = ck;
                proof {
                    assert(!orm.dom().contains(key));
                    assert(node.as_map() =~= om.insert(key, order_index));
                    assert forall|k1: u64, k2: u64|
                        node.as_map().dom().contains(k1) && node.as_map().dom().contains(
                            k2,
                        ) implies spec_bits_above(k1, node.crit_bit) == spec_bits_above(
                        k2,
                        node.crit_bit,
                    ) by {
                        if k1 != key && k2 != key {
                            assert(om.dom().contains(k1) && om.dom().contains(k2));
                        }
                        if k1 == key || k2 == key {
                            assert(om.dom().contains(old(node).key));
                        }
                    }
                    assert(node.wf());
                }
            }
        }
    }
}

/// Removes `key` from a well-formed internal subtree: the leaf is unlinked
/// and its parent collapses into the sibling. Fails, leaving the subtree
/// untouched, when the key is absent.
fn remove_node(node: &mut CritBitNode, key: u64) -> (res: Result<u32, ErrorCode>)
    requires
        old(node).wf(),
        !old(node).is_leaf,
    ensures
        final(node).wf(),
        res is Ok ==> old(node).as_map().dom().contains(key) && res == Ok::<u32, ErrorCode>(
            old(node).as_map()[key],
        ) && final(node).as_map() == old(node).as_map().remove(key)
            && final(node).leaf_count_spec() == old(node).leaf_count_spec() - 1,
        res is Err ==> res == Err::<u32, ErrorCode>(ErrorCode::OrderNotFound) && *final(node)
            == *old(node) && !old(node).as_map().dom().contains(key),
    decreases *old(node),
{
    let b: u8 = node.crit_bit;
    let ghost om = node.as_map();
    let ghost olm = node.left.unwrap().as_map();
    let ghost orm = node.right.unwrap().as_map();
    proof {
        lemma_node_map_basics(*node);
        lemma_node_map_basics(*node.left.unwrap());
        lemma_node_map_basics(*node.right.unwrap());
    }
    if get_bit(key, b) {
        proof {
            assert(!olm.dom().contains(key));
        }
        let mut child = node.right.take().unwrap();
        if child.is_leaf {
            if child.key == key {
                let mut l = node.left.take().unwrap();
                let removed: u32 = child.order_index;
                *node = *l;
                proof {
                    assert(orm =~= map![key => removed]);
                    assert(node.as_map() =~= om.remove(key));
                }
                Ok(removed)
            } else {
                node.right = Some(child);
                proof {
                    assert(*node == *old(node));
                    assert(!orm.dom().contains(key));
                }
                Err(ErrorCode::OrderNotFound)
            }
        } else {
            let res = remove_node(&mut *child, key);
            node.right = Some(child);
            match res {
                Ok(order_index) => {
                    proof {
                        assert(node.as_map() =~= om.remove(key));
                        assert(node.wf());
                    }
                    Ok(order_index)
                },
                Err(e) => {
                    proof {
                        assert(*node == *old(node));
                    }
                    Err(e)
                },
            }
        }
    } else {
        proof {
            assert(!orm.dom().contains(key));
        }
        let mut child = node.left.take().unwrap();
        if child.is_leaf {
            if child.key == key {
                let mut r = node.right.take().unwrap();
                let removed: u32 = child.order_index;
                *node = *r;
                proof {
                    assert(olm =~= map![key => removed]);
                    assert(node.as_map() =~= om.remove(key));
                }
                Ok(removed)
            } else {
                node.left = Some(child);
                proof {
                    assert(*node == *old(node));
                    assert(!olm.dom().contains(key));
                }
                Err(ErrorCode::OrderNotFound)
            }
        } else {
            let res = remove_node(&mut *child, key);
            let ck: u64 = child.key;
            node.left = Some(child);
            match res {
                Ok(order_index) => {
                    node.key = ck;
                    proof {
                        assert(node.as_map() =~= om.remove(key));
                        assert(node.wf());
                    }
                    Ok(order_index)
                },
                Err(e) => {
                    proof {
                        assert(*node == *old(node));
                    }
                    Err(e)
                },
            }
        }
    }
}

/// A structurally identical copy of a subtree.
fn copy_node(node: &CritBitNode) -> (r: CritBitNode)
    ensures
        r == *node,
    decreases *node,
{
    let left: Option<Box<CritBitNode>> = match &node.left {
        None => None,
        Some(l) => Some(Box::new(copy_node(l))),
    };
    let right: Option<Box<CritBitNode>> = match &node.right {
        None => None,
        Some(rc) => Some(Box::new(copy_node(rc))),
    };
    CritBitNode {
        key: node.key,
        order_index: node.order_index,
        crit_bit: node.crit_bit,
        is_leaf: node.is_leaf,
        left,
        right,
    }
}

/// Crit-bit tree over 64-bit keys with a bounded node budget, specified as
/// the finite map from keys to payload indices that its leaves hold.
#[derive(Debug)]
pub struct CritBitTree {
    root: Option<Box<CritBitNode>>,
    leaf_count: u32,
    capacity: usize,
}

impl View for CritBitTree {
    type V = Map<u64, u32>;

    closed spec fn view(&self) -> Map<u64, u32> {
        match self.root {
            None => Map::empty(),
            Some(n) => n.as_map(),
        }
    }
}

impl CritBitTree {
    /// Structural soundness of the whole tree: the root subtree is well
    /// formed, the leaf counter matches it, and the nodes in use
    /// (`2 * leaves - 1`) fit the capacity.
    pub closed spec fn wf(self) -> bool {
        &&& match self.root {
            None => self.leaf_count == 0,
            Some(n) => n.wf() && self.leaf_count == n.leaf_count_spec(),
        }
        &&& self.leaf_count > 0 ==> 2 * (self.leaf_count as int) - 1 <= self.capacity as int
        &&& self.capacity <= u32::MAX as usize
    }

    /// Node budget this tree was created with.
    pub closed spec fn spec_capacity(self) -> int {
        self.capacity as int
    }

    /// Number of keys (price levels) in the tree.
    pub open spec fn spec_leaf_count(self) -> int {
        self@.dom().len() as int
    }

    /// Whether an insertion of `key` can be served: either the key is
    /// already present, or the nodes a new leaf needs still fit the budget.
    pub open spec fn spec_has_room_for(self, key: u64) -> bool {
        self@.dom().contains(key) || 2 * self@.dom().len() + 1 <= self.spec_capacity()
    }

    /// The view determines size and membership facts the callers need.
    pub proof fn lemma_view_finite(self)
        requires
            self.wf(),
        ensures
            self@.dom().finite(),
    {
        match self.root {
            None => {
                assert(self@.dom() =~= Set::<u64>::empty());
            },
            Some(n) => {
                lemma_node_map_basics(*n);
            },
        }
    }

    /// An empty tree able to hold `capacity` nodes (clamped to the range a
    /// 32-bit node index can address).
    pub fn new(capacity: usize) -> (r: CritBitTree)
        ensures
            r.wf(),
            r@ =~= Map::<u64, u32>::empty(),
            r.spec_capacity() == if capacity <= u32::MAX as usize {
                capacity as int
            } else {
                u32::MAX as int
            },
    {
        let cap: usize = if capacity <= (u32::MAX as usize) {
            capacity
        } else {
            u32::MAX as usize
        };
        let r = CritBitTree { root: None, leaf_count: 0, capacity: cap };
        proof {
            assert(r@ =~= Map::<u64, u32>::empty());
        }
        r
    }

    /// A value-equal copy of the tree.
    pub fn duplicate(&self) -> (r: CritBitTree)
        ensures
            r == *self,
    {
        let root: Option<Box<CritBitNode>> = match &self.root {
            None => None,
            Some(n) => Some(Box::new(copy_node(n))),
        };
        CritBitTree { root, leaf_count: self.leaf_count, capacity: self.capacity }
    }

    /// Whether inserting `key` can be served within the node budget.
    pub fn has_room(&self, key: u64) -> (r: bool)
        requires
            self.wf(),
        ensures
            r == self.spec_has_room_for(key),
    {
        proof {
            match &self.root {
                None => {
                    assert(self@.dom() =~= Set::<u64>::empty());
                },
                Some(n) => {
                    lemma_node_map_basics(**n);
                },
            }
            assert(self.leaf_count == self@.dom().len());
        }
        if self.find(key).is_some() {
            true
        } else {
            2 * (self.leaf_count as u64) + 1 <= (self.capacity as u64)
        }
    }

    /// Inserts `key` with payload `order_index`, overwriting the payload
    /// when the key is already present. Fails with `OrderBookFull`, leaving
    /// the tree untouched, when a new leaf (and its internal node) would not
    /// fit the node budget.
    pub fn insert(&mut self, key: u64, order_index: u32) -> (res: Result<(), ErrorCode>)
        requires
            old(self).wf(),
        ensures
            final(self).wf(),
            final(self).spec_capacity() == old(self).spec_capacity(),
            old(self).spec_has_room_for(key) ==> res is Ok && final(self)@ == old(self)@.insert(
                key,
                order_index,
            ),
            !old(self).spec_has_room_for(key) ==> res == Err::<(), ErrorCode>(
                ErrorCode::OrderBookFull,
            ) && *final(self) == *old(self),
    {
        proof {
            match &self.root {
                None => {
                    assert(self@.dom() =~= Set::<u64>::empty());
                },
                Some(n) => {
                    lemma_node_map_basics(**n);
                },
            }
            assert(self.leaf_count == self@.dom().len());
        }
        let exists: bool = self.find(key).is_some();
        if !exists {
            let need: u64 = 2 * (self.leaf_count as u64) + 1;
            if need > (self.capacity as u64) {
                return Err(ErrorCode::OrderBookFull);
            }
        }
        let taken = self.root.take();
        match taken {
            None => {
                self.root = Some(Box::new(CritBitNode::new_leaf(key, order_index)));
                self.leaf_count = 1;
                proof {
                    assert(final(self)@ =~= old(self)@.insert(key, order_index));
                }
                Ok(())
            },
            Some(mut n) => {
                insert_node(&mut *n, key, order_index);
                self.root = Some(n);
                if !exists {
                    self.leaf_count = self.leaf_count + 1;
                }
                Ok(())
            },
        }
    }

    /// Removes `key`, returning its payload, or fails with `OrderNotFound`
    /// leaving the tree untouched.
    pub fn remove(&mut self, key: u64) -> (res: Result<u32, ErrorCode>)
        requires
            old(self).wf(),
        ensures
            final(self).wf(),
            final(self).spec_capacity() == old(self).spec_capacity(),
            old(self)@.dom().contains(key) ==> res == Ok::<u32, ErrorCode>(old(self)@[key])
                && final(self)@ == old(self)@.remove(key),
            !old(self)@.dom().contains(key) ==> res == Err::<u32, ErrorCode>(
                ErrorCode::OrderNotFound,
            ) && *final(self) == *old(self),
    {
        proof {
            match &self.root {
                None => {
                    assert(self@.dom() =~= Set::<u64>::empty());
                },
                Some(n) => {
                    lemma_node_map_basics(**n);
                },
            }
        }
        let taken = self.root.take();
        match taken {
            None => Err(ErrorCode::OrderNotFound),
            Some(mut n) => {
                if n.is_leaf {
                    if n.key == key {
                        self.leaf_count = 0;
                        proof {
                            assert(final(self)@ =~= old(self)@.remove(key));
                        }
                        Ok(n.order_index)
                    } else {
                        self.root = Some(n);
                        proof {
                            assert(*final(self) == *old(self));
                        }
                        Err(ErrorCode::OrderNotFound)
                    }
                } else {
                    let res = remove_node(&mut *n, key);
                    self.root = Some(n);
                    match res {
                        Ok(order_index) => {
                            self.leaf_count = self.leaf_count - 1;
                            Ok(order_index)
                        },
                        Err(e) => {
                            proof {
                                assert(*final(self) == *old(self));
                            }
                            Err(e)
                        },
                    }
                }
            },
        }
    }

    /// Payload stored for `key`, if the key is present.
    pub fn find(&self, key: u64) -> (r: Option<u32>)
        requires
            self.wf(),
        ensures
            self@.dom().contains(key) ==> r == Some(self@[key]),
            !self@.dom().contains(key) ==> r is None,
    {
        match &self.root {
            None => None,
            Some(n) => find_node(n, key),
        }
    }

    /// The smallest key and its payload (the best ask when keys are ask
    /// prices), or `None` on an empty tree.
    pub fn min(&self) -> (r: Option<(u64, u32)>)
        requires
            self.wf(),
        ensures
            self@.dom().len() == 0 ==> r is None,
            self@.dom().len() > 0 ==> {
                &&& r is Some
                &&& self@.dom().contains(r.unwrap().0)
                &&& self@[r.unwrap().0] == r.unwrap().1
                &&& forall|k: u64| self@.dom().contains(k) ==> r.unwrap().0 <= k
            },
    {
        match &self.root {
            None => {
                proof {
                    assert(self@.dom() =~= Set::<u64>::empty());
                }
                None
            },
            Some(n) => {
                proof {
                    lemma_node_map_basics(**n);
                }
                Some(find_min_leaf(n))
            },
        }
    }

    /// The largest key and its payload (the best bid when keys are bid
    /// prices), or `None` on an empty tree.
    pub fn max(&self) -> (r: Option<(u64, u32)>)
        requires
            self.wf(),
        ensures
            self@.dom().len() == 0 ==> r is None,
            self@.dom().len() > 0 ==> {
                &&& r is Some
                &&& self@.dom().contains(r.unwrap().0)
                &&& self@[r.unwrap().0] == r.unwrap().1
                &&& forall|k: u64| self@.dom().contains(k) ==> r.unwrap().0 >= k
            },
    {
        match &self.root {
            None => {
                proof {
                    assert(self@.dom() =~= Set::<u64>::empty());
                }
                None
            },
            Some(n) => {
                proof {
                    lemma_node_map_basics(**n);
                }
                Some(find_max_leaf(n))
            },
        }
    }
}

} // verus!
