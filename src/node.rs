//! Trie nodes, their contents and hashes, and the insertion and deletion
//! algorithms that keep the trie canonical.

use vstd::prelude::*;

use crate::hash::{branch_hash, copy_bytes, hash_branch, hash_leaf, leaf_hash};
use crate::key::{is_prefix, BitKey, KEY_BITS};

verus! {

/// A node of the trie, addressed by its slice. A leaf's slice is the full
/// key; a branch's slice is the longest prefix shared by every key below it.
/// Each node keeps its own hash.
#[derive(Debug)]
pub enum Node {
    Leaf { key: BitKey, value: Vec<u8>, hash: Vec<u8> },
    Branch { prefix: BitKey, left: Box<Node>, right: Box<Node>, hash: Vec<u8> },
}

/// `c` may stand on side `bit` of a branch at slice `p`.
pub open spec fn child_fits(p: Seq<bool>, c: Seq<bool>, bit: bool) -> bool {
    is_prefix(p, c) && c.len() > p.len() && c[p.len() as int] == bit
}

/// Prefix order is transitive.
pub proof fn lemma_prefix_trans(a: Seq<bool>, b: Seq<bool>, c: Seq<bool>)
    requires
        is_prefix(a, b),
        is_prefix(b, c),
    ensures
        is_prefix(a, c),
{
    assert forall|j: int| 0 <= j < a.len() implies a[j] == c[j] by {
        assert(a[j] == b[j]);
    }
}

impl Node {
    /// The slice that addresses this node.
    pub open spec fn slice(self) -> Seq<bool> {
        match self {
            Node::Leaf { key, .. } => key@,
            Node::Branch { prefix, .. } => prefix@,
        }
    }

    /// The hash kept in this node.
    pub open spec fn stored_hash(self) -> Seq<u8> {
        match self {
            Node::Leaf { hash, .. } => hash@,
            Node::Branch { hash, .. } => hash@,
        }
    }

    /// The node and everything below it are well formed: slices have their
    /// place, every branch splits on its first bit after its own slice, and
    /// every kept hash is the hash of what lies below.
    pub open spec fn wf(self) -> bool
        decreases self,
    {
        match self {
            Node::Leaf { key, value, hash } => key@.len() == KEY_BITS && hash@ == leaf_hash(value@),
            Node::Branch { prefix, left, right, hash } => {
                &&& prefix@.len() < KEY_BITS
                &&& child_fits(prefix@, left.slice(), false)
                &&& child_fits(prefix@, right.slice(), true)
                &&& left.wf()
                &&& right.wf()
                &&& hash@ == branch_hash(
                    left.slice(),
                    left.stored_hash(),
                    right.slice(),
                    right.stored_hash(),
                )
            },
        }
    }

    /// The key-value pairs stored below this node, keys as bit sequences.
    pub open spec fn contents(self) -> Map<Seq<bool>, Seq<u8>>
        decreases self,
    {
        match self {
            Node::Leaf { key, value, .. } => map![key@ => value@],
            Node::Branch { left, right, .. } => left.contents().union_prefer_right(
                right.contents(),
            ),
        }
    }

    /// The number of nodes on the longest path down from this one.
    pub open spec fn depth(self) -> nat
        decreases self,
    {
        match self {
            Node::Leaf { .. } => 1,
            Node::Branch { left, right, .. } => 1 + if left.depth() >= right.depth() {
                left.depth()
            } else {
                right.depth()
            },
        }
    }

    /// What a well-formed node holds: a slice of at most a key's length,
    /// at least one pair, and keys that are full length and extend the slice.
    pub proof fn lemma_wf(self)
        requires
            self.wf(),
        ensures
            self.slice().len() <= KEY_BITS,
            self.contents().dom().contains(choose|k: Seq<bool>| self.contents().dom().contains(k)),
            forall|k: Seq<bool>| #[trigger]
                self.contents().dom().contains(k) ==> k.len() == KEY_BITS && is_prefix(
                    self.slice(),
                    k,
                ),
            self.depth() <= KEY_BITS + 1 - self.slice().len(),
        decreases self,
    {
        match self {
            Node::Leaf { key, value, .. } => {
                assert(self.contents().dom().contains(key@));
            },
            Node::Branch { prefix, left, right, .. } => {
                left.lemma_wf();
                right.lemma_wf();
                let k = choose|k: Seq<bool>| left.contents().dom().contains(k);
                assert(self.contents().dom().contains(k));
                assert forall|k: Seq<bool>| #[trigger]
                    self.contents().dom().contains(k) implies k.len() == KEY_BITS && is_prefix(
                    self.slice(),
                    k,
                ) by {
                    if left.contents().dom().contains(k) {
                        lemma_prefix_trans(prefix@, left.slice(), k);
                    } else {
                        lemma_prefix_trans(prefix@, right.slice(), k);
                    }
                }
            },
        }
    }

    /// The slice of this node.
    pub fn slice_ref(&self) -> (r: &BitKey)
        ensures
            r@ == self.slice(),
    {
        match self {
            Node::Leaf { key, .. } => key,
            Node::Branch { prefix, .. } => prefix,
        }
    }

    /// The hash kept in this node.
    pub fn hash_ref(&self) -> (r: &Vec<u8>)
        ensures
            r@ == self.stored_hash(),
    {
        match self {
            Node::Leaf { hash, .. } => hash,
            Node::Branch { hash, .. } => hash,
        }
    }

    /// A leaf holding `value` at the full-length slice `key`.
    pub fn new_leaf(key: BitKey, value: Vec<u8>) -> (r: Node)
        requires
            key@.len() == KEY_BITS,
        ensures
            r.wf(),
            r.slice() == key@,
            r.contents() == map![key@ => value@],
    {
        let hash = hash_leaf(&value);
        Node::Leaf { key, value, hash }
    }

    /// A branch at slice `prefix` over two children, with its hash.
    pub fn new_branch(prefix: BitKey, left: Node, right: Node) -> (r: Node)
        requires
            prefix@.len() < KEY_BITS,
            child_fits(prefix@, left.slice(), false),
            child_fits(prefix@, right.slice(), true),
            left.wf(),
            right.wf(),
        ensures
            r.wf(),
            r.slice() == prefix@,
            r.contents() == left.contents().union_prefer_right(right.contents()),
    {
        proof {
            left.lemma_wf();
            right.lemma_wf();
        }
        let hash = hash_branch(left.slice_ref(), left.hash_ref(), right.slice_ref(), right.hash_ref());
        Node::Branch { prefix, left: Box::new(left), right: Box::new(right), hash }
    }
}

/// Keys on opposite sides of a branch at slice `p` differ.
pub proof fn lemma_sides_disjoint(n: Node)
    requires
        n.wf(),
        n is Branch,
    ensures
        forall|k: Seq<bool>| #[trigger]
            n->Branch_left.contents().dom().contains(k) ==> !n->Branch_right.contents().dom().contains(
                k,
            ),
{
    let p = n.slice();
    n->Branch_left.lemma_wf();
    n->Branch_right.lemma_wf();
    assert forall|k: Seq<bool>| #[trigger]
        n->Branch_left.contents().dom().contains(k) implies !n->Branch_right.contents().dom().contains(
        k,
    ) by {
        let l = n->Branch_left.slice();
        let r = n->Branch_right.slice();
        assert(k[p.len() as int] == l[p.len() as int]);
        if n->Branch_right.contents().dom().contains(k) {
            assert(k[p.len() as int] == r[p.len() as int]);
        }
    }
}

/// Stores `value` under the full-length slice `key` in the subtree `node`,
/// splitting where `key` leaves the subtree's slice. The result's slice is
/// the longest prefix that `key` shares with the old slice.
pub fn insert_node(node: Node, key: &BitKey, value: Vec<u8>) -> (r: Node)
    requires
        node.wf(),
        key@.len() == KEY_BITS,
    ensures
        r.wf(),
        r.contents() == node.contents().insert(key@, value@),
        is_prefix(r.slice(), node.slice()),
        is_prefix(r.slice(), key@),
        r.slice().len() < node.slice().len() ==> node.slice()[r.slice().len() as int]
            != key@[r.slice().len() as int],
    decreases node,
{
    proof {
        node.lemma_wf();
    }
    let i = node.slice_ref().common_prefix(key);
    if i < node.slice_ref().len() {
        let prefix = key.truncate(i);
        let leaf = Node::new_leaf(key.duplicate(), value);
        proof {
            assert(!node.contents().dom().contains(key@));
        }
        if key.bit(i) {
            let r = Node::new_branch(prefix, node, leaf);
            assert(r.contents() =~= node.contents().insert(key@, value@));
            r
        } else {
            let r = Node::new_branch(prefix, leaf, node);
            assert(r.contents() =~= node.contents().insert(key@, value@));
            r
        }
    } else {
        match node {
            Node::Leaf { key: k, value: _, hash: _ } => {
                assert(k@ =~= key@);
                let r = Node::new_leaf(k, value);
                assert(r.contents() =~= node.contents().insert(key@, value@));
                r
            },
            Node::Branch { prefix, left, right, hash: _ } => {
                proof {
                    lemma_sides_disjoint(node);
                    left.lemma_wf();
                    right.lemma_wf();
                }
                let d = prefix.len();
                if key.bit(d) {
                    let r2 = insert_node(*right, key, value);
                    assert(child_fits(prefix@, r2.slice(), true));
                    let r = Node::new_branch(prefix, *left, r2);
                    assert(r.contents() =~= node.contents().insert(key@, value@));
                    r
                } else {
                    let r2 = insert_node(*left, key, value);
                    assert(child_fits(prefix@, r2.slice(), false));
                    let r = Node::new_branch(prefix, r2, *right);
                    assert(!right.contents().dom().contains(key@));
                    assert(r.contents() =~= node.contents().insert(key@, value@));
                    r
                }
            },
        }
    }
}

/// Removes the pair with full-length slice `key` from the subtree `node`.
/// A branch left with one child is replaced by that child, so no branch
/// ever has a single child. `None` means the subtree held only `key`.
pub fn remove_node(node: Node, key: &BitKey) -> (r: Option<Node>)
    requires
        node.wf(),
        key@.len() == KEY_BITS,
    ensures
        match r {
            None => node.contents().dom() == set![key@],
            Some(n) => {
                &&& n.wf()
                &&& n.contents() == node.contents().remove(key@)
                &&& is_prefix(node.slice(), n.slice())
            },
        },
    decreases node,
{
    proof {
        node.lemma_wf();
    }
    let i = node.slice_ref().common_prefix(key);
    if i < node.slice_ref().len() {
        assert(!node.contents().dom().contains(key@));
        assert(node.contents().remove(key@) =~= node.contents());
        return Some(node);
    }
    match node {
        Node::Leaf { key: k, .. } => {
            assert(k@ =~= key@);
            assert(node.contents().dom() =~= set![key@]);
            None
        },
        Node::Branch { prefix, left, right, hash: _ } => {
            proof {
                lemma_sides_disjoint(node);
                left.lemma_wf();
                right.lemma_wf();
            }
            let d = prefix.len();
            if key.bit(d) {
                assert(!left.contents().dom().contains(key@));
                match remove_node(*right, key) {
                    None => {
                        assert(left.contents() =~= node.contents().remove(key@));
                        Some(*left)
                    },
                    Some(r2) => {
                        proof {
                            lemma_prefix_trans(prefix@, right.slice(), r2.slice());
                        }
                        let r = Node::new_branch(prefix, *left, r2);
                        assert(r.contents() =~= node.contents().remove(key@));
                        Some(r)
                    },
                }
            } else {
                assert(!right.contents().dom().contains(key@));
                match remove_node(*left, key) {
                    None => {
                        assert(right.contents() =~= node.contents().remove(key@));
                        Some(*right)
                    },
                    Some(r2) => {
                        proof {
                            lemma_prefix_trans(prefix@, left.slice(), r2.slice());
                        }
                        let r = Node::new_branch(prefix, r2, *right);
                        assert(r.contents() =~= node.contents().remove(key@));
                        Some(r)
                    },
                }
            }
        },
    }
}

/// The value stored under the full-length slice `key` in the subtree `node`.
pub fn lookup(node: &Node, key: &BitKey) -> (r: Option<Vec<u8>>)
    requires
        node.wf(),
        key@.len() == KEY_BITS,
    ensures
        match r {
            None => !node.contents().dom().contains(key@),
            Some(v) => node.contents().dom().contains(key@) && v@ == node.contents()[key@],
        },
    decreases node,
{
    proof {
        node.lemma_wf();
    }
    let i = node.slice_ref().common_prefix(key);
    if i < node.slice_ref().len() {
        assert(!node.contents().dom().contains(key@));
        return None;
    }
    match node {
        Node::Leaf { key: k, value, .. } => {
            assert(k@ =~= key@);
            Some(copy_bytes(value))
        },
        Node::Branch { prefix, left, right, .. } => {
            proof {
                left.lemma_wf();
                right.lemma_wf();
            }
            if key.bit(prefix.len()) {
                assert(!left.contents().dom().contains(key@));
                lookup(right, key)
            } else {
                assert(!right.contents().dom().contains(key@));
                lookup(left, key)
            }
        },
    }
}

/// A branch's two sides split its pairs by the bit after its slice.
pub proof fn lemma_sides(n: Node)
    requires
        n.wf(),
        n is Branch,
    ensures
        forall|k: Seq<bool>| #[trigger]
            n->Branch_left.contents().dom().contains(k) <==> (n.contents().dom().contains(k)
                && !k[n.slice().len() as int]),
        forall|k: Seq<bool>| #[trigger]
            n->Branch_right.contents().dom().contains(k) <==> (n.contents().dom().contains(k)
                && k[n.slice().len() as int]),
        forall|k: Seq<bool>| #[trigger]
            n->Branch_left.contents().dom().contains(k) ==> n.contents()[k]
                == n->Branch_left.contents()[k],
        forall|k: Seq<bool>| #[trigger]
            n->Branch_right.contents().dom().contains(k) ==> n.contents()[k]
                == n->Branch_right.contents()[k],
{
    let p = n.slice();
    n->Branch_left.lemma_wf();
    n->Branch_right.lemma_wf();
    lemma_sides_disjoint(n);
    assert forall|k: Seq<bool>| #[trigger]
        n->Branch_left.contents().dom().contains(k) implies !k[p.len() as int] by {
        assert(k[p.len() as int] == n->Branch_left.slice()[p.len() as int]);
    }
    assert forall|k: Seq<bool>| #[trigger]
        n->Branch_right.contents().dom().contains(k) implies k[p.len() as int] by {
        assert(k[p.len() as int] == n->Branch_right.slice()[p.len() as int]);
    }
}

/// The trie is canonical: two well-formed subtrees with the same pairs have
/// the same slice, the same shape at the top, and the same hash.
pub proof fn lemma_canonical(n1: Node, n2: Node)
    requires
        n1.wf(),
        n2.wf(),
        n1.contents() == n2.contents(),
    ensures
        n1.slice() == n2.slice(),
        n1.stored_hash() == n2.stored_hash(),
        (n1 is Leaf) == (n2 is Leaf),
    decreases n1,
{
    n1.lemma_wf();
    n2.lemma_wf();
    match n1 {
        Node::Leaf { key: k1, value: v1, .. } => {
            assert(n1.contents().dom().contains(k1@));
            match n2 {
                Node::Leaf { key: k2, value: v2, .. } => {
                    assert(n2.contents().dom().contains(k2@));
                    assert(k1@ == k2@);
                    assert(v1@ == n1.contents()[k1@]);
                },
                Node::Branch { left, right, .. } => {
                    lemma_sides_disjoint(n2);
                    left.lemma_wf();
                    right.lemma_wf();
                    let kl = choose|k: Seq<bool>| left.contents().dom().contains(k);
                    let kr = choose|k: Seq<bool>| right.contents().dom().contains(k);
                    assert(n2.contents().dom().contains(kl));
                    assert(n2.contents().dom().contains(kr));
                    assert(false);
                },
            }
        },
        Node::Branch { prefix: pa, left: l1, right: r1, .. } => {
            lemma_sides_disjoint(n1);
            l1.lemma_wf();
            r1.lemma_wf();
            let kl1 = choose|k: Seq<bool>| l1.contents().dom().contains(k);
            let kr1 = choose|k: Seq<bool>| r1.contents().dom().contains(k);
            assert(n1.contents().dom().contains(kl1));
            assert(n1.contents().dom().contains(kr1));
            match n2 {
                Node::Leaf { key: k2, .. } => {
                    assert(n2.contents().dom().contains(k2@));
                    assert(false);
                },
                Node::Branch { prefix: pb, left: l2, right: r2, .. } => {
                    lemma_sides_disjoint(n2);
                    l2.lemma_wf();
                    r2.lemma_wf();
                    let kl2 = choose|k: Seq<bool>| l2.contents().dom().contains(k);
                    let kr2 = choose|k: Seq<bool>| r2.contents().dom().contains(k);
                    assert(n2.contents().dom().contains(kl2));
                    assert(n2.contents().dom().contains(kr2));
                    let d1 = pa@.len() as int;
                    let d2 = pb@.len() as int;
                    assert(!kl1[d1] && kr1[d1]) by {
                        assert(kl1[d1] == l1.slice()[d1]);
                        assert(kr1[d1] == r1.slice()[d1]);
                    }
                    assert(!kl2[d2] && kr2[d2]) by {
                        assert(kl2[d2] == l2.slice()[d2]);
                        assert(kr2[d2] == r2.slice()[d2]);
                    }
                    if d1 < d2 {
                        assert(kl1[d1] == pb@[d1]);
                        assert(kr1[d1] == pb@[d1]);
                    }
                    if d2 < d1 {
                        assert(kl2[d2] == pa@[d2]);
                        assert(kr2[d2] == pa@[d2]);
                    }
                    assert(d1 == d2);
                    assert forall|j: int| 0 <= j < d1 implies pa@[j] == pb@[j] by {
                        assert(kl1[j] == pa@[j]);
                        assert(kl1[j] == pb@[j]);
                    }
                    assert(pa@ =~= pb@);
                    lemma_sides(n1);
                    lemma_sides(n2);
                    assert(l1.contents() =~= l2.contents());
                    assert(r1.contents() =~= r2.contents());
                    lemma_canonical(*l1, *l2);
                    lemma_canonical(*r1, *r2);
                },
            }
        },
    }
}

/// A branch holds at least two distinct keys.
pub proof fn lemma_branch_two_keys(n: Node)
    requires
        n.wf(),
        n is Branch,
    ensures
        exists|x: Seq<bool>, y: Seq<bool>|
            x != y && n.contents().dom().contains(x) && n.contents().dom().contains(y),
{
    lemma_sides_disjoint(n);
    n->Branch_left.lemma_wf();
    n->Branch_right.lemma_wf();
    let x = choose|k: Seq<bool>| n->Branch_left.contents().dom().contains(k);
    let y = choose|k: Seq<bool>| n->Branch_right.contents().dom().contains(k);
    assert(n.contents().dom().contains(x));
    assert(n.contents().dom().contains(y));
}

} // verus!
