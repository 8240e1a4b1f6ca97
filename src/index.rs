//! The authenticated map: a trie over fixed-size keys with byte values.

use vstd::prelude::*;

use crate::hash::{
    copy_bytes, empty_hash, empty_root, hash_single_leaf_root, leaf_hash, single_leaf_root,
};
use crate::key::{common_len, key_bits, lemma_common_len, BitKey, KEY_BITS};
use crate::map_proof::{
    branch_proof, branch_proof_shape, opt_view, value_at, BranchProofNode, RootProofNode,
};
use crate::node::{
    insert_node, lemma_branch_two_keys, lemma_canonical, lemma_sides_disjoint, lookup, remove_node,
    Node,
};

verus! {

/// A map from 32-byte keys to byte values whose root hash commits to every
/// pair, and which hands out proofs of presence and of absence.
#[derive(Debug)]
pub struct ProofMapIndex {
    prefix: Vec<u8>,
    root: Option<Node>,
}

impl View for ProofMapIndex {
    type V = Map<Seq<bool>, Seq<u8>>;

    /// The stored pairs, each key as its bits.
    closed spec fn view(&self) -> Map<Seq<bool>, Seq<u8>> {
        match self.root {
            Some(n) => n.contents(),
            None => Map::empty(),
        }
    }
}

impl ProofMapIndex {
    /// The trie below the root is well formed.
    pub closed spec fn wf(&self) -> bool {
        match self.root {
            Some(n) => n.wf(),
            None => true,
        }
    }

    /// The top node of the trie, if any.
    pub closed spec fn root_node(&self) -> Option<Node> {
        self.root
    }

    /// The namespace the index was created with.
    pub closed spec fn namespace(&self) -> Seq<u8> {
        self.prefix@
    }

    /// The root hash: the empty hash for an empty trie, the leaf's slice
    /// folded with its hash for a trie of one leaf, and the hash of the top
    /// branch otherwise.
    pub closed spec fn root_hash_spec(&self) -> Seq<u8> {
        match self.root {
            None => empty_root(),
            Some(Node::Leaf { key, hash, .. }) => single_leaf_root(key@, hash@),
            Some(Node::Branch { hash, .. }) => hash@,
        }
    }

    /// How the content tells the top node: none for an empty index, a leaf
    /// for a single pair, a branch for two pairs or more.
    pub proof fn lemma_root_shape(&self)
        requires
            self.wf(),
        ensures
            self.root_node() is None <==> self@ == Map::<Seq<bool>, Seq<u8>>::empty(),
            self.root_node() is Some && self.root_node().unwrap() is Leaf ==> {
                let n = self.root_node().unwrap();
                &&& self@.dom() == set![n.slice()]
                &&& self@.len() == 1
                &&& self@[n.slice()] == n->Leaf_value@
                &&& n.stored_hash() == leaf_hash(n->Leaf_value@)
            },
            self.root_node() is Some && self.root_node().unwrap() is Branch ==> forall|k: Seq<bool>|
                self@.dom() != set![k],
            self.root_node() is None ==> self@.len() == 0,
            self.root_node() is Some ==> self.root_node().unwrap().wf(),
    {
        match self.root {
            Some(n) => {
                n.lemma_wf();
                let k = choose|k: Seq<bool>| n.contents().dom().contains(k);
                assert(self@.dom().contains(k));
                match n {
                    Node::Leaf { key, .. } => {
                        assert(self@.dom() =~= set![key@]);
                        assert(set![key@].len() == 1);
                    },
                    Node::Branch { .. } => {
                        lemma_branch_two_keys(n);
                    },
                }
            },
            None => {
                assert(self@.dom() =~= Set::<Seq<bool>>::empty());
            },
        }
    }

    /// An empty index in the namespace `prefix`.
    pub fn new(prefix: Vec<u8>) -> (r: ProofMapIndex)
        ensures
            r.wf(),
            r@ == Map::<Seq<bool>, Seq<u8>>::empty(),
            r.root_hash_spec() == empty_root(),
            r.namespace() == prefix@,
    {
        ProofMapIndex { prefix, root: None }
    }

    /// The root hash that commits to the whole content.
    pub fn root_hash(&self) -> (r: Vec<u8>)
        requires
            self.wf(),
        ensures
            r@ == self.root_hash_spec(),
    {
        match &self.root {
            None => empty_hash(),
            Some(Node::Leaf { key, hash, .. }) => hash_single_leaf_root(key, hash),
            Some(Node::Branch { hash, .. }) => copy_bytes(hash),
        }
    }

    /// The proof of presence or absence of `key`. Checked against `key`, it
    /// leads to this index's root hash and to the value stored under `key`;
    /// it holds at most one node per bit of the key, and one more. Its kind
    /// follows the trie: `Empty` for an empty index, a leaf root proof for a
    /// single pair (the value where the key is stored, only its hash where
    /// not), and otherwise a branch proof that follows the path of `key`.
    pub fn get_proof(&self, key: &[u8; 32]) -> (r: RootProofNode)
        requires
            self.wf(),
        ensures
            r.eval(key_bits(key@)) == Some(
                (self.root_hash_spec(), value_at(self@, key_bits(key@))),
            ),
            r.size() <= KEY_BITS + 1,
            self@ == Map::<Seq<bool>, Seq<u8>>::empty() ==> r is Empty,
            self@.dom() == set![key_bits(key@)] ==> (r matches RootProofNode::LeafRootInclusive(
                k,
                v,
            ) && k@ == key_bits(key@) && v@ == self@[key_bits(key@)]),
            forall|k: Seq<bool>|
                self@.dom() == set![k] && k != key_bits(key@) ==> (r matches RootProofNode::LeafRootExclusive(
                    k2,
                    h,
                ) && k2@ == k && h@ == leaf_hash(self@[k])),
            self@.len() >= 2 ==> r is Branch,
            self.root_node() is Some && self.root_node().unwrap() is Branch ==> (r matches RootProofNode::Branch(b)
                && branch_proof_shape(b, self.root_node().unwrap(), key_bits(key@))),
    {
        proof {
            self.lemma_root_shape();
        }
        let kb = BitKey::leaf(key);
        match &self.root {
            None => RootProofNode::Empty,
            Some(n) => match n {
                Node::Leaf { key: k, value, hash } => {
                    if k.equals(&kb) {
                        RootProofNode::LeafRootInclusive(k.duplicate(), copy_bytes(value))
                    } else {
                        assert forall|k2: Seq<bool>| self@.dom() == set![k2] implies k2 == k@ by {
                            assert(set![k2].contains(k2));
                        }
                        RootProofNode::LeafRootExclusive(k.duplicate(), copy_bytes(hash))
                    }
                },
                Node::Branch { .. } => {
                    let b: BranchProofNode = branch_proof(n, &kb);
                    RootProofNode::Branch(b)
                },
            },
        }
    }

    /// The value stored under `key`.
    pub fn get(&self, key: &[u8; 32]) -> (r: Option<Vec<u8>>)
        requires
            self.wf(),
        ensures
            opt_view(r) == value_at(self@, key_bits(key@)),
    {
        let kb = BitKey::leaf(key);
        match &self.root {
            None => None,
            Some(n) => lookup(n, &kb),
        }
    }

    /// Whether a value is stored under `key`.
    pub fn contains(&self, key: &[u8; 32]) -> (r: bool)
        requires
            self.wf(),
        ensures
            r == self@.dom().contains(key_bits(key@)),
    {
        let kb = BitKey::leaf(key);
        match &self.root {
            None => false,
            Some(n) => lookup(n, &kb).is_some(),
        }
    }

    /// Stores `value` under `key`, replacing what was there.
    pub fn put(&mut self, key: &[u8; 32], value: Vec<u8>)
        requires
            old(self).wf(),
        ensures
            final(self).wf(),
            final(self)@ == old(self)@.insert(key_bits(key@), value@),
            final(self).namespace() == old(self).namespace(),
    {
        let kb = BitKey::leaf(key);
        let root = self.root.take();
        match root {
            None => {
                let n = Node::new_leaf(kb, value);
                self.root = Some(n);
            },
            Some(n) => {
                let n2 = insert_node(n, &kb, value);
                self.root = Some(n2);
            },
        }
    }

    /// Removes what is stored under `key`; nothing changes where nothing is.
    pub fn delete(&mut self, key: &[u8; 32])
        requires
            old(self).wf(),
        ensures
            final(self).wf(),
            final(self)@ == old(self)@.remove(key_bits(key@)),
            final(self).namespace() == old(self).namespace(),
    {
        let kb = BitKey::leaf(key);
        let root = self.root.take();
        match root {
            None => {
                assert(old(self)@.remove(kb@) =~= Map::<Seq<bool>, Seq<u8>>::empty());
            },
            Some(n) => {
                let r = remove_node(n, &kb);
                if r.is_none() {
                    assert(n.contents().remove(kb@) =~= Map::<Seq<bool>, Seq<u8>>::empty());
                }
                self.root = r;
            },
        }
    }

    /// Removes every pair.
    pub fn clear(&mut self)
        ensures
            final(self).wf(),
            final(self)@ == Map::<Seq<bool>, Seq<u8>>::empty(),
            final(self).root_hash_spec() == empty_root(),
            final(self).namespace() == old(self).namespace(),
    {
        self.root = None;
    }
}

/// A well-formed index with no pairs has the empty root hash.
pub proof fn lemma_empty_root(t: &ProofMapIndex)
    requires
        t.wf(),
        t@ == Map::<Seq<bool>, Seq<u8>>::empty(),
    ensures
        t.root_hash_spec() == empty_root(),
{
    match t.root {
        Some(n) => {
            n.lemma_wf();
            let k = choose|k: Seq<bool>| n.contents().dom().contains(k);
            assert(t@.dom().contains(k));
        },
        None => {},
    }
}

/// The root hash depends on the stored pairs alone: two indexes with the
/// same content have the same root hash, whatever sequence of insertions and
/// deletions built them.
pub proof fn lemma_root_hash_determined_by_contents(a: &ProofMapIndex, b: &ProofMapIndex)
    requires
        a.wf(),
        b.wf(),
        a@ == b@,
    ensures
        a.root_hash_spec() == b.root_hash_spec(),
{
    match (a.root, b.root) {
        (Some(n1), Some(n2)) => {
            lemma_canonical(n1, n2);
        },
        (None, None) => {},
        (None, Some(_)) => {
            lemma_empty_root(b);
        },
        (Some(_), None) => {
            lemma_empty_root(a);
        },
    }
}

/// A value put under a key is what a lookup of that key finds, and it stays
/// so when a value is then put under any other key.
pub proof fn lemma_get_after_put(
    before: &ProofMapIndex,
    after: &ProofMapIndex,
    key: [u8; 32],
    value: Seq<u8>,
    other: [u8; 32],
    other_value: Seq<u8>,
)
    requires
        after@ == before@.insert(key_bits(key@), value),
    ensures
        value_at(after@, key_bits(key@)) == Some(value),
        key_bits(other@) != key_bits(key@) ==> value_at(
            after@.insert(key_bits(other@), other_value),
            key_bits(key@),
        ) == Some(value),
{
}

/// Putting the same pair twice in a row leaves the root hash as the first
/// put left it.
pub proof fn lemma_put_idempotent(
    before: &ProofMapIndex,
    once: &ProofMapIndex,
    twice: &ProofMapIndex,
    key: [u8; 32],
    value: Seq<u8>,
)
    requires
        once.wf(),
        twice.wf(),
        once@ == before@.insert(key_bits(key@), value),
        twice@ == once@.insert(key_bits(key@), value),
    ensures
        twice.root_hash_spec() == once.root_hash_spec(),
{
    assert(twice@ =~= once@);
    lemma_root_hash_determined_by_contents(twice, once);
}

/// Putting a key into an empty index and deleting it again gives back the
/// root hash of the empty index.
pub proof fn lemma_delete_inverts_put(
    empty: &ProofMapIndex,
    put: &ProofMapIndex,
    deleted: &ProofMapIndex,
    key: [u8; 32],
    value: Seq<u8>,
)
    requires
        empty.wf(),
        deleted.wf(),
        empty@ == Map::<Seq<bool>, Seq<u8>>::empty(),
        put@ == empty@.insert(key_bits(key@), value),
        deleted@ == put@.remove(key_bits(key@)),
    ensures
        deleted.root_hash_spec() == empty_root(),
        deleted.root_hash_spec() == empty.root_hash_spec(),
{
    assert(deleted@ =~= Map::<Seq<bool>, Seq<u8>>::empty());
    lemma_empty_root(deleted);
    lemma_empty_root(empty);
}

/// An index of two pairs is one branch over two leaves, the two keys, and
/// the branch's slice is as long as the prefix that the keys share.
pub proof fn lemma_two_keys(t: &ProofMapIndex, a: Seq<bool>, b: Seq<bool>)
    requires
        t.wf(),
        t@.dom() == set![a, b],
        a != b,
    ensures
        t.root_node() is Some,
        t.root_node().unwrap().wf(),
        t.root_node().unwrap() matches Node::Branch { prefix, left, right, .. } && {
            &&& *left is Leaf
            &&& *right is Leaf
            &&& (left.slice() == a && right.slice() == b) || (left.slice() == b && right.slice()
                == a)
            &&& prefix@.len() == common_len(left.slice(), right.slice())
            &&& !left.slice()[prefix@.len() as int]
            &&& right.slice()[prefix@.len() as int]
            &&& left->Leaf_value@ == t@[left.slice()]
            &&& right->Leaf_value@ == t@[right.slice()]
            &&& left.stored_hash() == leaf_hash(left->Leaf_value@)
            &&& right.stored_hash() == leaf_hash(right->Leaf_value@)
        },
{
    t.lemma_root_shape();
    assert(t@.dom().contains(a) && t@.dom().contains(b));
    assert(t.root_node() is Some);
    let n = t.root_node().unwrap();
    if n is Leaf {
        assert(t@.dom() == set![n.slice()]);
        assert(false);
    }
    match n {
        Node::Branch { prefix, left, right, .. } => {
            lemma_sides_disjoint(n);
            left.lemma_wf();
            right.lemma_wf();
            let x = choose|k: Seq<bool>| left.contents().dom().contains(k);
            let y = choose|k: Seq<bool>| right.contents().dom().contains(k);
            assert(n.contents().dom().contains(x));
            assert(n.contents().dom().contains(y));
            if *left is Branch {
                lemma_branch_two_keys(*left);
                let (p, q) = choose|p: Seq<bool>, q: Seq<bool>|
                    p != q && left.contents().dom().contains(p) && left.contents().dom().contains(q);
                assert(n.contents().dom().contains(p));
                assert(n.contents().dom().contains(q));
                assert(false);
            }
            if *right is Branch {
                lemma_branch_two_keys(*right);
                let (p, q) = choose|p: Seq<bool>, q: Seq<bool>|
                    p != q && right.contents().dom().contains(p) && right.contents().dom().contains(q);
                assert(n.contents().dom().contains(p));
                assert(n.contents().dom().contains(q));
                assert(false);
            }
            assert(left.contents().dom().contains(left.slice()));
            assert(right.contents().dom().contains(right.slice()));
            assert(n.contents().dom().contains(left.slice()));
            assert(n.contents().dom().contains(right.slice()));
            lemma_common_len(left.slice(), right.slice(), prefix@.len() as int);
            assert(!right.contents().dom().contains(left.slice()));
            assert(t@[left.slice()] == left.contents()[left.slice()]);
            assert(t@[right.slice()] == right.contents()[right.slice()]);
            assert(left.contents()[left.slice()] == left->Leaf_value@);
            assert(right.contents()[right.slice()] == right->Leaf_value@);
            assert(!left.slice()[prefix@.len() as int]);
            assert(right.slice()[prefix@.len() as int]);
            assert(left->Leaf_value@ == t@[left.slice()]);
            assert(right->Leaf_value@ == t@[right.slice()]);
            assert(left.wf() && right.wf());
        },
        Node::Leaf { .. } => {},
    }
}

/// The pairs after a sequence of puts, applied in order from `m`.
pub open spec fn apply_puts(m: Map<Seq<bool>, Seq<u8>>, puts: Seq<(Seq<bool>, Seq<u8>)>) -> Map<
    Seq<bool>,
    Seq<u8>,
>
    decreases puts.len(),
{
    if puts.len() == 0 {
        m
    } else {
        apply_puts(m.insert(puts[0].0, puts[0].1), puts.drop_first())
    }
}

/// A value put under a key is what a lookup of that key finds after any
/// number of puts under other keys, in any order.
pub proof fn lemma_get_after_puts(
    after: &ProofMapIndex,
    key: [u8; 32],
    value: Seq<u8>,
    later: Seq<(Seq<bool>, Seq<u8>)>,
)
    requires
        value_at(after@, key_bits(key@)) == Some(value),
        forall|i: int| 0 <= i < later.len() ==> later[i].0 != key_bits(key@),
    ensures
        value_at(apply_puts(after@, later), key_bits(key@)) == Some(value),
{
    lemma_value_kept(after@, key_bits(key@), value, later);
}

proof fn lemma_value_kept(
    m: Map<Seq<bool>, Seq<u8>>,
    k: Seq<bool>,
    v: Seq<u8>,
    later: Seq<(Seq<bool>, Seq<u8>)>,
)
    requires
        value_at(m, k) == Some(v),
        forall|i: int| 0 <= i < later.len() ==> later[i].0 != k,
    ensures
        value_at(apply_puts(m, later), k) == Some(v),
    decreases later.len(),
{
    if later.len() > 0 {
        let m2 = m.insert(later[0].0, later[0].1);
        assert forall|i: int| 0 <= i < later.drop_first().len() implies later.drop_first()[i].0
            != k by {
            assert(later.drop_first()[i] == later[i + 1]);
        }
        lemma_value_kept(m2, k, v, later.drop_first());
    }
}

} // verus!
