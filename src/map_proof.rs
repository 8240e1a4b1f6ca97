//! Proofs for a single key: the search path of the trie with only the hash
//! of each sibling, and the offline check that recomputes the root from them.

use vstd::prelude::*;

use crate::hash::{
    branch_hash, copy_bytes, empty_hash, empty_root, hash_branch, hash_leaf, hash_single_leaf_root,
    leaf_hash, single_leaf_root,
};
use crate::key::{common_len, is_prefix, key_bits, lemma_common_len, BitKey, KEY_BITS};
use crate::node::Node;

verus! {

/// The value that `m` holds under `k`, if any.
pub open spec fn value_at(m: Map<Seq<bool>, Seq<u8>>, k: Seq<bool>) -> Option<Seq<u8>> {
    if m.dom().contains(k) {
        Some(m[k])
    } else {
        None
    }
}

/// The proof of a node on the search path below the root.
#[derive(Debug)]
pub enum ProofNode {
    Leaf(Vec<u8>),
    Branch(BranchProofNode),
}

/// The proof of a branch: the visited side carries the proof of the level
/// below, the other side only its hash. Where no side continues toward the
/// key, both sides carry only their hashes.
#[derive(Debug)]
#[allow(inconsistent_fields)]
pub enum BranchProofNode {
    LeftBranch { left_hash: Box<ProofNode>, right_hash: Vec<u8>, left_key: BitKey, right_key: BitKey },
    RightBranch { left_hash: Vec<u8>, right_hash: Box<ProofNode>, left_key: BitKey, right_key: BitKey },
    BranchKeyNotFound { left_hash: Vec<u8>, right_hash: Vec<u8>, left_key: BitKey, right_key: BitKey },
}

/// The proof for one key, from the root of the trie.
#[derive(Debug)]
pub enum RootProofNode {
    Empty,
    LeafRootInclusive(BitKey, Vec<u8>),
    LeafRootExclusive(BitKey, Vec<u8>),
    Branch(BranchProofNode),
}

/// A proof that passed its check: the root it leads to, and the pair that
/// it shows present, if any.
#[derive(Debug)]
pub struct CheckedMapProof {
    key: [u8; 32],
    value: Option<Vec<u8>>,
    root: Vec<u8>,
}

/// The proof does not fit the key or is malformed.
#[derive(Debug, Clone, Copy, PartialEq, Eq, Structural)]
pub enum ProofError {
    InvalidProof,
}

/// The value part of an optional byte string.
pub open spec fn opt_view(v: Option<Vec<u8>>) -> Option<Seq<u8>> {
    match v {
        Some(x) => Some(x@),
        None => None,
    }
}

/// Two child slices form a branch: both at most a key long, equal below
/// their first difference, the left one with a clear bit there and the
/// right one with a set bit.
pub open spec fn keys_split(lk: Seq<bool>, rk: Seq<bool>) -> bool {
    let d = common_len(lk, rk);
    &&& lk.len() <= KEY_BITS
    &&& rk.len() <= KEY_BITS
    &&& d < lk.len()
    &&& d < rk.len()
    &&& !lk[d]
    &&& rk[d]
}

impl BranchProofNode {
    pub open spec fn left_key_spec(self) -> Seq<bool> {
        match self {
            BranchProofNode::LeftBranch { left_key, .. } => left_key@,
            BranchProofNode::RightBranch { left_key, .. } => left_key@,
            BranchProofNode::BranchKeyNotFound { left_key, .. } => left_key@,
        }
    }

    pub open spec fn right_key_spec(self) -> Seq<bool> {
        match self {
            BranchProofNode::LeftBranch { right_key, .. } => right_key@,
            BranchProofNode::RightBranch { right_key, .. } => right_key@,
            BranchProofNode::BranchKeyNotFound { right_key, .. } => right_key@,
        }
    }

    /// What checking this branch proof against the key bits `kb` yields:
    /// the branch's hash and the value found, or `None` where it fails.
    pub open spec fn eval(self, kb: Seq<bool>) -> Option<(Seq<u8>, Option<Seq<u8>>)>
        decreases self,
    {
        let lk = self.left_key_spec();
        let rk = self.right_key_spec();
        if !keys_split(lk, rk) {
            None
        } else {
            match self {
                BranchProofNode::LeftBranch { left_hash, right_hash, .. } => {
                    if !is_prefix(lk, kb) {
                        None
                    } else {
                        match left_hash.eval(kb, lk) {
                            Some((h, v)) => Some((branch_hash(lk, h, rk, right_hash@), v)),
                            None => None,
                        }
                    }
                },
                BranchProofNode::RightBranch { left_hash, right_hash, .. } => {
                    if !is_prefix(rk, kb) {
                        None
                    } else {
                        match right_hash.eval(kb, rk) {
                            Some((h, v)) => Some((branch_hash(lk, left_hash@, rk, h), v)),
                            None => None,
                        }
                    }
                },
                BranchProofNode::BranchKeyNotFound { left_hash, right_hash, .. } => {
                    if is_prefix(lk, kb) || is_prefix(rk, kb) {
                        None
                    } else {
                        Some((branch_hash(lk, left_hash@, rk, right_hash@), None))
                    }
                },
            }
        }
    }

    /// The number of proof nodes in this branch proof.
    pub open spec fn size(self) -> nat
        decreases self,
    {
        match self {
            BranchProofNode::LeftBranch { left_hash, .. } => 1 + left_hash.size(),
            BranchProofNode::RightBranch { right_hash, .. } => 1 + right_hash.size(),
            BranchProofNode::BranchKeyNotFound { .. } => 1,
        }
    }
}

impl ProofNode {
    /// What checking this proof of the node at slice `slice` against the key
    /// bits `kb` yields: the node's hash and the value found.
    pub open spec fn eval(self, kb: Seq<bool>, slice: Seq<bool>) -> Option<(Seq<u8>, Option<Seq<u8>>)>
        decreases self,
    {
        match self {
            ProofNode::Leaf(value) => {
                if slice.len() == KEY_BITS {
                    Some((leaf_hash(value@), Some(value@)))
                } else {
                    None
                }
            },
            ProofNode::Branch(b) => {
                if slice.len() < KEY_BITS && common_len(b.left_key_spec(), b.right_key_spec())
                    == slice.len() && is_prefix(slice, b.left_key_spec()) {
                    b.eval(kb)
                } else {
                    None
                }
            },
        }
    }

    /// The number of proof nodes in this proof.
    pub open spec fn size(self) -> nat
        decreases self,
    {
        match self {
            ProofNode::Leaf(_) => 1,
            ProofNode::Branch(b) => b.size(),
        }
    }
}

impl RootProofNode {
    /// What checking this proof against the key bits `kb` yields: the root
    /// hash and the value found, or `None` where the proof fails.
    pub open spec fn eval(self, kb: Seq<bool>) -> Option<(Seq<u8>, Option<Seq<u8>>)> {
        match self {
            RootProofNode::Empty => Some((empty_root(), None)),
            RootProofNode::LeafRootInclusive(k, v) => {
                if k@ == kb {
                    Some((single_leaf_root(k@, leaf_hash(v@)), Some(v@)))
                } else {
                    None
                }
            },
            RootProofNode::LeafRootExclusive(k, vh) => {
                if k@.len() == KEY_BITS && k@ != kb {
                    Some((single_leaf_root(k@, vh@), None))
                } else {
                    None
                }
            },
            RootProofNode::Branch(b) => b.eval(kb),
        }
    }

    /// The number of proof nodes in this proof.
    pub open spec fn size(self) -> nat {
        match self {
            RootProofNode::Branch(b) => b.size(),
            _ => 1,
        }
    }
}

/// `p` is the proof that the trie gives for the node `n` on the path of the
/// key bits `kb`: the stored value for a leaf, and for a branch a branch
/// proof as `branch_proof_shape` describes.
pub open spec fn node_proof_shape(p: ProofNode, n: Node, kb: Seq<bool>) -> bool
    decreases n, 1nat,
{
    match n {
        Node::Leaf { value, .. } => (p matches ProofNode::Leaf(v) && v@ == value@),
        Node::Branch { .. } => (p matches ProofNode::Branch(b) && branch_proof_shape(b, n, kb)),
    }
}

/// `b` is the proof that the trie gives for the branch `n` and the key bits
/// `kb`: it carries the two child slices; where the side that `kb` selects
/// holds a prefix of `kb`, it follows that side with the proof of the child
/// and gives the other child's stored hash; where neither child's slice is
/// a prefix of `kb`, it gives both stored hashes.
pub open spec fn branch_proof_shape(b: BranchProofNode, n: Node, kb: Seq<bool>) -> bool
    decreases n, 0nat,
{
    match n {
        Node::Branch { prefix, left, right, .. } => {
            let d = prefix@.len() as int;
            &&& b.left_key_spec() == left.slice()
            &&& b.right_key_spec() == right.slice()
            &&& (!kb[d] && is_prefix(left.slice(), kb)) ==> (b matches BranchProofNode::LeftBranch {
                left_hash: sub,
                right_hash: h,
                ..
            } && h@ == right.stored_hash() && node_proof_shape(*sub, *left, kb))
            &&& (kb[d] && is_prefix(right.slice(), kb)) ==> (b matches BranchProofNode::RightBranch {
                left_hash: h,
                right_hash: sub,
                ..
            } && h@ == left.stored_hash() && node_proof_shape(*sub, *right, kb))
            &&& (!is_prefix(left.slice(), kb) && !is_prefix(right.slice(), kb)) ==> (
            b matches BranchProofNode::BranchKeyNotFound { left_hash: lh, right_hash: rh, .. }
                && lh@ == left.stored_hash() && rh@ == right.stored_hash())
        },
        Node::Leaf { .. } => false,
    }
}

impl BranchProofNode {
    /// The slice of the left child.
    pub fn left_key(&self) -> (r: &BitKey)
        ensures
            r@ == self.left_key_spec(),
    {
        match self {
            BranchProofNode::LeftBranch { left_key, .. } => left_key,
            BranchProofNode::RightBranch { left_key, .. } => left_key,
            BranchProofNode::BranchKeyNotFound { left_key, .. } => left_key,
        }
    }

    /// The slice of the right child.
    pub fn right_key(&self) -> (r: &BitKey)
        ensures
            r@ == self.right_key_spec(),
    {
        match self {
            BranchProofNode::LeftBranch { right_key, .. } => right_key,
            BranchProofNode::RightBranch { right_key, .. } => right_key,
            BranchProofNode::BranchKeyNotFound { right_key, .. } => right_key,
        }
    }

    /// Recomputes the branch's hash from the proof and finds the value on
    /// the path of `kb`, or fails where the proof does not fit `kb`.
    pub fn check_branch(&self, kb: &BitKey) -> (r: Option<(Vec<u8>, Option<Vec<u8>>)>)
        ensures
            match r {
                None => self.eval(kb@) is None,
                Some((h, v)) => self.eval(kb@) == Some((h@, opt_view(v))),
            },
        decreases self,
    {
        let lk = self.left_key();
        let rk = self.right_key();
        if lk.len() > KEY_BITS || rk.len() > KEY_BITS {
            return None;
        }
        let d = lk.common_prefix(rk);
        if d >= lk.len() || d >= rk.len() || lk.bit(d) || !rk.bit(d) {
            return None;
        }
        match self {
            BranchProofNode::LeftBranch { left_hash, right_hash, .. } => {
                if !lk.is_prefix_of(kb) {
                    return None;
                }
                match left_hash.check_node(kb, lk) {
                    Some((h, v)) => Some((hash_branch(lk, &h, rk, right_hash), v)),
                    None => None,
                }
            },
            BranchProofNode::RightBranch { left_hash, right_hash, .. } => {
                if !rk.is_prefix_of(kb) {
                    return None;
                }
                match right_hash.check_node(kb, rk) {
                    Some((h, v)) => Some((hash_branch(lk, left_hash, rk, &h), v)),
                    None => None,
                }
            },
            BranchProofNode::BranchKeyNotFound { left_hash, right_hash, .. } => {
                if lk.is_prefix_of(kb) || rk.is_prefix_of(kb) {
                    return None;
                }
                Some((hash_branch(lk, left_hash, rk, right_hash), None))
            },
        }
    }
}

impl ProofNode {
    /// Recomputes the hash of the node at `slice` from the proof and finds
    /// the value on the path of `kb`, or fails where the proof does not fit.
    pub fn check_node(&self, kb: &BitKey, slice: &BitKey) -> (r: Option<(Vec<u8>, Option<Vec<u8>>)>)
        ensures
            match r {
                None => self.eval(kb@, slice@) is None,
                Some((h, v)) => self.eval(kb@, slice@) == Some((h@, opt_view(v))),
            },
        decreases self,
    {
        match self {
            ProofNode::Leaf(value) => {
                if slice.len() == KEY_BITS {
                    Some((hash_leaf(value), Some(copy_bytes(value))))
                } else {
                    None
                }
            },
            ProofNode::Branch(b) => {
                if slice.len() < KEY_BITS && b.left_key().common_prefix(b.right_key())
                    == slice.len() && slice.is_prefix_of(b.left_key()) {
                    b.check_branch(kb)
                } else {
                    None
                }
            },
        }
    }
}

impl RootProofNode {
    /// Checks the proof against `key`: recomputes the root hash and finds
    /// the value it shows for `key`, if any. Fails exactly where the proof
    /// is malformed or does not fit the bits of `key`.
    pub fn check(&self, key: &[u8; 32]) -> (r: Result<CheckedMapProof, ProofError>)
        ensures
            match r {
                Ok(c) => {
                    &&& self.eval(key_bits(key@)) == Some((c.root_spec(), c.value_spec()))
                    &&& c.key_spec() == key@
                },
                Err(_) => self.eval(key_bits(key@)) is None,
            },
    {
        let kb = BitKey::leaf(key);
        match self {
            RootProofNode::Empty => Ok(CheckedMapProof { key: *key, value: None, root: empty_hash() }),
            RootProofNode::LeafRootInclusive(k, v) => {
                if k.equals(&kb) {
                    let vh = hash_leaf(v);
                    let root = hash_single_leaf_root(k, &vh);
                    Ok(CheckedMapProof { key: *key, value: Some(copy_bytes(v)), root })
                } else {
                    Err(ProofError::InvalidProof)
                }
            },
            RootProofNode::LeafRootExclusive(k, vh) => {
                if k.len() == KEY_BITS && !k.equals(&kb) {
                    let root = hash_single_leaf_root(k, vh);
                    Ok(CheckedMapProof { key: *key, value: None, root })
                } else {
                    Err(ProofError::InvalidProof)
                }
            },
            RootProofNode::Branch(b) => match b.check_branch(&kb) {
                Some((h, v)) => Ok(CheckedMapProof { key: *key, value: v, root: h }),
                None => Err(ProofError::InvalidProof),
            },
        }
    }
}

impl CheckedMapProof {
    /// The key the proof was checked against.
    pub closed spec fn key_spec(&self) -> Seq<u8> {
        self.key@
    }

    /// The value the proof shows for the key, if any.
    pub closed spec fn value_spec(&self) -> Option<Seq<u8>> {
        opt_view(self.value)
    }

    /// The root hash the proof leads to.
    pub closed spec fn root_spec(&self) -> Seq<u8> {
        self.root@
    }

    /// The pairs that the proof shows present: none for a proof of absence,
    /// the key and its value otherwise.
    pub fn entries(&self) -> (r: Vec<([u8; 32], Vec<u8>)>)
        ensures
            match self.value_spec() {
                None => r@.len() == 0,
                Some(v) => r@.len() == 1 && r@[0].0@ == self.key_spec() && r@[0].1@ == v,
            },
    {
        let mut r: Vec<([u8; 32], Vec<u8>)> = Vec::new();
        match &self.value {
            Some(v) => r.push((self.key, copy_bytes(v))),
            None => {},
        }
        r
    }

    /// The root hash that the proof leads to.
    pub fn merkle_root(&self) -> (r: &Vec<u8>)
        ensures
            r@ == self.root_spec(),
    {
        &self.root
    }
}

/// The proof for the subtree `node`, or `None` where its slice is not a
/// prefix of `key`.
pub fn construct_proof(node: &Node, key: &BitKey) -> (r: Option<ProofNode>)
    requires
        node.wf(),
        key@.len() == KEY_BITS,
    ensures
        match r {
            None => !is_prefix(node.slice(), key@),
            Some(p) => {
                &&& is_prefix(node.slice(), key@)
                &&& node_proof_shape(p, *node, key@)
                &&& p.eval(key@, node.slice()) == Some(
                    (node.stored_hash(), value_at(node.contents(), key@)),
                )
                &&& p.size() <= KEY_BITS + 1 - node.slice().len()
            },
        },
    decreases node, 1nat,
{
    proof {
        node.lemma_wf();
    }
    if !node.slice_ref().is_prefix_of(key) {
        return None;
    }
    match node {
        Node::Leaf { key: k, value, .. } => {
            assert(k@ =~= key@);
            Some(ProofNode::Leaf(copy_bytes(value)))
        },
        Node::Branch { prefix, left, right, .. } => {
            proof {
                lemma_common_len(left.slice(), right.slice(), prefix@.len() as int);
            }
            Some(ProofNode::Branch(branch_proof(node, key)))
        },
    }
}

/// The proof for the branch `node`: it follows the side that `key` selects
/// and gives the other side's hash, or both hashes where no side continues
/// toward `key`.
pub fn branch_proof(node: &Node, key: &BitKey) -> (r: BranchProofNode)
    requires
        node.wf(),
        node is Branch,
        key@.len() == KEY_BITS,
    ensures
        r.eval(key@) == Some((node.stored_hash(), value_at(node.contents(), key@))),
        branch_proof_shape(r, *node, key@),
        r.size() <= KEY_BITS + 1 - node.slice().len(),
    decreases node, 0nat,
{
    match node {
        Node::Branch { prefix, left, right, .. } => {
            proof {
                left.lemma_wf();
                right.lemma_wf();
                lemma_common_len(left.slice(), right.slice(), prefix@.len() as int);
            }
            let d = prefix.len();
            let lk = left.slice_ref();
            let rk = right.slice_ref();
            assert(keys_split(lk@, rk@));
            if key.bit(d) {
                assert(!left.contents().dom().contains(key@));
                assert(!is_prefix(lk@, key@));
                assert(value_at(node.contents(), key@) == value_at(right.contents(), key@));
                match construct_proof(right, key) {
                    Some(p) => {
                        let r = BranchProofNode::RightBranch {
                            left_hash: copy_bytes(left.hash_ref()),
                            right_hash: Box::new(p),
                            left_key: lk.duplicate(),
                            right_key: rk.duplicate(),
                        };
                        r
                    },
                    None => {
                        assert(value_at(node.contents(), key@) is None);
                        BranchProofNode::BranchKeyNotFound {
                            left_hash: copy_bytes(left.hash_ref()),
                            right_hash: copy_bytes(right.hash_ref()),
                            left_key: lk.duplicate(),
                            right_key: rk.duplicate(),
                        }
                    },
                }
            } else {
                assert(!right.contents().dom().contains(key@));
                assert(!is_prefix(rk@, key@));
                assert(value_at(node.contents(), key@) == value_at(left.contents(), key@));
                match construct_proof(left, key) {
                    Some(p) => BranchProofNode::LeftBranch {
                        left_hash: Box::new(p),
                        right_hash: copy_bytes(right.hash_ref()),
                        left_key: lk.duplicate(),
                        right_key: rk.duplicate(),
                    },
                    None => {
                        assert(value_at(node.contents(), key@) is None);
                        BranchProofNode::BranchKeyNotFound {
                            left_hash: copy_bytes(left.hash_ref()),
                            right_hash: copy_bytes(right.hash_ref()),
                            left_key: lk.duplicate(),
                            right_key: rk.duplicate(),
                        }
                    },
                }
            }
        },
        Node::Leaf { .. } => {
            assert(false);
            BranchProofNode::BranchKeyNotFound {
                left_hash: Vec::new(),
                right_hash: Vec::new(),
                left_key: BitKey { bits: Vec::new() },
                right_key: BitKey { bits: Vec::new() },
            }
        },
    }
}

} // verus!
