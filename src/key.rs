//! Bit-level view of fixed-size keys.

use vstd::prelude::*;

verus! {

/// Number of bytes of a key.
pub const KEY_BYTES: usize = 32;

/// Number of bits of a key, and so the length of a leaf's slice.
pub const KEY_BITS: usize = 256;

/// Bit `t` (counted from the most significant bit) of the byte `b`.
pub open spec fn byte_bit(b: u8, t: int) -> bool {
    ((b >> ((7 - t) as u8)) & 1u8) == 1u8
}

/// The bits of a key, most significant bit of the first byte first.
pub open spec fn key_bits(k: Seq<u8>) -> Seq<bool> {
    Seq::new(KEY_BITS as nat, |i: int| byte_bit(k[i / 8], i % 8))
}

/// `a` is a prefix of `b`.
pub open spec fn is_prefix(a: Seq<bool>, b: Seq<bool>) -> bool {
    a.len() <= b.len() && forall|j: int| 0 <= j < a.len() ==> a[j] == b[j]
}

/// The first index at or after `i` where `a` and `b` differ or one of them ends.
pub open spec fn first_diff_from(a: Seq<bool>, b: Seq<bool>, i: int) -> int
    decreases a.len() - i,
{
    if i < 0 || i >= a.len() || i >= b.len() || a[i] != b[i] {
        i
    } else {
        first_diff_from(a, b, i + 1)
    }
}

/// The number of leading bits that `a` and `b` share.
pub open spec fn common_len(a: Seq<bool>, b: Seq<bool>) -> int {
    first_diff_from(a, b, 0)
}

/// Two sequences that agree below `d` and differ at `d` share `d` leading bits.
pub proof fn lemma_common_len(a: Seq<bool>, b: Seq<bool>, d: int)
    requires
        0 <= d <= a.len(),
        d <= b.len(),
        forall|j: int| 0 <= j < d ==> a[j] == b[j],
        d < a.len() && d < b.len() ==> a[d] != b[d],
    ensures
        common_len(a, b) == d,
{
    lemma_first_diff_from(a, b, 0, d);
}

proof fn lemma_first_diff_from(a: Seq<bool>, b: Seq<bool>, i: int, d: int)
    requires
        0 <= i <= d <= a.len(),
        d <= b.len(),
        forall|j: int| 0 <= j < d ==> a[j] == b[j],
        d < a.len() && d < b.len() ==> a[d] != b[d],
    ensures
        first_diff_from(a, b, i) == d,
    decreases d - i,
{
    if i < d {
        lemma_first_diff_from(a, b, i + 1, d);
    }
}

/// The weight that bit `i` of `p` adds to its byte, or 0 past the end of `p`.
pub open spec fn bit_weight(p: Seq<bool>, i: int, w: u8) -> int {
    if 0 <= i < p.len() && p[i] {
        w as int
    } else {
        0
    }
}

/// Byte `j` of the packed form of `p`: eight bits, the first one highest.
pub open spec fn packed_byte(p: Seq<bool>, j: int) -> int {
    bit_weight(p, 8 * j, 128) + bit_weight(p, 8 * j + 1, 64) + bit_weight(p, 8 * j + 2, 32)
        + bit_weight(p, 8 * j + 3, 16) + bit_weight(p, 8 * j + 4, 8) + bit_weight(p, 8 * j + 5, 4)
        + bit_weight(p, 8 * j + 6, 2) + bit_weight(p, 8 * j + 7, 1)
}

/// The byte encoding of a slice: its bits packed into the key's bytes, the
/// bits past its length cleared, followed by its length in two bytes, high
/// byte first.
pub open spec fn encode_bits(p: Seq<bool>) -> Seq<u8> {
    Seq::new(KEY_BYTES as nat, |j: int| packed_byte(p, j) as u8) + seq![
        (p.len() / 256) as u8,
        (p.len() % 256) as u8,
    ]
}

/// The side of a branch that a bit selects.
#[derive(Clone, Copy, Debug, PartialEq, Eq, Structural)]
pub enum ChildKind {
    Left,
    Right,
}

impl ChildKind {
    /// The side that a bit selects: `Right` for a set bit.
    pub open spec fn of_bit(b: bool) -> ChildKind {
        if b {
            ChildKind::Right
        } else {
            ChildKind::Left
        }
    }

    /// The other side.
    pub fn opposite(self) -> (r: ChildKind)
        ensures
            r != self,
    {
        match self {
            ChildKind::Left => ChildKind::Right,
            ChildKind::Right => ChildKind::Left,
        }
    }
}

/// A prefix of a key's bits: the address of a node in the trie.
#[derive(Debug)]
pub struct BitKey {
    pub bits: Vec<bool>,
}

impl View for BitKey {
    type V = Seq<bool>;

    open spec fn view(&self) -> Seq<bool> {
        self.bits@
    }
}

impl BitKey {
    /// The full-length slice of a key.
    pub fn leaf(key: &[u8; 32]) -> (r: BitKey)
        ensures
            r@ == key_bits(key@),
    {
        let mut bits: Vec<bool> = Vec::new();
        let mut i: usize = 0;
        while i < KEY_BITS
            invariant
                key@.len() == KEY_BYTES,
                i <= KEY_BITS,
                bits@.len() == i,
                forall|j: int| 0 <= j < i ==> bits@[j] == byte_bit(key@[j / 8], j % 8),
            decreases KEY_BITS - i,
        {
            let t: u8 = (i % 8) as u8;
            let b: u8 = key[i / 8];
            bits.push(((b >> (7 - t)) & 1u8) == 1u8);
            i = i + 1;
        }
        let r = BitKey { bits };
        assert(r@ =~= key_bits(key@));
        r
    }

    /// The number of bits.
    pub fn len(&self) -> (r: usize)
        ensures
            r == self@.len(),
    {
        self.bits.len()
    }

    /// Whether this is the full-length slice of a key.
    pub fn is_leaf(&self) -> (r: bool)
        ensures
            r == (self@.len() == KEY_BITS),
    {
        self.bits.len() == KEY_BITS
    }

    /// The side that bit `i` selects.
    pub fn get(&self, i: usize) -> (r: ChildKind)
        requires
            i < self@.len(),
        ensures
            r == ChildKind::of_bit(self@[i as int]),
    {
        if self.bits[i] {
            ChildKind::Right
        } else {
            ChildKind::Left
        }
    }

    /// Bit `i` itself.
    pub fn bit(&self, i: usize) -> (r: bool)
        requires
            i < self@.len(),
        ensures
            r == self@[i as int],
    {
        self.bits[i]
    }

    /// The number of leading bits that the two slices share.
    pub fn common_prefix(&self, other: &BitKey) -> (r: usize)
        ensures
            r <= self@.len(),
            r <= other@.len(),
            forall|j: int| 0 <= j < r ==> self@[j] == other@[j],
            r < self@.len() && r < other@.len() ==> self@[r as int] != other@[r as int],
            r == common_len(self@, other@),
    {
        let mut i: usize = 0;
        while i < self.bits.len() && i < other.bits.len() && self.bits[i] == other.bits[i]
            invariant
                i <= self@.len(),
                i <= other@.len(),
                forall|j: int| 0 <= j < i ==> self@[j] == other@[j],
            decreases self@.len() - i,
        {
            i = i + 1;
        }
        proof {
            lemma_common_len(self@, other@, i as int);
        }
        i
    }

    /// Whether this slice is a prefix of `other`.
    pub fn is_prefix_of(&self, other: &BitKey) -> (r: bool)
        ensures
            r == is_prefix(self@, other@),
    {
        self.common_prefix(other) == self.bits.len()
    }

    /// Whether the two slices hold the same bits.
    pub fn equals(&self, other: &BitKey) -> (r: bool)
        ensures
            r == (self@ == other@),
    {
        let i = self.common_prefix(other);
        if i == self.bits.len() && i == other.bits.len() {
            assert(self@ =~= other@);
            true
        } else {
            false
        }
    }

    /// The first `n` bits.
    pub fn truncate(&self, n: usize) -> (r: BitKey)
        requires
            n <= self@.len(),
        ensures
            r@ == self@.subrange(0, n as int),
    {
        let mut bits: Vec<bool> = Vec::new();
        let mut i: usize = 0;
        while i < n
            invariant
                n <= self@.len(),
                i <= n,
                bits@ == self@.subrange(0, i as int),
            decreases n - i,
        {
            bits.push(self.bits[i]);
            i = i + 1;
            assert(bits@ =~= self@.subrange(0, i as int));
        }
        BitKey { bits }
    }

    /// A copy of this slice.
    pub fn duplicate(&self) -> (r: BitKey)
        ensures
            r@ == self@,
    {
        self.truncate(self.bits.len())
    }

    /// The weight that bit `i` adds to its packed byte.
    fn weight(&self, i: usize, w: u8) -> (r: u8)
        ensures
            r as int == bit_weight(self@, i as int, w),
    {
        if i < self.bits.len() && self.bits[i] {
            w
        } else {
            0
        }
    }

    /// The byte encoding of this slice, as it enters a hash.
    pub fn encode(&self) -> (r: Vec<u8>)
        requires
            self@.len() <= KEY_BITS,
        ensures
            r@ == encode_bits(self@),
    {
        let mut r: Vec<u8> = Vec::new();
        let mut j: usize = 0;
        while j < KEY_BYTES
            invariant
                j <= KEY_BYTES,
                r@.len() == j,
                forall|t: int| 0 <= t < j ==> r@[t] == packed_byte(self@, t) as u8,
            decreases KEY_BYTES - j,
        {
            let b: u8 = self.weight(8 * j, 128) + self.weight(8 * j + 1, 64) + self.weight(
                8 * j + 2,
                32,
            ) + self.weight(8 * j + 3, 16) + self.weight(8 * j + 4, 8) + self.weight(8 * j + 5, 4)
                + self.weight(8 * j + 6, 2) + self.weight(8 * j + 7, 1);
            r.push(b);
            j = j + 1;
        }
        let n = self.bits.len();
        r.push((n / 256) as u8);
        r.push((n % 256) as u8);
        assert(r@ =~= encode_bits(self@));
        r
    }
}

} // verus!
