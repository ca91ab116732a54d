//! Bit strings used as keys and prefixes.
use vstd::prelude::*;

verus! {

/// `a` is a prefix of `b` (possibly equal to it).
pub open spec fn is_prefix(a: Seq<bool>, b: Seq<bool>) -> bool {
    a.len() <= b.len() && b.subrange(0, a.len() as int) =~= a
}

/// Length of the longest common prefix of `a` and `b`.
pub open spec fn shared_len(a: Seq<bool>, b: Seq<bool>) -> nat
    decreases a.len(),
{
    if a.len() == 0 || b.len() == 0 || a[0] != b[0] {
        0
    } else {
        1 + shared_len(a.drop_first(), b.drop_first())
    }
}

/// `s` with bit `i` inverted.
pub open spec fn flip_bit(s: Seq<bool>, i: int) -> Seq<bool> {
    s.update(i, !s[i])
}

/// An ordered sequence of bits; only its first `len()` bits exist.
#[derive(Clone, Debug, PartialEq, Eq, Hash)]
pub struct BitKey {
    bits: Vec<bool>,
}

impl View for BitKey {
    type V = Seq<bool>;

    closed spec fn view(&self) -> Seq<bool> {
        self.bits@
    }
}

impl BitKey {
    /// The key of length zero.
    pub fn null() -> (r: BitKey)
        ensures
            r@ == Seq::<bool>::empty(),
    {
        BitKey { bits: Vec::new() }
    }

    /// The key made of the given bits, in order.
    pub fn from_bits(bits: Vec<bool>) -> (r: BitKey)
        ensures
            r@ == bits@,
    {
        BitKey { bits }
    }

    /// The bits of the key, in order.
    pub fn to_bits(&self) -> (r: Vec<bool>)
        ensures
            r@ == self@,
    {
        let mut r: Vec<bool> = Vec::new();
        let mut i: usize = 0;
        while i < self.bits.len()
            invariant
                i <= self@.len(),
                r@ == self@.subrange(0, i as int),
            decreases self@.len() - i,
        {
            r.push(self.bits[i]);
            i += 1;
            assert(r@ =~= self@.subrange(0, i as int));
        }
        assert(r@ =~= self@);
        r
    }

    /// A second key with the same bits.
    pub fn duplicate(&self) -> (r: BitKey)
        ensures
            r@ == self@,
    {
        BitKey { bits: self.to_bits() }
    }

    /// Number of bits.
    pub fn len(&self) -> (r: usize)
        ensures
            r == self@.len(),
    {
        self.bits.len()
    }

    /// Bit at position `i`.
    pub fn get(&self, i: usize) -> (r: bool)
        requires
            i < self@.len(),
        ensures
            r == self@[i as int],
    {
        self.bits[i]
    }

    /// Keep only the first `len` bits (nothing changes when the key is shorter).
    pub fn clip(&mut self, len: usize)
        ensures
            final(self)@ == if len < old(self)@.len() {
                old(self)@.subrange(0, len as int)
            } else {
                old(self)@
            },
    {
        self.bits.truncate(len);
    }

    /// Invert bit `i`.
    pub fn flip(&mut self, i: usize)
        requires
            i < old(self)@.len(),
        ensures
            final(self)@ == flip_bit(old(self)@, i as int),
    {
        let b = self.bits[i];
        self.bits.set(i, !b);
    }

    /// Add one bit at the end.
    pub fn append(&mut self, bit: bool)
        ensures
            final(self)@ == old(self)@.push(bit),
    {
        self.bits.push(bit);
    }

    /// Length of the longest common prefix of both keys.
    pub fn shared_prefix_len(&self, other: &BitKey) -> (r: usize)
        ensures
            r == shared_len(self@, other@),
            r <= self@.len(),
            r <= other@.len(),
            forall|j: int| 0 <= j < r ==> self@[j] == other@[j],
            r < self@.len() && r < other@.len() ==> self@[r as int] != other@[r as int],
    {
        let max: usize = if self.bits.len() < other.bits.len() {
            self.bits.len()
        } else {
            other.bits.len()
        };
        let mut i: usize = 0;
        while i < max && self.bits[i] == other.bits[i]
            invariant
                max <= self@.len(),
                max <= other@.len(),
                max == self@.len() || max == other@.len(),
                i <= max,
                forall|j: int| 0 <= j < i ==> self@[j] == other@[j],
            decreases max - i,
        {
            i += 1;
        }
        proof {
            lemma_shared_len_exact(self@, other@, i as nat);
        }
        i
    }

    /// Whether the first `self.len()` bits of `other` are the bits of `self`.
    pub fn is_prefix_of(&self, other: &BitKey) -> (r: bool)
        ensures
            r == is_prefix(self@, other@),
    {
        let n = self.shared_prefix_len(other);
        proof {
            lemma_shared_len_prefix(self@, other@);
        }
        n == self.bits.len()
    }

    /// Whether both keys have the same bits.
    pub fn equals(&self, other: &BitKey) -> (r: bool)
        ensures
            r == (self@ == other@),
    {
        let p = self.is_prefix_of(other);
        if p && self.bits.len() == other.bits.len() {
            assert(self@ =~= other@);
            true
        } else {
            false
        }
    }
}

/// `shared_len` is the first position where the sequences differ, or the
/// length of the shorter one.
pub proof fn lemma_shared_len_exact(a: Seq<bool>, b: Seq<bool>, n: nat)
    requires
        n <= a.len(),
        n <= b.len(),
        forall|j: int| 0 <= j < n ==> a[j] == b[j],
        n == a.len() || n == b.len() || a[n as int] != b[n as int],
    ensures
        shared_len(a, b) == n,
    decreases n,
{
    if n > 0 {
        assert(a[0] == b[0]);
        lemma_shared_len_exact(a.drop_first(), b.drop_first(), (n - 1) as nat);
    }
}

/// Facts about `shared_len` read off its definition.
pub proof fn lemma_shared_len_props(a: Seq<bool>, b: Seq<bool>)
    ensures
        shared_len(a, b) <= a.len(),
        shared_len(a, b) <= b.len(),
        forall|j: int| 0 <= j < shared_len(a, b) ==> a[j] == b[j],
        shared_len(a, b) < a.len() && shared_len(a, b) < b.len() ==> a[shared_len(a, b) as int]
            != b[shared_len(a, b) as int],
        shared_len(a, b) == shared_len(b, a),
    decreases a.len(),
{
    if a.len() == 0 || b.len() == 0 || a[0] != b[0] {
    } else {
        lemma_shared_len_props(a.drop_first(), b.drop_first());
        assert forall|j: int| 0 <= j < shared_len(a, b) implies a[j] == b[j] by {
            if j > 0 {
                assert(a[j] == a.drop_first()[j - 1]);
                assert(b[j] == b.drop_first()[j - 1]);
            }
        }
    }
}

/// A key is a prefix of another exactly when their shared length is its own.
pub proof fn lemma_shared_len_prefix(a: Seq<bool>, b: Seq<bool>)
    ensures
        is_prefix(a, b) <==> shared_len(a, b) == a.len(),
{
    lemma_shared_len_props(a, b);
    if shared_len(a, b) == a.len() {
        assert(b.subrange(0, a.len() as int) =~= a);
    }
    if is_prefix(a, b) && shared_len(a, b) < a.len() {
        assert(b[shared_len(a, b) as int] == b.subrange(0, a.len() as int)[shared_len(a, b) as int]);
    }
}

} // verus!
