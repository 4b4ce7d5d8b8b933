//! An immutable sequence of bits that knows how many of its bits are set.

use vstd::prelude::*;

verus! {

/// The number of set bits in `s`.
pub open spec fn count_ones(s: Seq<bool>) -> nat
    decreases s.len(),
{
    if s.len() == 0 {
        0
    } else {
        count_ones(s.drop_last()) + if s.last() { 1nat } else { 0nat }
    }
}

/// A sequence has at most as many set bits as it has bits.
pub proof fn lemma_count_ones_bounded(s: Seq<bool>)
    ensures
        count_ones(s) <= s.len(),
    decreases s.len(),
{
    if s.len() > 0 {
        lemma_count_ones_bounded(s.drop_last());
    }
}

/// A fixed sequence of bits together with the count of its set bits.
pub struct BitsData {
    bits: Vec<bool>,
    ones: usize,
}

impl View for BitsData {
    type V = Seq<bool>;

    closed spec fn view(&self) -> Seq<bool> {
        self.bits@
    }
}

impl BitsData {
    #[verifier::type_invariant]
    spec fn well_formed(&self) -> bool {
        self.ones == count_ones(self.bits@)
    }

    /// Takes the bits in order and counts the set ones among them.
    pub fn from_bits(bits: Vec<bool>) -> (data: Self)
        ensures
            data@ == bits@,
    {
        let mut ones: usize = 0;
        let mut i: usize = 0;
        while i < bits.len()
            invariant
                i <= bits.len(),
                ones == count_ones(bits@.take(i as int)),
            decreases bits.len() - i,
        {
            proof {
                let next = bits@.take(i + 1);
                assert(next.drop_last() == bits@.take(i as int));
                lemma_count_ones_bounded(bits@.take(i as int));
            }
            if bits[i] {
                ones = ones + 1;
            }
            i = i + 1;
        }
        proof {
            assert(bits@.take(i as int) == bits@);
        }
        BitsData { bits, ones }
    }

    /// The number of bits.
    pub fn len(&self) -> (n: usize)
        ensures
            n == self@.len(),
    {
        self.bits.len()
    }

    /// The number of set bits.
    pub fn ones(&self) -> (k: usize)
        ensures
            k == count_ones(self@),
            k <= self@.len(),
    {
        proof {
            use_type_invariant(self);
            lemma_count_ones_bounded(self.bits@);
        }
        self.ones
    }

    /// The bit at position `i`, counted from zero.
    pub fn bit(&self, i: usize) -> (b: bool)
        requires
            i < self@.len(),
        ensures
            b == self@[i as int],
    {
        self.bits[i]
    }
}

} // verus!
