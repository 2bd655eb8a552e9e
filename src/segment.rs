use vstd::prelude::*;

use crate::util::clz;

verus! {

/// `keys` padded to 64 entries by repeating its last key.
pub open spec fn pad64(keys: Seq<u64>) -> Seq<u64> {
    Seq::new(64, |j: int| if j < keys.len() { keys[j] } else { keys.last() })
}

/// Width of the prefix shared by `first` and `last`, at most `word_bits`.
pub open spec fn shared_prefix_bits(first: u64, last: u64, word_bits: u64) -> int {
    if clz(first ^ last) < word_bits {
        clz(first ^ last)
    } else {
        word_bits as int
    }
}

/// A window of 64 consecutive sorted keys.
#[derive(Debug)]
pub struct Segment {
    /// Significant bits per key.
    pub word_bits: u64,
    /// The 64 keys, the last real key repeated when fewer were given.
    pub keys: Vec<u64>,
}

impl Segment {
    pub open spec fn wf(&self) -> bool {
        self.keys.len() == 64
    }

    /// Takes 1 to 64 keys and pads them to 64 with the last one.
    pub fn new(word_bits: u64, keys: &[u64]) -> (r: Self)
        requires
            1 <= keys@.len() <= 64,
        ensures
            r.wf(),
            r.word_bits == word_bits,
            r.keys@ == pad64(keys@),
    {
        let mut ks: Vec<u64> = Vec::with_capacity(64);
        let last = keys[keys.len() - 1];
        let mut i: usize = 0;
        while i < 64
            invariant
                1 <= keys@.len() <= 64,
                last == keys@.last(),
                i <= 64,
                ks@ == pad64(keys@).take(i as int),
            decreases 64 - i,
        {
            if i < keys.len() {
                ks.push(keys[i]);
            } else {
                ks.push(last);
            }
            assert(ks@ =~= pad64(keys@).take(i + 1));
            i += 1;
        }
        assert(ks@ =~= pad64(keys@));
        Segment { word_bits, keys: ks }
    }

    /// Length of the prefix shared by the first and last keys, at most
    /// `word_bits`; with sorted keys every key of the segment shares it.
    pub fn common_prefix_bits(&self) -> (r: u64)
        requires
            self.wf(),
        ensures
            r == shared_prefix_bits(self.keys@[0], self.keys@[63], self.word_bits),
    {
        let a = self.keys[0];
        let b = self.keys[63];
        let c = a ^ b;
        let z = c.leading_zeros() as u64;
        if z < self.word_bits {
            z
        } else {
            self.word_bits
        }
    }

    /// The common prefix length, and the common prefix itself aligned to the
    /// most significant bits.
    pub fn common_prefix(&self) -> (r: (u64, u64))
        requires
            self.wf(),
        ensures
            r.0 == shared_prefix_bits(self.keys@[0], self.keys@[63], self.word_bits),
            r.0 == 0 ==> r.1 == 0,
            r.0 > 0 ==> r.1 == self.keys@[0] & (u64::MAX << ((64 - r.0) as u64)),
    {
        let l = self.common_prefix_bits();
        proof {
            vstd::std_specs::bits::axiom_u64_leading_zeros(self.keys@[0] ^ self.keys@[63]);
        }
        if l == 0 {
            (0, 0)
        } else {
            (l, self.keys[0] & (u64::MAX << (64 - l)))
        }
    }

    /// Bits of `word_bits` left after the common prefix.
    pub fn big_suffix_bits(&self) -> (r: u64)
        requires
            self.wf(),
        ensures
            r == self.word_bits - shared_prefix_bits(self.keys@[0], self.keys@[63], self.word_bits),
    {
        proof {
            vstd::std_specs::bits::axiom_u64_leading_zeros(self.keys@[0] ^ self.keys@[63]);
        }
        self.word_bits - self.common_prefix_bits()
    }

    /// The suffix width once the 6 bits that index a key within a segment
    /// are taken off as well.
    pub fn suffix_bits(&self) -> (r: u64)
        requires
            self.wf(),
            self.word_bits - shared_prefix_bits(self.keys@[0], self.keys@[63], self.word_bits) >= 6,
        ensures
            r == self.word_bits - shared_prefix_bits(self.keys@[0], self.keys@[63], self.word_bits)
                - 6,
    {
        self.big_suffix_bits() - 6
    }
}

} // verus!
