use vstd::prelude::*;

use crate::bitmap::sorted_between;
use crate::bitmap::bitmap_text;
use crate::bitmap::Bitmap;
use crate::text::decimal;
use crate::text::push_number;
use crate::text::push_text;
use crate::builder::suffix_of;
use crate::traits::Filter;
use crate::traits::Key;
use crate::util::top;
use crate::util::top_bits;

verus! {

/// An immutable approximate-membership filter: every key it was built
/// from is reported present, and about one other key in `2^fp_pow`.
pub struct SlimFilter {
    /// Significant top bits of a key.
    pub word_bits: u64,
    /// Width of a partition key; 0 when there is a single segment.
    pub partition_key_bits: u64,
    /// The partition key of each segment, ascending.
    pub partitions: Bitmap,
    /// Width of a suffix.
    pub suffix_bits: u64,
    /// 64 suffixes per segment, ascending within a segment.
    pub suffixes: Bitmap,
}

/// The text of a filter: its widths, then its two bitmaps when asked.
pub open spec fn filter_text(f: SlimFilter, with_bitmap: bool) -> Seq<char> {
    "word_bits: "@ + decimal(f.word_bits as nat) + ", partition_key_bits: "@ + decimal(
        f.partition_key_bits as nat,
    ) + ", suffix_bits: "@ + decimal(f.suffix_bits as nat) + "\n"@ + if with_bitmap {
        "partitions:\n"@ + bitmap_text(f.partitions) + "suffixes:\n"@ + bitmap_text(f.suffixes)
    } else {
        Seq::empty()
    }
}

/// A filter shown with its widths, and its bitmaps when `with_bitmap`.
pub struct DisplaySlimFilter<'a> {
    pub with_bitmap: bool,
    pub inner: &'a SlimFilter,
}

impl<'a> DisplaySlimFilter<'a> {
    /// The filter's widths, then its partition and suffix bitmaps when asked.
    pub fn to_string(&self) -> (r: String)
        requires
            self.inner.wf(),
        ensures
            r@ == filter_text(*self.inner, self.with_bitmap),
    {
        let f = self.inner;
        let mut out = String::new();
        push_text(&mut out, "word_bits: ");
        push_number(&mut out, f.word_bits);
        push_text(&mut out, ", partition_key_bits: ");
        push_number(&mut out, f.partition_key_bits);
        push_text(&mut out, ", suffix_bits: ");
        push_number(&mut out, f.suffix_bits);
        push_text(&mut out, "\n");
        if self.with_bitmap {
            push_text(&mut out, "partitions:\n");
            let p = f.partitions.words().to_string();
            push_text(&mut out, p.as_str());
            push_text(&mut out, "suffixes:\n");
            let q = f.suffixes.words().to_string();
            push_text(&mut out, q.as_str());
        }
        assert(out@ =~= filter_text(*f, self.with_bitmap));
        out
    }
}

impl SlimFilter {
    /// The filter, for showing; with its bitmaps when `with_bitmap`.
    pub fn display(&self, with_bitmap: bool) -> (r: DisplaySlimFilter<'_>)
        ensures
            r.inner == self,
            r.with_bitmap == with_bitmap,
    {
        DisplaySlimFilter { inner: self, with_bitmap }
    }

    /// Number of segments.
    pub open spec fn num_segments(&self) -> int {
        if self.partition_key_bits == 0 {
            1
        } else {
            self.partitions@.len() as int
        }
    }

    /// The shape `contains` relies on: widths in range, one partition key
    /// and 64 suffixes per segment, partition keys non-decreasing and
    /// suffixes non-decreasing within each segment.
    pub open spec fn wf(&self) -> bool {
        &&& self.word_bits <= 63
        &&& 1 <= self.suffix_bits <= 63
        &&& self.partition_key_bits <= 64
        &&& self.suffixes.wf()
        &&& self.suffixes.word_bits == self.suffix_bits
        &&& self.partitions.wf()
        &&& self.partitions.word_bits == self.partition_key_bits
        &&& self.suffixes@.len() == 64 * self.num_segments()
        &&& sorted_between(self.partitions@, 0, self.partitions@.len() as int)
        &&& forall|s: int|
            0 <= s < self.num_segments() ==> #[trigger] sorted_between(
                self.suffixes@,
                64 * s,
                64 * s + 64,
            )
    }

    /// Segment `s` is where a query for `key` looks: the only one when there
    /// is no partition key, else the first whose partition key is not below
    /// the top `partition_key_bits` bits of `key`.
    pub open spec fn routes_to(&self, key: u64, s: int) -> bool {
        if self.partition_key_bits == 0 {
            s == 0
        } else {
            let t = top(key, self.partition_key_bits);
            &&& 0 <= s < self.partitions@.len()
            &&& self.partitions@[s] >= t
            &&& (s == 0 || self.partitions@[s - 1] < t)
        }
    }

    /// `key` is reported present: the segment it is routed to holds its
    /// suffix.
    pub open spec fn admits(&self, key: u64) -> bool {
        exists|s: int, j: int|
            #![trigger self.routes_to(key, s), self.suffixes@[j]]
            self.routes_to(key, s) && 64 * s <= j < 64 * s + 64 && self.suffixes@[j] == suffix_of(
                key,
                self.word_bits,
                self.suffix_bits,
            )
    }
}

impl Filter for SlimFilter {
    open spec fn inv(&self) -> bool {
        self.wf()
    }

    open spec fn admits_key(&self, key: Key) -> bool {
        self.admits(key)
    }

    /// Whether `key` may be in the set the filter was built from; never
    /// false for a key that is.
    fn contains(&self, key: &Key) -> (r: bool) {
        let key = *key;
        let pkb = self.partition_key_bits;
        let idx: u64;
        if pkb > 0 {
            let pref = top_bits(key, pkb);
            idx = self.partitions.find(pref);
            if idx >= self.partitions.word_count {
                proof {
                    assert forall|s: int, j: int|
                        !(self.routes_to(key, s) && 64 * s <= j < 64 * s + 64
                            && self.suffixes@[j] == suffix_of(
                            key,
                            self.word_bits,
                            self.suffix_bits,
                        )) by {
                        if self.routes_to(key, s) {
                            assert(self.partitions@[s] < pref);
                        }
                    }
                }
                return false;
            }
            proof {
                assert forall|s: int| #[trigger] self.routes_to(key, s) implies s == idx by {
                    if s < idx {
                        assert(self.partitions@[s] < pref);
                    } else if s > idx {
                        assert(self.partitions@[s - 1] >= self.partitions@[idx as int]);
                    }
                }
            }
        } else {
            idx = 0;
        }
        assert(self.routes_to(key, idx as int));
        let wb = self.word_bits;
        let sb = self.suffix_bits;
        let suffix = top_bits(key, wb) & (u64::MAX >> (64 - sb));
        assert(sorted_between(self.suffixes@, 64 * idx, 64 * idx + 64));
        let lo = idx * 64;
        let hi = lo + 64;
        let at = self.suffixes.find_range(suffix, lo, hi);
        if at == hi {
            proof {
                assert forall|s: int, j: int|
                    !(self.routes_to(key, s) && 64 * s <= j < 64 * s + 64 && self.suffixes@[j]
                        == suffix) by {
                    if self.routes_to(key, s) && 64 * s <= j < 64 * s + 64 {
                        assert(self.suffixes@[j] < suffix);
                    }
                }
            }
            return false;
        }
        proof {
            assert((at + 1) * sb <= self.suffixes.word_count * sb) by (nonlinear_arith)
                requires
                    at < self.suffixes.word_count,
            ;
        }
        let r = self.suffixes.get_word(at) == suffix;
        proof {
            if !r {
                assert forall|s: int, j: int|
                    !(self.routes_to(key, s) && 64 * s <= j < 64 * s + 64 && self.suffixes@[j]
                        == suffix) by {
                    if self.routes_to(key, s) && 64 * s <= j < 64 * s + 64 && self.suffixes@[j]
                        == suffix {
                        if j < at {
                            assert(self.suffixes@[j] < suffix);
                        } else {
                            assert(self.suffixes@[at as int] <= self.suffixes@[j]);
                        }
                    }
                }
            } else {
                assert(self.routes_to(key, idx as int) && self.suffixes@[at as int] == suffix);
            }
        }
        r
    }
}

} // verus!
