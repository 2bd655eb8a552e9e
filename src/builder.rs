use std::collections::BTreeSet;

use vstd::prelude::*;
use vstd::std_specs::cmp::OrdSpec;
use vstd::std_specs::iter::IteratorSpec;

use crate::bitmap::low_mask;
use crate::bitmap::Bitmap;
use crate::correctness::lemma_partition_width;
use crate::correctness::lemma_partitions_sorted;
use crate::correctness::lemma_suffix_width;
use crate::correctness::lemma_suffixes_sorted;
use crate::filter::SlimFilter;
use crate::traits::FilterBuilder;
use crate::traits::Key;
use crate::segment::pad64;
use crate::segment::shared_prefix_bits;
use crate::segment::Segment;
use crate::util::ceil_log2;
use crate::util::clz;
use crate::util::log2_ceil;
use crate::util::lemma_masked_fits;
use crate::util::lemma_top_fits;
use crate::util::top;
use crate::util::top_bits;

verus! {

broadcast use vstd::std_specs::btree::group_btree_axioms;

/// Whether `s` is strictly ascending.
pub open spec fn strictly_ascending(s: Seq<u64>) -> bool {
    forall|i: int, j: int| 0 <= i < j < s.len() ==> s[i] < s[j]
}

/// The keys of `set` in ascending order.
pub open spec fn sorted_keys(set: Set<u64>) -> Seq<u64> {
    choose|s: Seq<u64>| strictly_ascending(s) && s.to_set() == set
}

/// Dropping the least key of an ascending sequence drops it from its set.
proof fn lemma_drop_first_set(s: Seq<u64>)
    requires
        strictly_ascending(s),
        s.len() > 0,
    ensures
        s.drop_first().to_set() == s.to_set().remove(s[0]),
{
    assert forall|x: u64| s.drop_first().to_set().contains(x) <==> s.to_set().remove(
        s[0],
    ).contains(x) by {
        if s.drop_first().to_set().contains(x) {
            let i = choose|i: int| 0 <= i < s.drop_first().len() && s.drop_first()[i] == x;
            assert(s[i + 1] == x);
        }
        if s.to_set().remove(s[0]).contains(x) {
            let i = choose|i: int| 0 <= i < s.len() && s[i] == x;
            assert(i != 0);
            assert(s.drop_first()[i - 1] == x);
        }
    }
    assert(s.drop_first().to_set() =~= s.to_set().remove(s[0]));
}

/// Two ascending sequences with the same keys are equal.
pub proof fn lemma_sorted_unique(p: Seq<u64>, q: Seq<u64>)
    requires
        strictly_ascending(p),
        strictly_ascending(q),
        p.to_set() == q.to_set(),
    ensures
        p == q,
    decreases p.len(),
{
    if p.len() == 0 {
        if q.len() > 0 {
            assert(q.to_set().contains(q[0]));
        }
        assert(p =~= q);
    } else {
        assert(p.to_set().contains(p[0]));
        if q.len() == 0 {
            assert(false);
        }
        assert(q.to_set().contains(q[0]));
        let i = choose|i: int| 0 <= i < q.len() && q[i] == p[0];
        let j = choose|j: int| 0 <= j < p.len() && p[j] == q[0];
        assert(p[0] == q[0]);
        lemma_drop_first_set(p);
        lemma_drop_first_set(q);
        lemma_sorted_unique(p.drop_first(), q.drop_first());
        assert(p =~= q) by {
            assert forall|k: int| 0 <= k < p.len() implies p[k] == q[k] by {
                if k > 0 {
                    assert(p[k] == p.drop_first()[k - 1]);
                }
            }
        }
    }
}

/// The keys of a set, in ascending order.
pub fn sorted_of(keys: &BTreeSet<u64>) -> (r: Vec<u64>)
    ensures
        r@ == sorted_keys(keys@),
        strictly_ascending(r@),
        r@.to_set() == keys@,
{
    let ghost s = vstd::std_specs::btree::spec_btree_keys_iter(keys).remaining();
    let mut r: Vec<u64> = Vec::new();
    for k in it: keys.iter()
        invariant
            it.seq() == s,
            r@.len() == it.index(),
            forall|i: int| 0 <= i < it.index() ==> r@[i] == *s[i],
    {
        r.push(*k);
    }
    proof {
        broadcast use vstd::laws_cmp::group_laws_cmp;

        assert(r@ =~= s.unref());
        assert(vstd::laws_cmp::obeys_cmp::<&u64>());
        assert forall|i: int, j: int| 0 <= i < j < r@.len() implies r@[i] < r@[j] by {
            assert(<&u64 as OrdSpec>::cmp_spec(&s[i], &s[j]) is Less);
        }
        lemma_sorted_unique(r@, sorted_keys(keys@));
    }
    r
}

/// Number of 64-key segments for `n` keys.
pub open spec fn num_segments(n: int) -> int {
    (n + 63) / 64
}

/// The keys cut into segments of 64, the last one padded with the last key.
pub open spec fn segments_of(keys: Seq<u64>) -> Seq<Seq<u64>> {
    Seq::new(
        num_segments(keys.len() as int) as nat,
        |s: int| pad64(keys.subrange(64 * s, vstd::math::min(64 * s + 64, keys.len() as int))),
    )
}

/// The keys of each segment.
pub open spec fn segment_keys(segs: Seq<Segment>) -> Seq<Seq<u64>> {
    segs.map_values(|g: Segment| g.keys@)
}

/// `g` is segment `s` of `keys`.
#[verifier::opaque]
pub open spec fn holds_segment(g: Segment, keys: Seq<u64>, word_bits: u64, s: int) -> bool {
    &&& g.wf()
    &&& g.word_bits == word_bits
    &&& g.keys@ == segments_of(keys)[s]
}

/// Segments of 64 keys, each of `word_bits` significant bits.
pub open spec fn segments_wf(segs: Seq<Segment>, word_bits: u64) -> bool {
    forall|s: int| 0 <= s < segs.len() ==> #[trigger] segs[s].wf() && segs[s].word_bits == word_bits
}

/// Bits of `word_bits` that the keys of a segment do not all share.
pub open spec fn big_suffix(g: Seq<u64>, word_bits: u64) -> int {
    word_bits - shared_prefix_bits(g[0], g[63], word_bits)
}

/// The largest `big_suffix` among the first `m` segments.
pub open spec fn max_big_suffix(segs: Seq<Seq<u64>>, word_bits: u64, m: int) -> int
    decreases m,
{
    if m <= 0 {
        0
    } else {
        vstd::math::max(max_big_suffix(segs, word_bits, m - 1), big_suffix(segs[m - 1], word_bits))
    }
}

/// Width of a suffix: the largest `big_suffix` over all segments, at least 1.
pub open spec fn suffix_width(segs: Seq<Seq<u64>>, word_bits: u64) -> u64 {
    let m = max_big_suffix(segs, word_bits, segs.len() as int);
    if m == 0 {
        1
    } else {
        m as u64
    }
}

/// The suffix stored for key `k`: its top `word_bits` bits, masked to
/// `suffix_bits`.
pub open spec fn suffix_of(k: u64, word_bits: u64, suffix_bits: u64) -> u64 {
    top(k, word_bits) & low_mask(suffix_bits)
}

/// The suffix of every key of every segment, in order.
pub open spec fn suffix_words(segs: Seq<Seq<u64>>, word_bits: u64, suffix_bits: u64) -> Seq<
    u64,
> {
    Seq::new(64 * segs.len(), |i: int| suffix_of(segs[i / 64][i % 64], word_bits, suffix_bits))
}

/// The first and last key of each segment, in order: `2 * segs.len()` keys.
pub open spec fn boundary_key(segs: Seq<Seq<u64>>, i: int) -> u64 {
    if i % 2 == 0 {
        segs[i / 2][0]
    } else {
        segs[i / 2][63]
    }
}

/// Length of the prefix that tells `a` from `b`, at most `word_bits`.
pub open spec fn prefix_len(a: u64, b: u64, word_bits: u64) -> int {
    if clz(a ^ b) + 1 < word_bits {
        clz(a ^ b) + 1
    } else {
        word_bits as int
    }
}

/// `prefix_len` of boundary keys `i` and `i + 1`.
pub open spec fn neighbour_prefix_len(segs: Seq<Seq<u64>>, word_bits: u64, i: int) -> int {
    prefix_len(boundary_key(segs, i), boundary_key(segs, i + 1), word_bits)
}

/// The largest `prefix_len` between neighbours among the first `m`
/// boundary keys.
pub open spec fn max_prefix_len(segs: Seq<Seq<u64>>, word_bits: u64, m: int) -> int
    decreases m,
{
    if m <= 1 {
        0
    } else {
        vstd::math::max(
            max_prefix_len(segs, word_bits, m - 1),
            neighbour_prefix_len(segs, word_bits, m - 2),
        )
    }
}

/// Width of a partition key: one more than the largest `prefix_len` between
/// neighbouring boundary keys; 0 for a single segment.
pub open spec fn partition_width(segs: Seq<Seq<u64>>, word_bits: u64) -> u64 {
    if segs.len() <= 1 {
        0
    } else {
        (max_prefix_len(segs, word_bits, 2 * segs.len() as int) + 1) as u64
    }
}

/// The partition key of each segment: the top bits of its last key.
pub open spec fn partition_words(segs: Seq<Seq<u64>>, partition_key_bits: u64) -> Seq<u64> {
    if partition_key_bits == 0 {
        Seq::empty()
    } else {
        Seq::new(segs.len(), |s: int| top(segs[s][63], partition_key_bits))
    }
}

/// Why a filter could not be built.
#[derive(Debug, Clone, Copy, PartialEq, Eq)]
pub enum BuildError {
    /// No key was added.
    EmptyInput,
    /// `ceil(log2(n)) + fp_pow` exceeds 63 bits, or there are more than
    /// `MAX_KEYS` keys and the packed suffixes would overrun 64-bit bit
    /// positions.
    SuffixOverflow,
}

/// The most keys a filter is built from.
pub const MAX_KEYS: u64 = 0x200_0000_0000_0000;

/// Significant bits per key for `n` keys: `ceil(log2(n)) + fp_pow`.
pub open spec fn word_bits_for(n: int, fp_pow: int) -> int {
    log2_ceil(n) + fp_pow
}

/// `f` is the filter built from the ascending `keys` with `word_bits`
/// significant bits per key.
pub open spec fn built_from(f: SlimFilter, keys: Seq<u64>, word_bits: u64) -> bool {
    let g = segments_of(keys);
    &&& f.word_bits == word_bits
    &&& f.suffix_bits == suffix_width(g, word_bits)
    &&& f.partition_key_bits == partition_width(g, word_bits)
    &&& f.suffixes@ == suffix_words(g, word_bits, f.suffix_bits)
    &&& f.partitions@ == partition_words(g, f.partition_key_bits)
    &&& f.suffixes.bm@.len() == f.suffix_bits * g.len()
    &&& f.partitions.bm@.len() == (f.partition_key_bits * g.len() + 63) / 64
}

/// What `build` returns for a key set and false-positive exponent.
pub open spec fn build_outcome(keys: Set<u64>, fp_pow: int, r: Result<SlimFilter, BuildError>) -> bool {
    if keys.len() == 0 {
        r == Err::<SlimFilter, BuildError>(BuildError::EmptyInput)
    } else if word_bits_for(keys.len() as int, fp_pow) > 63 || keys.len() > MAX_KEYS {
        r == Err::<SlimFilter, BuildError>(BuildError::SuffixOverflow)
    } else {
        &&& r is Ok
        &&& r->Ok_0.wf()
        &&& strictly_ascending(sorted_keys(keys))
        &&& sorted_keys(keys).to_set() == keys
        &&& sorted_keys(keys).len() == keys.len()
        &&& built_from(
            r->Ok_0,
            sorted_keys(keys),
            word_bits_for(keys.len() as int, fp_pow) as u64,
        )
    }
}

/// The sizes the build works with.
#[derive(Clone, Copy, Debug)]
pub struct BuildingParam {
    /// Number of distinct keys.
    pub cardinality: u64,
    /// `ceil(log2(cardinality))`.
    pub cardinality_pow: u64,
    /// Width of a partition key; 0 when there is a single segment.
    pub partition_key_bits: u64,
    /// The lowest `partition_key_bits` bits set.
    pub partition_key_mask: u64,
    /// Width of a suffix.
    pub suffix_bits: u64,
    /// The lowest `suffix_bits` bits set.
    pub suffix_mask: u64,
    /// Significant top bits of a key: `cardinality_pow + false_positive_pow`.
    pub word_bits: u64,
}

/// Collects keys, then builds a filter from them.
pub struct Builder {
    /// The false-positive exponent: about one key in `2^false_positive_pow`
    /// that was not added is reported present.
    pub false_positive_pow: u64,
    /// The keys added so far.
    pub keys: BTreeSet<u64>,
    /// The sizes of the current build.
    pub param: BuildingParam,
}

/// A parameter set with nothing computed yet.
pub open spec fn blank_param(p: BuildingParam) -> bool {
    &&& p.cardinality == 0
    &&& p.cardinality_pow == 0
    &&& p.partition_key_bits == 0
    &&& p.partition_key_mask == 0
    &&& p.suffix_bits == 0
    &&& p.suffix_mask == 0
    &&& p.word_bits == 0
}

/// The keys of a builder, in ascending order.
pub open spec fn builder_keys(b: Builder) -> Seq<u64> {
    sorted_keys(b.keys@)
}

impl Builder {
    /// An empty builder.
    pub fn new(false_positive_pow: u64) -> (r: Self)
        ensures
            r.false_positive_pow == false_positive_pow,
            r.keys@ == Set::<u64>::empty(),
            blank_param(r.param),
    {
        Builder {
            false_positive_pow,
            keys: BTreeSet::new(),
            param: BuildingParam {
                cardinality: 0,
                cardinality_pow: 0,
                partition_key_bits: 0,
                partition_key_mask: 0,
                suffix_bits: 0,
                suffix_mask: 0,
                word_bits: 0,
            },
        }
    }

    /// Sets the cardinality and the word width from the keys and the
    /// false-positive exponent; the word width saturates at `u64::MAX`.
    pub fn init_param(&mut self) -> (r: BuildingParam)
        ensures
            final(self).keys == old(self).keys,
            final(self).false_positive_pow == old(self).false_positive_pow,
            r == final(self).param,
            r.cardinality == old(self).keys@.len(),
            r.cardinality_pow == log2_ceil(old(self).keys@.len() as int),
            r.word_bits == vstd::math::min(
                log2_ceil(old(self).keys@.len() as int) + old(self).false_positive_pow,
                u64::MAX as int,
            ),
            r.partition_key_bits == 0,
            r.partition_key_mask == 0,
            r.suffix_bits == 0,
            r.suffix_mask == 0,
    {
        let n = self.keys.len() as u64;
        let n_pow = ceil_log2(n);
        let word_bits = n_pow.saturating_add(self.false_positive_pow);
        self.param = BuildingParam {
            cardinality: n,
            cardinality_pow: n_pow,
            word_bits,
            partition_key_bits: 0,
            partition_key_mask: 0,
            suffix_bits: 0,
            suffix_mask: 0,
        };
        self.param
    }

    /// The least power of two not below the number of keys.
    pub fn n_next_pow(&self) -> (r: u64)
        requires
            self.keys@.len() <= 0x8000_0000_0000_0000,
        ensures
            r == vstd::arithmetic::power2::pow2(log2_ceil(self.keys@.len() as int) as nat),
    {
        let n = self.keys.len() as u64;
        let p = ceil_log2(n);
        proof {
            if p == 64 {
                vstd::arithmetic::power2::lemma2_to64_rest();
                assert(false);
            }
            vstd::bits::lemma_u64_pow2_no_overflow(p as nat);
            vstd::bits::lemma_u64_shl_is_mul(1, p);
        }
        1u64 << p
    }

    /// Cuts the sorted keys into segments of 64, padding the last one with
    /// its last key.
    pub fn build_segments(&self) -> (segs: Vec<Segment>)
        requires
            self.keys@.len() > 0,
        ensures
            segs@.len() == num_segments(self.keys@.len() as int),
            segments_wf(segs@, self.param.word_bits),
            segment_keys(segs@) == segments_of(builder_keys(*self)),
            strictly_ascending(builder_keys(*self)),
            builder_keys(*self).len() == self.keys@.len(),
            builder_keys(*self).to_set() == self.keys@,
    {
        let ghost keys = builder_keys(*self);
        let wb = self.param.word_bits;
        let sorted = sorted_of(&self.keys);
        proof {
            assert(sorted@.no_duplicates());
            sorted@.unique_seq_to_set();
        }
        let n = sorted.len();
        let mut segs: Vec<Segment> = Vec::new();
        let mut buf: Vec<u64> = Vec::new();
        let mut i: usize = 0;
        while i < n
            invariant
                sorted@ == keys,
                n == keys.len(),
                i <= n,
                segs@.len() == i / 64,
                buf@ == keys.subrange(64 * (i / 64), i as int),
                forall|s: int| 0 <= s < segs@.len() ==> #[trigger] holds_segment(segs@[s], keys, wb, s),
            decreases n - i,
        {
            buf.push(sorted[i]);
            if buf.len() == 64 {
                let ghost s = i / 64;
                assert(pad64(buf@) =~= buf@);
                assert(buf@ =~= keys.subrange(64 * s, vstd::math::min(64 * s + 64, n as int)));
                let ghost before = segs@;
                let seg = Segment::new(wb, buf.as_slice());
                assert(seg.keys@ == segments_of(keys)[s as int]);
                segs.push(seg);
                assert forall|t: int| 0 <= t < segs@.len() implies #[trigger] holds_segment(
                    segs@[t],
                    keys,
                    wb,
                    t,
                ) by {
                    if t < before.len() {
                        assert(segs@[t] == before[t]);
                    } else {
                        reveal(holds_segment);
                    }
                }
                buf = Vec::new();
                assert(buf@ =~= keys.subrange(64 * ((i + 1) / 64), i + 1));
            } else {
                assert(buf@ =~= keys.subrange(64 * ((i + 1) / 64), i + 1));
            }
            i += 1;
        }
        if buf.len() > 0 {
            let ghost s = n / 64;
            assert(buf@ =~= keys.subrange(64 * s, vstd::math::min(64 * s + 64, n as int)));
            let seg = Segment::new(wb, buf.as_slice());
            assert(seg.keys@ == segments_of(keys)[s as int]);
            let ghost before = segs@;
            segs.push(seg);
            assert forall|t: int| 0 <= t < segs@.len() implies #[trigger] holds_segment(
                segs@[t],
                keys,
                wb,
                t,
            ) by {
                if t < before.len() {
                    assert(segs@[t] == before[t]);
                } else {
                    reveal(holds_segment);
                }
            }
        }
        assert(segs@.len() == num_segments(n as int));
        assert forall|s: int| 0 <= s < segs@.len() implies #[trigger] segment_keys(segs@)[s]
            == segments_of(keys)[s] by {
            assert(holds_segment(segs@[s], keys, wb, s));
            reveal(holds_segment);
        }
        assert(segment_keys(segs@) =~= segments_of(keys));
        assert forall|s: int| 0 <= s < segs@.len() implies #[trigger] segs@[s].wf()
            && segs@[s].word_bits == wb by {
            assert(holds_segment(segs@[s], keys, wb, s));
            reveal(holds_segment);
        }
        assert(segments_wf(segs@, wb));
        segs
    }

    /// Sets the suffix width: the largest `big_suffix_bits` of the segments,
    /// at least 1.
    pub fn init_suffix_param(&mut self, segs: &[Segment])
        requires
            old(self).param.word_bits <= 63,
            segments_wf(segs@, old(self).param.word_bits),
        ensures
            final(self).keys == old(self).keys,
            final(self).false_positive_pow == old(self).false_positive_pow,
            final(self).param == (BuildingParam {
                suffix_bits: suffix_width(segment_keys(segs@), old(self).param.word_bits),
                suffix_mask: low_mask(
                    suffix_width(segment_keys(segs@), old(self).param.word_bits),
                ),
                ..old(self).param
            }),
    {
        let ghost g = segment_keys(segs@);
        let wb = self.param.word_bits;
        let mut suffix_bits: u64 = 0;
        let mut i: usize = 0;
        while i < segs.len()
            invariant
                i <= segs@.len(),
                g == segment_keys(segs@),
                wb == self.param.word_bits,
                wb <= 63,
                segments_wf(segs@, wb),
                suffix_bits == max_big_suffix(g, wb, i as int),
                suffix_bits <= wb,
            decreases segs@.len() - i,
        {
            assert(segs@[i as int].wf());
            let s = segs[i].big_suffix_bits();
            if s > suffix_bits {
                suffix_bits = s;
            }
            i += 1;
        }
        if suffix_bits == 0 {
            suffix_bits = 1;
        }
        self.param.suffix_bits = suffix_bits;
        self.param.suffix_mask = u64::MAX >> (64 - suffix_bits);
    }

    /// Packs the suffix of every key of every segment, 64 per segment.
    pub fn build_suffixes(&self, segs: &[Segment]) -> (r: Bitmap)
        requires
            self.param.word_bits <= 63,
            1 <= self.param.suffix_bits <= 63,
            self.param.suffix_mask == low_mask(self.param.suffix_bits),
            segments_wf(segs@, self.param.word_bits),
            self.param.suffix_bits * segs@.len() * 64 + 63 <= u64::MAX,
            self.param.suffix_bits * segs@.len() <= usize::MAX,
        ensures
            r.wf(),
            r.word_bits == self.param.suffix_bits,
            r.bm@.len() == self.param.suffix_bits * segs@.len(),
            r@ == suffix_words(
                segment_keys(segs@),
                self.param.word_bits,
                self.param.suffix_bits,
            ),
    {
        let ghost g = segment_keys(segs@);
        let wb = self.param.word_bits;
        let sb = self.param.suffix_bits;
        let mask = self.param.suffix_mask;
        let ghost total = suffix_words(g, wb, sb);
        let n_segs = segs.len() as u64;
        let mut suffixes = Bitmap::new(sb * n_segs * 64, sb);
        proof {
            assert(((sb * n_segs * 64 + 63) / 64) == sb * n_segs) by (nonlinear_arith);
        }
        let mut i: usize = 0;
        while i < segs.len()
            invariant
                i <= segs@.len(),
                g == segment_keys(segs@),
                segments_wf(segs@, wb),
                n_segs == segs@.len(),
                wb <= 63,
                1 <= sb <= 63,
                mask == low_mask(sb),
                suffixes.wf(),
                suffixes.word_bits == sb,
                suffixes.bm.len() == sb * n_segs,
                suffixes@ == total.take(64 * i),
                total == suffix_words(g, wb, sb),
            decreases segs@.len() - i,
        {
            let seg = &segs[i];
            assert(seg.wf());
            let mut j: usize = 0;
            while j < 64
                invariant
                    i < segs@.len(),
                    *seg == segs@[i as int],
                    seg.wf(),
                    g == segment_keys(segs@),
                    n_segs == segs@.len(),
                    wb <= 63,
                    1 <= sb <= 63,
                    mask == low_mask(sb),
                    j <= 64,
                    suffixes.wf(),
                    suffixes.word_bits == sb,
                    suffixes.bm.len() == sb * n_segs,
                    suffixes@ == total.take(64 * i + j),
                    total == suffix_words(g, wb, sb),
                decreases 64 - j,
            {
                let k = seg.keys[j];
                let suffix = top_bits(k, wb) & mask;
                proof {
                    lemma_masked_fits(top(k, wb), sb);
                    let c = 64 * i + j;
                    assert(c + 1 <= 64 * n_segs);
                    assert((c + 1) * sb <= sb * n_segs * 64) by (nonlinear_arith)
                        requires
                            c + 1 <= 64 * n_segs,
                    ;
                    assert(total[c] == suffix_of(g[c / 64][c % 64], wb, sb));
                    assert(c / 64 == i && c % 64 == j);
                    assert(suffixes@.len() == c);
                    assert(suffixes.word_count == c);
                    assert(suffixes.bm.len() * 64 == sb * n_segs * 64);
                }
                suffixes.push_word(suffix);
                assert(suffixes@ =~= total.take(64 * i + j + 1));
                j += 1;
            }
            i += 1;
        }
        assert(suffixes@ =~= total);
        suffixes
    }

    /// Sets the partition key width: one more than the longest prefix that
    /// tells neighbouring boundary keys apart, capped at `word_bits`; 0 for a
    /// single segment.
    pub fn init_partition_param(&mut self, segs: &[Segment])
        requires
            old(self).param.word_bits <= 63,
            segs@.len() >= 1,
            segments_wf(segs@, old(self).param.word_bits),
        ensures
            final(self).keys == old(self).keys,
            final(self).false_positive_pow == old(self).false_positive_pow,
            final(self).param == (BuildingParam {
                partition_key_bits: partition_width(
                    segment_keys(segs@),
                    old(self).param.word_bits,
                ),
                partition_key_mask: low_mask(
                    partition_width(segment_keys(segs@), old(self).param.word_bits),
                ),
                ..old(self).param
            }),
            final(self).param.partition_key_bits <= old(self).param.word_bits + 1,
    {
        let ghost g = segment_keys(segs@);
        let wb = self.param.word_bits;
        let mut partition_key_bits: u64 = 0;
        if segs.len() > 1 {
            let mut i: usize = 0;
            while i < segs.len()
                invariant
                    1 < segs@.len(),
                    i <= segs@.len(),
                    g == segment_keys(segs@),
                    segments_wf(segs@, wb),
                    wb <= 63,
                    i < segs@.len() ==> partition_key_bits == max_prefix_len(g, wb, 2 * i + 1),
                    i == segs@.len() ==> partition_key_bits == max_prefix_len(g, wb, 2 * i),
                    partition_key_bits <= wb,
                decreases segs@.len() - i,
            {
                let seg = &segs[i];
                assert(seg.wf());
                proof {
                    vstd::std_specs::bits::axiom_u64_leading_zeros(seg.keys@[0] ^ seg.keys@[63]);
                }
                let sig = (seg.keys[0] ^ seg.keys[63]).leading_zeros() as u64;
                let pk_len = if sig + 1 < wb { sig + 1 } else { wb };
                if pk_len > partition_key_bits {
                    partition_key_bits = pk_len;
                }
                assert(boundary_key(g, 2 * i) == g[i as int][0]);
                assert(boundary_key(g, 2 * i + 1) == g[i as int][63]);
                assert(pk_len == neighbour_prefix_len(g, wb, 2 * i));
                assert(partition_key_bits == max_prefix_len(g, wb, 2 * i + 2));
                if i + 1 < segs.len() {
                    let next = &segs[i + 1];
                    assert(next.wf());
                    proof {
                        vstd::std_specs::bits::axiom_u64_leading_zeros(
                            seg.keys@[63] ^ next.keys@[0],
                        );
                    }
                    let sig = (seg.keys[63] ^ next.keys[0]).leading_zeros() as u64;
                    let pk_len = if sig + 1 < wb { sig + 1 } else { wb };
                    if pk_len > partition_key_bits {
                        partition_key_bits = pk_len;
                    }
                    assert(boundary_key(g, 2 * i + 2) == g[i + 1][0]);
                    assert(pk_len == neighbour_prefix_len(g, wb, 2 * i + 1));
                    assert(partition_key_bits == max_prefix_len(g, wb, 2 * i + 3));
                }
                i += 1;
            }
            partition_key_bits += 1;
        }
        self.param.partition_key_bits = partition_key_bits;
        self.param.partition_key_mask = if partition_key_bits == 0 {
            0
        } else {
            u64::MAX >> (64 - partition_key_bits)
        };
    }

    /// Packs the partition key of each segment: the top
    /// `partition_key_bits` bits of its last key; nothing when that width
    /// is 0.
    pub fn build_partition_keys(&self, segs: &[Segment]) -> (r: Bitmap)
        requires
            self.param.partition_key_bits <= 64,
            segments_wf(segs@, self.param.word_bits),
            self.param.partition_key_bits * segs@.len() + 63 <= u64::MAX,
            (self.param.partition_key_bits * segs@.len() + 63) / 64 <= usize::MAX,
        ensures
            r.wf(),
            r.word_bits == self.param.partition_key_bits,
            r.bm@.len() == (self.param.partition_key_bits * segs@.len() + 63) / 64,
            r@ == partition_words(segment_keys(segs@), self.param.partition_key_bits),
    {
        let ghost g = segment_keys(segs@);
        let pkb = self.param.partition_key_bits;
        let n_segs = segs.len() as u64;
        let mut partition_keys = Bitmap::new(pkb * n_segs, pkb);
        let ghost total = partition_words(g, pkb);
        if pkb > 0 {
            let mut i: usize = 0;
            while i < segs.len()
                invariant
                    i <= segs@.len(),
                    g == segment_keys(segs@),
                    segments_wf(segs@, self.param.word_bits),
                    n_segs == segs@.len(),
                    1 <= pkb <= 64,
                    partition_keys.wf(),
                    partition_keys.word_bits == pkb,
                    partition_keys.bm.len() == (pkb * n_segs + 63) / 64,
                    partition_keys@ == total.take(i as int),
                    total == partition_words(g, pkb),
                decreases segs@.len() - i,
            {
                assert(segs@[i as int].wf());
                let k = top_bits(segs[i].keys[63], pkb);
                proof {
                    lemma_top_fits(segs@[i as int].keys@[63], pkb);
                    assert((i + 1) * pkb <= pkb * n_segs) by (nonlinear_arith)
                        requires
                            i + 1 <= n_segs,
                    ;
                    assert(partition_keys@.len() == i);
                    assert(partition_keys.word_count == i);
                }
                partition_keys.push_word(k);
                assert(partition_keys@ =~= total.take(i + 1));
                i += 1;
            }
        }
        assert(partition_keys@ =~= total);
        partition_keys
    }

    /// Builds the filter: sizes the words, cuts the segments, then packs the
    /// suffixes and the partition keys.
    pub fn build_it(&mut self) -> (r: SlimFilter)
        requires
            old(self).keys@.len() >= 1,
            old(self).keys@.len() <= MAX_KEYS,
            word_bits_for(old(self).keys@.len() as int, old(self).false_positive_pow as int) <= 63,
        ensures
            final(self).keys == old(self).keys,
            final(self).false_positive_pow == old(self).false_positive_pow,
            r.wf(),
            strictly_ascending(builder_keys(*old(self))),
            builder_keys(*old(self)).len() == old(self).keys@.len(),
            builder_keys(*old(self)).to_set() == old(self).keys@,
            built_from(
                r,
                builder_keys(*old(self)),
                word_bits_for(old(self).keys@.len() as int, old(self).false_positive_pow as int)
                    as u64,
            ),
    {
        let ghost keys = builder_keys(*self);
        let ghost n = self.keys@.len() as int;
        let n_keys = self.keys.len();
        self.init_param();
        let wb = self.param.word_bits;
        let segs = self.build_segments();
        let ghost g = segments_of(keys);
        proof {
            lemma_suffix_width(keys, wb);
            lemma_partition_width(keys, wb);
            lemma_suffixes_sorted(keys, wb);
            assert(keys.len() == n);
        }
        self.init_suffix_param(segs.as_slice());
        let ghost sb = self.param.suffix_bits;
        let ghost s_count = segs@.len() as int;
        proof {
            assert(s_count == (n + 63) / 64);
            assert(sb * s_count * 64 + 63 <= u64::MAX) by (nonlinear_arith)
                requires
                    1 <= sb <= 63,
                    s_count == (n + 63) / 64,
                    n <= MAX_KEYS,
            ;
            assert(sb * s_count <= usize::MAX) by (nonlinear_arith)
                requires
                    1 <= sb <= 63,
                    s_count == (n + 63) / 64,
                    n <= usize::MAX,
                    usize::MAX >= 0xffff_ffff,
            ;
        }
        let suffixes = self.build_suffixes(segs.as_slice());
        self.init_partition_param(segs.as_slice());
        let ghost pkb = self.param.partition_key_bits;
        proof {
            lemma_partitions_sorted(keys, pkb);
            assert(pkb * s_count + 63 <= u64::MAX) by (nonlinear_arith)
                requires
                    pkb <= 64,
                    s_count == (n + 63) / 64,
                    n <= MAX_KEYS,
            ;
            assert((pkb * s_count + 63) / 64 <= usize::MAX) by (nonlinear_arith)
                requires
                    pkb <= 64,
                    s_count == (n + 63) / 64,
                    n <= usize::MAX,
                    usize::MAX >= 0xffff_ffff,
            ;
        }
        let partitions = self.build_partition_keys(segs.as_slice());
        let r = SlimFilter {
            word_bits: wb,
            partition_key_bits: self.param.partition_key_bits,
            partitions,
            suffix_bits: self.param.suffix_bits,
            suffixes,
        };
        proof {
            assert(r.num_segments() == s_count);
        }
        r
    }
}

/// The keys of `s` before index `i` form the keys before `i + 1` less key `i`.
proof fn lemma_take_to_set(s: Seq<u64>, i: int)
    requires
        0 <= i < s.len(),
    ensures
        s.take(i + 1).to_set() == s.take(i).to_set().insert(s[i]),
{
    assert forall|x: u64| s.take(i + 1).to_set().contains(x) <==> s.take(i).to_set().insert(
        s[i],
    ).contains(x) by {
        if s.take(i + 1).to_set().contains(x) {
            let j = choose|j: int| 0 <= j < s.take(i + 1).len() && #[trigger] s.take(i + 1)[j] == x;
            if j < i {
                assert(s.take(i)[j] == x);
            }
        }
        if s.take(i).to_set().contains(x) {
            let j = choose|j: int| 0 <= j < s.take(i).len() && #[trigger] s.take(i)[j] == x;
            assert(s.take(i + 1)[j] == x);
        }
        if x == s[i] {
            assert(s.take(i + 1)[i] == x);
        }
    }
    assert(s.take(i + 1).to_set() =~= s.take(i).to_set().insert(s[i]));
}

impl Default for Builder {
    /// An empty builder with false-positive exponent 0.
    fn default() -> (r: Self)
        ensures
            r.false_positive_pow == 0,
            r.keys@ == Set::<u64>::empty(),
            blank_param(r.param),
    {
        Builder::new(0)
    }
}

impl FilterBuilder for Builder {
    type Filter = SlimFilter;

    type Error = BuildError;

    open spec fn key_set(&self) -> Set<Key> {
        self.keys@
    }

    open spec fn outcome(
        keys: Set<Key>,
        false_positive_pow: int,
        r: Result<SlimFilter, BuildError>,
    ) -> bool {
        build_outcome(keys, false_positive_pow, r)
    }

    fn add_keys(&mut self, keys: &[Key]) {
        broadcast use vstd::laws_cmp::group_laws_cmp;

        let mut i: usize = 0;
        while i < keys.len()
            invariant
                i <= keys@.len(),
                self.keys@ == old(self).keys@.union(keys@.take(i as int).to_set()),
            decreases keys@.len() - i,
        {
            proof {
                lemma_take_to_set(keys@, i as int);
            }
            self.keys.insert(keys[i]);
            assert(self.keys@ =~= old(self).keys@.union(keys@.take(i + 1).to_set()));
            i += 1;
        }
        assert(keys@.take(keys@.len() as int) =~= keys@);
    }

    /// Builds the filter with false-positive exponent `false_positive_pow`.
    fn build(self, false_positive_pow: usize) -> (r: Result<SlimFilter, BuildError>) {
        let mut b = self;
        b.false_positive_pow = false_positive_pow as u64;
        let n = b.keys.len() as u64;
        if n == 0 {
            return Err(BuildError::EmptyInput);
        }
        let p = b.init_param();
        if p.word_bits > 63 || n > MAX_KEYS {
            return Err(BuildError::SuffixOverflow);
        }
        Ok(b.build_it())
    }
}

} // verus!
