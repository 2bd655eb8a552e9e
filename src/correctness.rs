use vstd::prelude::*;

use crate::bitmap::low_mask;
use crate::bitmap::sorted_between;
use crate::builder::big_suffix;
use crate::builder::boundary_key;
use crate::builder::build_outcome;
use crate::builder::built_from;
use crate::builder::sorted_keys;
use crate::builder::BuildError;
use crate::filter::SlimFilter;
use crate::builder::max_big_suffix;
use crate::builder::max_prefix_len;
use crate::builder::num_segments;
use crate::builder::partition_width;
use crate::builder::partition_words;
use crate::builder::neighbour_prefix_len;
use crate::builder::segments_of;
use crate::builder::strictly_ascending;
use crate::builder::suffix_of;
use crate::builder::suffix_width;
use crate::builder::suffix_words;
use crate::segment::shared_prefix_bits;
use crate::util::clz;
use crate::util::lemma_clz_of_top_eq;
use crate::util::lemma_shr_split;
use crate::util::lemma_top_between;
use crate::util::lemma_top_eq_of_clz;
use crate::util::lemma_top_fits;
use crate::util::lemma_top_mono;
use crate::util::lemma_top_narrow;
use crate::util::top;

verus! {

/// Key `i` of the sorted keys, the last key standing in past the end.
pub open spec fn padded_key(keys: Seq<u64>, i: int) -> u64 {
    if i < keys.len() {
        keys[i]
    } else {
        keys.last()
    }
}

/// Entry `j` of segment `s` is padded key `64 * s + j`.
pub proof fn lemma_segment_entry(keys: Seq<u64>, s: int, j: int)
    requires
        keys.len() >= 1,
        0 <= s < num_segments(keys.len() as int),
        0 <= j < 64,
    ensures
        segments_of(keys)[s][j] == padded_key(keys, 64 * s + j),
{
    let end = vstd::math::min(64 * s + 64, keys.len() as int);
    let sub = keys.subrange(64 * s, end);
    if j >= sub.len() {
        assert(sub.last() == keys[end - 1]);
    }
}

/// Padded keys do not decrease, and strictly increase among real keys.
pub proof fn lemma_padded_order(keys: Seq<u64>, a: int, b: int)
    requires
        strictly_ascending(keys),
        keys.len() >= 1,
        0 <= a <= b,
    ensures
        padded_key(keys, a) <= padded_key(keys, b),
        a < b < keys.len() ==> padded_key(keys, a) < padded_key(keys, b),
{
}

/// Every segment's `big_suffix` is in `[0, word_bits]` and at most their
/// maximum.
pub proof fn lemma_max_big_suffix(g: Seq<Seq<u64>>, wb: u64, m: int)
    requires
        0 <= m <= g.len(),
        forall|s: int| 0 <= s < g.len() ==> #[trigger] g[s].len() == 64,
    ensures
        0 <= max_big_suffix(g, wb, m) <= wb,
        forall|s: int| 0 <= s < m ==> #[trigger] big_suffix(g[s], wb) <= max_big_suffix(g, wb, m),
    decreases m,
{
    if m > 0 {
        lemma_max_big_suffix(g, wb, m - 1);
        vstd::std_specs::bits::axiom_u64_leading_zeros(g[m - 1][0] ^ g[m - 1][63]);
    }
}

/// Every neighbouring `prefix_len` is in `[0, word_bits]` and at most their
/// maximum.
pub proof fn lemma_max_prefix_len(g: Seq<Seq<u64>>, wb: u64, m: int)
    requires
        0 <= m,
    ensures
        0 <= max_prefix_len(g, wb, m) <= wb,
        forall|i: int|
            0 <= i < m - 1 ==> #[trigger] neighbour_prefix_len(g, wb, i) <= max_prefix_len(g, wb, m),
    decreases m,
{
    if m > 1 {
        lemma_max_prefix_len(g, wb, m - 1);
        vstd::std_specs::bits::axiom_u64_leading_zeros(
            boundary_key(g, m - 2) ^ boundary_key(g, m - 2 + 1),
        );
    }
}

/// Two keys that share a prefix of at least `word_bits - suffix_bits` bits
/// keep their order as suffixes.
pub proof fn lemma_suffix_mono(x: u64, y: u64, wb: u64, sb: u64, cp: u64)
    requires
        x <= y,
        cp <= wb <= 63,
        1 <= sb <= 63,
        wb <= cp + sb,
        top(x, cp) == top(y, cp),
    ensures
        suffix_of(x, wb, sb) <= suffix_of(y, wb, sb),
{
    let tx = top(x, wb);
    let ty = top(y, wb);
    lemma_top_mono(x, y, wb);
    lemma_top_fits(x, wb);
    lemma_top_fits(y, wb);
    if wb <= sb {
        assert(tx & low_mask(sb) == tx && ty & low_mask(sb) == ty) by (bit_vector)
            requires
                tx <= low_mask(wb),
                ty <= low_mask(wb),
                wb <= sb <= 63,
        ;
    } else {
        let p = (wb - sb) as u64;
        lemma_top_narrow(x, y, p, cp);
        lemma_shr_split(x, p, wb);
        lemma_shr_split(y, p, wb);
        assert(tx & low_mask(sb) <= ty & low_mask(sb)) by (bit_vector)
            requires
                tx <= ty,
                tx >> sb == ty >> sb,
                1 <= sb <= 63,
        ;
    }
}

/// Every segment holds 64 keys.
pub proof fn lemma_segments_len(keys: Seq<u64>)
    requires
        keys.len() >= 1,
    ensures
        segments_of(keys).len() == num_segments(keys.len() as int),
        forall|s: int|
            0 <= s < segments_of(keys).len() ==> #[trigger] segments_of(keys)[s].len() == 64,
{
}

/// The suffix width is in `[1, 63]` and covers every segment's
/// `big_suffix`.
pub proof fn lemma_suffix_width(keys: Seq<u64>, wb: u64)
    requires
        keys.len() >= 1,
        wb <= 63,
    ensures
        1 <= suffix_width(segments_of(keys), wb) <= 63,
        forall|s: int|
            0 <= s < num_segments(keys.len() as int) ==> #[trigger] big_suffix(
                segments_of(keys)[s],
                wb,
            ) <= suffix_width(segments_of(keys), wb),
{
    let g = segments_of(keys);
    lemma_segments_len(keys);
    lemma_max_big_suffix(g, wb, g.len() as int);
}

/// The partition key width is at most `word_bits + 1`, and above every
/// neighbouring `prefix_len` when there are several segments.
pub proof fn lemma_partition_width(keys: Seq<u64>, wb: u64)
    requires
        keys.len() >= 1,
        wb <= 63,
    ensures
        partition_width(segments_of(keys), wb) <= wb + 1,
        num_segments(keys.len() as int) > 1 ==> partition_width(segments_of(keys), wb) >= 1,
        num_segments(keys.len() as int) > 1 ==> forall|i: int|
            0 <= i < 2 * num_segments(keys.len() as int) - 1 ==> #[trigger] neighbour_prefix_len(
                segments_of(keys),
                wb,
                i,
            ) < partition_width(segments_of(keys), wb),
{
    let g = segments_of(keys);
    lemma_max_prefix_len(g, wb, 2 * g.len() as int);
}

/// Within each segment the suffixes do not decrease.
pub proof fn lemma_suffixes_sorted(keys: Seq<u64>, wb: u64)
    requires
        strictly_ascending(keys),
        keys.len() >= 1,
        wb <= 63,
    ensures
        forall|s: int|
            0 <= s < num_segments(keys.len() as int) ==> #[trigger] sorted_between(
                suffix_words(segments_of(keys), wb, suffix_width(segments_of(keys), wb)),
                64 * s,
                64 * s + 64,
            ),
{
    let g = segments_of(keys);
    let sb = suffix_width(g, wb);
    let w = suffix_words(g, wb, sb);
    lemma_suffix_width(keys, wb);
    assert forall|s: int| 0 <= s < num_segments(keys.len() as int) implies #[trigger] sorted_between(
        w,
        64 * s,
        64 * s + 64,
    ) by {
        let first = g[s][0];
        let last = g[s][63];
        lemma_segment_entry(keys, s, 0);
        lemma_segment_entry(keys, s, 63);
        vstd::std_specs::bits::axiom_u64_leading_zeros(first ^ last);
        let cp = shared_prefix_bits(first, last, wb) as u64;
        lemma_top_eq_of_clz(first, last, cp);
        assert(big_suffix(g[s], wb) <= sb);
        assert forall|a: int, b: int| 64 * s <= a <= b < 64 * s + 64 implies w[a] <= w[b] by {
            assert(a / 64 == s && b / 64 == s);
            let x = g[s][a % 64];
            let y = g[s][b % 64];
            lemma_segment_entry(keys, s, a % 64);
            lemma_segment_entry(keys, s, b % 64);
            lemma_padded_order(keys, 64 * s, a);
            lemma_padded_order(keys, a, b);
            lemma_padded_order(keys, b, 64 * s + 63);
            lemma_top_between(first, x, last, cp);
            lemma_top_between(first, y, last, cp);
            lemma_suffix_mono(x, y, wb, sb, cp);
        }
    }
}

/// The partition keys do not decrease.
pub proof fn lemma_partitions_sorted(keys: Seq<u64>, pkb: u64)
    requires
        strictly_ascending(keys),
        keys.len() >= 1,
        pkb <= 64,
    ensures
        sorted_between(
            partition_words(segments_of(keys), pkb),
            0,
            partition_words(segments_of(keys), pkb).len() as int,
        ),
{
    let g = segments_of(keys);
    let p = partition_words(g, pkb);
    if pkb > 0 {
        assert forall|a: int, b: int| 0 <= a <= b < p.len() implies p[a] <= p[b] by {
            lemma_segment_entry(keys, a, 63);
            lemma_segment_entry(keys, b, 63);
            lemma_padded_order(keys, 64 * a + 63, 64 * b + 63);
            lemma_top_mono(g[a][63], g[b][63], pkb);
        }
    }
}

/// In a non-decreasing sequence, some entry at or before `s` is the first
/// one not below `t`.
proof fn lemma_first_at_least(p: Seq<u64>, t: u64, s: int) -> (r: int)
    requires
        sorted_between(p, 0, p.len() as int),
        0 <= s < p.len(),
        p[s] >= t,
    ensures
        0 <= r <= s,
        p[r] >= t,
        r == 0 || p[r - 1] < t,
    decreases s,
{
    if s == 0 || p[s - 1] < t {
        s
    } else {
        lemma_first_at_least(p, t, s - 1)
    }
}

/// A filter built from ascending keys reports each of them present.
pub proof fn lemma_built_admits(f: SlimFilter, keys: Seq<u64>, wb: u64, i: int)
    requires
        strictly_ascending(keys),
        keys.len() >= 1,
        wb <= 63,
        sorted_between(f.partitions@, 0, f.partitions@.len() as int),
        built_from(f, keys, wb),
        0 <= i < keys.len(),
    ensures
        f.admits(keys[i]),
{
    let g = segments_of(keys);
    let n = keys.len() as int;
    let k = keys[i];
    let s = i / 64;
    let sb = f.suffix_bits;
    let pkb = f.partition_key_bits;
    let w = f.suffixes@;
    lemma_segment_entry(keys, s, i % 64);
    assert(w[i] == suffix_of(k, wb, sb));
    lemma_partition_width(keys, wb);
    if pkb == 0 {
        assert(f.routes_to(k, 0));
        assert(f.routes_to(k, s) && 64 * s <= i < 64 * s + 64 && w[i] == suffix_of(k, wb, sb));
    } else {
        let p = f.partitions@;
        let t = top(k, pkb);
        lemma_segment_entry(keys, s, 63);
        lemma_padded_order(keys, i, 64 * s + 63);
        lemma_top_mono(k, g[s][63], pkb);
        let r = lemma_first_at_least(p, t, s);
        if r == s {
            assert(f.routes_to(k, s) && 64 * s <= i < 64 * s + 64 && w[i] == suffix_of(k, wb, sb));
        } else {
            let a = g[r][63];
            let b = g[r + 1][0];
            lemma_segment_entry(keys, r, 63);
            lemma_segment_entry(keys, r + 1, 0);
            lemma_padded_order(keys, 64 * r + 63, 64 * r + 64);
            lemma_padded_order(keys, 64 * r + 64, i);
            lemma_top_mono(a, k, pkb);
            assert(p[r] == t);
            lemma_top_between(a, b, k, pkb);
            lemma_clz_of_top_eq(a, b, pkb);
            assert(boundary_key(g, 2 * r + 1) == a);
            assert(boundary_key(g, 2 * r + 2) == b);
            assert(neighbour_prefix_len(g, wb, 2 * r + 1) < pkb);
            lemma_top_narrow(a, k, wb, pkb);
            let j = 64 * r + 63;
            assert(j / 64 == r && j % 64 == 63);
            assert(w[j] == suffix_of(a, wb, sb));
            assert(f.routes_to(k, r) && 64 * r <= j < 64 * r + 64 && w[j] == suffix_of(k, wb, sb));
        }
    }
}

/// No false negatives: a filter that `build` returns reports every key it
/// was built from present.
pub proof fn lemma_no_false_negatives(
    keys: Set<u64>,
    fp_pow: int,
    r: Result<SlimFilter, BuildError>,
    key: u64,
)
    requires
        build_outcome(keys, fp_pow, r),
        r is Ok,
        keys.contains(key),
    ensures
        r->Ok_0.admits(key),
{
    let sorted = sorted_keys(keys);
    let f = r->Ok_0;
    assert(sorted.to_set().contains(key));
    let i = choose|i: int| 0 <= i < sorted.len() && sorted[i] == key;
    lemma_built_admits(f, sorted, f.word_bits, i);
}

/// Partition keys of neighbouring segments differ when distinct keys differ
/// within their top `word_bits` bits.
proof fn lemma_partition_words_strict(sorted: Seq<u64>, wb: u64)
    requires
        strictly_ascending(sorted),
        sorted.len() >= 1,
        wb <= 63,
        forall|i: int, j: int|
            0 <= i < j < sorted.len() ==> top(#[trigger] sorted[i], wb) != top(
                #[trigger] sorted[j],
                wb,
            ),
    ensures
        strictly_ascending(
            partition_words(segments_of(sorted), partition_width(segments_of(sorted), wb)),
        ),
{
    let g = segments_of(sorted);
    let pkb = partition_width(g, wb);
    let p = partition_words(g, pkb);
    lemma_partition_width(sorted, wb);
    if pkb > 0 {
        assert forall|s: int| 0 <= s < p.len() - 1 implies #[trigger] p[s] < p[s + 1] by {
            let a = g[s][63];
            let b = g[s + 1][0];
            lemma_segment_entry(sorted, s, 63);
            lemma_segment_entry(sorted, s + 1, 0);
            lemma_segment_entry(sorted, s + 1, 63);
            assert(sorted[64 * s + 63] == a && sorted[64 * s + 64] == b);
            if clz(a ^ b) >= wb {
                lemma_top_eq_of_clz(a, b, wb);
            }
            assert(boundary_key(g, 2 * s + 1) == a);
            assert(boundary_key(g, 2 * s + 2) == b);
            assert(neighbour_prefix_len(g, wb, 2 * s + 1) < pkb);
            if top(a, pkb) == top(b, pkb) {
                lemma_clz_of_top_eq(a, b, pkb);
            }
            lemma_top_mono(a, b, pkb);
            lemma_padded_order(sorted, 64 * s + 64, 64 * s + 127);
            lemma_top_mono(b, g[s + 1][63], pkb);
        }
        assert forall|a: int, b: int| 0 <= a < b < p.len() implies p[a] < p[b] by {
            assert(p[a] < p[a + 1]);
            lemma_partitions_sorted(sorted, pkb);
            assert(p[a + 1] <= p[b]);
        }
    }
}

/// Strict partition ordering: when distinct keys differ within their top
/// `word_bits` bits, the partition keys of a built filter strictly
/// ascend.
pub proof fn lemma_partitions_strictly_ascending(
    keys: Set<u64>,
    fp_pow: int,
    r: Result<SlimFilter, BuildError>,
)
    requires
        build_outcome(keys, fp_pow, r),
        r is Ok,
        forall|i: int, j: int|
            0 <= i < j < sorted_keys(keys).len() ==> top(
                #[trigger] sorted_keys(keys)[i],
                r->Ok_0.word_bits,
            ) != top(#[trigger] sorted_keys(keys)[j], r->Ok_0.word_bits),
    ensures
        strictly_ascending(r->Ok_0.partitions@),
{
    lemma_partition_words_strict(sorted_keys(keys), r->Ok_0.word_bits);
}

/// Suffix ordering: in a built filter the 64 suffixes of each segment do
/// not decrease.
pub proof fn lemma_suffixes_ascend_in_segments(
    keys: Set<u64>,
    fp_pow: int,
    r: Result<SlimFilter, BuildError>,
    s: int,
)
    requires
        build_outcome(keys, fp_pow, r),
        r is Ok,
        0 <= s < r->Ok_0.num_segments(),
    ensures
        forall|a: int, b: int|
            64 * s <= a <= b < 64 * s + 64 ==> r->Ok_0.suffixes@[a] <= r->Ok_0.suffixes@[b],
{
    assert(sorted_between(r->Ok_0.suffixes@, 64 * s, 64 * s + 64));
}

/// Determinism: two builds from the same keys with the same exponent give
/// the same outcome, down to the packed cells.
pub proof fn lemma_build_deterministic(
    keys: Set<u64>,
    fp_pow: int,
    r1: Result<SlimFilter, BuildError>,
    r2: Result<SlimFilter, BuildError>,
)
    requires
        build_outcome(keys, fp_pow, r1),
        build_outcome(keys, fp_pow, r2),
    ensures
        r1 is Ok <==> r2 is Ok,
        r1 is Err ==> r1 == r2,
        r1 is Ok ==> {
            let f1 = r1->Ok_0;
            let f2 = r2->Ok_0;
            &&& f1.word_bits == f2.word_bits
            &&& f1.suffix_bits == f2.suffix_bits
            &&& f1.partition_key_bits == f2.partition_key_bits
            &&& f1.partitions.word_count == f2.partitions.word_count
            &&& f1.partitions.bm@ == f2.partitions.bm@
            &&& f1.suffixes.word_count == f2.suffixes.word_count
            &&& f1.suffixes.bm@ == f2.suffixes.bm@
        },
{
}

} // verus!
