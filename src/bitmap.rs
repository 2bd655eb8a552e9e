use vstd::prelude::*;

use crate::text::binary;
use crate::text::decimal;
use crate::text::push_binary_padded;
use crate::text::push_decimal_padded;
use crate::text::push_number;
use crate::text::push_text;
use crate::text::zero_padded;
use crate::util::next_multiple_of;

verus! {

/// The lowest `b` bits set.
pub open spec fn low_mask(b: u64) -> u64 {
    if b == 0 {
        0
    } else {
        u64::MAX >> ((64 - b) as u64)
    }
}

/// The word of `wb` bits that starts at bit `s` of cell `x`, continued in
/// cell `y` when it does not fit in `x`.
pub open spec fn splice(x: u64, y: u64, s: u64, wb: u64) -> u64 {
    if s + wb <= 64 {
        (x >> s) & low_mask(wb)
    } else {
        (x >> s) | ((y & low_mask((s + wb - 64) as u64)) << ((64 - s) as u64))
    }
}

/// Word `i` of width `wb` read out of the cells: it starts at bit `i * wb`.
pub open spec fn word_at(cells: Seq<u64>, wb: u64, i: int) -> u64 {
    let pos = i * wb;
    splice(cells[pos / 64], cells[pos / 64 + 1], (pos % 64) as u64, wb)
}

/// Every bit at position `pos` or above is zero.
pub open spec fn zero_from(cells: Seq<u64>, pos: int) -> bool {
    &&& (pos / 64 < cells.len() ==> cells[pos / 64] >> ((pos % 64) as u64) == 0)
    &&& forall|j: int| pos / 64 < j < cells.len() ==> #[trigger] cells[j] == 0
}

/// The cells after or-ing word `w` of width `wb` in at bit `pos`.
pub open spec fn put_word(cells: Seq<u64>, w: u64, pos: int, wb: u64) -> Seq<u64> {
    let c = pos / 64;
    let s = (pos % 64) as u64;
    let first = cells.update(c, cells[c] | (w << s));
    if s + wb > 64 {
        first.update(c + 1, first[c + 1] | (w >> ((64 - s) as u64)))
    } else {
        first
    }
}

/// `len` zeroed cells with `words` put in one after the other.
pub open spec fn packed(words: Seq<u64>, wb: u64, len: nat) -> Seq<u64>
    decreases words.len(),
{
    if words.len() == 0 {
        Seq::new(len, |i: int| 0u64)
    } else {
        put_word(
            packed(words.drop_last(), wb, len),
            words.last(),
            (words.len() - 1) * wb,
            wb,
        )
    }
}

/// Whether `s` is non-decreasing on the index range `[lo, hi)`.
pub open spec fn sorted_between(s: Seq<u64>, lo: int, hi: int) -> bool {
    forall|a: int, b: int| lo <= a <= b < hi ==> s[a] <= s[b]
}

proof fn lemma_cell_of(x: u64)
    ensures
        x >> 6 == x / 64,
        x & 63 == x % 64,
{
    assert(x >> 6 == x / 64) by (bit_vector);
    assert(x & 63 == x % 64) by (bit_vector);
}

/// Or-ing bits at `s` and above leaves a word that ends at or below `s` intact.
proof fn lemma_or_above_keeps_word(x: u64, w: u64, t: u64, s: u64, wb: u64)
    requires
        t + wb <= s,
        s < 64,
    ensures
        ((x | (w << s)) >> t) & low_mask(wb) == (x >> t) & low_mask(wb),
{
    assert(((x | (w << s)) >> t) & low_mask(wb) == (x >> t) & low_mask(wb)) by (bit_vector)
        requires
            t + wb <= s,
            s < 64,
    ;
}

/// Or-ing bits at `s` and above leaves the lowest `e <= s` bits intact.
proof fn lemma_or_above_keeps_low(x: u64, w: u64, e: u64, s: u64)
    requires
        e <= s,
        s < 64,
    ensures
        (x | (w << s)) & low_mask(e) == x & low_mask(e),
{
    assert((x | (w << s)) & low_mask(e) == x & low_mask(e)) by (bit_vector)
        requires
            e <= s,
            s < 64,
    ;
}

/// A word written at `s` into a cell clear from `s` reads back whole.
proof fn lemma_write_read(x: u64, y: u64, w: u64, s: u64, wb: u64)
    requires
        x >> s == 0,
        w <= low_mask(wb),
        1 <= wb <= 64,
        s < 64,
    ensures
        s + wb <= 64 ==> splice(x | (w << s), y, s, wb) == w,
        s + wb > 64 ==> splice(x | (w << s), y | (w >> ((64 - s) as u64)), s, wb) == w
            || y != 0,
        s + wb < 64 ==> (x | (w << s)) >> ((s + wb) as u64) == 0,
        s + wb > 64 ==> (y | (w >> ((64 - s) as u64))) >> ((s + wb - 64) as u64) == 0 || y != 0,
{
    assert(s + wb <= 64 ==> ((x | (w << s)) >> s) & low_mask(wb) == w) by (bit_vector)
        requires
            x >> s == 0,
            w <= low_mask(wb),
            1 <= wb <= 64,
            s < 64,
    ;
    assert(s + wb > 64 && y == 0 ==> ((x | (w << s)) >> s) | (((y | (w >> ((64 - s) as u64)))
        & low_mask((s + wb - 64) as u64)) << ((64 - s) as u64)) == w) by (bit_vector)
        requires
            x >> s == 0,
            w <= low_mask(wb),
            1 <= wb <= 64,
            s < 64,
    ;
    assert(s + wb < 64 ==> (x | (w << s)) >> ((s + wb) as u64) == 0) by (bit_vector)
        requires
            x >> s == 0,
            w <= low_mask(wb),
            1 <= wb <= 64,
            s < 64,
    ;
    assert(s + wb > 64 && y == 0 ==> (y | (w >> ((64 - s) as u64))) >> ((s + wb - 64) as u64)
        == 0) by (bit_vector)
        requires
            w <= low_mask(wb),
            1 <= wb <= 64,
            s < 64,
    ;
}

/// A word read from cells that are clear from its start is zero.
proof fn lemma_read_clear(x: u64, y: u64, s: u64, t: u64, wb: u64)
    requires
        x >> s == 0,
        s <= t < 64,
        wb <= 64,
        t + wb > 64 ==> y == 0,
    ensures
        splice(x, y, t, wb) == 0,
{
    assert(splice(x, y, t, wb) == 0) by (bit_vector)
        requires
            x >> s == 0,
            s <= t < 64,
            wb <= 64,
            t + wb > 64 ==> y == 0,
    ;
}

/// Putting word `w` in after `count` words of width `wb`, into cells clear
/// from there on, keeps the earlier words, reads back `w`, and leaves the
/// cells clear after it.
pub proof fn lemma_put_word(cells: Seq<u64>, w: u64, count: int, wb: u64)
    requires
        1 <= wb <= 64,
        0 <= count,
        (count + 1) * wb <= cells.len() * 64,
        zero_from(cells, count * wb),
        w <= low_mask(wb),
    ensures
        put_word(cells, w, count * wb, wb).len() == cells.len(),
        forall|i: int|
            0 <= i < count ==> #[trigger] word_at(put_word(cells, w, count * wb, wb), wb, i)
                == word_at(cells, wb, i),
        word_at(put_word(cells, w, count * wb, wb), wb, count) == w,
        zero_from(put_word(cells, w, count * wb, wb), (count + 1) * wb),
{
    let at = count * wb;
    let c = at / 64;
    let s = (at % 64) as u64;
    let new_cells = put_word(cells, w, at, wb);
    assert((count + 1) * wb == at + wb) by (nonlinear_arith)
        requires
            at == count * wb,
    ;
    assert(at >= 0) by (nonlinear_arith)
        requires
            count >= 0,
            at == count * wb,
    ;
    let y = if c + 1 < cells.len() { cells[c + 1] } else { 0u64 };
    if c + 1 < cells.len() {
        assert(cells[c + 1] == 0);
    }
    lemma_write_read(cells[c], y, w, s, wb);
    assert forall|i: int| 0 <= i < count implies #[trigger] word_at(new_cells, wb, i) == word_at(
        cells,
        wb,
        i,
    ) by {
        let p = i * wb;
        assert(p + wb <= at) by (nonlinear_arith)
            requires
                0 <= i < count,
                at == count * wb,
                p == i * wb,
        ;
        assert(p >= 0) by (nonlinear_arith)
            requires
                0 <= i,
                p == i * wb,
        ;
        let ci = p / 64;
        let t = (p % 64) as u64;
        if ci == c {
            lemma_or_above_keeps_word(cells[c], w, t, s, wb);
        } else if t + wb > 64 && ci + 1 == c {
            lemma_or_above_keeps_low(cells[c], w, (t + wb - 64) as u64, s);
        }
    }
    let pos2 = at + wb;
    assert(at == 64 * c + s);
    if s + wb < 64 {
        assert(pos2 / 64 == c && pos2 % 64 == s + wb);
    } else if s + wb == 64 {
        assert(pos2 / 64 == c + 1 && pos2 % 64 == 0);
        if c + 1 < new_cells.len() {
            assert(new_cells[c + 1] == 0);
            assert(0u64 >> 0u64 == 0) by (bit_vector);
        }
    } else {
        assert(pos2 / 64 == c + 1 && pos2 % 64 == s + wb - 64);
    }
    assert forall|j: int| pos2 / 64 < j < new_cells.len() implies #[trigger] new_cells[j] == 0 by {
        assert(cells[j] == 0);
    }
}

/// Round trip: words that fit in `wb` bits, put one after the other into
/// zeroed cells, read back as they were, in order, and leave every later bit
/// clear.
pub proof fn lemma_packed_round_trip(words: Seq<u64>, wb: u64, len: nat)
    requires
        1 <= wb <= 64,
        words.len() * wb <= len * 64,
        forall|i: int| 0 <= i < words.len() ==> #[trigger] words[i] <= low_mask(wb),
    ensures
        packed(words, wb, len).len() == len,
        forall|i: int|
            0 <= i < words.len() ==> #[trigger] word_at(packed(words, wb, len), wb, i) == words[i],
        zero_from(packed(words, wb, len), words.len() * wb),
    decreases words.len(),
{
    if words.len() == 0 {
        assert(0u64 >> 0u64 == 0) by (bit_vector);
    } else {
        let prev = words.drop_last();
        let m = prev.len();
        assert(m * wb <= words.len() * wb) by (nonlinear_arith)
            requires
                m < words.len(),
        ;
        assert(forall|i: int| 0 <= i < prev.len() ==> #[trigger] prev[i] == words[i]);
        lemma_packed_round_trip(prev, wb, len);
        lemma_put_word(packed(prev, wb, len), words.last(), m as int, wb);
        assert forall|i: int| 0 <= i < words.len() implies #[trigger] word_at(
            packed(words, wb, len),
            wb,
            i,
        ) == words[i] by {
            if i < m {
                assert(word_at(packed(prev, wb, len), wb, i) == prev[i]);
            }
        }
    }
}

/// A sequence of fixed-width words packed bit to bit, little-endian, into
/// 64-bit cells; a word may straddle two cells.
pub struct Bitmap {
    /// Width of each word, in bits.
    pub word_bits: u64,
    /// Number of words pushed so far.
    pub word_count: u64,
    /// The backing cells.
    pub bm: Vec<u64>,
}

/// One line per word among the first `m`: its index, zero-padded to 5
/// digits, and its bits, zero-padded to the word width.
pub open spec fn word_lines(b: Bitmap, m: int) -> Seq<char>
    decreases m,
{
    if m <= 0 {
        Seq::empty()
    } else {
        word_lines(b, m - 1) + zero_padded(decimal((m - 1) as nat), 5) + ": "@ + zero_padded(
            binary(b@[m - 1] as nat),
            b.word_bits as nat,
        ) + "\n"@
    }
}

/// The text of a bitmap: its width and count, then one line per word.
pub open spec fn bitmap_text(b: Bitmap) -> Seq<char> {
    "word_bits: "@ + decimal(b.word_bits as nat) + ", word_count: "@ + decimal(
        b.word_count as nat,
    ) + "\n"@ + word_lines(b, b.word_count as int)
}

/// A bitmap shown word by word.
pub struct DisplayBitmap<'a> {
    pub bm: &'a Bitmap,
}

impl<'a> DisplayBitmap<'a> {
    /// The bitmap's width and count, then each word in binary.
    pub fn to_string(&self) -> (r: String)
        requires
            self.bm.wf(),
        ensures
            r@ == bitmap_text(*self.bm),
    {
        let bm = self.bm;
        let mut out = String::new();
        push_text(&mut out, "word_bits: ");
        push_number(&mut out, bm.word_bits);
        push_text(&mut out, ", word_count: ");
        push_number(&mut out, bm.word_count);
        push_text(&mut out, "\n");
        let ghost head = out@;
        let mut i: u64 = 0;
        while i < bm.word_count
            invariant
                bm.wf(),
                i <= bm.word_count,
                out@ == head + word_lines(*bm, i as int),
            decreases bm.word_count - i,
        {
            proof {
                assert((i + 1) * bm.word_bits <= bm.word_count * bm.word_bits) by (nonlinear_arith)
                    requires
                        i < bm.word_count,
                ;
            }
            let w = bm.get_word(i);
            push_decimal_padded(&mut out, i, 5);
            push_text(&mut out, ": ");
            push_binary_padded(&mut out, w, bm.word_bits);
            push_text(&mut out, "\n");
            assert(out@ =~= head + word_lines(*bm, i + 1));
            i += 1;
        }
        out
    }
}

impl View for Bitmap {
    type V = Seq<u64>;

    /// The words pushed so far, in order.
    open spec fn view(&self) -> Seq<u64> {
        Seq::new(self.word_count as nat, |i: int| word_at(self.bm@, self.word_bits, i))
    }
}

impl Bitmap {
    /// Room for the pushed words, and every bit past them clear.
    pub open spec fn wf(&self) -> bool {
        &&& self.word_bits <= 64
        &&& (self.word_bits == 0 ==> self.word_count == 0)
        &&& self.bm.len() * 64 <= u64::MAX
        &&& self.word_count * self.word_bits <= self.bm.len() * 64
        &&& zero_from(self.bm@, self.word_count * self.word_bits)
        &&& self.bm@ == packed(self@, self.word_bits, self.bm@.len())
    }

    /// Creates an empty bitmap with at least `n` bits of room.
    pub fn new(n: u64, word_bits: u64) -> (r: Self)
        requires
            word_bits <= 64,
            n + 63 <= u64::MAX,
            (n + 63) / 64 <= usize::MAX,
        ensures
            r.wf(),
            r@ == Seq::<u64>::empty(),
            r.word_bits == word_bits,
            r.word_count == 0,
            r.bm@ == Seq::new(((n + 63) / 64) as nat, |i: int| 0u64),
    {
        let m = next_multiple_of(n, 64);
        assert(m / 64 == (n + 63) / 64) by (nonlinear_arith)
            requires
                m == ((n + 63) / 64) * 64,
        ;
        let cells = (m / 64) as usize;
        let bm: Vec<u64> = vec![0; cells];
        let r = Bitmap { word_bits, word_count: 0, bm };
        assert(r.bm@ =~= Seq::new(((n + 63) / 64) as nat, |i: int| 0u64));
        assert(r@ =~= Seq::<u64>::empty());
        assert(r.bm@ == packed(r@, word_bits, r.bm@.len()));
        assert(0u64 >> 0u64 == 0) by (bit_vector);
        assert(r.bm.len() * 64 <= n + 63);
        r
    }

    /// The bitmap, for showing word by word.
    pub fn words(&self) -> (r: DisplayBitmap<'_>)
        ensures
            r.bm == self,
    {
        DisplayBitmap { bm: self }
    }

    /// Sets bit `i` of the cells.
    pub fn set(&mut self, i: u64)
        requires
            i / 64 < old(self).bm.len(),
        ensures
            final(self).word_bits == old(self).word_bits,
            final(self).word_count == old(self).word_count,
            final(self).bm@ == old(self).bm@.update(
                (i / 64) as int,
                old(self).bm@[(i / 64) as int] | (1u64 << ((i % 64) as u64)),
            ),
    {
        proof {
            lemma_cell_of(i);
        }
        let word_index = (i >> 6) as usize;
        let bit_index = i & 63;
        let v = self.bm[word_index] | (1u64 << bit_index);
        self.bm.set(word_index, v);
    }

    /// Appends `word`, aligned to the least significant bits.
    pub fn push_word(&mut self, word: u64)
        requires
            old(self).wf(),
            old(self).word_bits >= 1,
            word <= low_mask(old(self).word_bits),
            (old(self).word_count + 1) * old(self).word_bits <= old(self).bm.len() * 64,
        ensures
            final(self).wf(),
            final(self)@ == old(self)@.push(word),
            final(self).word_bits == old(self).word_bits,
            final(self).bm.len() == old(self).bm.len(),
    {
        let ghost old_cells = self.bm@;
        let wb = self.word_bits;
        let count = self.word_count;
        proof {
            assert((count + 1) * wb == count * wb + wb) by (nonlinear_arith);
            assert(count + 1 <= (count + 1) * wb) by (nonlinear_arith)
                requires
                    wb >= 1,
            ;
        }
        let at = count * wb;
        proof {
            lemma_cell_of(at);
        }
        let word_index = (at >> 6) as usize;
        let bit_index = at & 63;
        let ghost c = word_index as int;
        let ghost s = bit_index;

        let v = self.bm[word_index] | (word << bit_index);
        self.bm.set(word_index, v);
        if bit_index + wb > 64 {
            let v2 = self.bm[word_index + 1] | (word >> (64 - bit_index));
            self.bm.set(word_index + 1, v2);
        }
        self.word_count = count + 1;

        proof {
            let cells = self.bm@;
            assert(old(self)@.push(word).drop_last() =~= old(self)@);
            assert(cells == put_word(old_cells, word, at as int, wb));
            lemma_put_word(old_cells, word, count as int, wb);
            assert forall|i: int| 0 <= i < count implies word_at(cells, wb, i) == word_at(
                old_cells,
                wb,
                i,
            ) by {}
            assert(self@ =~= old(self)@.push(word));
            assert(cells == packed(self@, wb, cells.len()));
            let pos2 = count * wb + wb;
            assert(self.word_count * wb == pos2) by (nonlinear_arith)
                requires
                    self.word_count == count + 1,
                    pos2 == count * wb + wb,
            ;
        }
    }

    /// Returns word `i`, aligned to the least significant bits; zero past
    /// the pushed words.
    pub fn get_word(&self, i: u64) -> (r: u64)
        requires
            self.wf(),
            self.word_bits >= 1,
            (i + 1) * self.word_bits <= self.bm.len() * 64,
        ensures
            r == word_at(self.bm@, self.word_bits, i as int),
            i < self.word_count ==> r == self@[i as int],
            i >= self.word_count ==> r == 0,
    {
        let wb = self.word_bits;
        proof {
            assert((i + 1) * wb == i * wb + wb) by (nonlinear_arith);
        }
        let at = i * wb;
        proof {
            lemma_cell_of(at);
        }
        let word_index = (at >> 6) as usize;
        let bit_index = at & 63;
        let r = if bit_index + wb > 64 {
            let v = self.bm[word_index] >> bit_index;
            let left = bit_index + wb - 64;
            let v2 = self.bm[word_index + 1] & (u64::MAX >> (64 - left));
            v | v2 << (64 - bit_index)
        } else {
            (self.bm[word_index] >> bit_index) & (u64::MAX >> (64 - wb))
        };
        proof {
            let cells = self.bm@;
            let c = word_index as int;
            if i >= self.word_count {
                let pos = self.word_count * wb;
                assert(pos <= at) by (nonlinear_arith)
                    requires
                        i >= self.word_count,
                        pos == self.word_count * wb,
                        at == i * wb,
                ;
                if c == pos / 64 {
                    lemma_read_clear(cells[c], cells[c + 1], (pos % 64) as u64, bit_index, wb);
                } else {
                    assert(cells[c] == 0);
                    assert(0u64 >> 0u64 == 0) by (bit_vector);
                    lemma_read_clear(cells[c], cells[c + 1], 0, bit_index, wb);
                }
            }
        }
        r
    }

    /// Binary search over `[from, to)` for the first word not below `word`.
    fn search(&self, word: u64, from: u64, to: u64) -> (r: u64)
        requires
            self.wf(),
            from <= to <= self.word_count,
        ensures
            from <= r <= to,
            r == from || self@[r - 1] < word,
            r == to || self@[r as int] >= word,
            sorted_between(self@, from as int, to as int) ==> forall|j: int|
                from <= j < r ==> #[trigger] self@[j] < word,
    {
        let mut lo = from;
        let mut hi = to;
        while lo < hi
            invariant
                self.wf(),
                from <= lo <= hi <= to <= self.word_count,
                lo == from || self@[lo - 1] < word,
                hi == to || self@[hi as int] >= word,
                sorted_between(self@, from as int, to as int) ==> forall|j: int|
                    from <= j < lo ==> #[trigger] self@[j] < word,
            decreases hi - lo,
        {
            let mid = lo + (hi - lo) / 2;
            proof {
                assert((mid + 1) * self.word_bits <= self.word_count * self.word_bits)
                    by (nonlinear_arith)
                    requires
                        mid < self.word_count,
                ;
            }
            let w = self.get_word(mid);
            if word > w {
                lo = mid + 1;
            } else {
                hi = mid;
            }
        }
        lo
    }

    /// The first index whose word is not below `word`, or the word count if
    /// there is none; on non-decreasing words this is the lower bound.
    pub fn find(&self, word: u64) -> (r: u64)
        requires
            self.wf(),
        ensures
            r <= self.word_count,
            r == 0 || self@[r - 1] < word,
            r == self.word_count || self@[r as int] >= word,
            sorted_between(self@, 0, self@.len() as int) ==> forall|j: int|
                0 <= j < r ==> #[trigger] self@[j] < word,
    {
        self.search(word, 0, self.word_count)
    }

    /// As `find`, on the index range `[from, to)`: `to` when every word of
    /// the range is below `word`.
    pub fn find_range(&self, word: u64, from: u64, to: u64) -> (r: u64)
        requires
            self.wf(),
            0 <= from <= to <= self.word_count,
        ensures
            from <= r <= to,
            r == from || self@[r - 1] < word,
            r == to || self@[r as int] >= word,
            sorted_between(self@, from as int, to as int) ==> forall|j: int|
                from <= j < r ==> #[trigger] self@[j] < word,
    {
        self.search(word, from, to)
    }
}

} // verus!
