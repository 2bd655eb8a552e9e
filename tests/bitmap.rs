use slimfilter::Bitmap;

#[test]
fn bitmap_test_new() {
    let bm = Bitmap::new(0, 3);
    assert_eq!(0, bm.bm.len());

    let bm = Bitmap::new(63, 3);
    assert_eq!(1, bm.bm.len());
    assert_eq!(0, bm.bm[0]);

    let bm = Bitmap::new(64, 3);
    assert_eq!(1, bm.bm.len());
    assert_eq!(0, bm.bm[0]);
    assert_eq!(3, bm.word_bits);
    assert_eq!(0, bm.word_count);

    let bm = Bitmap::new(65, 3);
    assert_eq!(2, bm.bm.len());
}

#[test]
fn test_set() {
    let mut bm = Bitmap::new(65, 3);
    bm.set(5);
    bm.set(7);
    bm.set(64);
    bm.set(65);

    assert_eq!(vec![0b10100000, 0b11], bm.bm);
}

#[test]
fn test_push_get_word() {
    {
        // word size =3
        let mut bm = Bitmap::new(64 * 3, 3);
        bm.push_word(0b101);
        bm.push_word(0b111);
        bm.push_word(0b001);

        assert_eq!(vec![0b001111101, 0b0, 0b0], bm.bm);
        assert_eq!(3, bm.word_count);
    }

    {
        // word size = 31
        let mut bm = Bitmap::new(64 * 3, 31);
        bm.push_word(0b101);
        bm.push_word(0b111);
        bm.push_word(0b111);

        assert_eq!(
            vec![
                (0b1100_0000_0000_0000_0000_0000_0000_0000 << 32)
                    + 0b0011_1000_0000_0000_0000_0000_0000_0000_0101,
                0b1,
                0b0
            ],
            bm.bm
        );
        assert_eq!(3, bm.word_count);

        assert_eq!(0b101, bm.get_word(0));
        assert_eq!(0b111, bm.get_word(1));
        assert_eq!(0b111, bm.get_word(2));
        assert_eq!(0b0, bm.get_word(3));
    }
}

#[test]
fn test_find_word() {
    let mut bm = Bitmap::new(64 * 3, 31);
    bm.push_word(0b0101);
    bm.push_word(0b0111);
    bm.push_word(0b1001);

    assert_eq!(0, bm.find(0b0000));
    assert_eq!(0, bm.find(0b0001));
    assert_eq!(0, bm.find(0b0101));

    assert_eq!(1, bm.find(0b0110));
    assert_eq!(1, bm.find(0b0111));

    assert_eq!(2, bm.find(0b1000));
    assert_eq!(2, bm.find(0b1001));

    assert_eq!(3, bm.find(0b1010));
}

#[test]
fn test_find_range() {
    let mut bm = Bitmap::new(64 * 3, 31);
    bm.push_word(0b0101);
    bm.push_word(0b0111);
    bm.push_word(0b1001);

    assert_eq!(0, bm.find_range(0b0001, 0, 1));
    assert_eq!(0, bm.find_range(0b0101, 0, 1));
    assert_eq!(1, bm.find_range(0b0101, 1, 3));

    assert_eq!(1, bm.find_range(0b0110, 0, 1));

    assert_eq!(1, bm.find_range(0b1000, 0, 1));
    assert_eq!(1, bm.find_range(0b1001, 0, 1));

    assert_eq!(2, bm.find_range(0b1010, 0, 2));
}

#[test]
fn round_trip_across_widths() {
    for word_bits in 1..=64u64 {
        let mask = u64::MAX >> (64 - word_bits);
        let words: Vec<u64> = (0..50u64)
            .map(|i| i.wrapping_mul(0x9e37_79b9_7f4a_7c15) & mask)
            .collect();
        let mut bm = Bitmap::new(word_bits * 50, word_bits);
        for w in words.iter() {
            bm.push_word(*w);
        }
        for (i, w) in words.iter().enumerate() {
            assert_eq!(*w, bm.get_word(i as u64), "word_bits {} index {}", word_bits, i);
        }
    }
}

#[test]
fn full_width_words() {
    let mut bm = Bitmap::new(64 * 2, 64);
    bm.push_word(u64::MAX);
    bm.push_word(0x1234_5678_9abc_def0);
    assert_eq!(u64::MAX, bm.get_word(0));
    assert_eq!(0x1234_5678_9abc_def0, bm.get_word(1));
}

#[test]
fn straddling_word_reads_back() {
    // 63-bit words: the second one starts at bit 63 and spans two cells.
    let mut bm = Bitmap::new(63 * 3, 63);
    bm.push_word(1);
    bm.push_word((1 << 62) | 1);
    bm.push_word(0x7fff_ffff_ffff_ffff);
    assert_eq!(1, bm.get_word(0));
    assert_eq!((1 << 62) | 1, bm.get_word(1));
    assert_eq!(0x7fff_ffff_ffff_ffff, bm.get_word(2));
    assert_eq!(vec![1 | (1 << 63), (1 << 61) | (0x7fff_ffff_ffff_ffff << 62), 0x1fff_ffff_ffff_ffff], bm.bm);
}

#[test]
fn find_monotone_on_sorted_words() {
    let words = [0u64, 2, 2, 5, 9, 9, 9, 14];
    let mut bm = Bitmap::new(4 * 8, 4);
    for w in words.iter() {
        bm.push_word(*w);
    }
    for t in 0..17u64 {
        let expected = words.iter().position(|w| *w >= t).unwrap_or(words.len()) as u64;
        assert_eq!(expected, bm.find(t), "target {}", t);
    }
}

#[test]
fn find_on_empty_bitmap() {
    let bm = Bitmap::new(64, 5);
    assert_eq!(0, bm.find(3));
}
