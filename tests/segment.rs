use slimfilter::Segment;

#[test]
fn segment_test_new() {
    let word_bits = 6;
    let shift = 64 - word_bits;
    let seg = Segment::new(word_bits, &[
        0b00_0000 << shift,
        0b00_0001 << shift,
        0b00_0011 << shift,
        0b00_0100 << shift,
        0b00_0111 << shift,
        0b01_0111 << shift,
        0b01_1001 << shift,
    ]);

    assert_eq!(word_bits, seg.word_bits);
    assert_eq!(
        vec![
            0b00_0000 << shift,
            0b00_0001 << shift,
            0b00_0011 << shift,
            0b00_0100 << shift,
            0b00_0111 << shift,
            0b01_0111 << shift,
            0b01_1001 << shift,
            0b01_1001 << shift,
        ],
        seg.keys[0..8]
    );
    assert_eq!(0b01_1001 << shift, seg.keys[63]);
}

#[test]
fn test_common_prefix() {
    let word_bits = 6;
    let shift = 64 - word_bits;

    let seg = Segment::new(word_bits, &[0b00_0000 << shift]);
    assert_eq!((6, 0b00_0000 << shift), seg.common_prefix());

    let seg = Segment::new(word_bits, &[0b00_0000 << shift, 0b00_0001 << shift]);
    assert_eq!((5, 0b00_0000 << shift), seg.common_prefix());

    let seg = Segment::new(word_bits, &[0b00_1000 << shift, 0b00_1001 << shift]);
    assert_eq!((5, 0b00_1000 << shift), seg.common_prefix());

    let seg = Segment::new(word_bits, &[0b00_0000 << shift, 0b00_1001 << shift]);
    assert_eq!((2, 0b00_0000 << shift), seg.common_prefix());

    let seg = Segment::new(word_bits, &[
        0b00_0000 << shift,
        0b01_0111 << shift,
        0b01_1001 << shift,
    ]);
    assert_eq!((1, 0b00_0000 << shift), seg.common_prefix());

    let seg = Segment::new(word_bits, &[
        0b10_0000 << shift,
        0b11_0111 << shift,
        0b11_1001 << shift,
    ]);
    assert_eq!((1, 0b10_0000 << shift), seg.common_prefix());
}

#[test]
fn test_common_prefix_bits() {
    let word_bits = 6;
    let shift = 64 - word_bits;

    let seg = Segment::new(word_bits, &[0b00_0000 << shift]);
    assert_eq!(6, seg.common_prefix_bits());

    let seg = Segment::new(word_bits, &[0b00_0000 << shift, 0b00_0001 << shift]);
    assert_eq!(5, seg.common_prefix_bits());

    let seg = Segment::new(word_bits, &[0b00_1000 << shift, 0b00_1001 << shift]);
    assert_eq!(5, seg.common_prefix_bits());
    let seg = Segment::new(word_bits, &[0b00_0000 << shift, 0b00_1001 << shift]);
    assert_eq!(2, seg.common_prefix_bits());

    let seg = Segment::new(word_bits, &[
        0b00_0000 << shift,
        0b00_0001 << shift,
        0b00_0011 << shift,
        0b00_0100 << shift,
        0b00_0111 << shift,
        0b01_0111 << shift,
        0b01_1001 << shift,
    ]);

    assert_eq!(1, seg.common_prefix_bits());
}

#[test]
fn test_big_suffix_bits() {
    let word_bits = 6;
    let shift = 64 - word_bits;

    let seg = Segment::new(word_bits, &[0b00_0000 << shift]);
    assert_eq!(0, seg.big_suffix_bits());

    let seg = Segment::new(word_bits, &[0b00_0000 << shift, 0b00_0001 << shift]);
    assert_eq!(1, seg.big_suffix_bits());

    let seg = Segment::new(word_bits, &[0b00_1000 << shift, 0b00_1001 << shift]);
    assert_eq!(1, seg.big_suffix_bits());

    let seg = Segment::new(word_bits, &[0b00_0000 << shift, 0b00_1001 << shift]);
    assert_eq!(4, seg.big_suffix_bits());

    let seg = Segment::new(word_bits, &[
        0b00_0000 << shift,
        0b00_0001 << shift,
        0b00_0011 << shift,
        0b00_0100 << shift,
        0b00_0111 << shift,
        0b01_0111 << shift,
        0b01_1001 << shift,
    ]);
    assert_eq!(5, seg.big_suffix_bits());

    let seg = Segment::new(word_bits, &[
        0b00_0000 << shift,
        0b01_0111 << shift,
        0b10_1001 << shift,
    ]);

    assert_eq!(6, seg.big_suffix_bits());
}

#[test]
fn common_prefix_of_top_bit_split_is_empty() {
    let seg = Segment::new(8, &[0, 1 << 63]);
    assert_eq!((0, 0), seg.common_prefix());
    assert_eq!(8, seg.big_suffix_bits());
}

#[test]
fn suffix_bits_drops_six_index_bits() {
    let seg = Segment::new(10, &[0, 1 << 62]);
    assert_eq!(1, seg.common_prefix_bits());
    assert_eq!(3, seg.suffix_bits());
}
