use std::collections::hash_map::DefaultHasher;
use std::collections::BTreeSet;
use std::hash::BuildHasher;
use std::hash::BuildHasherDefault;
use std::hash::Hash;
use std::hash::Hasher;

use slimfilter::BuildError;
use slimfilter::Builder;
use slimfilter::Filter;
use slimfilter::FilterBuilder;
use slimfilter::Key;

fn hash_of(x: &BuildHasherDefault<DefaultHasher>, i: u64) -> u64 {
    let mut hasher = x.build_hasher();
    i.hash(&mut hasher);
    hasher.finish()
}

#[test]
fn builder_test_new() {
    let b = Builder::new(5);
    assert_eq!(5, b.false_positive_pow);
}

#[test]
fn test_add_keys() {
    let mut b = Builder::new(5);
    assert_eq!(5, b.false_positive_pow);

    b.add_keys(&[1, 4, 5, 5, 2, 3]);
    assert_eq!(
        vec![1, 2, 3, 4, 5],
        b.keys.iter().copied().collect::<Vec<Key>>()
    );
}

#[test]
fn test_init_param() {
    let mut b = Builder::new(5);
    assert_eq!(5, b.false_positive_pow);

    b.add_keys(&[1, 4, 5, 6, 2, 6, 3]);
    let p = b.init_param();

    assert_eq!(6, p.cardinality);
    assert_eq!(3, p.cardinality_pow);
    assert_eq!(8, p.word_bits);
}

#[test]
fn test_build_segments_1() {
    let word_bits = 6;
    let shift = 64 - word_bits;

    let mut b = Builder::new(5);

    b.add_keys(&[
        0b00_0000 << shift,
        0b00_0001 << shift,
        0b00_0010 << shift,
        0b01_0100 << shift,
        0b01_1000 << shift,
    ]);
    b.init_param();

    let segs = b.build_segments();
    assert_eq!(1, segs.len());
    assert_eq!(0b00_0000 << shift, segs[0].keys[0]);
    assert_eq!(0b00_0001 << shift, segs[0].keys[1]);
    assert_eq!(0b01_1000 << shift, segs[0].keys[63]);
}

#[test]
fn test_build_segments_2() {
    let word_bits = 8;
    let shift = 64 - word_bits;

    let mut b = Builder::new(5);

    for i in 1..67 {
        b.add_keys(&[i << shift]);
    }
    b.init_param();

    let segs = b.build_segments();

    assert_eq!(2, segs.len());
    assert_eq!(0b0000_0001 << shift, segs[0].keys[0]);
    assert_eq!(0b0000_0010 << shift, segs[0].keys[1]);
    assert_eq!(0b0100_0000 << shift, segs[0].keys[63]);

    assert_eq!(0b0100_0001 << shift, segs[1].keys[0]);
    assert_eq!(0b0100_0010 << shift, segs[1].keys[63]);
}

#[test]
fn test_init_suffix_param() {
    let word_bits = 8;
    let shift = 64 - word_bits;

    let mut b = Builder::new(5);

    for i in 1..67 {
        b.add_keys(&[i << shift]);
    }
    let p = b.init_param();
    assert_eq!(12, p.word_bits);

    let segs = b.build_segments();

    b.init_suffix_param(&segs);
    assert_eq!(11, b.param.suffix_bits);
    assert_eq!(0b0111_1111_1111, b.param.suffix_mask);
}

#[test]
fn test_build_suffixes() {
    let word_bits = 8;
    let shift = 64 - word_bits;

    let mut b = Builder::new(5);
    // 123456789012
    //  ----------- suffix

    for i in 1..67 {
        b.add_keys(&[i << shift]);
    }
    let p = b.init_param();
    assert_eq!(12, p.word_bits);

    let segs = b.build_segments();
    b.init_suffix_param(&segs);
    assert_eq!(11, b.param.suffix_bits);

    let suffixes = b.build_suffixes(&segs);
    println!("suffixes: {}", suffixes.words().to_string());

    assert_eq!(0b000_0001_0000, suffixes.get_word(0));
    assert_eq!(0b100_0000_0000, suffixes.get_word(63));
    assert_eq!(0b100_0010_0000, suffixes.get_word(65));
}

// The partition key width is one more than the longest prefix that tells
// neighbouring boundary keys apart: the last key of the first segment
// (0b0100_0000) and the first of the second (0b0100_0001) share 7 bits, so
// the width is 7 + 1 + 1 = 9, and each partition key is the top 9 bits of
// its segment's last key.
#[test]
fn test_init_partition_param() {
    let word_bits = 8;
    let shift = 64 - word_bits;

    let mut b = Builder::new(5);

    for i in 1..67 {
        b.add_keys(&[i << shift]);
    }
    let p = b.init_param();
    assert_eq!(12, p.word_bits);

    let segs = b.build_segments();
    println!("segs[0]: suffix bits: {}", segs[0].big_suffix_bits());
    println!("segs[1]: suffix bits: {}", segs[1].big_suffix_bits());

    b.init_partition_param(&segs);
    assert_eq!(9, b.param.partition_key_bits);
}

#[test]
fn test_build_partition_keys() {
    let word_bits = 8;
    let shift = 64 - word_bits;

    let mut b = Builder::new(5);

    for i in 1..67 {
        b.add_keys(&[i << shift]);
    }
    let p = b.init_param();
    assert_eq!(12, p.word_bits);

    let segs = b.build_segments();
    println!("segs[0]: suffix bits: {}", segs[0].big_suffix_bits());
    println!("segs[1]: suffix bits: {}", segs[1].big_suffix_bits());

    b.init_partition_param(&segs);
    assert_eq!(9, b.param.partition_key_bits);

    let pks = b.build_partition_keys(&segs);
    assert_eq!(2, pks.word_count);

    // 01000000 0
    // 01000010 0
    assert_eq!(0b0100_0000_0, pks.get_word(0));
    assert_eq!(0b0100_0010_0, pks.get_word(1));
}

#[test]
fn test_filter() {
    let x = BuildHasherDefault::<DefaultHasher>::default();

    let n = 100;

    let ks: BTreeSet<u64> = (0..n).map(|i| hash_of(&x, i)).collect();

    let keys = ks.iter().copied().collect::<Vec<_>>();

    let mut b = Builder::new(8);

    b.add_keys(&keys);
    let f = b.build(8).unwrap();
    println!("filter: {}", f.display(true).to_string());

    println!(": {:b}", 13823855910875200017u64);
    f.contains(&13823855910875200017u64);

    for k in keys.iter() {
        assert!(f.contains(k), "{} is in filter", k);
    }

    let mut hit = 0;
    let mut miss = 0;
    let ratio = 100;
    for i in n..n * ratio {
        let hashed_key = hash_of(&x, i);

        if ks.contains(&hashed_key) {
            continue;
        }

        if f.contains(&hashed_key) {
            hit += 1;
        } else {
            miss += 1;
        }
    }
    println!("hit: {}, miss: {}, 1/fp: {}", hit, miss, miss / (hit + 1))
}

#[test]
fn five_small_keys_one_segment() {
    let mut b = Builder::new(5);
    b.add_keys(&[1, 2, 3, 4, 5]);
    let f = b.build(5).unwrap();
    assert_eq!(8, f.word_bits);
    assert_eq!(0, f.partition_key_bits);
    assert_eq!(0, f.partitions.word_count);
    assert_eq!(1, f.suffix_bits);
    assert_eq!(64, f.suffixes.word_count);
    for k in 1..=5u64 {
        assert!(f.contains(&k));
    }
}

#[test]
fn sixty_six_spread_keys_two_segments() {
    let mut b = Builder::new(5);
    for i in 1..67u64 {
        b.add_keys(&[i << 56]);
    }
    let f = b.build(5).unwrap();
    assert_eq!(12, f.word_bits);
    assert_eq!(11, f.suffix_bits);
    assert_eq!(9, f.partition_key_bits);
    assert_eq!(2, f.partitions.word_count);
    assert_eq!(128, f.suffixes.word_count);
    assert_eq!(0b0100_0000_0, f.partitions.get_word(0));
    assert_eq!(0b0100_0010_0, f.partitions.get_word(1));
    for i in 1..67u64 {
        assert!(f.contains(&(i << 56)));
    }
    assert!(!f.contains(&(67 << 56)));
    assert!(!f.contains(&(200 << 56)));
    assert!(!f.contains(&0));
}

#[test]
fn empty_builder_is_refused() {
    let b = Builder::new(8);
    assert_eq!(Some(BuildError::EmptyInput), b.build(8).err());
}

#[test]
fn too_wide_words_are_refused() {
    let mut b = Builder::new(0);
    b.add_keys(&[1, 2, 3]);
    // ceil(log2(3)) = 2, and 2 + 62 > 63
    assert_eq!(Some(BuildError::SuffixOverflow), b.build(62).err());

    let mut b = Builder::new(0);
    b.add_keys(&[1, 2, 3]);
    assert!(b.build(61).is_ok());
}

#[test]
fn single_key_with_zero_exponent() {
    let mut b = Builder::new(0);
    b.add_keys(&[42]);
    let f = b.build(0).unwrap();
    assert_eq!(0, f.word_bits);
    assert!(f.contains(&42));
    assert!(f.contains(&7));
}

#[test]
fn n_next_pow_is_least_power_of_two() {
    let mut b = Builder::new(3);
    b.add_keys(&[10, 20, 30, 40, 50]);
    assert_eq!(8, b.n_next_pow());
    let mut b = Builder::new(3);
    b.add_keys(&[10]);
    assert_eq!(1, b.n_next_pow());
    let mut b = Builder::new(3);
    b.add_keys(&[10, 20, 30, 40]);
    assert_eq!(4, b.n_next_pow());
}

#[test]
fn every_key_is_found_and_segments_ascend() {
    let x = BuildHasherDefault::<DefaultHasher>::default();
    let keys: Vec<u64> = (0..5000u64).map(|i| hash_of(&x, i)).collect();
    let mut b = Builder::new(10);
    b.add_keys(&keys);
    let f = b.build(10).unwrap();
    for k in keys.iter() {
        assert!(f.contains(k));
    }
    for i in 1..f.partitions.word_count {
        assert!(f.partitions.get_word(i - 1) < f.partitions.get_word(i));
    }
    let segs = f.suffixes.word_count / 64;
    for s in 0..segs {
        for j in 1..64 {
            assert!(f.suffixes.get_word(64 * s + j - 1) <= f.suffixes.get_word(64 * s + j));
        }
    }
}

#[test]
fn builds_are_deterministic() {
    let x = BuildHasherDefault::<DefaultHasher>::default();
    let keys: Vec<u64> = (0..3000u64).map(|i| hash_of(&x, i)).collect();
    let mut b1 = Builder::new(7);
    b1.add_keys(&keys);
    let mut reversed = keys.clone();
    reversed.reverse();
    let mut b2 = Builder::new(7);
    b2.add_keys(&reversed[..1500]);
    b2.add_keys(&reversed[1500..]);
    let f1 = b1.build(7).unwrap();
    let f2 = b2.build(7).unwrap();
    assert_eq!(f1.partitions.bm, f2.partitions.bm);
    assert_eq!(f1.suffixes.bm, f2.suffixes.bm);
    assert_eq!(f1.word_bits, f2.word_bits);
    assert_eq!(f1.partition_key_bits, f2.partition_key_bits);
    assert_eq!(f1.suffix_bits, f2.suffix_bits);
}

#[test]
fn false_positive_rate_is_near_target() {
    let x = BuildHasherDefault::<DefaultHasher>::default();
    let n = 1_000_000u64;
    let keys: Vec<u64> = (0..n).map(|i| hash_of(&x, i)).collect();
    let mut b = Builder::new(8);
    b.add_keys(&keys);
    let f = b.build(8).unwrap();
    let mut hit = 0u64;
    let mut total = 0u64;
    for i in n..n + 1_000_000 {
        let k = hash_of(&x, i);
        total += 1;
        if f.contains(&k) {
            hit += 1;
        }
    }
    let rate = hit as f64 / total as f64;
    let target = 1.0 / 256.0;
    assert!(rate >= 0.5 * target && rate <= 4.0 * target, "rate {}", rate);
}
