use bloomfilter::Bloom;

fn counting_seed() -> [u8; 32] {
    let mut seed = [0u8; 32];
    for (i, byte) in seed.iter_mut().enumerate() {
        *byte = i as u8;
    }
    seed
}

fn filter_header(len_bytes: u64, k_num: u32, seed: &[u8; 32]) -> Vec<u8> {
    let mut bytes = vec![1u8];
    bytes.extend_from_slice(&len_bytes.to_le_bytes());
    bytes.extend_from_slice(&k_num.to_le_bytes());
    bytes.extend_from_slice(seed);
    bytes
}

#[test]
fn optimal_k_num_rounds_to_the_nearest() {
    assert_eq!(Bloom::optimal_k_num(80, 80), 1);
    assert_eq!(Bloom::optimal_k_num(160, 80), 1);
    assert_eq!(Bloom::optimal_k_num(168, 80), 1);
    assert_eq!(Bloom::optimal_k_num(176, 80), 2);
    assert_eq!(Bloom::optimal_k_num(240, 80), 2);
    assert_eq!(Bloom::optimal_k_num(800, 80), 7);
    assert_eq!(Bloom::optimal_k_num(9592, 1000), 7);
    assert_eq!(Bloom::optimal_k_num(16, 4), 3);
}

#[test]
fn optimal_k_num_is_at_least_one() {
    assert_eq!(Bloom::optimal_k_num(8, 1000), 1);
    assert_eq!(Bloom::optimal_k_num(0, 1), 1);
    assert_eq!(Bloom::optimal_k_num(8, usize::MAX), 1);
}

#[test]
fn optimal_k_num_is_at_most_u32_max() {
    assert_eq!(Bloom::optimal_k_num(u64::MAX - 7, 1), u32::MAX);
    assert_eq!(Bloom::optimal_k_num(u64::MAX, 1), u32::MAX);
}

#[test]
fn optimal_k_num_agrees_with_the_formula_in_floating_point() {
    for size in 1..200usize {
        for items in 1..200usize {
            let bits = 8 * size as u64;
            let expected = ((bits as f64) / (items as f64) * f64::ln(2.0)).round() as u32;
            assert_eq!(Bloom::optimal_k_num(bits, items), expected.max(1), "{} {}", bits, items);
        }
    }
}

#[test]
fn the_first_two_rounds_are_the_digests() {
    assert_eq!(Bloom::bloom_hash(&[10, 20], 0), 10);
    assert_eq!(Bloom::bloom_hash(&[10, 20], 1), 20);
    assert_eq!(Bloom::bloom_hash(&[u64::MAX, u64::MAX - 1], 0), u64::MAX);
    assert_eq!(Bloom::bloom_hash(&[u64::MAX, u64::MAX - 1], 1), u64::MAX - 1);
}

#[test]
fn later_rounds_are_derived() {
    assert_eq!(Bloom::bloom_hash(&[10, 20], 2), 50);
    assert_eq!(Bloom::bloom_hash(&[10, 20], 3), 70);
    assert_eq!(Bloom::bloom_hash(&[3, 9], 2), 21);
}

#[test]
fn derived_rounds_wrap_at_64_bits() {
    assert_eq!(Bloom::bloom_hash(&[u64::MAX, 1], 2), 1);
    assert_eq!(Bloom::bloom_hash(&[0, 0x8000_0000_0000_0000], 2), 0);
    assert_eq!(Bloom::bloom_hash(&[5, 0x8000_0000_0000_0001], 3), 0x8000_0000_0000_0008);
}

#[test]
fn derived_rounds_are_reduced_modulo_the_largest_prime() {
    assert_eq!(Bloom::bloom_hash(&[0xFFFF_FFFF_FFFF_FFC5, 0], 2), 0);
    assert_eq!(Bloom::bloom_hash(&[0xFFFF_FFFF_FFFF_FFC6, 0], 5), 1);
    assert_eq!(Bloom::bloom_hash(&[0xFFFF_FFFF_FFFF_FFC4, 0], 2), 0xFFFF_FFFF_FFFF_FFC4);
    assert_eq!(Bloom::bloom_hash(&[u64::MAX, 0], 2), 58);
}

#[test]
fn a_new_filter_is_laid_out_as_documented() {
    let seed = counting_seed();
    let filter = Bloom::new_with_seed(10, 80, &seed).unwrap();
    let mut expected = filter_header(10, 1, &seed);
    expected.extend_from_slice(&[0u8; 10]);
    assert_eq!(filter.as_slice(), &expected[..]);
    assert_eq!(filter.to_bytes(), expected);
    assert_eq!(filter.len(), 80);
    assert_eq!(filter.number_of_hash_functions(), 1);
    assert_eq!(filter.seed(), seed);
    assert!(filter.is_empty());
    assert_eq!(filter.into_bytes(), expected);
}

#[test]
fn the_seed_is_the_one_that_was_given() {
    let mut seed = [0u8; 32];
    for (i, byte) in seed.iter_mut().enumerate() {
        *byte = 255 - i as u8;
    }
    let filter = Bloom::new_with_seed(4, 2, &seed).unwrap();
    assert_eq!(filter.seed(), seed);
    assert_eq!(&filter.as_slice()[13..45], &seed[..]);
    let reloaded = Bloom::from_slice(filter.as_slice()).unwrap();
    assert_eq!(reloaded.seed(), seed);
}

#[test]
fn digests_are_siphash_1_3_under_the_two_halves_of_the_seed() {
    let mut seed = [0u8; 32];
    for i in 0..16 {
        seed[i] = i as u8;
        seed[16 + i] = i as u8;
    }
    let filter = Bloom::new_with_seed(10, 80, &seed).unwrap();
    assert_eq!(filter.hashes(&[]), [0xabac_0158_050f_c4dc, 0xabac_0158_050f_c4dc]);
    assert_eq!(filter.hashes(&[0]), [0xc9f4_9bf3_7d57_ca93, 0xc9f4_9bf3_7d57_ca93]);
    assert_eq!(filter.hashes(&[0, 1, 2]), [0x8bf8_0ab8_e7dd_f7fb, 0x8bf8_0ab8_e7dd_f7fb]);
    assert_eq!(
        filter.hashes(&[0, 1, 2, 3, 4, 5, 6, 7, 8]),
        [0x25a4_8eb3_6c06_3de4, 0x25a4_8eb3_6c06_3de4]
    );
}

#[test]
fn the_first_digest_takes_the_first_half_of_the_seed() {
    let mut seed = [0xEEu8; 32];
    for i in 0..16 {
        seed[i] = i as u8;
    }
    let filter = Bloom::new_with_seed(10, 80, &seed).unwrap();
    let hashes = filter.hashes(&[0]);
    assert_eq!(hashes[0], 0xc9f4_9bf3_7d57_ca93);
    assert_ne!(hashes[1], 0xc9f4_9bf3_7d57_ca93);

    let mut swapped = [0xEEu8; 32];
    for i in 0..16 {
        swapped[16 + i] = i as u8;
    }
    let filter = Bloom::new_with_seed(10, 80, &swapped).unwrap();
    let hashes = filter.hashes(&[0]);
    assert_ne!(hashes[0], 0xc9f4_9bf3_7d57_ca93);
    assert_eq!(hashes[1], 0xc9f4_9bf3_7d57_ca93);
}

#[test]
fn set_hashed_sets_the_bit_of_each_round() {
    let mut filter = Bloom::new_with_seed(2, 4, &counting_seed()).unwrap();
    assert_eq!(filter.number_of_hash_functions(), 3);
    filter.set_hashed(3, 9);
    assert_eq!(&filter.as_slice()[45..], &[0b0010_1000, 0b0000_0010]);
    assert_eq!(&filter.as_slice()[..45], &filter_header(2, 3, &counting_seed())[..]);
    filter.set_hashed(16, 31);
    assert_eq!(&filter.as_slice()[45..], &[0b0010_1001, 0b1100_0010]);
}

#[test]
fn check_hashed_asks_for_the_bit_of_each_round() {
    let mut filter = Bloom::new_with_seed(2, 4, &counting_seed()).unwrap();
    assert!(!filter.check_hashed(3, 9));
    filter.set_hashed(3, 9);
    assert!(filter.check_hashed(3, 9));
    assert!(filter.check_hashed(3 + 16, 9 + 32));
    assert!(filter.check_hashed(3, 25));
    assert!(!filter.check_hashed(4, 9));
    assert!(!filter.check_hashed(3, 10));
    assert!(!filter.check_hashed(9, 3));
}

#[test]
fn check_and_set_hashed_answers_for_the_state_before() {
    let mut filter = Bloom::new_with_seed(2, 4, &counting_seed()).unwrap();
    assert!(!filter.check_and_set_hashed(3, 9));
    assert_eq!(&filter.as_slice()[45..], &[0b0010_1000, 0b0000_0010]);
    assert!(filter.check_and_set_hashed(3, 9));
    assert_eq!(&filter.as_slice()[45..], &[0b0010_1000, 0b0000_0010]);
    assert!(!filter.check_and_set_hashed(3, 10));
    assert_eq!(&filter.as_slice()[45..], &[0b1010_1000, 0b0000_0110]);
}

#[test]
fn check_and_set_leaves_what_set_leaves() {
    let seed = counting_seed();
    let mut with_set = Bloom::new_with_seed(64, 100, &seed).unwrap();
    let mut with_check_and_set = Bloom::new_with_seed(64, 100, &seed).unwrap();
    for i in 0..200u32 {
        let item = (i % 150).to_le_bytes();
        let before = with_set.check(&item);
        with_set.set(&item);
        assert_eq!(with_check_and_set.check_and_set(&item), before);
        assert!(with_check_and_set.check(&item));
        assert_eq!(with_set.as_slice(), with_check_and_set.as_slice());
    }
}

#[test]
fn set_goes_through_the_digests() {
    let seed = counting_seed();
    let mut by_item = Bloom::new_with_seed(16, 20, &seed).unwrap();
    let mut by_digests = Bloom::new_with_seed(16, 20, &seed).unwrap();
    let hashes = by_digests.hashes(b"an item");
    by_item.set(b"an item");
    by_digests.set_hashed(hashes[0], hashes[1]);
    assert_eq!(by_item.as_slice(), by_digests.as_slice());
    assert!(!by_item.is_empty());
    assert_eq!(by_item.check(b"an item"), by_digests.check_hashed(hashes[0], hashes[1]));
}

#[test]
fn no_false_negatives() {
    let mut filter = Bloom::new_with_seed(32, 100, &counting_seed()).unwrap();
    for i in 0..500u64 {
        filter.set(&i.to_le_bytes());
        assert!(filter.check(&i.to_le_bytes()));
    }
    for i in 0..500u64 {
        assert!(filter.check(&i.to_le_bytes()));
    }
}

#[test]
fn round_trip() {
    let mut filter = Bloom::new_with_seed(128, 100, &counting_seed()).unwrap();
    for i in 0..100u64 {
        filter.set(&i.to_le_bytes());
    }
    let bytes = filter.to_bytes();
    let reloaded = Bloom::from_bytes(bytes.clone()).unwrap();
    assert_eq!(reloaded.as_slice(), filter.as_slice());
    assert_eq!(reloaded.to_bytes(), bytes);
    assert_eq!(reloaded.len(), filter.len());
    assert_eq!(reloaded.number_of_hash_functions(), filter.number_of_hash_functions());
    assert_eq!(reloaded.seed(), filter.seed());
    for i in 0..1000u64 {
        assert_eq!(reloaded.check(&i.to_le_bytes()), filter.check(&i.to_le_bytes()));
    }
    let copied = Bloom::from_slice(&bytes).unwrap();
    assert_eq!(copied.into_bytes(), bytes);
}

#[test]
fn a_reloaded_filter_goes_on_as_the_first() {
    let mut filter = Bloom::new_with_seed(128, 100, &counting_seed()).unwrap();
    filter.set(b"one");
    let mut reloaded = Bloom::from_slice(filter.as_slice()).unwrap();
    filter.set(b"two");
    reloaded.set(b"two");
    assert_eq!(reloaded.as_slice(), filter.as_slice());
}

#[test]
fn clear_and_fill_are_total() {
    let mut filter = Bloom::new_with_seed(16, 10, &counting_seed()).unwrap();
    let header = filter.as_slice()[..45].to_vec();
    for i in 0..10u64 {
        filter.set(&i.to_le_bytes());
    }
    assert!(!filter.is_empty());
    filter.clear();
    assert!(filter.is_empty());
    assert_eq!(&filter.as_slice()[45..], &[0u8; 16]);
    for i in 0..1000u64 {
        assert!(!filter.check(&i.to_le_bytes()));
    }
    filter.fill();
    assert!(!filter.is_empty());
    assert_eq!(&filter.as_slice()[45..], &[0xffu8; 16]);
    for i in 0..1000u64 {
        assert!(filter.check(&i.to_le_bytes()));
    }
    assert_eq!(&filter.as_slice()[..45], &header[..]);
    assert_eq!(filter.len(), 128);
}

#[test]
fn the_same_seed_gives_the_same_filter() {
    let seed = counting_seed();
    let mut first = Bloom::new_with_seed(100, 300, &seed).unwrap();
    let mut second = Bloom::new_with_seed(100, 300, &seed).unwrap();
    assert_eq!(first.as_slice(), second.as_slice());
    for i in 0..300u64 {
        let item = i.to_le_bytes();
        assert_eq!(first.hashes(&item), second.hashes(&item));
        let held = first.check(&item);
        first.set(&item);
        assert_eq!(second.check_and_set(&item), held);
        assert_eq!(first.as_slice(), second.as_slice());
    }
    assert_eq!(first.to_bytes(), second.to_bytes());
    first.clear();
    second.clear();
    assert_eq!(first.to_bytes(), second.to_bytes());
    first.fill();
    second.fill();
    assert_eq!(first.to_bytes(), second.to_bytes());
}

#[test]
fn another_seed_gives_other_digests() {
    let first = Bloom::new_with_seed(100, 300, &counting_seed()).unwrap();
    let second = Bloom::new_with_seed(100, 300, &[9u8; 32]).unwrap();
    assert_ne!(first.hashes(b"item"), second.hashes(b"item"));
}

#[test]
fn false_positive_rate() {
    let expected_items = 1000usize;
    let target = 0.01f64;
    let ln2 = std::f64::consts::LN_2;
    let size = ((expected_items as f64) * f64::ln(target) / (-8.0 * ln2 * ln2)).ceil() as usize;
    assert_eq!(size, 1199);
    let mut filter = Bloom::new_with_seed(size, expected_items, &counting_seed()).unwrap();
    assert_eq!(filter.number_of_hash_functions(), 7);
    assert_eq!(filter.len(), 9592);
    for i in 0..1000u64 {
        filter.set(&i.to_le_bytes());
    }
    for i in 0..1000u64 {
        assert!(filter.check(&i.to_le_bytes()));
    }
    let mut positives = 0u32;
    for i in 1000..11000u64 {
        if filter.check(&i.to_le_bytes()) {
            positives += 1;
        }
    }
    let rate = positives as f64 / 10000.0;
    assert!(rate <= 3.0 * target, "measured rate {}", rate);
}

#[test]
fn false_positive_rate_with_a_drawn_seed() {
    let mut filter = Bloom::new(1199, 1000).unwrap();
    for i in 0..1000u64 {
        filter.set(&i.to_le_bytes());
    }
    let mut positives = 0u32;
    for i in 1000..11000u64 {
        if filter.check(&i.to_le_bytes()) {
            positives += 1;
        }
    }
    assert!(positives <= 300, "{} false positives", positives);
}

#[test]
fn new_draws_a_seed() {
    let first = Bloom::new(10, 80).unwrap();
    let second = Bloom::new(10, 80).unwrap();
    assert_ne!(first.seed(), [0u8; 32]);
    assert_ne!(first.seed(), second.seed());
    assert_eq!(first.len(), 80);
    assert_eq!(first.number_of_hash_functions(), 1);
    assert!(first.is_empty());
    let mut expected = filter_header(10, 1, &first.seed());
    expected.extend_from_slice(&[0u8; 10]);
    assert_eq!(first.as_slice(), &expected[..]);
}

#[test]
fn garbage_is_refused() {
    let seed = counting_seed();
    assert_eq!(Bloom::from_bytes(Vec::new()).unwrap_err(), "Invalid size");
    assert_eq!(Bloom::from_bytes(vec![1u8; 44]).unwrap_err(), "Invalid size");
    assert_eq!(Bloom::from_slice(&filter_header(0, 1, &seed)[..44]).unwrap_err(), "Invalid size");

    let mut no_rounds = filter_header(2, 0, &seed);
    no_rounds.extend_from_slice(&[0, 0]);
    assert_eq!(Bloom::from_bytes(no_rounds.clone()).unwrap_err(), "Invalid number of keys");
    assert_eq!(Bloom::from_slice(&no_rounds).unwrap_err(), "Invalid number of keys");

    let mut too_long = filter_header(2, 1, &seed);
    too_long.extend_from_slice(&[0, 0, 0]);
    assert_eq!(Bloom::from_bytes(too_long.clone()).unwrap_err(), "Invalid size");
    assert_eq!(Bloom::from_slice(&too_long).unwrap_err(), "Invalid size");

    let mut too_short = filter_header(2, 1, &seed);
    too_short.push(0);
    assert_eq!(Bloom::from_bytes(too_short).unwrap_err(), "Invalid size");

    let mut other_version = filter_header(2, 1, &seed);
    other_version.extend_from_slice(&[0, 0]);
    other_version[0] = 0;
    assert_eq!(Bloom::from_bytes(other_version.clone()).unwrap_err(), "Version mismatch");
    assert_eq!(Bloom::from_slice(&other_version).unwrap_err(), "Version mismatch");

    let huge = filter_header(u64::MAX, 1, &seed);
    let narrow = (usize::MAX as u128) < (u64::MAX as u128);
    let expected = if narrow { "Too big" } else { "Invalid size" };
    assert_eq!(Bloom::from_bytes(huge).unwrap_err(), expected);
}

#[test]
fn a_well_formed_buffer_is_loaded() {
    let seed = counting_seed();
    let mut bytes = filter_header(2, 3, &seed);
    bytes.extend_from_slice(&[0b0010_1000, 0b0000_0010]);
    let filter = Bloom::from_bytes(bytes.clone()).unwrap();
    assert_eq!(filter.len(), 16);
    assert_eq!(filter.number_of_hash_functions(), 3);
    assert_eq!(filter.seed(), seed);
    assert!(filter.check_hashed(3, 9));
    assert!(!filter.check_hashed(4, 9));
    assert_eq!(filter.into_bytes(), bytes);
}

#[test]
fn a_header_alone_is_a_filter_of_no_bits() {
    let bytes = filter_header(0, 1, &counting_seed());
    let filter = Bloom::from_bytes(bytes.clone()).unwrap();
    assert_eq!(filter.len(), 0);
    assert!(filter.is_empty());
    assert_eq!(filter.to_bytes(), bytes);
}

#[test]
fn a_clone_is_a_filter_of_its_own() {
    let mut filter = Bloom::new_with_seed(8, 10, &counting_seed()).unwrap();
    filter.set(b"kept");
    let mut copy = filter.clone();
    assert_eq!(copy.as_slice(), filter.as_slice());
    copy.fill();
    assert!(copy.check(b"never set"));
    assert_ne!(copy.as_slice(), filter.as_slice());
    assert!(filter.check(b"kept"));
}

#[test]
fn realloc_keeps_the_filter() {
    let mut filter = Bloom::new_with_seed(8, 10, &counting_seed()).unwrap();
    filter.set(b"kept");
    let before = filter.to_bytes();
    let moved = filter.realloc_large_heap_allocated_objects(|buffer| buffer.to_vec());
    assert_eq!(moved.as_slice(), &before[..]);
    assert!(moved.check(b"kept"));
    assert_eq!(moved.number_of_hash_functions(), 4);
}
