use bloomfilter::{BitMap, BITMAP_HEADER_SIZE, VERSION};

fn bit_store_header(len_bytes: u64, k_num: u32) -> Vec<u8> {
    let mut bytes = vec![VERSION];
    bytes.extend_from_slice(&len_bytes.to_le_bytes());
    bytes.extend_from_slice(&k_num.to_le_bytes());
    bytes.extend_from_slice(&[7u8; 32]);
    bytes
}

#[test]
fn header_is_45_bytes_of_version_1() {
    assert_eq!(BITMAP_HEADER_SIZE, 45);
    assert_eq!(VERSION, 1);
}

#[test]
fn new_writes_version_and_length_and_zeros() {
    let map = BitMap::new(3);
    let mut expected = vec![0u8; 48];
    expected[0] = 1;
    expected[1] = 3;
    assert_eq!(map.as_slice(), &expected[..]);
    assert_eq!(map.header().len(), 45);
    assert_eq!(BitMap::get_k_num(map.header()), 0);
    assert_eq!(BitMap::get_seed(map.header()), [0u8; 32]);
    assert_eq!(map.len_bits(), 24);
    assert!(!map.any());
}

#[test]
fn new_writes_the_length_little_endian() {
    let map = BitMap::new(0x0102_03);
    assert_eq!(&map.as_slice()[1..9], &[0x03, 0x02, 0x01, 0, 0, 0, 0, 0]);
    assert_eq!(map.as_slice().len(), 45 + 0x0102_03);
}

#[test]
fn k_num_is_stored_little_endian_at_offset_9() {
    let mut map = BitMap::new(1);
    BitMap::set_k_num(map.header_mut(), 0x0A0B_0C0D);
    assert_eq!(&map.as_slice()[9..13], &[0x0D, 0x0C, 0x0B, 0x0A]);
    assert_eq!(BitMap::get_k_num(map.header()), 0x0A0B_0C0D);
    assert_eq!(map.as_slice()[0], 1);
    assert_eq!(&map.as_slice()[1..9], &[1, 0, 0, 0, 0, 0, 0, 0]);
    assert_eq!(&map.as_slice()[13..], &[0u8; 33][..]);
}

#[test]
fn seed_is_stored_at_offset_13() {
    let mut seed = [0u8; 32];
    for (i, byte) in seed.iter_mut().enumerate() {
        *byte = 100 + i as u8;
    }
    let mut map = BitMap::new(2);
    BitMap::set_seed(map.header_mut(), &seed);
    assert_eq!(&map.as_slice()[13..45], &seed[..]);
    assert_eq!(BitMap::get_seed(map.header()), seed);
    assert_eq!(&map.as_slice()[..13], &[1, 2, 0, 0, 0, 0, 0, 0, 0, 0, 0, 0, 0]);
    assert_eq!(&map.as_slice()[45..], &[0, 0]);
}

#[test]
fn header_accessors_work_on_a_bare_header() {
    let mut header = bit_store_header(0, 5);
    assert_eq!(BitMap::get_k_num(&header), 5);
    assert_eq!(BitMap::get_seed(&header), [7u8; 32]);
    BitMap::set_k_num(&mut header, 6);
    BitMap::set_seed(&mut header, &[9u8; 32]);
    assert_eq!(header, {
        let mut expected = bit_store_header(0, 6);
        expected[13..].copy_from_slice(&[9u8; 32]);
        expected
    });
}

#[test]
fn bits_are_least_significant_first() {
    let mut map = BitMap::new(2);
    map.set(0);
    assert_eq!(&map.as_slice()[45..], &[0b0000_0001, 0]);
    map.set(3);
    assert_eq!(&map.as_slice()[45..], &[0b0000_1001, 0]);
    map.set(7);
    assert_eq!(&map.as_slice()[45..], &[0b1000_1001, 0]);
    map.set(8);
    assert_eq!(&map.as_slice()[45..], &[0b1000_1001, 0b0000_0001]);
    map.set(15);
    assert_eq!(&map.as_slice()[45..], &[0b1000_1001, 0b1000_0001]);
    map.set(3);
    assert_eq!(&map.as_slice()[45..], &[0b1000_1001, 0b1000_0001]);
    for i in 0..16 {
        assert_eq!(map.get(i), [0, 3, 7, 8, 15].contains(&i), "bit {}", i);
    }
    assert_eq!(&map.as_slice()[..45], BitMap::new(2).header());
}

#[test]
fn clear_and_set_all_and_any() {
    let mut map = BitMap::new(3);
    assert!(!map.any());
    map.set(17);
    assert!(map.any());
    map.set_all();
    assert_eq!(&map.as_slice()[45..], &[0xff, 0xff, 0xff]);
    assert!(map.any());
    for i in 0..24 {
        assert!(map.get(i));
    }
    map.clear();
    assert_eq!(&map.as_slice()[45..], &[0, 0, 0]);
    assert!(!map.any());
    assert_eq!(&map.as_slice()[..45], BitMap::new(3).header());
}

#[test]
fn any_sees_a_bit_in_the_last_byte() {
    let mut map = BitMap::new(4);
    map.set(31);
    assert!(map.any());
}

#[test]
fn len_bits_is_eight_times_the_bytes() {
    assert_eq!(BitMap::new(1).len_bits(), 8);
    assert_eq!(BitMap::new(1000).len_bits(), 8000);
}

#[test]
fn from_bytes_takes_a_well_formed_buffer() {
    let mut bytes = bit_store_header(2, 3);
    bytes.extend_from_slice(&[0xAB, 0xCD]);
    let map = BitMap::from_bytes(bytes.clone()).unwrap();
    assert_eq!(map.as_slice(), &bytes[..]);
    assert_eq!(map.to_bytes(), bytes);
    assert_eq!(map.len_bits(), 16);
    assert!(map.get(0) && map.get(1) && !map.get(2));
    assert_eq!(map.clone().into_bytes(), bytes);
    let copied = BitMap::from_slice(&bytes).unwrap();
    assert_eq!(copied.into_bytes(), bytes);
}

#[test]
fn from_bytes_takes_a_header_alone() {
    let bytes = bit_store_header(0, 1);
    let map = BitMap::from_bytes(bytes.clone()).unwrap();
    assert_eq!(map.len_bits(), 0);
    assert!(!map.any());
    assert_eq!(map.into_bytes(), bytes);
}

#[test]
fn from_bytes_refuses_a_short_buffer() {
    assert_eq!(BitMap::from_bytes(Vec::new()).unwrap_err(), "Invalid size");
    assert_eq!(BitMap::from_bytes(bit_store_header(0, 1)[..44].to_vec()).unwrap_err(), "Invalid size");
    assert_eq!(BitMap::from_slice(&bit_store_header(0, 1)[..44]).unwrap_err(), "Invalid size");
}

#[test]
fn from_bytes_refuses_another_version() {
    let mut bytes = bit_store_header(0, 1);
    bytes[0] = 2;
    assert_eq!(BitMap::from_bytes(bytes.clone()).unwrap_err(), "Version mismatch");
    assert_eq!(BitMap::from_slice(&bytes).unwrap_err(), "Version mismatch");
    bytes[0] = 0;
    assert_eq!(BitMap::from_bytes(bytes).unwrap_err(), "Version mismatch");
}

#[test]
fn from_bytes_refuses_no_hash_rounds() {
    let mut bytes = bit_store_header(1, 0);
    bytes.push(0);
    assert_eq!(BitMap::from_bytes(bytes.clone()).unwrap_err(), "Invalid number of keys");
    assert_eq!(BitMap::from_slice(&bytes).unwrap_err(), "Invalid number of keys");
}

#[test]
fn from_bytes_refuses_a_wrong_length() {
    let mut long = bit_store_header(1, 1);
    long.extend_from_slice(&[0, 0]);
    assert_eq!(BitMap::from_bytes(long.clone()).unwrap_err(), "Invalid size");
    assert_eq!(BitMap::from_slice(&long).unwrap_err(), "Invalid size");
    let short = bit_store_header(1, 1);
    assert_eq!(BitMap::from_bytes(short).unwrap_err(), "Invalid size");
}

#[test]
fn from_bytes_refuses_a_length_beyond_the_machine() {
    let huge = bit_store_header(u64::MAX, 1);
    let narrow = (usize::MAX as u128) < (u64::MAX as u128);
    let expected = if narrow { "Too big" } else { "Invalid size" };
    assert_eq!(BitMap::from_bytes(huge.clone()).unwrap_err(), expected);
    assert_eq!(BitMap::from_slice(&huge).unwrap_err(), expected);
}

#[test]
fn the_checks_come_in_order() {
    let mut bytes = bit_store_header(9, 0);
    bytes[0] = 3;
    assert_eq!(BitMap::from_bytes(bytes.clone()).unwrap_err(), "Version mismatch");
    bytes[0] = 1;
    assert_eq!(BitMap::from_bytes(bytes).unwrap_err(), "Invalid number of keys");
}

#[test]
fn a_new_bit_store_cannot_be_loaded_before_it_has_hash_rounds() {
    let map = BitMap::new(4);
    assert_eq!(BitMap::from_slice(map.as_slice()).unwrap_err(), "Invalid number of keys");
}

#[test]
fn realloc_keeps_the_bytes() {
    let mut map = BitMap::new(4);
    map.set(9);
    let before = map.to_bytes();
    let moved = map.realloc_large_heap_allocated_objects(|buffer| {
        let mut copy = Vec::with_capacity(buffer.len());
        copy.extend_from_slice(&buffer);
        copy
    });
    assert_eq!(moved.into_bytes(), before);
}
