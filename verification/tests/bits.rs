use elias_fano::bits::Bits;
use elias_fano::errors::ErrorKind;

#[test]
fn can_append_bits_on_first_64_bits() {
    assert_eq!(Bits::new().append_from(7, 3), Bits::new().append_ones(3));
}

#[test]
fn can_append_bits_on_more_than_64_bits() {
    let mut a = Bits::new();
    a.append_from(u64::MAX, 64).append_from(u64::MAX, 64);
    let mut b = Bits::new();
    b.append_ones(128);
    assert_eq!(a, b);
}

#[test]
fn can_append_bits_overlapping_boundaries() {
    let mut a = Bits::new();
    a.append_from((u64::MAX << 24) >> 24, 40)
        .append_from(0, 40)
        .append_from((u64::MAX << 44) >> 44, 20);
    let mut b = Bits::new();
    b.append_ones(40).append_zeros(40).append_ones(20);
    assert_eq!(a, b);
}

#[test]
fn can_append_from_with_a_variety_of_bits() {
    assert_eq!(
        Bits::new().append_zeros(1).append_ones(1),
        Bits::new().append_from(2, 2)
    )
}

#[test]
fn can_append_from_with_a_variety_of_bits_across_boundaries() {
    assert_eq!(
        Bits::new().append_zeros(64).append_ones(1),
        Bits::new().append_zeros(63).append_from(2, 2)
    )
}

#[test]
fn select_0_in_first_u64() {
    assert_eq!(
        Bits::new().append_ones(32).append_zeros(4).select_0(3),
        Some(35)
    )
}

#[test]
fn select_0_in_second_u64() {
    assert_eq!(
        Bits::new().append_ones(80).append_zeros(4).select_0(3),
        Some(83)
    )
}

#[test]
fn select_1_in_first_u64() {
    assert_eq!(
        Bits::new().append_zeros(32).append_ones(4).select_1(3),
        Some(35)
    )
}

#[test]
fn select_1_in_second_u64() {
    assert_eq!(
        Bits::new().append_zeros(80).append_ones(4).select_1(3),
        Some(83)
    )
}

#[test]
fn select_1_real_example() {
    let mut bits = Bits::new();
    let bits = bits.append_ones(2).append_zeros(1).append_ones(2);
    assert_eq!(bits.select_1(1), Some(1));
    assert_eq!(bits.select_1(2), Some(3));
}

#[test]
fn slice_in_first_u64() {
    assert_eq!(
        Bits::new().append_zeros(4).append_ones(4).slice(2, 6),
        Some(12)
    )
}

#[test]
fn bits_serialize_and_deserialize() {
    let mut bits = Bits::new();
    bits.append_zeros(4).append_ones(4);
    let data = bits.as_bytes();
    let bits = Bits::from_bytes(data.as_slice()).expect("bits");
    assert_eq!(bits.slice(2, 6), Some(12))
}

#[test]
fn new_vector_is_one_zero_word() {
    assert_eq!(Bits::new().as_bytes(), vec![0u8; 8]);
}

#[test]
fn append_from_stores_least_significant_bit_first() {
    let mut bits = Bits::new();
    bits.append_from(0b0110_1001, 8);
    assert_eq!(bits.as_bytes(), vec![0b0110_1001u8, 0, 0, 0, 0, 0, 0, 0]);
    assert_eq!(bits.select_1(0), Some(0));
    assert_eq!(bits.select_1(1), Some(3));
    assert_eq!(bits.select_1(2), Some(5));
    assert_eq!(bits.select_1(3), Some(6));
    assert_eq!(bits.select_1(4), None);
}

#[test]
fn append_from_keeps_only_the_asked_bits() {
    let mut a = Bits::new();
    a.append_from(u64::MAX, 5).append_from(0, 3);
    let mut b = Bits::new();
    b.append_from(0b1_1111, 8);
    assert_eq!(a, b);
    let mut c = Bits::new();
    c.append_from(u64::MAX, 0);
    assert_eq!(c, Bits::new());
}

#[test]
fn append_from_round_trips_through_slice_across_a_boundary() {
    let value: u64 = 0xdead_beef_cafe_f00d;
    let mut bits = Bits::new();
    bits.append_ones(37).append_from(value, 64).append_from(0x2a, 7);
    assert_eq!(bits.slice(37, 101), Some(value));
    assert_eq!(bits.slice(101, 108), Some(0x2a));
    assert_eq!(bits.slice(37, 53), Some(value & 0xffff));
    assert_eq!(bits.slice(60, 68), Some((value >> 23) & 0xff));
    assert_eq!(bits.slice(5, 5), Some(0));
}

fn ones_by_fields(k: usize) -> Bits<Vec<u64>> {
    let mut bits = Bits::new();
    let mut left = k;
    while left > 0 {
        let chunk = if left < 64 { left } else { 64 };
        bits.append_from(u64::MAX, chunk);
        left -= chunk;
    }
    bits
}

#[test]
fn append_ones_matches_all_ones_fields() {
    for k in [1usize, 3, 63, 64, 65, 128] {
        let mut a = Bits::new();
        a.append_ones(k);
        assert_eq!(a, ones_by_fields(k));
        assert_eq!(a.select_1(k - 1), Some(k - 1));
        assert_eq!(a.select_1(k), None);
    }
}

#[test]
fn append_ones_fills_words_and_opens_a_new_one() {
    let mut bits = Bits::new();
    bits.append_ones(64);
    let mut expected = vec![0xffu8; 8];
    expected.extend_from_slice(&[0u8; 8]);
    assert_eq!(bits.as_bytes(), expected);
    bits.append_ones(3);
    assert_eq!(bits.as_bytes()[8], 0b111);
}

#[test]
fn append_zeros_only_moves_the_cursor() {
    let mut bits = Bits::new();
    bits.append_zeros(130).append_ones(1);
    let bytes = bits.as_bytes();
    assert_eq!(bytes.len(), 24);
    assert_eq!(bytes[16], 0b100);
    assert!(bytes.iter().enumerate().all(|(i, b)| i == 16 || *b == 0));
}

#[test]
fn select_finds_bits_at_word_boundaries() {
    let mut bits = Bits::new();
    bits.append_zeros(63).append_ones(2).append_zeros(62).append_ones(2);
    assert_eq!(bits.select_1(0), Some(63));
    assert_eq!(bits.select_1(1), Some(64));
    assert_eq!(bits.select_1(2), Some(127));
    assert_eq!(bits.select_1(3), Some(128));
    assert_eq!(bits.select_1(4), None);

    let mut bits = Bits::new();
    bits.append_ones(63).append_zeros(2).append_ones(62).append_zeros(1);
    assert_eq!(bits.select_0(0), Some(63));
    assert_eq!(bits.select_0(1), Some(64));
    assert_eq!(bits.select_0(2), Some(127));
}

#[test]
fn select_skips_whole_words_by_their_population() {
    let mut bits = Bits::new();
    bits.append_from(0b1011, 64).append_from(0, 64).append_from(1 << 63, 64).append_from(0b110, 64);
    assert_eq!(bits.select_1(2), Some(3));
    assert_eq!(bits.select_1(3), Some(191));
    assert_eq!(bits.select_1(4), Some(193));
    assert_eq!(bits.select_1(5), Some(194));
    assert_eq!(bits.select_1(6), None);
    assert_eq!(bits.select_0(0), Some(2));
    assert_eq!(bits.select_0(61), Some(64));
}

#[test]
fn select_0_counts_the_unused_rest_of_the_last_word() {
    let mut bits = Bits::new();
    bits.append_ones(4);
    assert_eq!(bits.select_0(0), Some(4));
    assert_eq!(bits.select_0(59), Some(63));
    assert_eq!(bits.select_0(60), None);
}

#[test]
fn slice_is_absent_beyond_the_stored_words() {
    let mut bits = Bits::new();
    bits.append_ones(10);
    assert_eq!(bits.slice(0, 10), Some(0x3ff));
    assert_eq!(bits.slice(60, 70), Some(0));
    assert_eq!(bits.slice(64, 70), None);
    assert_eq!(bits.slice(640, 641), None);
}

#[test]
fn as_bytes_writes_words_least_significant_byte_first() {
    let mut bits = Bits::new();
    bits.append_from(0x0102_0304_0506_0708, 64);
    assert_eq!(
        bits.as_bytes(),
        vec![8, 7, 6, 5, 4, 3, 2, 1, 0, 0, 0, 0, 0, 0, 0, 0]
    );
}

#[test]
fn from_bytes_reads_the_buffer_in_place() {
    let data: Vec<u8> = vec![0x0f, 0, 0, 0, 0, 0, 0, 0x80, 1, 0, 0, 0, 0, 0, 0, 0];
    let bits = Bits::from_bytes(data.as_slice()).expect("whole words");
    assert_eq!(bits.select_1(3), Some(3));
    assert_eq!(bits.select_1(4), Some(63));
    assert_eq!(bits.select_1(5), Some(64));
    assert_eq!(bits.select_1(6), None);
    assert_eq!(bits.slice(60, 68), Some(0b0001_1000));
    assert_eq!(bits.as_bytes(), data);
}

#[test]
fn from_bytes_refuses_a_buffer_of_length_7() {
    let data = [0u8; 7];
    let err = Bits::from_bytes(&data[..]).expect_err("seven bytes are no word");
    assert_eq!(err.kind(), ErrorKind::InvalidSourceData(7));
}

#[test]
fn from_bytes_accepts_an_empty_buffer() {
    let data: [u8; 0] = [];
    let bits = Bits::from_bytes(&data[..]).expect("no words");
    assert_eq!(bits.select_0(0), None);
    assert_eq!(bits.slice(0, 1), None);
    assert_eq!(bits.as_bytes(), Vec::<u8>::new());
}
