use elias_fano::elias_fano::EliasFano;
use elias_fano::errors::ErrorKind;

#[test]
fn ef_get() {
    let ef = EliasFano::new(vec![2, 3, 5, 7, 11, 13, 24]).expect("elias fano encoding");
    assert_eq!(ef.get(0), Some(2));
    assert_eq!(ef.get(1), Some(3));
    assert_eq!(ef.get(4), Some(11));
    assert_eq!(ef.get(6), Some(24));
}

#[test]
fn ef_next_geq() {
    let ef = EliasFano::new(vec![2, 3, 5, 7, 11, 13, 24]).expect("elias fano encoding");
    assert_eq!(ef.next_geq(1), Some(2));
    assert_eq!(ef.next_geq(3), Some(3));
    assert_eq!(ef.next_geq(4), Some(5));
    assert_eq!(ef.next_geq(14), Some(24));
}

#[test]
fn can_iterate() {
    let data = vec![2, 3, 5, 7, 11, 13, 24];
    let ef = EliasFano::new(data.clone()).expect("elias fano encoding");
    assert_eq!(ef.iter().collect::<Vec<_>>(), data);
}

#[test]
fn elias_fano_serialize_and_deserialize() {
    let data = vec![2, 3, 5, 7, 11, 13, 24];
    let ef = EliasFano::new(data.clone()).expect("elias fano encoding");
    let ef_serialized = ef.as_bytes();
    let ef = EliasFano::from_bytes(ef_serialized.as_slice()).expect("deserialized");
    assert_eq!(ef.iter().collect::<Vec<_>>(), data);
}

#[test]
fn get_is_absent_from_the_size_on() {
    let ef = EliasFano::new(vec![2, 3, 5, 7, 11, 13, 24]).expect("elias fano encoding");
    assert_eq!(ef.get(7), None);
    assert_eq!(ef.get(usize::MAX), None);
}

#[test]
fn next_geq_is_absent_beyond_the_largest_value() {
    let ef = EliasFano::new(vec![2, 3, 5, 7, 11, 13, 24]).expect("elias fano encoding");
    assert_eq!(ef.next_geq(24), Some(24));
    assert_eq!(ef.next_geq(25), None);
    assert_eq!(ef.next_geq(31), None);
    assert_eq!(ef.next_geq(32), None);
    assert_eq!(ef.next_geq(1000), None);
    assert_eq!(ef.next_geq(usize::MAX), None);
}

#[test]
fn next_geq_at_bucket_boundaries_and_inside_buckets() {
    let ef = EliasFano::new(vec![2, 3, 5, 7, 11, 13, 24]).expect("elias fano encoding");
    let expected = [
        2, 2, 2, 3, 5, 5, 7, 7, 11, 11, 11, 11, 13, 13, 24, 24, 24, 24, 24, 24, 24, 24, 24, 24, 24,
    ];
    for (value, successor) in expected.iter().enumerate() {
        assert_eq!(ef.next_geq(value), Some(*successor), "successor of {}", value);
    }
}

#[test]
fn build_refuses_empty_input() {
    let err = EliasFano::new(vec![]).expect_err("no values");
    assert_eq!(err.kind(), ErrorKind::NoIds);
}

#[test]
fn build_refuses_unsorted_input() {
    let err = EliasFano::new(vec![5, 3]).expect_err("descending");
    assert_eq!(err.kind(), ErrorKind::UnsortedIds);
}

#[test]
fn build_refuses_repeated_values() {
    let err = EliasFano::new(vec![1, 4, 4, 9]).expect_err("repeated");
    assert_eq!(err.kind(), ErrorKind::UnsortedIds);
}

#[test]
fn serialised_form_of_a_small_set() {
    // 7 values up to 24: two low bits per value, three bits of bucket.
    let ef = EliasFano::new(vec![2, 3, 5, 7, 11, 13, 24]).expect("elias fano encoding");
    let bytes = ef.as_bytes();
    assert_eq!(bytes.len(), 32 + 8 + 8);
    assert_eq!(&bytes[0..8], &[0, 0, 0, 0, 0, 0, 0, 7]);
    assert_eq!(&bytes[8..16], &[0, 0, 0, 0, 0, 0, 0, 3]);
    assert_eq!(&bytes[16..24], &[0, 0, 0, 0, 0, 0, 0, 2]);
    assert_eq!(&bytes[24..32], &[0, 0, 0, 0, 0, 0, 0, 8]);
    // buckets 0..8 hold 2, 2, 1, 1, 0, 0, 1, 0 values: 110 110 10 10 0 0 10 0
    assert_eq!(&bytes[32..40], &[0b0101_1011, 0b0001_0001, 0, 0, 0, 0, 0, 0]);
    // low parts 2, 3, 1, 3, 3, 1, 0, two bits each, first value lowest
    assert_eq!(&bytes[40..48], &[0b1101_1110, 0b0000_0111, 0, 0, 0, 0, 0, 0]);
}

#[test]
fn view_answers_like_the_owning_set() {
    let data: Vec<usize> = (0..300).map(|i| i * i + 3 * i + 1).collect();
    let ef = EliasFano::new(data.clone()).expect("elias fano encoding");
    let bytes = ef.as_bytes();
    let view = EliasFano::from_bytes(bytes.as_slice()).expect("deserialized");
    for i in 0..data.len() + 2 {
        assert_eq!(view.get(i), ef.get(i));
    }
    for value in [0usize, 1, 2, 5, 6, 1000, 89999, 90000, 90598, 90599, 90600] {
        assert_eq!(view.next_geq(value), ef.next_geq(value));
    }
    assert_eq!(view.as_bytes(), bytes);
    assert_eq!(view.iter().collect::<Vec<_>>(), data);
}

#[test]
fn from_bytes_refuses_short_buffers() {
    let err = EliasFano::from_bytes(&[0u8; 31][..]).expect_err("no header");
    assert_eq!(err.kind(), ErrorKind::InvalidSourceData(31));

    let mut data = vec![0u8; 40];
    data[31] = 16;
    let err = EliasFano::from_bytes(data.as_slice()).expect_err("upper vector cut short");
    assert_eq!(err.kind(), ErrorKind::InvalidSourceData(40));
}

#[test]
fn from_bytes_refuses_vectors_of_broken_words() {
    let mut data = vec![0u8; 48];
    data[31] = 5;
    let err = EliasFano::from_bytes(data.as_slice()).expect_err("upper vector of 5 bytes");
    assert_eq!(err.kind(), ErrorKind::InvalidSourceData(5));

    let mut data = vec![0u8; 43];
    data[31] = 8;
    let err = EliasFano::from_bytes(data.as_slice()).expect_err("lower vector of 3 bytes");
    assert_eq!(err.kind(), ErrorKind::InvalidSourceData(3));
}

#[test]
fn from_bytes_opens_an_empty_set() {
    let data = vec![0u8; 32];
    let ef = EliasFano::from_bytes(data.as_slice()).expect("header only");
    assert_eq!(ef.get(0), None);
    assert_eq!(ef.next_geq(0), None);
    assert_eq!(ef.iter().count(), 0);
    assert_eq!(ef.as_bytes(), data);
}

fn check_set(data: Vec<usize>) {
    let ef = EliasFano::new(data.clone()).expect("elias fano encoding");
    assert_eq!(ef.iter().collect::<Vec<_>>(), data);
    for (i, id) in data.iter().enumerate() {
        assert_eq!(ef.get(i), Some(*id));
        assert_eq!(ef.next_geq(*id), Some(*id));
        if i + 1 < data.len() && *id < usize::MAX {
            assert_eq!(ef.next_geq(*id + 1), Some(data[i + 1]));
        }
        if *id > 0 && (i == 0 || data[i - 1] < *id - 1) {
            assert_eq!(ef.next_geq(*id - 1), Some(*id));
        }
    }
    assert_eq!(ef.get(data.len()), None);
    assert_eq!(ef.next_geq(0), Some(data[0]));
    let last = data[data.len() - 1];
    if last < usize::MAX {
        assert_eq!(ef.next_geq(last + 1), None);
    }
    let bytes = ef.as_bytes();
    let view = EliasFano::from_bytes(bytes.as_slice()).expect("deserialized");
    assert_eq!(view.iter().collect::<Vec<_>>(), data);
}

#[test]
fn dense_run_needs_no_low_bits() {
    check_set((0..100).collect());
    check_set(vec![0]);
    check_set(vec![0, 1]);
}

#[test]
fn single_values() {
    check_set(vec![5]);
    check_set(vec![7]);
    check_set(vec![1000]);
    check_set(vec![usize::MAX]);
    check_set(vec![usize::MAX - 1]);
}

#[test]
fn clustered_values() {
    let data: Vec<usize> = (0..100)
        .chain(1000..1023)
        .chain(1060..1400)
        .chain(20000..20001)
        .collect();
    check_set(data);
}

#[test]
fn sparse_and_large_values() {
    check_set(vec![3, 1 << 20, (1 << 40) + 17, usize::MAX / 3, usize::MAX - 5]);
    check_set(vec![1, 2, 3, 9]);
    check_set((0..513).map(|i| i * 7919 + (i % 5)).collect());
    check_set((1..200).map(|i| i * i * i).collect());
}

#[test]
fn low_fields_that_straddle_words() {
    // 3 values up to 2^40: fields of 39 bits, the second one crosses a word.
    check_set(vec![(1 << 39) - 1, (1 << 39) + 12345, 1 << 40]);
    check_set(vec![0x1234_5678_9abc, 0x2345_6789_abcd, 0x3456_789a_bcde, 0x4567_89ab_cdef]);
}

#[test]
fn widths_follow_largest_value_and_count() {
    let widths = |data: Vec<usize>| {
        let bytes = EliasFano::new(data).expect("elias fano encoding").as_bytes();
        (bytes[15], bytes[23])
    };
    // (upper width, lower width)
    assert_eq!(widths(vec![2, 3, 5, 7, 11, 13, 24]), (3, 2));
    assert_eq!(widths(vec![0]), (0, 0));
    assert_eq!(widths(vec![5]), (0, 3));
    assert_eq!(widths(vec![1, 2, 3, 9]), (2, 2));
    assert_eq!(widths((0..100).collect()), (7, 0));
    assert_eq!(widths(vec![0, 1024]), (1, 9));
    assert_eq!(widths(vec![0, 1025]), (1, 10));
}

#[test]
fn largest_value_beyond_the_last_bucket_is_not_recovered() {
    // A single value has one bucket; 8 keeps a high part of 1 above its three low bits.
    let ef = EliasFano::new(vec![8]).expect("elias fano encoding");
    assert_eq!(ef.as_bytes()[15], 0);
    assert_eq!(ef.as_bytes()[23], 3);
    assert_eq!(ef.get(0), Some(0));

    // Four values have four buckets; 8 keeps a high part of 4 above its one low bit.
    let ef = EliasFano::new(vec![1, 2, 3, 8]).expect("elias fano encoding");
    assert_eq!(ef.as_bytes()[15], 2);
    assert_eq!(ef.as_bytes()[23], 1);
    assert!(matches!(ef.get(3), Some(x) if x < 8));
}

#[test]
fn values_in_the_last_bucket() {
    // 7 values up to 28: two low bits, and 28 has the high part 7, the last of 8 buckets.
    let data = vec![1, 2, 3, 4, 5, 6, 28];
    let bytes = EliasFano::new(data.clone()).expect("elias fano encoding").as_bytes();
    assert_eq!((bytes[15], bytes[23]), (3, 2));
    // buckets 0 and 1 hold three values each, bucket 7 holds one: 1110 1110 0 0 0 0 0 10
    assert_eq!(&bytes[32..34], &[0b0111_0111, 0b0010_0000]);
    check_set(data);
    // 4 values up to 7: one low bit, and 7 has the high part 3, the last of 4 buckets.
    check_set(vec![0, 1, 2, 7]);
    check_set(vec![0, 1, 6, 7]);
}
