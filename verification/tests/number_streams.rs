use number_streams::u32s_to_le_bytes;
use number_streams::u64s_to_le_bytes;
use number_streams::NumberStreams;
use number_streams::U32FromBytes;
use number_streams::U64FromBytes;

#[test]
fn can_read_u32_from_bytes() {
    let orig_values: Vec<u32> = vec![0, 1];
    let as_u8 = u32s_to_le_bytes(&orig_values);

    let (mut iter, rest) = U32FromBytes::new(&as_u8);
    let values = iter.collect_remaining();

    assert_eq!(&values[..], &orig_values[..]);
    assert!(rest.is_empty());
}

#[test]
fn can_read_u32_from_bytes_with_leftovers() {
    let orig_values: Vec<u32> = vec![0, 1];
    let mut as_u8 = u32s_to_le_bytes(&orig_values);
    as_u8.push(42);

    let (mut iter, rest) = U32FromBytes::new(&as_u8);
    let values = iter.collect_remaining();

    assert_eq!(&values[..], &orig_values[..]);
    assert_eq!(rest, [42]);
}

#[test]
fn can_read_u64_from_bytes() {
    let orig_values: Vec<u64> = vec![0, 1];
    let as_u8 = u64s_to_le_bytes(&orig_values);

    let (mut iter, rest) = U64FromBytes::new(&as_u8);
    let values = iter.collect_remaining();

    assert_eq!(&values[..], &orig_values[..]);
    assert!(rest.is_empty());
}

#[test]
fn can_read_u64_from_bytes_with_leftovers() {
    let orig_values: Vec<u64> = vec![0, 1];
    let mut as_u8 = u64s_to_le_bytes(&orig_values);
    as_u8.push(42);

    let (mut iter, rest) = U64FromBytes::new(&as_u8);
    let values = iter.collect_remaining();

    assert_eq!(&values[..], &orig_values[..]);
    assert_eq!(rest, [42]);
}

#[test]
fn u32_concrete_bytes() {
    let bytes: Vec<u8> = vec![0x00, 0x00, 0x00, 0x00, 0x01, 0x00, 0x00, 0x00];
    let (mut iter, rest) = U32FromBytes::new(&bytes);
    assert_eq!(iter.collect_remaining(), vec![0, 1]);
    assert!(rest.is_empty());
}

#[test]
fn u32_concrete_bytes_with_leftover() {
    let bytes: Vec<u8> = vec![0x00, 0x00, 0x00, 0x00, 0x01, 0x00, 0x00, 0x00, 0x2a];
    let (mut iter, rest) = U32FromBytes::new(&bytes);
    assert_eq!(iter.collect_remaining(), vec![0, 1]);
    assert_eq!(rest, [0x2a]);
}

#[test]
fn u64_concrete_bytes() {
    let bytes: Vec<u8> = vec![
        0x00, 0x00, 0x00, 0x00, 0x00, 0x00, 0x00, 0x00, 0x01, 0x00, 0x00, 0x00, 0x00, 0x00, 0x00,
        0x00,
    ];
    let (mut iter, rest) = U64FromBytes::new(&bytes);
    assert_eq!(iter.collect_remaining(), vec![0, 1]);
    assert!(rest.is_empty());
}

#[test]
fn u64_concrete_bytes_with_leftover() {
    let bytes: Vec<u8> = vec![
        0x00, 0x00, 0x00, 0x00, 0x00, 0x00, 0x00, 0x00, 0x01, 0x00, 0x00, 0x00, 0x00, 0x00, 0x00,
        0x00, 0x2a,
    ];
    let (mut iter, rest) = U64FromBytes::new(&bytes);
    assert_eq!(iter.collect_remaining(), vec![0, 1]);
    assert_eq!(rest, [0x2a]);
}

#[test]
fn u32_byte_order_is_little_endian() {
    let bytes: Vec<u8> = vec![0x01, 0x02, 0x03, 0x04];
    let (mut iter, rest) = U32FromBytes::new(&bytes);
    assert_eq!(iter.next(), Some(0x0403_0201));
    assert_eq!(iter.next(), None);
    assert!(rest.is_empty());
}

#[test]
fn u64_byte_order_is_little_endian() {
    let bytes: Vec<u8> = vec![0x01, 0x02, 0x03, 0x04, 0x05, 0x06, 0x07, 0x08];
    let (mut iter, rest) = U64FromBytes::new(&bytes);
    assert_eq!(iter.next(), Some(0x0807_0605_0403_0201));
    assert_eq!(iter.next(), None);
    assert!(rest.is_empty());
}

#[test]
fn empty_input_u32() {
    let bytes: Vec<u8> = vec![];
    let (mut iter, rest) = U32FromBytes::new(&bytes);
    assert_eq!(iter.next(), None);
    assert!(rest.is_empty());
}

#[test]
fn empty_input_u64() {
    let bytes: Vec<u8> = vec![];
    let (mut iter, rest) = U64FromBytes::new(&bytes);
    assert_eq!(iter.next(), None);
    assert!(rest.is_empty());
}

#[test]
fn exhaustion_is_idempotent_u32() {
    let bytes: Vec<u8> = vec![0x2a, 0x00, 0x00, 0x00];
    let (mut iter, _rest) = U32FromBytes::new(&bytes);
    assert_eq!(iter.next(), Some(42));
    assert_eq!(iter.next(), None);
    assert_eq!(iter.next(), None);
    assert_eq!(iter.next(), None);
}

#[test]
fn exhaustion_is_idempotent_u64() {
    let bytes: Vec<u8> = vec![0x2a, 0x00, 0x00, 0x00, 0x00, 0x00, 0x00, 0x00];
    let (mut iter, _rest) = U64FromBytes::new(&bytes);
    assert_eq!(iter.next(), Some(42));
    assert_eq!(iter.next(), None);
    assert_eq!(iter.next(), None);
    assert_eq!(iter.next(), None);
}

#[test]
fn counts_partition_the_buffer_u32() {
    for len in 0..16usize {
        let bytes: Vec<u8> = vec![0xff; len];
        let (mut iter, rest) = U32FromBytes::new(&bytes);
        let values = iter.collect_remaining();
        assert_eq!(values.len() * 4 + rest.len(), len);
        assert!(rest.len() < 4);
    }
}

#[test]
fn counts_partition_the_buffer_u64() {
    for len in 0..24usize {
        let bytes: Vec<u8> = vec![0xff; len];
        let (mut iter, rest) = U64FromBytes::new(&bytes);
        let values = iter.collect_remaining();
        assert_eq!(values.len() * 8 + rest.len(), len);
        assert!(rest.len() < 8);
    }
}

#[test]
fn round_trip_u32() {
    let orig_values: Vec<u32> = vec![0, 1, 0xdead_beef, u32::MAX, 7];
    let as_u8 = u32s_to_le_bytes(&orig_values);
    assert_eq!(as_u8.len(), orig_values.len() * 4);

    let (mut iter, rest) = U32FromBytes::new(&as_u8);
    assert_eq!(iter.collect_remaining(), orig_values);
    assert!(rest.is_empty());
}

#[test]
fn round_trip_u64() {
    let orig_values: Vec<u64> = vec![0, 1, 0xdead_beef_cafe_f00d, u64::MAX, 7];
    let as_u8 = u64s_to_le_bytes(&orig_values);
    assert_eq!(as_u8.len(), orig_values.len() * 8);

    let (mut iter, rest) = U64FromBytes::new(&as_u8);
    assert_eq!(iter.collect_remaining(), orig_values);
    assert!(rest.is_empty());
}

#[test]
fn encoder_writes_little_endian_u32() {
    let as_u8 = u32s_to_le_bytes(&[0x0403_0201]);
    assert_eq!(as_u8, vec![0x01, 0x02, 0x03, 0x04]);
}

#[test]
fn encoder_writes_little_endian_u64() {
    let as_u8 = u64s_to_le_bytes(&[0x0807_0605_0403_0201]);
    assert_eq!(as_u8, vec![0x01, 0x02, 0x03, 0x04, 0x05, 0x06, 0x07, 0x08]);
}

#[test]
fn trait_builds_u32_stream() {
    let bytes: Vec<u8> = vec![0x05, 0x00, 0x00, 0x00, 0x09];
    let slice: &[u8] = &bytes;
    let (mut iter, rest) = slice.u32_stream();
    assert_eq!(iter.collect_remaining(), vec![5]);
    assert_eq!(rest, [0x09]);
}

#[test]
fn trait_builds_u64_stream() {
    let bytes: Vec<u8> = vec![0x05, 0x00, 0x00, 0x00, 0x00, 0x00, 0x00, 0x00, 0x09];
    let slice: &[u8] = &bytes;
    let (mut iter, rest) = slice.u64_stream();
    assert_eq!(iter.collect_remaining(), vec![5]);
    assert_eq!(rest, [0x09]);
}
