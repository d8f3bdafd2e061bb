use storage_traits::{AsBytes, USIZE_BYTES};

#[test]
fn widths_of_the_integer_words() {
    assert_eq!(<u8 as AsBytes>::NUM_BYTES, 1);
    assert_eq!(<u16 as AsBytes>::NUM_BYTES, 2);
    assert_eq!(<u32 as AsBytes>::NUM_BYTES, 4);
    assert_eq!(<u64 as AsBytes>::NUM_BYTES, 8);
    assert_eq!(<u128 as AsBytes>::NUM_BYTES, 16);
    assert_eq!(<usize as AsBytes>::NUM_BYTES, std::mem::size_of::<usize>());
    assert_eq!(USIZE_BYTES, std::mem::size_of::<usize>());
}

#[test]
fn u8_is_its_own_byte() {
    assert_eq!(<u8 as AsBytes>::to(&0xAB), [0xAB]);
    assert_eq!(<u8 as AsBytes>::from(&[0xAB]), Some((0xABu8, &[][..])));
}

#[test]
fn u16_is_little_endian() {
    assert_eq!(<u16 as AsBytes>::to(&0x1234), [0x34, 0x12]);
    assert_eq!(<u16 as AsBytes>::from(&[0x34, 0x12]), Some((0x1234u16, &[][..])));
}

#[test]
fn u32_is_little_endian() {
    assert_eq!(<u32 as AsBytes>::to(&0xDEAD_BEEF), [0xEF, 0xBE, 0xAD, 0xDE]);
    assert_eq!(
        <u32 as AsBytes>::from(&[0xEF, 0xBE, 0xAD, 0xDE]),
        Some((0xDEAD_BEEFu32, &[][..]))
    );
}

#[test]
fn u64_is_little_endian() {
    let value: u64 = 0x0102_0304_0506_0708;
    assert_eq!(<u64 as AsBytes>::to(&value), [8, 7, 6, 5, 4, 3, 2, 1]);
    assert_eq!(<u64 as AsBytes>::to(&value), value.to_le_bytes());
    assert_eq!(
        <u64 as AsBytes>::from(&[8, 7, 6, 5, 4, 3, 2, 1]),
        Some((value, &[][..]))
    );
}

#[test]
fn u128_is_little_endian() {
    let value: u128 = 0x0102_0304_0506_0708_090A_0B0C_0D0E_0F10;
    let bytes = <u128 as AsBytes>::to(&value);
    assert_eq!(
        bytes,
        [0x10, 0x0F, 0x0E, 0x0D, 0x0C, 0x0B, 0x0A, 9, 8, 7, 6, 5, 4, 3, 2, 1]
    );
    assert_eq!(bytes, value.to_le_bytes());
    assert_eq!(<u128 as AsBytes>::from(&bytes), Some((value, &[][..])));
}

#[test]
fn usize_takes_as_many_bytes_as_the_machine_gives_it() {
    let value: usize = 0x0403_0201;
    let buffer = <usize as AsBytes>::to(&value);
    let bytes = <usize as AsBytes>::bytes(&buffer);
    assert_eq!(bytes.len(), std::mem::size_of::<usize>());
    assert_eq!(bytes, &value.to_le_bytes()[..]);
    assert_eq!(<usize as AsBytes>::from(bytes), Some((value, &[][..])));
}

#[test]
fn bytes_hands_out_what_to_filled() {
    let buffer = <u32 as AsBytes>::to(&0x0A0B_0C0D);
    assert_eq!(<u32 as AsBytes>::bytes(&buffer), &[0x0D, 0x0C, 0x0B, 0x0A][..]);
}

#[test]
fn round_trip_of_a_u64() {
    let buffer = <u64 as AsBytes>::to(&234u64);
    assert_eq!(
        <u64 as AsBytes>::from(<u64 as AsBytes>::bytes(&buffer)),
        Some((234u64, &[][..]))
    );
}

#[test]
fn round_trip_at_the_ends_of_each_type() {
    for value in [0u8, 1, 0x7F, 0x80, u8::MAX] {
        let buffer = <u8 as AsBytes>::to(&value);
        assert_eq!(<u8 as AsBytes>::from(&buffer), Some((value, &[][..])));
    }
    for value in [0u16, 1, 0xFF, 0x100, u16::MAX] {
        let buffer = <u16 as AsBytes>::to(&value);
        assert_eq!(<u16 as AsBytes>::from(&buffer), Some((value, &[][..])));
    }
    for value in [0u32, 1, 0xFFFF, 0x1_0000, u32::MAX] {
        let buffer = <u32 as AsBytes>::to(&value);
        assert_eq!(<u32 as AsBytes>::from(&buffer), Some((value, &[][..])));
    }
    for value in [0u64, 1, 0xFFFF_FFFF, 0x1_0000_0000, u64::MAX] {
        let buffer = <u64 as AsBytes>::to(&value);
        assert_eq!(<u64 as AsBytes>::from(&buffer), Some((value, &[][..])));
    }
    for value in [0u128, 1, u64::MAX as u128, u64::MAX as u128 + 1, u128::MAX] {
        let buffer = <u128 as AsBytes>::to(&value);
        assert_eq!(<u128 as AsBytes>::from(&buffer), Some((value, &[][..])));
    }
    for value in [0usize, 1, 0xFFFF, usize::MAX] {
        let buffer = <usize as AsBytes>::to(&value);
        let bytes = <usize as AsBytes>::bytes(&buffer);
        assert_eq!(<usize as AsBytes>::from(bytes), Some((value, &[][..])));
    }
}

#[test]
fn round_trip_of_every_u16() {
    for value in 0..=u16::MAX {
        let buffer = <u16 as AsBytes>::to(&value);
        assert_eq!(buffer, value.to_le_bytes());
        assert_eq!(<u16 as AsBytes>::from(&buffer), Some((value, &[][..])));
    }
}

#[test]
fn from_leaves_the_bytes_it_does_not_need() {
    let bytes = [1u8, 2, 3, 4, 5];
    assert_eq!(<u16 as AsBytes>::from(&bytes), Some((0x0201u16, &[3u8, 4, 5][..])));
    assert_eq!(<u32 as AsBytes>::from(&bytes), Some((0x0403_0201u32, &[5u8][..])));
    assert_eq!(<u8 as AsBytes>::from(&bytes), Some((1u8, &[2u8, 3, 4, 5][..])));
}

#[test]
fn from_gives_nothing_for_too_few_bytes() {
    assert_eq!(<u8 as AsBytes>::from(&[]), None);
    assert_eq!(<u16 as AsBytes>::from(&[]), None);
    assert_eq!(<u16 as AsBytes>::from(&[1]), None);
    assert_eq!(<u32 as AsBytes>::from(&[1, 2, 3]), None);
    assert_eq!(<u64 as AsBytes>::from(&[1, 2, 3, 4, 5, 6, 7]), None);
    assert_eq!(<u128 as AsBytes>::from(&[0; 15]), None);
    let short = vec![0u8; std::mem::size_of::<usize>() - 1];
    assert_eq!(<usize as AsBytes>::from(&short), None);
}

#[test]
fn from_reads_words_one_after_the_other() {
    let bytes = [0x01u8, 0x00, 0x02, 0x00, 0x03, 0x00];
    let (first, rest) = <u16 as AsBytes>::from(&bytes).unwrap();
    let (second, rest) = <u16 as AsBytes>::from(rest).unwrap();
    let (third, rest) = <u16 as AsBytes>::from(rest).unwrap();
    assert_eq!((first, second, third), (1, 2, 3));
    assert!(rest.is_empty());
    assert_eq!(<u16 as AsBytes>::from(rest), None);
}
