use storage_traits::errors::{ReadError, WriteError};
use storage_traits::{
    decode_words, encode_words, region_len, sector_start, sectors_in, word_start, AsBytes,
    BackingError, FileBackedStorage, Storage,
};

#[test]
fn a_new_medium_has_a_region_of_exactly_its_size() {
    let storage = FileBackedStorage::<u8, 512>::new(4);
    assert_eq!(storage.as_bytes().len(), 2048);
    assert!(storage.as_bytes().iter().all(|byte| *byte == 0));
    assert_eq!(storage.capacity(), 4);
}

#[test]
fn a_sector_of_bytes_is_written_and_read_back() {
    let mut storage = FileBackedStorage::<u8, 512>::new(4);
    assert_eq!(storage.write_sector(1, &[0xAB; 512]), Ok(()));
    let mut sector = [0u8; 512];
    assert_eq!(storage.read_sector(1, &mut sector), Ok(()));
    assert_eq!(sector, [0xAB; 512]);
    assert_eq!(storage.as_bytes().len(), 2048);
}

#[test]
fn the_sector_after_the_last_is_out_of_range() {
    let mut storage = FileBackedStorage::<u8, 512>::new(4);
    let mut sector = [0x11u8; 512];
    assert_eq!(
        storage.read_sector(4, &mut sector),
        Err(ReadError::OutOfRange { requested_offset: 4, max_offset: 4 })
    );
    assert_eq!(sector, [0x11; 512]);
    assert_eq!(
        storage.write_sector(4, &[0xAB; 512]),
        Err(WriteError::OutOfRange { requested_offset: 4, max_offset: 4 })
    );
    assert_eq!(
        storage.write_sector(usize::MAX, &[0xAB; 512]),
        Err(WriteError::OutOfRange { requested_offset: usize::MAX, max_offset: 4 })
    );
}

#[test]
fn a_refused_write_leaves_the_region_as_it_was() {
    let mut storage = FileBackedStorage::<u8, 4>::new(2);
    storage.write_sector(0, &[1, 2, 3, 4]).unwrap();
    let before = storage.as_bytes().to_vec();
    assert!(storage.write_sector(2, &[9, 9, 9, 9]).is_err());
    assert_eq!(storage.as_bytes(), &before[..]);
    assert_eq!(storage.capacity(), 2);
}

#[test]
fn sectors_lie_one_after_the_other_in_the_region() {
    let mut storage = FileBackedStorage::<u8, 4>::new(3);
    storage.write_sector(2, &[9, 10, 11, 12]).unwrap();
    storage.write_sector(0, &[1, 2, 3, 4]).unwrap();
    assert_eq!(storage.as_bytes(), &[1, 2, 3, 4, 0, 0, 0, 0, 9, 10, 11, 12][..]);
    storage.write_sector(1, &[5, 6, 7, 8]).unwrap();
    assert_eq!(storage.as_bytes(), &[1, 2, 3, 4, 5, 6, 7, 8, 9, 10, 11, 12][..]);
}

#[test]
fn words_lie_little_endian_in_their_sector() {
    let mut storage = FileBackedStorage::<u16, 2>::new(2);
    storage.write_sector(1, &[0x0102, 0xA0B0]).unwrap();
    assert_eq!(storage.as_bytes(), &[0, 0, 0, 0, 0x02, 0x01, 0xB0, 0xA0][..]);
    let mut wide = FileBackedStorage::<u32, 1>::new(2);
    wide.write_sector(0, &[0xDEAD_BEEF]).unwrap();
    assert_eq!(wide.as_bytes(), &[0xEF, 0xBE, 0xAD, 0xDE, 0, 0, 0, 0][..]);
}

#[test]
fn every_sector_gives_back_what_was_written_to_it() {
    let mut storage = FileBackedStorage::<u32, 3>::new(5);
    for sector_idx in 0..5 {
        let base = 0x0100_0000 * (sector_idx as u32 + 1);
        let words = [base, base + 1, u32::MAX - sector_idx as u32];
        assert_eq!(storage.write_sector(sector_idx, &words), Ok(()));
        let mut back = [0u32; 3];
        assert_eq!(storage.read_sector(sector_idx, &mut back), Ok(()));
        assert_eq!(back, words);
    }
    for sector_idx in 0..5 {
        let base = 0x0100_0000 * (sector_idx as u32 + 1);
        let mut back = [0u32; 3];
        assert_eq!(storage.read_sector(sector_idx, &mut back), Ok(()));
        assert_eq!(back, [base, base + 1, u32::MAX - sector_idx as u32]);
    }
}

#[test]
fn wide_words_are_written_and_read_back() {
    let mut storage = FileBackedStorage::<u128, 2>::new(2);
    let words = [u128::MAX, 0x0102_0304_0506_0708_090A_0B0C_0D0E_0F10];
    storage.write_sector(1, &words).unwrap();
    let mut back = [0u128; 2];
    storage.read_sector(1, &mut back).unwrap();
    assert_eq!(back, words);
    assert_eq!(storage.as_bytes().len(), 64);
    let mut sizes = FileBackedStorage::<usize, 2>::new(1);
    sizes.write_sector(0, &[usize::MAX, 7]).unwrap();
    let mut back = [0usize; 2];
    sizes.read_sector(0, &mut back).unwrap();
    assert_eq!(back, [usize::MAX, 7]);
    assert_eq!(sizes.as_bytes().len(), 2 * std::mem::size_of::<usize>());
}

#[test]
fn the_capacity_is_the_same_in_every_unit() {
    let bytes = FileBackedStorage::<u8, 512>::new(4);
    assert_eq!(bytes.capacity_in_words(), 2048);
    assert_eq!(bytes.capacity_in_bytes(), 2048);
    let words = FileBackedStorage::<u32, 16>::new(7);
    assert_eq!(words.capacity(), 7);
    assert_eq!(words.capacity_in_words(), 7 * 16);
    assert_eq!(words.capacity_in_bytes(), 7 * 16 * 4);
    assert_eq!(words.capacity_in_bytes(), words.as_bytes().len());
    let none = FileBackedStorage::<u64, 8>::new(0);
    assert_eq!(none.capacity_in_bytes(), 0);
}

#[test]
fn a_word_is_read_from_its_place() {
    let mut storage = FileBackedStorage::<u16, 2>::new(2);
    storage.write_sector(0, &[10, 11]).unwrap();
    storage.write_sector(1, &[12, 13]).unwrap();
    assert_eq!(storage.read_word(0), Ok(10));
    assert_eq!(storage.read_word(1), Ok(11));
    assert_eq!(storage.read_word(2), Ok(12));
    assert_eq!(storage.read_word(3), Ok(13));
    assert_eq!(
        storage.read_word(4),
        Err(ReadError::OutOfRange { requested_offset: 4, max_offset: 4 })
    );
}

#[test]
fn words_are_read_across_sectors() {
    let mut storage = FileBackedStorage::<u16, 2>::new(3);
    storage.write_sector(0, &[10, 11]).unwrap();
    storage.write_sector(1, &[12, 13]).unwrap();
    storage.write_sector(2, &[14, 15]).unwrap();
    let mut buffer = [0u16; 4];
    assert_eq!(storage.read_words(1, &mut buffer), Ok(()));
    assert_eq!(buffer, [11, 12, 13, 14]);
}

#[test]
fn words_past_the_end_are_refused_and_the_buffer_kept() {
    let mut storage = FileBackedStorage::<u8, 512>::new(4);
    let mut buffer = [0x55u8; 3];
    assert_eq!(
        storage.read_words(2046, &mut buffer),
        Err(ReadError::OutOfRange { requested_offset: 2048, max_offset: 2048 })
    );
    assert_eq!(buffer, [0x55; 3]);
    assert_eq!(storage.read_words(2045, &mut buffer), Ok(()));
    assert_eq!(buffer, [0; 3]);
}

#[test]
fn no_words_are_read_at_once() {
    let mut storage = FileBackedStorage::<u8, 512>::new(4);
    let mut nothing: [u8; 0] = [];
    assert_eq!(storage.read_words(0, &mut nothing), Ok(()));
    assert_eq!(storage.read_words(2048, &mut nothing), Ok(()));
    assert_eq!(storage.read_words(usize::MAX, &mut nothing), Ok(()));
}

#[test]
fn a_region_that_is_no_whole_number_of_sectors_is_refused() {
    let opened = FileBackedStorage::<u8, 512>::from_file(vec![0; 1000]);
    assert_eq!(
        opened.err(),
        Some(BackingError::InvalidInput { length: 1000, sector_bytes: 512 })
    );
    let opened = FileBackedStorage::<u16, 4>::from_file(vec![0; 12]);
    assert_eq!(opened.err(), Some(BackingError::InvalidInput { length: 12, sector_bytes: 8 }));
    let opened = FileBackedStorage::<u8, 512>::from_file(vec![0; 1]);
    assert_eq!(opened.err(), Some(BackingError::InvalidInput { length: 1, sector_bytes: 512 }));
}

#[test]
fn an_existing_region_gives_its_number_of_sectors() {
    let region: Vec<u8> = (0..16).collect();
    let mut storage = FileBackedStorage::<u16, 4>::from_file(region.clone()).unwrap();
    assert_eq!(storage.capacity(), 2);
    assert_eq!(storage.as_bytes(), &region[..]);
    let mut sector = [0u16; 4];
    storage.read_sector(1, &mut sector).unwrap();
    assert_eq!(sector, [0x0908, 0x0B0A, 0x0D0C, 0x0F0E]);
    assert_eq!(
        storage.read_sector(2, &mut sector),
        Err(ReadError::OutOfRange { requested_offset: 2, max_offset: 2 })
    );
}

#[test]
fn an_empty_region_is_a_medium_without_sectors() {
    let mut storage = FileBackedStorage::<u8, 512>::from_file(Vec::new()).unwrap();
    assert_eq!(storage.capacity(), 0);
    assert_eq!(
        storage.write_sector(0, &[0; 512]),
        Err(WriteError::OutOfRange { requested_offset: 0, max_offset: 0 })
    );
}

#[test]
fn sectors_without_bytes_have_no_region_to_open() {
    let opened = FileBackedStorage::<u8, 0>::from_file(Vec::new());
    assert_eq!(opened.err(), Some(BackingError::InvalidInput { length: 0, sector_bytes: 0 }));
    let opened = FileBackedStorage::<u8, 0>::from_file(vec![1, 2]);
    assert_eq!(opened.err(), Some(BackingError::InvalidInput { length: 2, sector_bytes: 0 }));
    let mut made = FileBackedStorage::<u8, 0>::new(3);
    assert_eq!(made.as_bytes().len(), 0);
    assert_eq!(made.capacity_in_words(), 0);
    assert_eq!(made.write_sector(1, &[]), Ok(()));
    assert_eq!(made.as_bytes().len(), 0);
}

#[test]
fn what_was_written_is_found_when_the_region_is_opened_again() {
    let mut storage = FileBackedStorage::<u32, 2>::new(3);
    storage.write_sector(2, &[0xAABB_CCDD, 7]).unwrap();
    let region = storage.into_bytes();
    assert_eq!(region.len(), 24);
    let mut again = FileBackedStorage::<u32, 2>::from_file(region).unwrap();
    assert_eq!(again.capacity(), 3);
    let mut sector = [0u32; 2];
    again.read_sector(2, &mut sector).unwrap();
    assert_eq!(sector, [0xAABB_CCDD, 7]);
    again.read_sector(0, &mut sector).unwrap();
    assert_eq!(sector, [0, 0]);
}

#[test]
fn a_stated_number_of_sectors_takes_the_place_of_the_region_length() {
    let region: Vec<u8> = (1..=8).collect();
    let storage =
        FileBackedStorage::<u8, 4>::from_file_with_explicit_size(region.clone(), 4).unwrap();
    assert_eq!(storage.capacity(), 4);
    assert_eq!(storage.capacity_in_bytes(), 16);
    assert_eq!(storage.as_bytes(), &region[..]);
    let fewer = FileBackedStorage::<u8, 4>::from_file_with_explicit_size(region, 1).unwrap();
    assert_eq!(fewer.capacity(), 1);
    assert_eq!(fewer.as_bytes().len(), 8);
}

#[test]
fn a_stated_number_of_sectors_does_not_excuse_a_broken_region() {
    let opened = FileBackedStorage::<u8, 4>::from_file_with_explicit_size(vec![0; 7], 2);
    assert_eq!(opened.err(), Some(BackingError::InvalidInput { length: 7, sector_bytes: 4 }));
}

#[test]
fn a_sector_past_the_end_of_the_region_was_never_written() {
    let region: Vec<u8> = (1..=8).collect();
    let mut storage =
        FileBackedStorage::<u8, 4>::from_file_with_explicit_size(region, 4).unwrap();
    let mut sector = [0x77u8; 4];
    assert_eq!(storage.read_sector(1, &mut sector), Ok(()));
    assert_eq!(sector, [5, 6, 7, 8]);
    assert_eq!(storage.read_sector(2, &mut sector), Err(ReadError::Uninitialized { offset: 2 }));
    assert_eq!(sector, [5, 6, 7, 8]);
    assert_eq!(storage.read_sector(3, &mut sector), Err(ReadError::Uninitialized { offset: 3 }));
    assert_eq!(
        storage.read_sector(4, &mut sector),
        Err(ReadError::OutOfRange { requested_offset: 4, max_offset: 4 })
    );
    assert_eq!(storage.read_word(7), Ok(8));
    assert_eq!(storage.read_word(8), Err(ReadError::Uninitialized { offset: 8 }));
    assert_eq!(storage.read_word(15), Err(ReadError::Uninitialized { offset: 15 }));
    assert_eq!(
        storage.read_word(16),
        Err(ReadError::OutOfRange { requested_offset: 16, max_offset: 16 })
    );
    let mut words = [0x77u8; 4];
    assert_eq!(storage.read_words(6, &mut words), Err(ReadError::Uninitialized { offset: 8 }));
    assert_eq!(words, [7, 8, 0x77, 0x77]);
}

#[test]
fn a_write_past_the_end_of_the_region_makes_it_grow() {
    let region: Vec<u8> = (1..=8).collect();
    let mut storage =
        FileBackedStorage::<u8, 4>::from_file_with_explicit_size(region, 4).unwrap();
    assert_eq!(storage.write_sector(3, &[0xA, 0xB, 0xC, 0xD]), Ok(()));
    assert_eq!(
        storage.as_bytes(),
        &[1, 2, 3, 4, 5, 6, 7, 8, 0, 0, 0, 0, 0xA, 0xB, 0xC, 0xD][..]
    );
    let mut sector = [0x77u8; 4];
    assert_eq!(storage.read_sector(3, &mut sector), Ok(()));
    assert_eq!(sector, [0xA, 0xB, 0xC, 0xD]);
    assert_eq!(storage.read_sector(2, &mut sector), Ok(()));
    assert_eq!(sector, [0, 0, 0, 0]);
    assert_eq!(storage.capacity(), 4);
}

#[test]
fn sectors_beyond_the_stated_number_are_out_of_range() {
    let region: Vec<u8> = (1..=8).collect();
    let mut storage =
        FileBackedStorage::<u8, 4>::from_file_with_explicit_size(region, 1).unwrap();
    let mut sector = [0u8; 4];
    assert_eq!(
        storage.read_sector(1, &mut sector),
        Err(ReadError::OutOfRange { requested_offset: 1, max_offset: 1 })
    );
    assert_eq!(
        storage.write_sector(1, &[0; 4]),
        Err(WriteError::OutOfRange { requested_offset: 1, max_offset: 1 })
    );
    assert_eq!(storage.read_sector(0, &mut sector), Ok(()));
    assert_eq!(sector, [1, 2, 3, 4]);
}

#[test]
fn the_length_of_a_region_is_its_sectors_in_bytes() {
    assert_eq!(region_len::<u8, 512>(4), Some(2048));
    assert_eq!(region_len::<u32, 16>(7), Some(448));
    assert_eq!(region_len::<u64, 8>(0), Some(0));
    assert_eq!(region_len::<u8, 0>(9), Some(0));
    assert_eq!(region_len::<u8, 1>(usize::MAX), Some(usize::MAX));
}

#[test]
fn a_region_too_long_to_count_has_no_length() {
    assert_eq!(region_len::<u8, 512>(usize::MAX), None);
    assert_eq!(region_len::<u16, 1>(usize::MAX), None);
    assert_eq!(region_len::<u16, 1>(usize::MAX / 2 + 1), None);
    assert_eq!(region_len::<u16, 1>(usize::MAX / 2), Some(usize::MAX - 1));
    assert_eq!(region_len::<u64, { usize::MAX }>(0), None);
}

#[test]
fn the_sectors_in_a_length_are_counted_exactly() {
    assert_eq!(sectors_in::<u8, 512>(2048), Ok(4));
    assert_eq!(sectors_in::<u8, 512>(0), Ok(0));
    assert_eq!(sectors_in::<u32, 16>(448), Ok(7));
    assert_eq!(
        sectors_in::<u8, 512>(2047),
        Err(BackingError::InvalidInput { length: 2047, sector_bytes: 512 })
    );
    assert_eq!(
        sectors_in::<u32, 16>(450),
        Err(BackingError::InvalidInput { length: 450, sector_bytes: 64 })
    );
}

#[test]
fn a_sector_starts_at_its_index_times_its_bytes() {
    assert_eq!(sector_start::<u8, 512>(4, 0), Some(0));
    assert_eq!(sector_start::<u8, 512>(4, 1), Some(512));
    assert_eq!(sector_start::<u8, 512>(4, 3), Some(1536));
    assert_eq!(sector_start::<u8, 512>(4, 4), None);
    assert_eq!(sector_start::<u32, 16>(7, 6), Some(384));
    assert_eq!(sector_start::<u32, 16>(0, 0), None);
}

#[test]
fn a_word_starts_at_its_offset_times_its_bytes() {
    assert_eq!(word_start::<u32, 16>(7, 0), Some(0));
    assert_eq!(word_start::<u32, 16>(7, 5), Some(20));
    assert_eq!(word_start::<u32, 16>(7, 111), Some(444));
    assert_eq!(word_start::<u32, 16>(7, 112), None);
    assert_eq!(word_start::<u8, 512>(4, 2047), Some(2047));
}

#[test]
fn words_are_encoded_one_after_the_other() {
    assert_eq!(encode_words::<u16>(&[0x0102, 0x0304, 0xFFFE]), vec![2, 1, 4, 3, 0xFE, 0xFF]);
    assert_eq!(encode_words::<u8>(&[7, 8, 9]), vec![7, 8, 9]);
    assert_eq!(encode_words::<u32>(&[]), Vec::<u8>::new());
    assert_eq!(encode_words::<u32>(&[1]), vec![1, 0, 0, 0]);
}

#[test]
fn bytes_are_decoded_word_by_word() {
    let mut words = [0u16; 3];
    decode_words::<u16>(&[2, 1, 4, 3, 0xFE, 0xFF], &mut words);
    assert_eq!(words, [0x0102, 0x0304, 0xFFFE]);
    let mut none: [u32; 0] = [];
    decode_words::<u32>(&[], &mut none);
}

#[test]
fn decoding_undoes_encoding() {
    let words = [0u64, 1, u64::MAX, 0x0123_4567_89AB_CDEF];
    let bytes = encode_words::<u64>(&words);
    assert_eq!(bytes.len(), 32);
    let mut back = [0u64; 4];
    decode_words::<u64>(&bytes, &mut back);
    assert_eq!(back, words);
}

/// A word that keeps its most significant byte first.
#[derive(Debug, Clone, Copy, PartialEq)]
struct BigEndian(u16);

impl AsBytes for BigEndian {
    const NUM_BYTES: usize = 2;

    type To = [u8; 2];

    fn lemma_round_trip(_value: Self) {}

    fn from(bytes: &[u8]) -> Option<(Self, &[u8])> {
        if bytes.len() < 2 {
            None
        } else {
            Some((BigEndian(u16::from_be_bytes([bytes[0], bytes[1]])), &bytes[2..]))
        }
    }

    fn to(s: &Self) -> [u8; 2] {
        s.0.to_be_bytes()
    }

    fn bytes(buffer: &[u8; 2]) -> &[u8] {
        buffer
    }
}

#[test]
fn a_word_type_chooses_its_own_byte_order() {
    let mut storage = FileBackedStorage::<BigEndian, 2>::new(2);
    storage.write_sector(1, &[BigEndian(0x0102), BigEndian(0xA0B0)]).unwrap();
    assert_eq!(storage.as_bytes(), &[0, 0, 0, 0, 0x01, 0x02, 0xA0, 0xB0][..]);
    let mut sector = [BigEndian(0); 2];
    storage.read_sector(1, &mut sector).unwrap();
    assert_eq!(sector, [BigEndian(0x0102), BigEndian(0xA0B0)]);
    assert_eq!(storage.read_word(2), Ok(BigEndian(0x0102)));
    assert_eq!(storage.capacity_in_bytes(), 8);
}
