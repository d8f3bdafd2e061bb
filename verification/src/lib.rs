//! Traits for storage media that are read word by word and written sector by
//! sector, with a medium that keeps its sectors in a flat byte region, as a
//! backing file holds them.
//!
//! Every item is verified with Verus: the contracts state what each operation
//! returns and what it leaves untouched.

mod bytes;
pub use bytes::{
    le_bytes, le_limit, le_value, lemma_decode_encode, lemma_le_bytes_len, lemma_le_bytes_prefix,
    lemma_le_limit_grows, lemma_le_limit_sixteen, lemma_le_round_trip, lemma_le_value_bound,
    lemma_num_bytes, lemma_usize_bytes, AsBytes, USIZE_BYTES,
};

mod storage;
pub use storage::{
    filled_to, lemma_sector_bounds, lemma_sector_read_back, reaches_past, sector_of, with_sector,
    Storage,
};

mod extensions;
pub use extensions::{Eraseable, Flash, WordWritable};

pub mod errors;

mod file_backed;
pub use file_backed::{
    byte_at, decode_words, decoded, encode_words, encoded, fits, image, lemma_decoded_encoded,
    lemma_encoded_words, lemma_present_sector, lemma_present_word, lemma_sector_round_trip,
    lemma_word_bounds, lemma_written_sector, region_len, sector_bytes, sector_start, sectors_in,
    word_bytes, word_start, words_in, written, zeros, BackingError, FileBackedStorage,
};
