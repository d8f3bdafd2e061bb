//! A medium in one flat byte region: its sectors are laid out as a
//! backing file holds them.
//!
//! Sector `i` is the bytes from `i * sector_bytes` on, where `sector_bytes` is
//! `SECTOR_SIZE * Word::NUM_BYTES`; within a sector the words follow each
//! other in their own encoding, with nothing before, between or after them.

use crate::bytes::AsBytes;
use crate::errors::{ReadError, WriteError};
use crate::storage::{
    lemma_sector_bounds, lemma_sector_read_back, sector_of, with_sector, Storage,
};
use core::marker::PhantomData;
use vstd::prelude::*;

verus! {

/// The bytes of `words`: the encoding of each word after that of the word
/// before it.
pub open spec fn encoded<W: AsBytes>(words: Seq<W>) -> Seq<u8>
    decreases words.len(),
{
    if words.len() == 0 {
        Seq::empty()
    } else {
        encoded(words.drop_last()) + words.last().encoding()
    }
}

/// The bytes of word `k` among `bytes`.
pub open spec fn word_bytes<W: AsBytes>(bytes: Seq<u8>, k: int) -> Seq<u8> {
    bytes.subrange(k * W::NUM_BYTES, (k + 1) * W::NUM_BYTES)
}

/// The `count` words that `bytes` hold, each decoded from its own
/// `NUM_BYTES` bytes.
pub open spec fn decoded<W: AsBytes>(bytes: Seq<u8>, count: nat) -> Seq<W> {
    Seq::new(count, |k: int| W::decoding(word_bytes::<W>(bytes, k)))
}

/// Where word `k` lies among the bytes of `count` words.
pub proof fn lemma_word_bounds(k: int, count: int, width: int)
    requires
        0 <= k < count,
        0 <= width,
    ensures
        0 <= k * width,
        (k + 1) * width == k * width + width,
        (k + 1) * width <= count * width,
{
    assert(0 <= k * width) by (nonlinear_arith)
        requires
            0 <= k,
            0 <= width,
    ;
    assert((k + 1) * width == k * width + width) by (nonlinear_arith);
    assert((k + 1) * width <= count * width) by (nonlinear_arith)
        requires
            k + 1 <= count,
            0 <= width,
    ;
}

/// The encoding of `words` has `NUM_BYTES` bytes for each word, and the bytes
/// of word `k` among them are the encoding of that word.
pub proof fn lemma_encoded_words<W: AsBytes>(words: Seq<W>)
    ensures
        encoded(words).len() == words.len() * W::NUM_BYTES,
        forall|k: int|
            0 <= k < words.len() ==> #[trigger] word_bytes::<W>(encoded(words), k)
                == words[k].encoding(),
    decreases words.len(),
{
    let width = W::NUM_BYTES as int;
    if words.len() == 0 {
        assert(words.len() * W::NUM_BYTES == 0) by (nonlinear_arith)
            requires
                words.len() == 0,
        ;
    } else {
        let front = words.drop_last();
        let last = (words.len() - 1) as int;
        lemma_encoded_words(front);
        W::lemma_round_trip(words.last());
        lemma_word_bounds(last, words.len() as int, width);
        assert forall|k: int| 0 <= k < words.len() implies #[trigger] word_bytes::<W>(
            encoded(words),
            k,
        ) == words[k].encoding() by {
            lemma_word_bounds(k, words.len() as int, width);
            if k < last {
                lemma_word_bounds(k, last, width);
                assert(word_bytes::<W>(encoded(words), k) =~= word_bytes::<W>(encoded(front), k));
                assert(front[k] == words[k]);
            } else {
                assert(word_bytes::<W>(encoded(words), k) =~= words.last().encoding());
            }
        }
    }
}

/// Decoding the encoding of `words` gives `words`.
pub proof fn lemma_decoded_encoded<W: AsBytes>(words: Seq<W>)
    ensures
        decoded::<W>(encoded(words), words.len()) == words,
{
    lemma_encoded_words(words);
    assert forall|k: int| 0 <= k < words.len() implies decoded::<W>(encoded(words), words.len())[k]
        == words[k] by {
        W::lemma_round_trip(words[k]);
    }
    assert(decoded::<W>(encoded(words), words.len()) =~= words);
}

/// Encodes `words` into one run of bytes.
pub fn encode_words<W: AsBytes>(words: &[W]) -> (bytes: Vec<u8>)
    ensures
        bytes@ == encoded(words@),
{
    let mut bytes: Vec<u8> = Vec::new();
    let mut k: usize = 0;
    proof {
        assert(words@.take(0) =~= Seq::<W>::empty());
    }
    while k < words.len()
        invariant
            k <= words@.len(),
            bytes@ == encoded(words@.take(k as int)),
        decreases words@.len() - k,
    {
        let buffer = W::to(&words[k]);
        let word = W::bytes(&buffer);
        let ghost front = bytes@;
        let mut j: usize = 0;
        while j < word.len()
            invariant
                j <= word@.len(),
                bytes@ == front + word@.take(j as int),
            decreases word@.len() - j,
        {
            bytes.push(word[j]);
            proof {
                assert(word@.take(j + 1) =~= word@.take(j as int).push(word@[j as int]));
            }
            j += 1;
        }
        proof {
            assert(word@.take(word@.len() as int) =~= word@);
            assert(words@.take(k + 1).drop_last() =~= words@.take(k as int));
        }
        k += 1;
    }
    proof {
        assert(words@.take(words@.len() as int) =~= words@);
    }
    bytes
}

/// Decodes `bytes` word by word into `words`, which they fill exactly.
pub fn decode_words<W: AsBytes>(bytes: &[u8], words: &mut [W])
    requires
        bytes@.len() == old(words)@.len() * W::NUM_BYTES,
    ensures
        final(words)@ == decoded::<W>(bytes@, old(words)@.len()),
{
    let count = words.len();
    let mut rest = bytes;
    let mut k: usize = 0;
    while k < count
        invariant
            count == words@.len(),
            k <= count,
            bytes@.len() == count * W::NUM_BYTES,
            0 <= k * W::NUM_BYTES <= bytes@.len(),
            rest@ == bytes@.skip(k * W::NUM_BYTES),
            words@.take(k as int) == decoded::<W>(bytes@, k as nat),
        decreases count - k,
    {
        proof {
            lemma_word_bounds(k as int, count as int, W::NUM_BYTES as int);
        }
        match W::from(rest) {
            Some((word, remaining)) => {
                let ghost filled = words@;
                words[k] = word;
                rest = remaining;
                proof {
                    assert(bytes@.skip(k * W::NUM_BYTES).take(W::NUM_BYTES as int)
                        =~= word_bytes::<W>(bytes@, k as int));
                    assert(bytes@.skip(k * W::NUM_BYTES).skip(W::NUM_BYTES as int)
                        =~= bytes@.skip((k + 1) * W::NUM_BYTES));
                    assert(words@.take(k + 1) =~= filled.take(k as int).push(word));
                    assert(decoded::<W>(bytes@, (k + 1) as nat) =~= decoded::<W>(
                        bytes@,
                        k as nat,
                    ).push(word));
                }
            },
            None => {
                assert(false);
                return ;
            },
        }
        k += 1;
    }
    proof {
        assert(words@.take(count as int) =~= words@);
    }
}

/// What is wrong with a backing region.
#[derive(Debug, Clone, Copy, PartialEq, Eq, Hash)]
pub enum BackingError {
    /// The region's `length` is not a whole number of sectors of
    /// `sector_bytes` bytes each.
    InvalidInput { length: usize, sector_bytes: usize },
}

/// The bytes of one sector of `SECTOR_SIZE` words of type `W`.
pub open spec fn sector_bytes<W: AsBytes, const SECTOR_SIZE: usize>() -> nat {
    (SECTOR_SIZE * W::NUM_BYTES) as nat
}

/// Whether a medium of `sectors` sectors has a size that a `usize` holds in
/// every unit, and sectors whose bytes a `usize` counts.
pub open spec fn fits<W: AsBytes, const SECTOR_SIZE: usize>(sectors: nat) -> bool {
    &&& sector_bytes::<W, SECTOR_SIZE>() <= usize::MAX
    &&& sectors * SECTOR_SIZE <= usize::MAX
    &&& sectors * sector_bytes::<W, SECTOR_SIZE>() <= usize::MAX
}

/// The byte at `position` of a region. Past the end of a region there is
/// nothing yet, which counts as zero.
pub open spec fn byte_at(region: Seq<u8>, position: int) -> u8 {
    if 0 <= position < region.len() {
        region[position]
    } else {
        0
    }
}

/// The first `length` bytes of a region, with zeros where the region ends
/// before them.
pub open spec fn image(region: Seq<u8>, length: nat) -> Seq<u8> {
    Seq::new(length, |position: int| byte_at(region, position))
}

/// A region after `data` was written at `offset`: the region grows to hold
/// the data, zeros fill what lies between its old end and the data, and
/// writing nothing changes nothing.
pub open spec fn written(region: Seq<u8>, offset: int, data: Seq<u8>) -> Seq<u8> {
    if data.len() == 0 {
        region
    } else {
        Seq::new(
            if region.len() >= offset + data.len() {
                region.len()
            } else {
                (offset + data.len()) as nat
            },
            |position: int|
                if offset <= position < offset + data.len() {
                    data[position - offset]
                } else {
                    byte_at(region, position)
                },
        )
    }
}

/// The words of a medium of `sectors` sectors that a region backs.
pub open spec fn words_in<W: AsBytes, const SECTOR_SIZE: usize>(
    region: Seq<u8>,
    sectors: nat,
) -> Seq<W> {
    decoded::<W>(
        image(region, sectors * sector_bytes::<W, SECTOR_SIZE>()),
        (sectors * SECTOR_SIZE) as nat,
    )
}

/// The length of the region that backs `size_in_sectors` sectors, or `None`
/// where a `usize` cannot hold the medium's size.
pub fn region_len<W: AsBytes, const SECTOR_SIZE: usize>(size_in_sectors: usize) -> (length: Option<
    usize,
>)
    ensures
        length is Some <==> fits::<W, SECTOR_SIZE>(size_in_sectors as nat),
        length matches Some(bytes) ==> bytes == size_in_sectors * sector_bytes::<W, SECTOR_SIZE>(),
{
    let in_a_sector = match SECTOR_SIZE.checked_mul(W::NUM_BYTES) {
        Some(bytes) => bytes,
        None => {
            return None;
        },
    };
    if size_in_sectors.checked_mul(SECTOR_SIZE).is_none() {
        return None;
    }
    size_in_sectors.checked_mul(in_a_sector)
}

/// The number of sectors in a region of `length` bytes: `length` divided by
/// the bytes of a sector, where that division leaves nothing over. A region
/// of any other length, and every region where a sector has no bytes, is
/// refused.
pub fn sectors_in<W: AsBytes, const SECTOR_SIZE: usize>(length: usize) -> (sectors: Result<
    usize,
    BackingError,
>)
    requires
        sector_bytes::<W, SECTOR_SIZE>() <= usize::MAX,
    ensures
        match sectors {
            Ok(count) => {
                &&& sector_bytes::<W, SECTOR_SIZE>() > 0
                &&& count * sector_bytes::<W, SECTOR_SIZE>() == length
                &&& fits::<W, SECTOR_SIZE>(count as nat)
            },
            Err(error) => {
                &&& sector_bytes::<W, SECTOR_SIZE>() == 0 || (length as int) % (sector_bytes::<
                    W,
                    SECTOR_SIZE,
                >() as int) != 0
                &&& error == (BackingError::InvalidInput {
                    length,
                    sector_bytes: sector_bytes::<W, SECTOR_SIZE>() as usize,
                })
            },
        },
{
    let in_a_sector = SECTOR_SIZE * W::NUM_BYTES;
    if in_a_sector == 0 || length % in_a_sector != 0 {
        return Err(BackingError::InvalidInput { length, sector_bytes: in_a_sector });
    }
    let count = length / in_a_sector;
    proof {
        lemma_whole_sectors(
            length as int,
            in_a_sector as int,
            SECTOR_SIZE as int,
            W::NUM_BYTES as int,
        );
    }
    Ok(count)
}

/// A length that is a whole number of sectors is that number times the bytes
/// of a sector, and the words of that many sectors are no more than the bytes.
proof fn lemma_whole_sectors(length: int, in_a_sector: int, sector_size: int, width: int)
    requires
        0 <= length,
        0 < in_a_sector == sector_size * width,
        0 <= sector_size,
        0 <= width,
        length % in_a_sector == 0,
    ensures
        0 <= length / in_a_sector,
        (length / in_a_sector) * in_a_sector == length,
        (length / in_a_sector) * sector_size <= length,
{
    let count = length / in_a_sector;
    assert(count * in_a_sector == length && 0 <= count) by (nonlinear_arith)
        requires
            count == length / in_a_sector,
            length % in_a_sector == 0,
            0 < in_a_sector,
            0 <= length,
    ;
    assert(count * sector_size <= count * in_a_sector) by (nonlinear_arith)
        requires
            0 <= count,
            0 <= sector_size,
            0 < in_a_sector == sector_size * width,
            0 <= width,
    ;
}

/// Where sector `sector_idx` starts in the region of a medium of
/// `size_in_sectors` sectors, or `None` where the medium has no such sector.
pub fn sector_start<W: AsBytes, const SECTOR_SIZE: usize>(
    size_in_sectors: usize,
    sector_idx: usize,
) -> (start: Option<usize>)
    requires
        fits::<W, SECTOR_SIZE>(size_in_sectors as nat),
    ensures
        start is Some <==> sector_idx < size_in_sectors,
        start matches Some(offset) ==> {
            &&& offset == sector_idx * sector_bytes::<W, SECTOR_SIZE>()
            &&& offset + sector_bytes::<W, SECTOR_SIZE>() <= size_in_sectors * sector_bytes::<
                W,
                SECTOR_SIZE,
            >()
        },
{
    if sector_idx >= size_in_sectors {
        return None;
    }
    proof {
        lemma_sector_bounds(
            sector_idx as int,
            size_in_sectors as int,
            sector_bytes::<W, SECTOR_SIZE>() as int,
        );
    }
    Some(sector_idx * (SECTOR_SIZE * W::NUM_BYTES))
}

/// Where word `word_offset` starts in the region of a medium of
/// `size_in_sectors` sectors, or `None` where the medium has no such word.
pub fn word_start<W: AsBytes, const SECTOR_SIZE: usize>(
    size_in_sectors: usize,
    word_offset: usize,
) -> (start: Option<usize>)
    requires
        fits::<W, SECTOR_SIZE>(size_in_sectors as nat),
    ensures
        start is Some <==> word_offset < size_in_sectors * SECTOR_SIZE,
        start matches Some(offset) ==> {
            &&& offset == word_offset * W::NUM_BYTES
            &&& offset + W::NUM_BYTES <= size_in_sectors * sector_bytes::<W, SECTOR_SIZE>()
        },
{
    if word_offset >= size_in_sectors * SECTOR_SIZE {
        return None;
    }
    proof {
        lemma_word_bounds(
            word_offset as int,
            size_in_sectors * SECTOR_SIZE,
            W::NUM_BYTES as int,
        );
        assert(size_in_sectors * SECTOR_SIZE * W::NUM_BYTES == size_in_sectors * (SECTOR_SIZE
            * W::NUM_BYTES)) by (nonlinear_arith);
    }
    Some(word_offset * W::NUM_BYTES)
}

/// Writes `data` into the region at `offset`, as a write to a file does: the
/// region grows where the data ends past it.
fn write_at(region: &mut Vec<u8>, offset: usize, data: &[u8])
    requires
        offset + data@.len() <= usize::MAX,
    ensures
        final(region)@ == written(old(region)@, offset as int, data@),
{
    if data.len() == 0 {
        return ;
    }
    let end = offset + data.len();
    if region.len() < end {
        region.resize(end, 0u8);
    }
    let ghost grown = region@;
    assert(grown =~= image(old(region)@, grown.len()));
    let mut j: usize = 0;
    while j < data.len()
        invariant
            j <= data@.len(),
            offset + data@.len() <= usize::MAX,
            offset + data@.len() <= region@.len() == grown.len(),
            forall|position: int|
                0 <= position < region@.len() ==> region@[position] == if offset <= position
                    < offset + j {
                    data@[position - offset]
                } else {
                    grown[position]
                },
        decreases data@.len() - j,
    {
        region[offset + j] = data[j];
        j += 1;
    }
    assert(region@ =~= written(old(region)@, offset as int, data@));
}

/// The `count` bytes of the region from `offset` on, or `None` where the
/// region ends before them.
fn read_at(region: &[u8], offset: usize, count: usize) -> (bytes: Option<&[u8]>)
    ensures
        bytes is Some <==> offset + count <= region@.len(),
        bytes matches Some(found) ==> found@ == region@.subrange(
            offset as int,
            offset + count,
        ),
{
    if count > region.len() || offset > region.len() - count {
        None
    } else {
        Some(vstd::slice::slice_subrange(region, offset, offset + count))
    }
}

/// A region of `length` zeros.
pub open spec fn zeros(length: nat) -> Seq<u8> {
    Seq::new(length, |position: int| 0u8)
}

/// Where word `k` of a medium lies, seen from sector `sector_idx`: its bytes
/// are inside the sector's bytes if the word is one of the sector's, and
/// wholly before or after them if it is not.
proof fn lemma_word_in_sector(k: int, sector_idx: int, sector_size: int, width: int)
    requires
        0 <= k,
        0 <= sector_idx,
        0 <= sector_size,
        0 <= width,
    ensures
        sector_idx * (sector_size * width) == (sector_idx * sector_size) * width,
        (k + 1) * width == k * width + width,
        0 <= k * width,
        sector_idx * sector_size <= k < (sector_idx + 1) * sector_size ==> {
            &&& k * width == sector_idx * (sector_size * width) + (k - sector_idx * sector_size)
                * width
            &&& (k - sector_idx * sector_size + 1) * width <= sector_size * width
            &&& 0 <= (k - sector_idx * sector_size) * width
        },
        k < sector_idx * sector_size ==> (k + 1) * width <= sector_idx * (sector_size * width),
        k >= (sector_idx + 1) * sector_size ==> k * width >= sector_idx * (sector_size * width)
            + sector_size * width,
{
    let first = sector_idx * sector_size;
    assert(sector_idx * (sector_size * width) == first * width) by (nonlinear_arith)
        requires
            first == sector_idx * sector_size,
    ;
    assert((k + 1) * width == k * width + width) by (nonlinear_arith);
    assert(0 <= k * width) by (nonlinear_arith)
        requires
            0 <= k,
            0 <= width,
    ;
    assert((sector_idx + 1) * sector_size == first + sector_size) by (nonlinear_arith)
        requires
            first == sector_idx * sector_size,
    ;
    if first <= k < first + sector_size {
        let j = k - first;
        assert(k * width == first * width + j * width) by (nonlinear_arith)
            requires
                j == k - first,
        ;
        assert((j + 1) * width <= sector_size * width) by (nonlinear_arith)
            requires
                j + 1 <= sector_size,
                0 <= width,
        ;
        assert(0 <= j * width) by (nonlinear_arith)
            requires
                0 <= j,
                0 <= width,
        ;
    }
    if k < first {
        assert((k + 1) * width <= first * width) by (nonlinear_arith)
            requires
                k + 1 <= first,
                0 <= width,
        ;
    }
    if k >= first + sector_size {
        assert(k * width >= (first + sector_size) * width) by (nonlinear_arith)
            requires
                k >= first + sector_size,
                0 <= width,
        ;
        assert((first + sector_size) * width == first * width + sector_size * width)
            by (nonlinear_arith);
    }
}

/// The words of a medium count its sectors times the words of a sector, and
/// their bytes are the bytes of its sectors.
proof fn lemma_medium_size<W: AsBytes, const SECTOR_SIZE: usize>(sectors: nat)
    ensures
        0 <= sectors * SECTOR_SIZE,
        sector_bytes::<W, SECTOR_SIZE>() == SECTOR_SIZE * W::NUM_BYTES,
        sectors * SECTOR_SIZE * W::NUM_BYTES == sectors * sector_bytes::<W, SECTOR_SIZE>(),
        words_in::<W, SECTOR_SIZE>(Seq::empty(), sectors).len() == sectors * SECTOR_SIZE,
{
    assert(0 <= SECTOR_SIZE * W::NUM_BYTES) by (nonlinear_arith);
    assert(sectors * SECTOR_SIZE * W::NUM_BYTES == sectors * (SECTOR_SIZE * W::NUM_BYTES))
        by (nonlinear_arith);
    assert(0 <= sectors * SECTOR_SIZE) by (nonlinear_arith)
        requires
            0 <= sectors,
            0 <= SECTOR_SIZE,
    ;
}

/// Writing the encoding of `words` where sector `sector_idx` starts makes
/// the sector hold `words`, leaves every other sector what it held, and
/// leaves the region long enough for the sector to be read.
pub proof fn lemma_written_sector<W: AsBytes, const SECTOR_SIZE: usize>(
    region: Seq<u8>,
    sectors: nat,
    sector_idx: int,
    words: Seq<W>,
)
    requires
        words.len() == SECTOR_SIZE,
        0 <= sector_idx < sectors,
    ensures
        words_in::<W, SECTOR_SIZE>(
            written(region, sector_idx * sector_bytes::<W, SECTOR_SIZE>(), encoded(words)),
            sectors,
        ) == with_sector(words_in::<W, SECTOR_SIZE>(region, sectors), sector_idx, words),
        written(region, sector_idx * sector_bytes::<W, SECTOR_SIZE>(), encoded(words)).len() >= (
        sector_idx + 1) * sector_bytes::<W, SECTOR_SIZE>(),
        written(region, sector_idx * sector_bytes::<W, SECTOR_SIZE>(), encoded(words)).len()
            >= region.len(),
{
    let width = W::NUM_BYTES as int;
    let size = SECTOR_SIZE as int;
    let in_a_sector = sector_bytes::<W, SECTOR_SIZE>() as int;
    let start = sector_idx * in_a_sector;
    let data = encoded(words);
    let after = written(region, start, data);
    let length = sectors * sector_bytes::<W, SECTOR_SIZE>();
    let before_words = words_in::<W, SECTOR_SIZE>(region, sectors);
    let after_words = words_in::<W, SECTOR_SIZE>(after, sectors);
    lemma_encoded_words(words);
    lemma_medium_size::<W, SECTOR_SIZE>(sectors);
    lemma_sector_bounds(sector_idx, sectors as int, in_a_sector);
    lemma_sector_bounds(sector_idx, sectors as int, size);
    assert(data.len() == in_a_sector == size * width);
    if in_a_sector == 0 {
        assert(start == 0) by (nonlinear_arith)
            requires
                start == sector_idx * in_a_sector,
                in_a_sector == 0,
        ;
    }
    assert(after.len() >= start + in_a_sector);
    assert forall|k: int| 0 <= k < sectors * SECTOR_SIZE implies after_words[k] == with_sector(
        before_words,
        sector_idx,
        words,
    )[k] by {
        lemma_word_in_sector(k, sector_idx, size, width);
        lemma_word_bounds(k, sectors * SECTOR_SIZE, width);
        let after_bytes = word_bytes::<W>(image(after, length), k);
        if sector_idx * size <= k < (sector_idx + 1) * size {
            let j = k - sector_idx * size;
            lemma_word_bounds(j, size, width);
            assert(start == sector_idx * (size * width));
            assert(k * width == start + j * width);
            assert((k + 1) * width <= length);
            assert forall|t: int| 0 <= t < width implies #[trigger] after_bytes[t] == word_bytes::<
                W,
            >(data, j)[t] by {
                assert(after_bytes[t] == image(after, length)[k * width + t]);
                assert(image(after, length)[k * width + t] == byte_at(after, k * width + t));
                assert(byte_at(after, k * width + t) == data[j * width + t]);
            }
            assert(after_bytes =~= word_bytes::<W>(data, j));
            assert(word_bytes::<W>(data, j) == words[j].encoding());
            W::lemma_round_trip(words[j]);
        } else {
            assert(after_bytes =~= word_bytes::<W>(image(region, length), k));
        }
    }
    assert(after_words =~= with_sector(before_words, sector_idx, words));
}

/// A word whose bytes the region holds is decoded from those bytes.
pub proof fn lemma_present_word<W: AsBytes, const SECTOR_SIZE: usize>(
    region: Seq<u8>,
    sectors: nat,
    k: int,
)
    requires
        0 <= k < sectors * SECTOR_SIZE,
        (k + 1) * W::NUM_BYTES <= region.len(),
    ensures
        words_in::<W, SECTOR_SIZE>(region, sectors)[k] == W::decoding(
            region.subrange(k * W::NUM_BYTES, (k + 1) * W::NUM_BYTES),
        ),
{
    let length = sectors * sector_bytes::<W, SECTOR_SIZE>();
    lemma_medium_size::<W, SECTOR_SIZE>(sectors);
    lemma_word_bounds(k, sectors * SECTOR_SIZE, W::NUM_BYTES as int);
    assert(word_bytes::<W>(image(region, length), k) =~= region.subrange(
        k * W::NUM_BYTES,
        (k + 1) * W::NUM_BYTES,
    ));
}

/// A sector whose bytes the region holds is decoded from those bytes.
pub proof fn lemma_present_sector<W: AsBytes, const SECTOR_SIZE: usize>(
    region: Seq<u8>,
    sectors: nat,
    sector_idx: int,
)
    requires
        0 <= sector_idx < sectors,
        (sector_idx + 1) * sector_bytes::<W, SECTOR_SIZE>() <= region.len(),
    ensures
        sector_of(words_in::<W, SECTOR_SIZE>(region, sectors), sector_idx, SECTOR_SIZE as int)
            == decoded::<W>(
            region.subrange(
                sector_idx * sector_bytes::<W, SECTOR_SIZE>(),
                (sector_idx + 1) * sector_bytes::<W, SECTOR_SIZE>(),
            ),
            SECTOR_SIZE as nat,
        ),
{
    let width = W::NUM_BYTES as int;
    let size = SECTOR_SIZE as int;
    let in_a_sector = sector_bytes::<W, SECTOR_SIZE>() as int;
    let start = sector_idx * in_a_sector;
    let chunk = region.subrange(start, (sector_idx + 1) * in_a_sector);
    let held = words_in::<W, SECTOR_SIZE>(region, sectors);
    lemma_medium_size::<W, SECTOR_SIZE>(sectors);
    lemma_sector_bounds(sector_idx, sectors as int, in_a_sector);
    lemma_sector_bounds(sector_idx, sectors as int, size);
    assert forall|j: int| 0 <= j < size implies sector_of(held, sector_idx, size)[j] == decoded::<
        W,
    >(chunk, SECTOR_SIZE as nat)[j] by {
        let k = sector_idx * size + j;
        lemma_word_in_sector(k, sector_idx, size, width);
        lemma_word_bounds(j, size, width);
        lemma_present_word::<W, SECTOR_SIZE>(region, sectors, k);
        assert(word_bytes::<W>(chunk, j) =~= region.subrange(k * width, (k + 1) * width));
    }
    assert(sector_of(held, sector_idx, size) =~= decoded::<W>(chunk, SECTOR_SIZE as nat));
}

/// Write and read back: once the encoding of `words` is written where sector
/// `sector_idx` starts, the region holds the whole sector, the sector decodes
/// to `words`, and every other sector decodes to what it did before.
pub proof fn lemma_sector_round_trip<W: AsBytes, const SECTOR_SIZE: usize>(
    region: Seq<u8>,
    sectors: nat,
    sector_idx: int,
    words: Seq<W>,
    other_idx: int,
)
    requires
        words.len() == SECTOR_SIZE,
        0 <= sector_idx < sectors,
        0 <= other_idx < sectors,
    ensures
        ({
            let start = sector_idx * sector_bytes::<W, SECTOR_SIZE>();
            let after = written(region, start, encoded(words));
            &&& start + sector_bytes::<W, SECTOR_SIZE>() <= after.len()
            &&& decoded::<W>(
                after.subrange(start, start + sector_bytes::<W, SECTOR_SIZE>()),
                SECTOR_SIZE as nat,
            ) == words
            &&& sector_of(words_in::<W, SECTOR_SIZE>(after, sectors), sector_idx, SECTOR_SIZE as int)
                == words
            &&& other_idx != sector_idx ==> sector_of(
                words_in::<W, SECTOR_SIZE>(after, sectors),
                other_idx,
                SECTOR_SIZE as int,
            ) == sector_of(
                words_in::<W, SECTOR_SIZE>(region, sectors),
                other_idx,
                SECTOR_SIZE as int,
            )
        }),
{
    let in_a_sector = sector_bytes::<W, SECTOR_SIZE>() as int;
    let start = sector_idx * in_a_sector;
    let after = written(region, start, encoded(words));
    let before_words = words_in::<W, SECTOR_SIZE>(region, sectors);
    lemma_medium_size::<W, SECTOR_SIZE>(sectors);
    lemma_sector_bounds(sector_idx, sectors as int, in_a_sector);
    lemma_written_sector::<W, SECTOR_SIZE>(region, sectors, sector_idx, words);
    lemma_present_sector::<W, SECTOR_SIZE>(after, sectors, sector_idx);
    lemma_sector_read_back(before_words, sectors as int, sector_idx, words, other_idx);
}

/// A storage medium of `SECTOR_SIZE` words of type `W` to the sector, kept
/// in a flat byte region as a backing file holds it.
///
/// The number of sectors is fixed when the medium is made and kept beside
/// the region: it never follows the region's length. A sector that lies past
/// the end of the region has never been written: reading it gives
/// `Uninitialized`, and writing it makes the region grow, with zeros for
/// whatever lies between.
pub struct FileBackedStorage<W: AsBytes, const SECTOR_SIZE: usize> {
    bytes: Vec<u8>,
    size_in_sectors: usize,
    word: PhantomData<W>,
}

impl<W: AsBytes, const SECTOR_SIZE: usize> FileBackedStorage<W, SECTOR_SIZE> {
    /// The bytes of the backing region.
    pub closed spec fn region(&self) -> Seq<u8> {
        self.bytes@
    }

    /// A new medium of `size_in_sectors` sectors, over a new region of
    /// exactly that many sectors' bytes, all zero.
    pub fn new(size_in_sectors: usize) -> (storage: Self)
        requires
            fits::<W, SECTOR_SIZE>(size_in_sectors as nat),
        ensures
            storage.inv(),
            storage.sectors() == size_in_sectors,
            storage.region() == zeros((size_in_sectors * sector_bytes::<W, SECTOR_SIZE>()) as nat),
    {
        let mut bytes: Vec<u8> = Vec::new();
        bytes.resize(size_in_sectors * (SECTOR_SIZE * W::NUM_BYTES), 0u8);
        assert(bytes@ =~= zeros((size_in_sectors * sector_bytes::<W, SECTOR_SIZE>()) as nat));
        FileBackedStorage { bytes, size_in_sectors, word: PhantomData }
    }

    /// The medium that an existing region backs. Its number of sectors is
    /// the region's length divided by the bytes of a sector; a region that
    /// is not a whole number of sectors is refused with `InvalidInput`.
    pub fn from_file(bytes: Vec<u8>) -> (opened: Result<Self, BackingError>)
        requires
            sector_bytes::<W, SECTOR_SIZE>() <= usize::MAX,
        ensures
            match opened {
                Ok(storage) => {
                    &&& storage.inv()
                    &&& storage.region() == bytes@
                    &&& sector_bytes::<W, SECTOR_SIZE>() > 0
                    &&& storage.sectors() * sector_bytes::<W, SECTOR_SIZE>() == bytes@.len()
                },
                Err(error) => {
                    &&& sector_bytes::<W, SECTOR_SIZE>() == 0 || (bytes@.len() as int) % (
                    sector_bytes::<W, SECTOR_SIZE>() as int) != 0
                    &&& error == (BackingError::InvalidInput {
                        length: bytes@.len() as usize,
                        sector_bytes: sector_bytes::<W, SECTOR_SIZE>() as usize,
                    })
                },
            },
    {
        match sectors_in::<W, SECTOR_SIZE>(bytes.len()) {
            Ok(size_in_sectors) => Ok(FileBackedStorage { bytes, size_in_sectors, word: PhantomData }),
            Err(error) => Err(error),
        }
    }

    /// The medium that an existing region backs, with the number of sectors
    /// that the caller states in place of the one that the region's length
    /// gives. The region is held to the same rule as in `from_file`.
    pub fn from_file_with_explicit_size(bytes: Vec<u8>, size_in_sectors: usize) -> (opened: Result<
        Self,
        BackingError,
    >)
        requires
            fits::<W, SECTOR_SIZE>(size_in_sectors as nat),
        ensures
            match opened {
                Ok(storage) => {
                    &&& storage.inv()
                    &&& storage.region() == bytes@
                    &&& storage.sectors() == size_in_sectors
                    &&& sector_bytes::<W, SECTOR_SIZE>() > 0
                    &&& (bytes@.len() as int) % (sector_bytes::<W, SECTOR_SIZE>() as int) == 0
                },
                Err(error) => {
                    &&& sector_bytes::<W, SECTOR_SIZE>() == 0 || (bytes@.len() as int) % (
                    sector_bytes::<W, SECTOR_SIZE>() as int) != 0
                    &&& error == (BackingError::InvalidInput {
                        length: bytes@.len() as usize,
                        sector_bytes: sector_bytes::<W, SECTOR_SIZE>() as usize,
                    })
                },
            },
    {
        match Self::from_file(bytes) {
            Ok(storage) => {
                let mut storage = storage;
                proof {
                    let in_a_sector = sector_bytes::<W, SECTOR_SIZE>() as int;
                    let count = storage.sectors() as int;
                    assert((count * in_a_sector) % in_a_sector == 0) by (nonlinear_arith)
                        requires
                            in_a_sector > 0,
                    ;
                }
                storage.size_in_sectors = size_in_sectors;
                Ok(storage)
            },
            Err(error) => Err(error),
        }
    }

    /// The bytes of the backing region.
    pub fn as_bytes(&self) -> (bytes: &[u8])
        ensures
            bytes@ == self.region(),
    {
        self.bytes.as_slice()
    }

    /// Gives up the medium for its backing region.
    pub fn into_bytes(self) -> (bytes: Vec<u8>)
        ensures
            bytes@ == self.region(),
    {
        self.bytes
    }
}

impl<W: AsBytes, const SECTOR_SIZE: usize> Storage<SECTOR_SIZE> for FileBackedStorage<
    W,
    SECTOR_SIZE,
> {
    type Word = W;

    type ReadErr = BackingError;

    type WriteErr = BackingError;

    open spec fn contents(&self) -> Seq<W> {
        words_in::<W, SECTOR_SIZE>(self.region(), self.sectors())
    }

    closed spec fn sectors(&self) -> nat {
        self.size_in_sectors as nat
    }

    open spec fn inv(&self) -> bool {
        fits::<W, SECTOR_SIZE>(self.sectors())
    }

    open spec fn sure_answer(&self, word_offset: int) -> Option<
        Result<W, ReadError<BackingError>>,
    > {
        if word_offset < 0 {
            None
        } else if word_offset >= self.contents().len() {
            Some(
                Err(
                    ReadError::OutOfRange {
                        requested_offset: word_offset as usize,
                        max_offset: self.contents().len() as usize,
                    },
                ),
            )
        } else if (word_offset + 1) * W::NUM_BYTES > self.region().len() {
            Some(Err(ReadError::Uninitialized { offset: word_offset as usize }))
        } else {
            Some(Ok(self.contents()[word_offset]))
        }
    }

    fn capacity(&self) -> (sectors: usize) {
        proof {
            lemma_medium_size::<W, SECTOR_SIZE>(self.sectors());
        }
        self.size_in_sectors
    }

    /// Reads the word at `word_offset`: `OutOfRange` in words where the
    /// medium has no such word, `Uninitialized` where the word lies past the
    /// end of the region, and else the word.
    fn read_word(&self, word_offset: usize) -> (word: Result<W, ReadError<BackingError>>)
        ensures
            Some(word) == self.sure_answer(word_offset as int),
    {
        proof {
            lemma_medium_size::<W, SECTOR_SIZE>(self.sectors());
        }
        let start = match word_start::<W, SECTOR_SIZE>(self.size_in_sectors, word_offset) {
            Some(start) => start,
            None => {
                return Err(
                    ReadError::OutOfRange {
                        requested_offset: word_offset,
                        max_offset: self.size_in_sectors * SECTOR_SIZE,
                    },
                );
            },
        };
        proof {
            lemma_word_bounds(
                word_offset as int,
                self.contents().len() as int,
                W::NUM_BYTES as int,
            );
        }
        match read_at(self.bytes.as_slice(), start, W::NUM_BYTES) {
            None => Err(ReadError::Uninitialized { offset: word_offset }),
            Some(found) => match W::from(found) {
                Some((word, _)) => {
                    proof {
                        lemma_present_word::<W, SECTOR_SIZE>(
                            self.region(),
                            self.sectors(),
                            word_offset as int,
                        );
                        assert(found@.take(W::NUM_BYTES as int) =~= found@);
                    }
                    Ok(word)
                },
                None => {
                    assert(false);
                    Err(ReadError::Uninitialized { offset: word_offset })
                },
            },
        }
    }

    /// Reads sector `sector_idx` in one piece: `OutOfRange` in sectors where
    /// the medium has no such sector, `Uninitialized` where the sector lies
    /// past the end of the region, and else the sector. Any error leaves the
    /// buffer untouched.
    fn read_sector(&mut self, sector_idx: usize, buffer: &mut [W; SECTOR_SIZE]) -> (result: Result<
        (),
        ReadError<BackingError>,
    >)
        ensures
            final(self).region() == old(self).region(),
            result is Err ==> final(buffer)@ == old(buffer)@,
            sector_idx >= old(self).sectors() ==> {
                &&& result matches Err(ReadError::OutOfRange { requested_offset, max_offset })
                &&& requested_offset == sector_idx
                &&& max_offset == old(self).sectors()
            },
            sector_idx < old(self).sectors() && (sector_idx + 1) * sector_bytes::<W, SECTOR_SIZE>()
                > old(self).region().len() ==> {
                &&& result matches Err(ReadError::Uninitialized { offset })
                &&& offset == sector_idx
            },
            sector_idx < old(self).sectors() && (sector_idx + 1) * sector_bytes::<W, SECTOR_SIZE>()
                <= old(self).region().len() ==> result is Ok,
    {
        let start = match sector_start::<W, SECTOR_SIZE>(self.size_in_sectors, sector_idx) {
            Some(start) => start,
            None => {
                return Err(
                    ReadError::OutOfRange {
                        requested_offset: sector_idx,
                        max_offset: self.size_in_sectors,
                    },
                );
            },
        };
        proof {
            lemma_sector_bounds(
                sector_idx as int,
                self.sectors() as int,
                sector_bytes::<W, SECTOR_SIZE>() as int,
            );
        }
        match read_at(self.bytes.as_slice(), start, SECTOR_SIZE * W::NUM_BYTES) {
            None => {
                proof {
                    lemma_medium_size::<W, SECTOR_SIZE>(self.sectors());
                    let last = (sector_idx + 1) * SECTOR_SIZE - 1;
                    lemma_sector_bounds(
                        sector_idx as int,
                        self.sectors() as int,
                        SECTOR_SIZE as int,
                    );
                    assert((last + 1) * W::NUM_BYTES == (sector_idx + 1) * (SECTOR_SIZE
                        * W::NUM_BYTES)) by (nonlinear_arith)
                        requires
                            last + 1 == (sector_idx + 1) * SECTOR_SIZE,
                    ;
                    if SECTOR_SIZE * W::NUM_BYTES == 0 {
                        assert(start == 0) by (nonlinear_arith)
                            requires
                                start == sector_idx * (SECTOR_SIZE * W::NUM_BYTES),
                                SECTOR_SIZE * W::NUM_BYTES == 0,
                        ;
                    }
                    assert(SECTOR_SIZE > 0) by (nonlinear_arith)
                        requires
                            SECTOR_SIZE * W::NUM_BYTES > 0,
                            SECTOR_SIZE >= 0,
                    ;
                    assert(self.sure_answer(last) matches Some(Err(_)));
                }
                Err(ReadError::Uninitialized { offset: sector_idx })
            },
            Some(found) => {
                decode_words::<W>(found, buffer);
                proof {
                    lemma_present_sector::<W, SECTOR_SIZE>(
                        self.region(),
                        self.sectors(),
                        sector_idx as int,
                    );
                    lemma_medium_size::<W, SECTOR_SIZE>(self.sectors());
                    lemma_sector_bounds(
                        sector_idx as int,
                        self.sectors() as int,
                        SECTOR_SIZE as int,
                    );
                    assert forall|offset: int|
                        sector_idx * SECTOR_SIZE <= offset < (sector_idx + 1)
                            * SECTOR_SIZE implies #[trigger] self.sure_answer(offset) is Some
                        && self.sure_answer(offset)->0 is Ok by {
                        let j = offset - sector_idx * SECTOR_SIZE;
                        lemma_word_in_sector(
                            offset,
                            sector_idx as int,
                            SECTOR_SIZE as int,
                            W::NUM_BYTES as int,
                        );
                        lemma_word_bounds(j, SECTOR_SIZE as int, W::NUM_BYTES as int);
                        assert(offset < self.contents().len());
                        assert((offset + 1) * W::NUM_BYTES == start + (j + 1) * W::NUM_BYTES);
                        assert((offset + 1) * W::NUM_BYTES <= self.region().len());
                    }
                }
                Ok(())
            },
        }
    }

    /// Writes `words` to sector `sector_idx` in one piece: `OutOfRange` in
    /// sectors where the medium has no such sector, which leaves the region
    /// as it was, and else a success, after which the region holds the
    /// encoding of `words` where the sector starts.
    fn write_sector(&mut self, sector_idx: usize, words: &[W; SECTOR_SIZE]) -> (result: Result<
        (),
        WriteError<BackingError>,
    >)
        ensures
            sector_idx >= old(self).sectors() ==> {
                &&& result matches Err(WriteError::OutOfRange { requested_offset, max_offset })
                &&& requested_offset == sector_idx
                &&& max_offset == old(self).sectors()
                &&& final(self).region() == old(self).region()
            },
            sector_idx < old(self).sectors() ==> {
                &&& result is Ok
                &&& final(self).region() == written(
                    old(self).region(),
                    sector_idx * sector_bytes::<W, SECTOR_SIZE>(),
                    encoded(words@),
                )
                &&& final(self).region().len() >= (sector_idx + 1) * sector_bytes::<
                    W,
                    SECTOR_SIZE,
                >()
            },
    {
        let start = match sector_start::<W, SECTOR_SIZE>(self.size_in_sectors, sector_idx) {
            Some(start) => start,
            None => {
                return Err(
                    WriteError::OutOfRange {
                        requested_offset: sector_idx,
                        max_offset: self.size_in_sectors,
                    },
                );
            },
        };
        let data = encode_words::<W>(words.as_slice());
        proof {
            lemma_encoded_words(words@);
            lemma_written_sector::<W, SECTOR_SIZE>(
                self.region(),
                self.sectors(),
                sector_idx as int,
                words@,
            );
        }
        write_at(&mut self.bytes, start, data.as_slice());
        Ok(())
    }
}

} // verus!
