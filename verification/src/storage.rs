//! The core trait: a medium that is read word by word and written sector by
//! sector.

use crate::bytes::AsBytes;
use crate::errors::{ReadError, WriteError};
use core::fmt::Debug;
use vstd::prelude::*;

verus! {

/// The words of sector `sector_idx`, in a medium whose sectors have
/// `sector_size` words and whose words are `contents`.
pub open spec fn sector_of<W>(contents: Seq<W>, sector_idx: int, sector_size: int) -> Seq<W> {
    contents.subrange(sector_idx * sector_size, (sector_idx + 1) * sector_size)
}

/// `contents` with sector `sector_idx` replaced by `words`.
pub open spec fn with_sector<W>(contents: Seq<W>, sector_idx: int, words: Seq<W>) -> Seq<W> {
    Seq::new(
        contents.len(),
        |i: int|
            if sector_idx * words.len() <= i < (sector_idx + 1) * words.len() {
                words[i - sector_idx * words.len()]
            } else {
                contents[i]
            },
    )
}

/// Whether a read of `count` words from `word_offset` reaches past the end
/// of a medium of `words` words. A read of no word never does.
pub open spec fn reaches_past(word_offset: int, count: int, words: int) -> bool {
    count > 0 && word_offset + count - 1 >= words
}

/// Whether `after` is `before` with its first `done` words replaced by the
/// words of `contents` from `word_offset` on.
pub open spec fn filled_to<W>(
    after: Seq<W>,
    before: Seq<W>,
    contents: Seq<W>,
    word_offset: int,
    done: int,
) -> bool {
    &&& 0 <= done <= before.len() == after.len()
    &&& word_offset + done <= contents.len()
    &&& after.take(done) == contents.subrange(word_offset, word_offset + done)
    &&& after.skip(done) == before.skip(done)
}

/// A storage medium of `capacity()` sectors of `SECTOR_SIZE` words each.
///
/// Words are the unit of reading, sectors the unit of writing. The three
/// units of its size always agree: it holds `capacity()` sectors, which are
/// `capacity() * SECTOR_SIZE` words, which are that many times
/// `Word::NUM_BYTES` bytes.
///
/// An implementor supplies `capacity`, `read_word` and `write_sector`; the
/// other operations come with the trait, and an implementor that has a faster
/// way may replace them within their contracts.
pub trait Storage<const SECTOR_SIZE: usize> {
    /// The unit of reading.
    type Word: AsBytes;

    /// What the medium itself reports when a read fails.
    type ReadErr: Debug;

    /// What the medium itself reports when a write fails.
    type WriteErr: Debug;

    /// The words that the medium holds, in the order of their offsets.
    ///
    /// This and the three functions after it are what the contracts speak
    /// of. A medium that does not say what they are claims nothing of itself,
    /// and is promised nothing.
    open spec fn contents(&self) -> Seq<Self::Word> {
        Seq::empty()
    }

    /// The number of sectors.
    open spec fn sectors(&self) -> nat {
        0
    }

    /// What the implementor keeps true of a medium between operations.
    open spec fn inv(&self) -> bool {
        false
    }

    /// What the medium is sure to answer when it is asked for the word at
    /// `word_offset`, or `None` where it cannot tell before it has tried: a
    /// medium whose reads can fail for reasons that its state does not show
    /// says `None` throughout.
    open spec fn sure_answer(&self, word_offset: int) -> Option<
        Result<Self::Word, ReadError<Self::ReadErr>>,
    > {
        None
    }

    /// The size in sectors.
    ///
    /// This is where the implementor shows that the units agree: the words
    /// are the sectors times `SECTOR_SIZE`, and the size in each unit fits in
    /// a `usize`.
    fn capacity(&self) -> (sectors: usize)
        requires
            self.inv(),
        ensures
            sectors == self.sectors(),
            self.contents().len() == sectors * SECTOR_SIZE,
            sectors * SECTOR_SIZE <= usize::MAX,
            sectors * SECTOR_SIZE * Self::Word::NUM_BYTES <= usize::MAX,
    ;

    /// The size in words.
    fn capacity_in_words(&self) -> (words: usize)
        requires
            self.inv(),
        ensures
            words == self.sectors() * SECTOR_SIZE,
            words == self.contents().len(),
    {
        self.capacity() * SECTOR_SIZE
    }

    /// The size in bytes.
    fn capacity_in_bytes(&self) -> (bytes: usize)
        requires
            self.inv(),
        ensures
            bytes == self.sectors() * SECTOR_SIZE * Self::Word::NUM_BYTES,
    {
        let sectors = self.capacity();
        sectors * SECTOR_SIZE * <Self::Word as AsBytes>::NUM_BYTES
    }

    /// Reads the word at `word_offset`.
    ///
    /// An offset that is not below `capacity_in_words()` gives `OutOfRange`,
    /// and no other offset does. Within the medium, the implementor may give
    /// `Uninitialized` for a word that was never written, and `Other` for a
    /// failure of its own; a word that it hands out is the word it holds.
    /// Where the medium is sure of its answer, this is the answer.
    fn read_word(&self, word_offset: usize) -> (word: Result<
        Self::Word,
        ReadError<Self::ReadErr>,
    >)
        requires
            self.inv(),
        ensures
            (word matches Err(e) && e is OutOfRange) <==> word_offset >= self.contents().len(),
            word matches Ok(w) ==> w == self.contents()[word_offset as int],
            self.sure_answer(word_offset as int) matches Some(answer) ==> word == answer,
    ;

    /// Fills `buffer` with the words from `word_offset` on.
    ///
    /// An empty buffer is filled at once, whatever the offset. Otherwise the
    /// last word asked for is `word_offset + buffer.len() - 1`; if it lies
    /// outside the medium, the result is `OutOfRange` with that offset and
    /// `capacity_in_words()`, and the buffer is untouched. A read within the
    /// medium goes word by word and stops at the first word that `read_word`
    /// refuses, with that error: the words before it are in the buffer, the
    /// others are as they were. The medium itself never changes.
    fn read_words(&mut self, word_offset: usize, buffer: &mut [Self::Word]) -> (result: Result<
        (),
        ReadError<Self::ReadErr>,
    >)
        requires
            old(self).inv(),
            word_offset + old(buffer)@.len() - 1 <= usize::MAX,
        ensures
            final(self).inv(),
            final(self).contents() == old(self).contents(),
            final(self).sectors() == old(self).sectors(),
            forall|offset: int| final(self).sure_answer(offset) == old(self).sure_answer(offset),
            final(buffer)@.len() == old(buffer)@.len(),
            old(buffer)@.len() == 0 ==> result is Ok,
            reaches_past(
                word_offset as int,
                old(buffer)@.len() as int,
                old(self).contents().len() as int,
            ) ==> {
                &&& result matches Err(ReadError::OutOfRange { requested_offset, max_offset })
                &&& requested_offset == word_offset + old(buffer)@.len() - 1
                &&& max_offset == old(self).contents().len()
                &&& final(buffer)@ == old(buffer)@
            },
            old(buffer)@.len() > 0 && !reaches_past(
                word_offset as int,
                old(buffer)@.len() as int,
                old(self).contents().len() as int,
            ) ==> match result {
                Ok(()) => {
                    &&& filled_to(
                        final(buffer)@,
                        old(buffer)@,
                        old(self).contents(),
                        word_offset as int,
                        old(buffer)@.len() as int,
                    )
                    &&& forall|earlier: int|
                        word_offset <= earlier < word_offset + old(buffer)@.len() ==> !(
                        #[trigger] old(self).sure_answer(earlier) matches Some(Err(_)))
                },
                Err(e) => !(e is OutOfRange) && exists|done: int|
                    {
                        &&& done < old(buffer)@.len()
                        &&& #[trigger] filled_to(
                            final(buffer)@,
                            old(buffer)@,
                            old(self).contents(),
                            word_offset as int,
                            done,
                        )
                        &&& old(self).sure_answer(word_offset + done) matches Some(answer)
                            ==> answer == Err::<Self::Word, ReadError<Self::ReadErr>>(e)
                        &&& forall|earlier: int|
                            word_offset <= earlier < word_offset + done ==> !(#[trigger] old(
                                self,
                            ).sure_answer(earlier) matches Some(Err(_)))
                    },
            },
            (forall|offset: int|
                word_offset <= offset < word_offset + old(buffer)@.len() ==> (#[trigger] old(
                    self,
                ).sure_answer(offset) matches Some(Ok(_)))) && !reaches_past(
                word_offset as int,
                old(buffer)@.len() as int,
                old(self).contents().len() as int,
            ) ==> result is Ok,
    {
        if buffer.len() == 0 {
            return Ok(());
        }
        let max_offset = word_offset + (buffer.len() - 1);
        let words = self.capacity_in_words();
        if max_offset >= words {
            return Err(ReadError::OutOfRange { requested_offset: max_offset, max_offset: words });
        }
        let mut idx: usize = 0;
        proof {
            assert(buffer@.take(0) =~= self.contents().subrange(
                word_offset as int,
                word_offset as int,
            ));
            assert(buffer@.skip(0) =~= buffer@);
        }
        while idx < buffer.len()
            invariant
                self.inv(),
                self.contents() == old(self).contents(),
                self.sectors() == old(self).sectors(),
                forall|offset: int| self.sure_answer(offset) == old(self).sure_answer(offset),
                forall|earlier: int|
                    word_offset <= earlier < word_offset + idx ==> !(#[trigger] old(
                        self,
                    ).sure_answer(earlier) matches Some(Err(_))),
                word_offset + buffer@.len() <= self.contents().len() <= usize::MAX,
                filled_to(
                    buffer@,
                    old(buffer)@,
                    old(self).contents(),
                    word_offset as int,
                    idx as int,
                ),
            decreases buffer@.len() - idx,
        {
            match self.read_word(word_offset + idx) {
                Ok(word) => {
                    let ghost filled = buffer@;
                    buffer[idx] = word;
                    proof {
                        let held = self.contents();
                        assert(buffer@.take(idx + 1) =~= filled.take(idx as int).push(word));
                        assert(held.subrange(word_offset as int, word_offset + idx + 1)
                            =~= held.subrange(word_offset as int, word_offset + idx).push(
                            held[word_offset + idx],
                        ));
                        assert(buffer@.skip(idx + 1) =~= filled.skip(idx as int).skip(1));
                        assert(old(buffer)@.skip(idx + 1) =~= old(buffer)@.skip(idx as int).skip(
                            1,
                        ));
                    }
                },
                Err(e) => {
                    return Err(e);
                },
            }
            idx += 1;
        }
        Ok(())
    }

    /// Reads sector `sector_idx` into `buffer`.
    ///
    /// As it comes with the trait, this is `read_words` at the sector's first
    /// word, `sector_idx * SECTOR_SIZE`, with that operation's results: an
    /// index outside the medium gives `OutOfRange` in words. An implementor
    /// with a faster way may replace it, and then reports such an index in the
    /// unit it checks it in. Either way an `OutOfRange` leaves the buffer
    /// untouched, a success fills it with the sector, a sector of whose
    /// words the medium is sure is read, and the medium never changes.
    fn read_sector(&mut self, sector_idx: usize, buffer: &mut [Self::Word; SECTOR_SIZE]) -> (result:
        Result<(), ReadError<Self::ReadErr>>)
        requires
            old(self).inv(),
            sector_idx * SECTOR_SIZE + SECTOR_SIZE - 1 <= usize::MAX,
        ensures
            final(self).inv(),
            final(self).contents() == old(self).contents(),
            final(self).sectors() == old(self).sectors(),
            forall|offset: int| final(self).sure_answer(offset) == old(self).sure_answer(offset),
            sector_idx < old(self).sectors() && (forall|offset: int|
                sector_idx * SECTOR_SIZE <= offset < (sector_idx + 1) * SECTOR_SIZE ==> (
                #[trigger] old(self).sure_answer(offset) matches Some(Ok(_)))) ==> result is Ok,
            SECTOR_SIZE > 0 && sector_idx >= old(self).sectors() ==> (result matches Err(e)
                && e is OutOfRange),
            result matches Err(e) && e is OutOfRange ==> sector_idx >= old(self).sectors()
                && final(buffer)@ == old(buffer)@,
            result is Ok && sector_idx < old(self).sectors() ==> final(buffer)@ == sector_of(
                old(self).contents(),
                sector_idx as int,
                SECTOR_SIZE as int,
            ),
            result is Ok ==> forall|offset: int|
                sector_idx * SECTOR_SIZE <= offset < (sector_idx + 1) * SECTOR_SIZE ==> !(
                #[trigger] old(self).sure_answer(offset) matches Some(Err(_))),
        default_ensures
            SECTOR_SIZE == 0 ==> result is Ok,
            SECTOR_SIZE > 0 && sector_idx >= old(self).sectors() ==> {
                &&& result matches Err(ReadError::OutOfRange { requested_offset, max_offset })
                &&& requested_offset == sector_idx * SECTOR_SIZE + SECTOR_SIZE - 1
                &&& max_offset == old(self).sectors() * SECTOR_SIZE
            },
            sector_idx < old(self).sectors() ==> (result matches Err(e) ==> exists|done: int|
                {
                    &&& done < SECTOR_SIZE
                    &&& #[trigger] filled_to(
                        final(buffer)@,
                        old(buffer)@,
                        old(self).contents(),
                        sector_idx * SECTOR_SIZE,
                        done,
                    )
                    &&& old(self).sure_answer(sector_idx * SECTOR_SIZE + done) matches Some(
                        answer,
                    ) ==> answer == Err::<Self::Word, ReadError<Self::ReadErr>>(e)
                    &&& forall|earlier: int|
                        sector_idx * SECTOR_SIZE <= earlier < sector_idx * SECTOR_SIZE + done
                            ==> !(#[trigger] old(self).sure_answer(earlier) matches Some(Err(_)))
                }),
    {
        let sectors = self.capacity();
        proof {
            lemma_sector_bounds(sector_idx as int, sectors as int, SECTOR_SIZE as int);
        }
        self.read_words(sector_idx * SECTOR_SIZE, buffer)
    }

    /// Writes `words` to sector `sector_idx`: the only way to change a medium.
    ///
    /// An index that is not below `capacity()` gives `OutOfRange`, and no other
    /// index does. A write that is refused leaves the medium as it was; only a
    /// failure of the medium's own, `Other`, may leave a sector half written.
    /// After a success the sector holds `words` and every other sector what it
    /// held. The size never changes.
    fn write_sector(&mut self, sector_idx: usize, words: &[Self::Word; SECTOR_SIZE]) -> (result:
        Result<(), WriteError<Self::WriteErr>>)
        requires
            old(self).inv(),
        ensures
            final(self).inv(),
            final(self).sectors() == old(self).sectors(),
            (result matches Err(e) && e is OutOfRange) <==> sector_idx >= old(self).sectors(),
            result is Ok ==> final(self).contents() == with_sector(
                old(self).contents(),
                sector_idx as int,
                words@,
            ),
            result matches Err(e) && !(e is Other) ==> final(self).contents() == old(
                self,
            ).contents(),
    ;
}

/// Where the sectors lie among the words: sector `sector_idx` of a medium of
/// `sectors` sectors ends within the medium exactly when the index is below
/// `sectors`.
pub proof fn lemma_sector_bounds(sector_idx: int, sectors: int, sector_size: int)
    requires
        0 <= sector_idx,
        0 <= sectors,
        0 <= sector_size,
    ensures
        0 <= sector_idx * sector_size,
        (sector_idx + 1) * sector_size == sector_idx * sector_size + sector_size,
        sector_idx < sectors ==> (sector_idx + 1) * sector_size <= sectors * sector_size,
        sector_idx >= sectors && sector_size > 0 ==> (sector_idx + 1) * sector_size - 1 >= sectors
            * sector_size,
{
    assert(0 <= sector_idx * sector_size) by (nonlinear_arith)
        requires
            0 <= sector_idx,
            0 <= sector_size,
    ;
    assert((sector_idx + 1) * sector_size == sector_idx * sector_size + sector_size)
        by (nonlinear_arith);
    if sector_idx < sectors {
        assert((sector_idx + 1) * sector_size <= sectors * sector_size) by (nonlinear_arith)
            requires
                sector_idx + 1 <= sectors,
                0 <= sector_size,
        ;
    } else {
        assert(sector_idx * sector_size >= sectors * sector_size) by (nonlinear_arith)
            requires
                sector_idx >= sectors,
                0 <= sector_size,
        ;
    }
}

/// What was written to a sector is what the sector then holds, and every
/// other sector holds what it held before.
pub proof fn lemma_sector_read_back<W>(
    contents: Seq<W>,
    sectors: int,
    sector_idx: int,
    words: Seq<W>,
    other_idx: int,
)
    requires
        contents.len() == sectors * words.len(),
        0 <= sector_idx < sectors,
        0 <= other_idx < sectors,
    ensures
        with_sector(contents, sector_idx, words).len() == contents.len(),
        sector_of(with_sector(contents, sector_idx, words), sector_idx, words.len() as int)
            == words,
        other_idx != sector_idx ==> sector_of(
            with_sector(contents, sector_idx, words),
            other_idx,
            words.len() as int,
        ) == sector_of(contents, other_idx, words.len() as int),
{
    let size = words.len() as int;
    let written = with_sector(contents, sector_idx, words);
    lemma_sector_bounds(sector_idx, sectors, size);
    lemma_sector_bounds(other_idx, sectors, size);
    assert(sector_of(written, sector_idx, size) =~= words);
    if other_idx < sector_idx {
        assert((other_idx + 1) * size <= sector_idx * size) by (nonlinear_arith)
            requires
                other_idx + 1 <= sector_idx,
                0 <= size,
        ;
        assert(sector_of(written, other_idx, size) =~= sector_of(contents, other_idx, size));
    } else if other_idx > sector_idx {
        assert((sector_idx + 1) * size <= other_idx * size) by (nonlinear_arith)
            requires
                sector_idx + 1 <= other_idx,
                0 <= size,
        ;
        assert(sector_of(written, other_idx, size) =~= sector_of(contents, other_idx, size));
    }
}

} // verus!
