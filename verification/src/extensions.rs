//! What some media can do beyond the core trait. A medium implements the
//! traits of the abilities it has, and no other.

use crate::errors::EraseError;
use crate::storage::Storage;
use core::fmt::Debug;
use vstd::prelude::*;

verus! {

/// A medium that can write single words, as an EEPROM can.
pub trait WordWritable<const SECTOR_SIZE: usize>: Storage<SECTOR_SIZE> {
    /// Writes `word` at the word offset `addr`.
    ///
    /// An offset that is not below `capacity_in_words()` is refused and
    /// leaves the medium as it was. After a success the medium holds `word`
    /// there and every other word as before. The size never changes.
    fn write_word(&mut self, addr: usize, word: Self::Word) -> (result: Result<(), ()>)
        requires
            old(self).inv(),
        ensures
            final(self).inv(),
            final(self).sectors() == old(self).sectors(),
            addr >= old(self).contents().len() ==> result is Err && final(self).contents() == old(
                self,
            ).contents(),
            result is Ok ==> final(self).contents() == old(self).contents().update(
                addr as int,
                word,
            ),
    ;
}

/// A medium whose words must be erased, a sector at a time, before they can
/// be written, and can then be written once: the medium keeps track, while
/// it runs, of the words that are erased and not yet written.
///
/// The tracking rests on the medium being the only one over its words: two
/// live media must not share a range of them.
pub trait Flash<const SECTOR_SIZE: usize>: Storage<SECTOR_SIZE> {
    /// Whether the word at `word_offset` has been erased and not been
    /// written since.
    open spec fn erased(&self, word_offset: int) -> bool {
        false
    }

    /// Erases sector `sector_idx`, after which every word of it can be
    /// written once.
    ///
    /// An index that is not below `capacity()` is refused. A failure changes
    /// nothing that the medium tracks; a success changes it for the words of
    /// this sector only, and leaves the words of every other sector as they
    /// were. The size never changes.
    fn erase_sector(&mut self, sector_idx: usize) -> (result: Result<(), ()>)
        requires
            old(self).inv(),
        ensures
            final(self).inv(),
            final(self).sectors() == old(self).sectors(),
            final(self).contents().len() == old(self).contents().len(),
            sector_idx >= old(self).sectors() ==> result is Err,
            result is Err ==> forall|word_offset: int|
                final(self).erased(word_offset) == old(self).erased(word_offset),
            result is Ok ==> forall|word_offset: int|
                #![trigger final(self).erased(word_offset)]
                0 <= word_offset < old(self).contents().len() ==> if sector_idx * SECTOR_SIZE
                    <= word_offset < (sector_idx + 1) * SECTOR_SIZE {
                    final(self).erased(word_offset)
                } else {
                    &&& final(self).erased(word_offset) == old(self).erased(word_offset)
                    &&& final(self).contents()[word_offset] == old(self).contents()[word_offset]
                },
    ;

    /// Writes `word` at the word offset `addr`, which must be erased.
    ///
    /// The write succeeds only on a word of the medium that has been erased
    /// and not written since: a word that was never erased, and one that was
    /// written since it was last erased, are refused. A write that is
    /// refused changes nothing. After a success the medium holds `word`
    /// there, the word is no longer erased, and every other word is as
    /// before. The size never changes.
    fn program_word(&mut self, addr: usize, word: Self::Word) -> (result: Result<(), ()>)
        requires
            old(self).inv(),
        ensures
            final(self).inv(),
            final(self).sectors() == old(self).sectors(),
            addr >= old(self).contents().len() || !old(self).erased(addr as int) ==> {
                &&& result is Err
                &&& final(self).contents() == old(self).contents()
                &&& forall|word_offset: int|
                    final(self).erased(word_offset) == old(self).erased(word_offset)
            },
            result is Ok ==> {
                &&& final(self).contents() == old(self).contents().update(addr as int, word)
                &&& forall|word_offset: int|
                    final(self).erased(word_offset) == (word_offset != addr && old(self).erased(
                        word_offset,
                    ))
            },
    ;
}

/// A medium that has a fast way to erase all of itself.
pub trait Eraseable<const SECTOR_SIZE: usize>: Storage<SECTOR_SIZE> {
    /// What the medium itself reports when an erase fails.
    type EraseErr: Debug;

    /// The word that every location holds once it is erased.
    open spec fn erased_word() -> Self::Word {
        arbitrary()
    }

    /// Erases the whole medium: after a success every word is the erased
    /// word. A medium that erases by single writes reports the failure of one
    /// of them as `ErrorInIndividualErase`. The size never changes.
    fn erase(&mut self) -> (result: Result<
        (),
        EraseError<<Self as Storage<SECTOR_SIZE>>::WriteErr, Self::EraseErr>,
    >)
        requires
            old(self).inv(),
        ensures
            final(self).inv(),
            final(self).sectors() == old(self).sectors(),
            result is Ok ==> final(self).contents() == Seq::new(
                old(self).contents().len(),
                |word_offset: int| Self::erased_word(),
            ),
    ;
}

} // verus!
