//! Words as bytes: the codec that every word type brings, and the
//! little-endian codec of the unsigned integers.

use vstd::prelude::*;

verus! {

/// How many values `width` bytes can tell apart: 256 to the power `width`.
pub open spec fn le_limit(width: nat) -> nat
    decreases width,
{
    if width == 0 {
        1
    } else {
        256 * le_limit((width - 1) as nat)
    }
}

/// The `width` lowest base-256 digits of `value`, the least significant first.
pub open spec fn le_bytes(value: nat, width: nat) -> Seq<u8>
    decreases width,
{
    if width == 0 {
        Seq::empty()
    } else {
        seq![(value % 256) as u8] + le_bytes(value / 256, (width - 1) as nat)
    }
}

/// The number whose base-256 digits are `bytes`, the least significant first.
pub open spec fn le_value(bytes: Seq<u8>) -> nat
    decreases bytes.len(),
{
    if bytes.len() == 0 {
        0
    } else {
        bytes[0] as nat + 256 * le_value(bytes.skip(1))
    }
}

/// `le_bytes` gives exactly `width` bytes.
pub proof fn lemma_le_bytes_len(value: nat, width: nat)
    ensures
        le_bytes(value, width).len() == width,
    decreases width,
{
    if width > 0 {
        lemma_le_bytes_len(value / 256, (width - 1) as nat);
    }
}

/// A number spelled by `bytes` is below the limit of their count.
pub proof fn lemma_le_value_bound(bytes: Seq<u8>)
    ensures
        le_value(bytes) < le_limit(bytes.len()),
    decreases bytes.len(),
{
    if bytes.len() > 0 {
        lemma_le_value_bound(bytes.skip(1));
    }
}

/// More bytes tell more values apart.
pub proof fn lemma_le_limit_grows(narrow: nat, wide: nat)
    requires
        narrow <= wide,
    ensures
        0 < le_limit(narrow) <= le_limit(wide),
    decreases wide,
{
    if narrow < wide {
        lemma_le_limit_grows(narrow, (wide - 1) as nat);
    } else if wide > 0 {
        lemma_le_limit_grows((narrow - 1) as nat, (wide - 1) as nat);
    }
}

/// Spelling a number in `width` bytes and reading the bytes back gives the
/// number, as long as `width` bytes can hold it.
pub proof fn lemma_le_round_trip(value: nat, width: nat)
    requires
        value < le_limit(width),
    ensures
        le_value(le_bytes(value, width)) == value,
    decreases width,
{
    if width > 0 {
        let rest = le_bytes(value / 256, (width - 1) as nat);
        lemma_le_round_trip(value / 256, (width - 1) as nat);
        assert(le_bytes(value, width).skip(1) =~= rest);
    }
}

/// The first `narrow` of the `wide` digits of a number are its `narrow` digits.
pub proof fn lemma_le_bytes_prefix(value: nat, narrow: nat, wide: nat)
    requires
        narrow <= wide,
    ensures
        le_bytes(value, wide).take(narrow as int) == le_bytes(value, narrow),
    decreases narrow,
{
    lemma_le_bytes_len(value, wide);
    if narrow == 0 {
        assert(le_bytes(value, wide).take(0) =~= le_bytes(value, 0));
    } else {
        lemma_le_bytes_prefix(value / 256, (narrow - 1) as nat, (wide - 1) as nat);
        lemma_le_bytes_len(value / 256, (wide - 1) as nat);
        lemma_le_bytes_len(value / 256, (narrow - 1) as nat);
        let tail_wide = le_bytes(value / 256, (wide - 1) as nat);
        assert(le_bytes(value, wide).take(narrow as int) =~= seq![(value % 256) as u8]
            + tail_wide.take(narrow - 1));
    }
}

/// The `N` lowest bytes of `value`, the least significant first.
fn low_bytes<const N: usize>(value: u128) -> (bytes: [u8; N])
    ensures
        bytes@ == le_bytes(value as nat, N as nat),
{
    let mut bytes = [0u8; N];
    let mut rest: u128 = value;
    let mut i: usize = 0;
    while i < N
        invariant
            i <= N,
            bytes@.take(i as int) + le_bytes(rest as nat, (N - i) as nat) == le_bytes(
                value as nat,
                N as nat,
            ),
        decreases N - i,
    {
        let ghost before = bytes@;
        bytes[i] = (rest % 256) as u8;
        proof {
            assert(bytes@.take(i + 1) =~= before.take(i as int) + seq![(rest % 256) as u8]);
            assert(before.take(i as int) + le_bytes(rest as nat, (N - i) as nat) =~= bytes@.take(
                i + 1,
            ) + le_bytes((rest / 256) as nat, (N - i - 1) as nat));
        }
        rest = rest / 256;
        i += 1;
    }
    proof {
        assert(bytes@.take(N as int) + le_bytes(rest as nat, 0) =~= bytes@);
    }
    bytes
}

/// The number that at most sixteen bytes spell, the least significant first.
fn spelled(bytes: &[u8]) -> (value: u128)
    requires
        bytes@.len() <= 16,
    ensures
        value == le_value(bytes@),
{
    let mut value: u128 = 0;
    let mut i: usize = bytes.len();
    while i > 0
        invariant
            i <= bytes@.len() <= 16,
            value == le_value(bytes@.skip(i as int)),
        decreases i,
    {
        i -= 1;
        proof {
            let tail = bytes@.skip(i + 1);
            assert(bytes@.skip(i as int).skip(1) =~= tail);
            lemma_le_value_bound(tail);
            lemma_le_limit_grows(tail.len(), 15);
            lemma_le_limit_sixteen();
        }
        value = value * 256 + bytes[i] as u128;
    }
    assert(bytes@.skip(0) =~= bytes@);
    value
}

/// Sixteen bytes tell apart exactly the values of a `u128`.
pub proof fn lemma_le_limit_sixteen()
    ensures
        le_limit(1) == 0x100,
        le_limit(2) == 0x1_0000,
        le_limit(4) == 0x1_0000_0000,
        le_limit(8) == 0x1_0000_0000_0000_0000,
        le_limit(15) == 0x1_00_0000_0000_0000_0000_0000_0000_0000,
        le_limit(16) == 0x1_0000_0000_0000_0000_0000_0000_0000_0000,
{
    reveal_with_fuel(le_limit, 17);
}

/// The number of bytes of a `usize` on the machine the library is built for.
pub const USIZE_BYTES: usize = (usize::BITS / 8) as usize;

/// A value that has a byte encoding of a fixed width, and can be built back
/// from it.
///
/// The byte order is the implementor's choice, but encoding and decoding must
/// agree: `lemma_round_trip` is what every implementor proves.
pub trait AsBytes: Sized {
    /// The width of the encoding in bytes.
    const NUM_BYTES: usize;

    /// The buffer that `to` fills: one that holds exactly `NUM_BYTES` bytes.
    type To;

    /// The bytes that encode the value.
    ///
    /// This and the two functions after it are what the contracts speak of;
    /// an implementor says what they are for its type.
    open spec fn encoding(self) -> Seq<u8> {
        Seq::empty()
    }

    /// The value that `NUM_BYTES` bytes encode.
    open spec fn decoding(bytes: Seq<u8>) -> Self {
        arbitrary()
    }

    /// The bytes that a buffer holds.
    open spec fn held(buffer: Self::To) -> Seq<u8> {
        Seq::empty()
    }

    /// An encoding has `NUM_BYTES` bytes and decodes to the value it came from.
    proof fn lemma_round_trip(value: Self)
        ensures
            value.encoding().len() == Self::NUM_BYTES,
            Self::decoding(value.encoding()) == value,
    ;

    /// Builds a value from the first `NUM_BYTES` bytes and hands back the
    /// bytes that follow them. Gives `None` exactly when fewer than
    /// `NUM_BYTES` bytes are there.
    fn from(bytes: &[u8]) -> (decoded: Option<(Self, &[u8])>)
        ensures
            decoded is None <==> bytes@.len() < Self::NUM_BYTES,
            decoded matches Some((value, rest)) ==> {
                &&& value == Self::decoding(bytes@.take(Self::NUM_BYTES as int))
                &&& rest@ == bytes@.skip(Self::NUM_BYTES as int)
            },
    ;

    /// The encoding of a value. Never fails.
    fn to(s: &Self) -> (buffer: Self::To)
        ensures
            Self::held(buffer) == s.encoding(),
    ;

    /// The bytes of a buffer that `to` filled.
    fn bytes(buffer: &Self::To) -> (bytes: &[u8])
        ensures
            bytes@ == Self::held(*buffer),
    ;
}

/// Round trip: what `to` gives for a value is long enough for `from`, which
/// then gives the value back and leaves no byte over.
pub proof fn lemma_decode_encode<W: AsBytes>(value: W)
    ensures
        value.encoding().len() == W::NUM_BYTES,
        W::decoding(value.encoding().take(W::NUM_BYTES as int)) == value,
        value.encoding().skip(W::NUM_BYTES as int) == Seq::<u8>::empty(),
{
    W::lemma_round_trip(value);
    let bytes = value.encoding();
    assert(bytes.take(W::NUM_BYTES as int) =~= bytes);
}

impl AsBytes for u8 {
    const NUM_BYTES: usize = 1;

    type To = [u8; 1];

    open spec fn encoding(self) -> Seq<u8> {
        le_bytes(self as nat, 1)
    }

    open spec fn decoding(bytes: Seq<u8>) -> Self {
        le_value(bytes) as u8
    }

    open spec fn held(buffer: [u8; 1]) -> Seq<u8> {
        buffer@
    }

    proof fn lemma_round_trip(value: Self) {
        lemma_le_limit_sixteen();
        lemma_le_bytes_len(value as nat, 1);
        lemma_le_round_trip(value as nat, 1);
    }

    fn from(bytes: &[u8]) -> (decoded: Option<(Self, &[u8])>) {
        if bytes.len() < 1 {
            None
        } else {
            let (head, rest) = bytes.split_at(1);
            Some((spelled(head) as u8, rest))
        }
    }

    fn to(s: &Self) -> (buffer: [u8; 1]) {
        low_bytes::<1>(*s as u128)
    }

    fn bytes(buffer: &[u8; 1]) -> (bytes: &[u8]) {
        buffer.as_slice()
    }
}

impl AsBytes for u16 {
    const NUM_BYTES: usize = 2;

    type To = [u8; 2];

    open spec fn encoding(self) -> Seq<u8> {
        le_bytes(self as nat, 2)
    }

    open spec fn decoding(bytes: Seq<u8>) -> Self {
        le_value(bytes) as u16
    }

    open spec fn held(buffer: [u8; 2]) -> Seq<u8> {
        buffer@
    }

    proof fn lemma_round_trip(value: Self) {
        lemma_le_limit_sixteen();
        lemma_le_bytes_len(value as nat, 2);
        lemma_le_round_trip(value as nat, 2);
    }

    fn from(bytes: &[u8]) -> (decoded: Option<(Self, &[u8])>) {
        if bytes.len() < 2 {
            None
        } else {
            let (head, rest) = bytes.split_at(2);
            Some((spelled(head) as u16, rest))
        }
    }

    fn to(s: &Self) -> (buffer: [u8; 2]) {
        low_bytes::<2>(*s as u128)
    }

    fn bytes(buffer: &[u8; 2]) -> (bytes: &[u8]) {
        buffer.as_slice()
    }
}

impl AsBytes for u32 {
    const NUM_BYTES: usize = 4;

    type To = [u8; 4];

    open spec fn encoding(self) -> Seq<u8> {
        le_bytes(self as nat, 4)
    }

    open spec fn decoding(bytes: Seq<u8>) -> Self {
        le_value(bytes) as u32
    }

    open spec fn held(buffer: [u8; 4]) -> Seq<u8> {
        buffer@
    }

    proof fn lemma_round_trip(value: Self) {
        lemma_le_limit_sixteen();
        lemma_le_bytes_len(value as nat, 4);
        lemma_le_round_trip(value as nat, 4);
    }

    fn from(bytes: &[u8]) -> (decoded: Option<(Self, &[u8])>) {
        if bytes.len() < 4 {
            None
        } else {
            let (head, rest) = bytes.split_at(4);
            Some((spelled(head) as u32, rest))
        }
    }

    fn to(s: &Self) -> (buffer: [u8; 4]) {
        low_bytes::<4>(*s as u128)
    }

    fn bytes(buffer: &[u8; 4]) -> (bytes: &[u8]) {
        buffer.as_slice()
    }
}

impl AsBytes for u64 {
    const NUM_BYTES: usize = 8;

    type To = [u8; 8];

    open spec fn encoding(self) -> Seq<u8> {
        le_bytes(self as nat, 8)
    }

    open spec fn decoding(bytes: Seq<u8>) -> Self {
        le_value(bytes) as u64
    }

    open spec fn held(buffer: [u8; 8]) -> Seq<u8> {
        buffer@
    }

    proof fn lemma_round_trip(value: Self) {
        lemma_le_limit_sixteen();
        lemma_le_bytes_len(value as nat, 8);
        lemma_le_round_trip(value as nat, 8);
    }

    fn from(bytes: &[u8]) -> (decoded: Option<(Self, &[u8])>) {
        if bytes.len() < 8 {
            None
        } else {
            let (head, rest) = bytes.split_at(8);
            Some((spelled(head) as u64, rest))
        }
    }

    fn to(s: &Self) -> (buffer: [u8; 8]) {
        low_bytes::<8>(*s as u128)
    }

    fn bytes(buffer: &[u8; 8]) -> (bytes: &[u8]) {
        buffer.as_slice()
    }
}

impl AsBytes for u128 {
    const NUM_BYTES: usize = 16;

    type To = [u8; 16];

    open spec fn encoding(self) -> Seq<u8> {
        le_bytes(self as nat, 16)
    }

    open spec fn decoding(bytes: Seq<u8>) -> Self {
        le_value(bytes) as u128
    }

    open spec fn held(buffer: [u8; 16]) -> Seq<u8> {
        buffer@
    }

    proof fn lemma_round_trip(value: Self) {
        lemma_le_limit_sixteen();
        lemma_le_bytes_len(value as nat, 16);
        lemma_le_round_trip(value as nat, 16);
    }

    fn from(bytes: &[u8]) -> (decoded: Option<(Self, &[u8])>) {
        if bytes.len() < 16 {
            None
        } else {
            let (head, rest) = bytes.split_at(16);
            Some((spelled(head) as u128, rest))
        }
    }

    fn to(s: &Self) -> (buffer: [u8; 16]) {
        low_bytes::<16>(*s as u128)
    }

    fn bytes(buffer: &[u8; 16]) -> (bytes: &[u8]) {
        buffer.as_slice()
    }
}

impl AsBytes for usize {
    const NUM_BYTES: usize = USIZE_BYTES;

    /// Eight bytes, of which the first `NUM_BYTES` are the encoding: the
    /// widest `usize` has eight.
    type To = [u8; 8];

    open spec fn encoding(self) -> Seq<u8> {
        le_bytes(self as nat, USIZE_BYTES as nat)
    }

    open spec fn decoding(bytes: Seq<u8>) -> Self {
        le_value(bytes) as usize
    }

    open spec fn held(buffer: [u8; 8]) -> Seq<u8> {
        buffer@.take(USIZE_BYTES as int)
    }

    proof fn lemma_round_trip(value: Self) {
        lemma_usize_bytes();
        lemma_le_bytes_len(value as nat, USIZE_BYTES as nat);
        lemma_le_round_trip(value as nat, USIZE_BYTES as nat);
    }

    fn from(bytes: &[u8]) -> (decoded: Option<(Self, &[u8])>) {
        proof {
            lemma_usize_bytes();
        }
        if bytes.len() < USIZE_BYTES {
            None
        } else {
            let (head, rest) = bytes.split_at(USIZE_BYTES);
            Some((spelled(head) as usize, rest))
        }
    }

    fn to(s: &Self) -> (buffer: [u8; 8]) {
        proof {
            lemma_usize_bytes();
            lemma_le_bytes_prefix(*s as nat, USIZE_BYTES as nat, 8);
        }
        low_bytes::<8>(*s as u128)
    }

    fn bytes(buffer: &[u8; 8]) -> (bytes: &[u8]) {
        proof {
            lemma_usize_bytes();
        }
        vstd::slice::slice_subrange(buffer.as_slice(), 0, USIZE_BYTES)
    }
}

/// The widths of the integer words.
pub proof fn lemma_num_bytes()
    ensures
        <u8 as AsBytes>::NUM_BYTES == 1,
        <u16 as AsBytes>::NUM_BYTES == 2,
        <u32 as AsBytes>::NUM_BYTES == 4,
        <u64 as AsBytes>::NUM_BYTES == 8,
        <u128 as AsBytes>::NUM_BYTES == 16,
        <usize as AsBytes>::NUM_BYTES == USIZE_BYTES,
{
}

/// A `usize` has four or eight bytes, and they tell apart exactly its values.
pub proof fn lemma_usize_bytes()
    ensures
        USIZE_BYTES == 4 || USIZE_BYTES == 8,
        le_limit(USIZE_BYTES as nat) == usize::MAX + 1,
{
    lemma_le_limit_sixteen();
}

} // verus!
