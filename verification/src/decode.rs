//! The byte cursor that every decoder reads from, the fixed-width big-endian
//! readers, and the error that a failed decode reports.

use vstd::prelude::*;

verus! {

/// What a decoder was looking for when it failed.
#[derive(Clone, Copy, PartialEq, Eq, Debug)]
pub enum Expected {
    /// An 8-bit unsigned integer.
    Uint8,
    /// An 8-bit signed integer.
    Int8,
    /// A 16-bit unsigned integer.
    Uint16,
    /// A 16-bit signed integer.
    Int16,
    /// A 24-bit unsigned integer.
    Uint24,
    /// A 32-bit unsigned integer.
    Uint32,
    /// A 32-bit signed integer.
    Int32,
    /// A 64-bit signed integer.
    Int64,
    /// A 32-bit IEEE-754 number.
    Single,
    /// A 64-bit IEEE-754 number.
    Double,
    /// The byte `\n`.
    Newline,
    /// The tag byte of a value.
    Value,
    /// A raw byte of a byte string.
    ByteString,
    /// The tag byte of a component index.
    ComponentIndex,
    /// The number of component indices of an entity.
    ComponentIndexCount,
    /// The header line of a component array.
    ComponentArrayHeader,
    /// The word `COMPONENT`.
    ComponentArraySignature,
    /// A component id that fits 16 bits.
    ComponentId,
    /// A record count that fits 32 bits.
    ComponentCount,
    /// A record count whose product with the number of fields fits 32 bits.
    ComponentValueCount,
    /// Field names that differ pairwise.
    DistinctFieldNames,
    /// The header line of the global component.
    GlobalComponentHeader,
    /// The word `GLOBAL`.
    GlobalComponentSignature,
    /// The header line of the entity array.
    EntityArrayHeader,
    /// An entity array header of exactly two fields.
    EntityArrayHeaderFields,
    /// The word `ENTITIES`.
    EntityArraySignature,
    /// An entity count that fits 32 bits.
    EntityCount,
    /// The header line of the world.
    WorldHeader,
    /// A world header of exactly three fields.
    WorldHeaderFields,
    /// The word `WORLD`.
    WorldSignature,
    /// A number of component arrays that fits 16 bits.
    ComponentArrayCount,
    /// A maximum component id that fits 16 bits.
    MaxComponentId,
    /// Component names that differ pairwise.
    UniqueComponentNames,
    /// Component ids no greater than the declared maximum, which is given.
    ComponentIdsWithinMaximum(u16),
    /// Component ids that differ pairwise.
    UniqueComponentIds,
}

/// What a decoder met instead.
#[derive(Clone, PartialEq, Eq, Debug)]
pub enum Found {
    /// The input ended.
    Eof,
    /// A byte other than `\n`.
    NonNewline(u8),
    /// A byte outside ASCII in a header line.
    NonAscii(u8),
    /// A tag byte from a reserved range.
    InvalidByte(u8),
    /// A header line with fewer fields than it needs.
    TooFewFields,
    /// A header line with this many fields.
    FieldCount(usize),
    /// This word where the signature belongs.
    InvalidSignature(String),
    /// A field that is no decimal number of the width asked for.
    InvalidNumber,
    /// A count too large to be multiplied out.
    Overflow,
    /// This field name a second time.
    DuplicateName(String),
    /// A second component of this name.
    DuplicateComponentName(String),
    /// The component of this name, whose id is above the maximum.
    IdAboveMaximum { name: String, id: u16 },
    /// The component of this name, whose id another component has.
    DuplicateId { name: String, id: u16 },
}

/// The mathematical content of a [`Found`].
pub enum FoundView {
    Eof,
    NonNewline(u8),
    NonAscii(u8),
    InvalidByte(u8),
    TooFewFields,
    FieldCount(int),
    InvalidSignature(Seq<char>),
    InvalidNumber,
    Overflow,
    DuplicateName(Seq<char>),
    DuplicateComponentName(Seq<char>),
    IdAboveMaximum { name: Seq<char>, id: u16 },
    DuplicateId { name: Seq<char>, id: u16 },
}

impl View for Found {
    type V = FoundView;

    open spec fn view(&self) -> FoundView {
        match self {
            Found::Eof => FoundView::Eof,
            Found::NonNewline(b) => FoundView::NonNewline(*b),
            Found::NonAscii(b) => FoundView::NonAscii(*b),
            Found::InvalidByte(b) => FoundView::InvalidByte(*b),
            Found::TooFewFields => FoundView::TooFewFields,
            Found::FieldCount(n) => FoundView::FieldCount(*n as int),
            Found::InvalidSignature(s) => FoundView::InvalidSignature(s@),
            Found::InvalidNumber => FoundView::InvalidNumber,
            Found::Overflow => FoundView::Overflow,
            Found::DuplicateName(s) => FoundView::DuplicateName(s@),
            Found::DuplicateComponentName(s) => FoundView::DuplicateComponentName(s@),
            Found::IdAboveMaximum { name, id } => FoundView::IdAboveMaximum {
                name: name@,
                id: *id,
            },
            Found::DuplicateId { name, id } => FoundView::DuplicateId { name: name@, id: *id },
        }
    }
}

/// Why a decode failed: after `idx` bytes of input the decoder wanted `ex`
/// and met `got`.
#[derive(Clone, PartialEq, Eq, Debug)]
pub enum Error {
    Unexpected { idx: usize, ex: Expected, got: Found },
}

/// The mathematical content of an [`Error`].
pub struct Failure {
    pub idx: int,
    pub ex: Expected,
    pub got: FoundView,
}

impl View for Error {
    type V = Failure;

    open spec fn view(&self) -> Failure {
        match self {
            Error::Unexpected { idx, ex, got } => Failure { idx: *idx as int, ex: *ex, got: got@ },
        }
    }
}

/// The result of reading one item at a position of the input: the item and
/// the position behind it, or the failure.
pub type Parsed<T> = Result<(T, int), Failure>;

/// The failure of a decoder that wanted `ex` and ran out of input.
pub open spec fn eof(s: Seq<u8>, ex: Expected) -> Failure {
    Failure { idx: s.len() as int, ex, got: FoundView::Eof }
}

/// One byte at `pos`.
pub open spec fn parse_byte(s: Seq<u8>, pos: int, ex: Expected) -> Parsed<u8> {
    if 0 <= pos < s.len() {
        Ok((s[pos], pos + 1))
    } else {
        Err(eof(s, ex))
    }
}

/// The number that the two bytes at `pos` spell, high byte first.
pub open spec fn be16(s: Seq<u8>, pos: int) -> int {
    s[pos] * 0x100 + s[pos + 1]
}

/// The number that the three bytes at `pos` spell, high byte first.
pub open spec fn be24(s: Seq<u8>, pos: int) -> int {
    be16(s, pos) * 0x100 + s[pos + 2]
}

/// The number that the four bytes at `pos` spell, high byte first.
pub open spec fn be32(s: Seq<u8>, pos: int) -> int {
    be16(s, pos) * 0x1_0000 + be16(s, pos + 2)
}

/// The number that the eight bytes at `pos` spell, high byte first.
pub open spec fn be64(s: Seq<u8>, pos: int) -> int {
    be32(s, pos) * 0x1_0000_0000 + be32(s, pos + 4)
}

/// The number that the `width` bytes at `pos` spell, high byte first, for
/// the widths 1, 2, 3, 4 and 8.
pub open spec fn be_uint(s: Seq<u8>, pos: int, width: int) -> int {
    if width == 1 {
        s[pos] as int
    } else if width == 2 {
        be16(s, pos)
    } else if width == 3 {
        be24(s, pos)
    } else if width == 4 {
        be32(s, pos)
    } else {
        be64(s, pos)
    }
}

/// The signed reading of an unsigned number below `2 * half` in two's
/// complement.
pub open spec fn twos(u: int, half: int) -> int {
    if u < half {
        u
    } else {
        u - 2 * half
    }
}

/// An unsigned big-endian integer of `width` bytes at `pos`.
pub open spec fn parse_uint(s: Seq<u8>, pos: int, width: int, ex: Expected) -> Parsed<int> {
    if 0 <= pos && pos + width <= s.len() {
        Ok((be_uint(s, pos, width), pos + width))
    } else {
        Err(eof(s, ex))
    }
}

/// A signed big-endian integer of `width` bytes at `pos`.
pub open spec fn parse_int(s: Seq<u8>, pos: int, width: int, half: int, ex: Expected) -> Parsed<
    int,
> {
    match parse_uint(s, pos, width, ex) {
        Ok((u, next)) => Ok((twos(u, half), next)),
        Err(e) => Err(e),
    }
}

/// The byte `\n` at `pos`.
pub open spec fn parse_newline(s: Seq<u8>, pos: int) -> Parsed<()> {
    match parse_byte(s, pos, Expected::Newline) {
        Ok((b, next)) => if b == 0x0a {
            Ok(((), next))
        } else {
            Err(Failure { idx: next, ex: Expected::Newline, got: FoundView::NonNewline(b) })
        },
        Err(e) => Err(e),
    }
}

/// A decoder's view of its input: the bytes and how many of them it has
/// consumed.
pub struct State<'a> {
    idx: usize,
    bytes: &'a [u8],
}

impl<'a> State<'a> {
    #[verifier::type_invariant]
    spec fn cursor_in_range(self) -> bool {
        self.idx <= self.bytes@.len()
    }

    /// The whole input.
    pub closed spec fn input(&self) -> Seq<u8> {
        self.bytes@
    }

    /// The number of bytes consumed so far.
    pub closed spec fn pos(&self) -> int {
        self.idx as int
    }

    /// A decoder at the start of `reader`.
    pub fn new(reader: &'a [u8]) -> (state: Self)
        ensures
            state.input() == reader@,
            state.pos() == 0,
    {
        State { idx: 0, bytes: reader }
    }

    /// The number of bytes consumed so far.
    pub fn position(&self) -> (idx: usize)
        ensures
            idx == self.pos(),
            idx <= self.input().len(),
    {
        proof {
            use_type_invariant(self);
        }
        self.idx
    }

    /// The error that says: here `ex` was wanted and `got` was met.
    pub fn err_unexpected(&self, ex: Expected, got: Found) -> (err: Error)
        ensures
            err == (Error::Unexpected { idx: self.pos() as usize, ex, got }),
            err@ == (Failure { idx: self.pos(), ex, got: got@ }),
    {
        Error::Unexpected { idx: self.idx, ex, got }
    }

    /// The next byte, which stays unconsumed; `None` at the end of the input.
    pub fn try_peek(&self) -> (byte: Option<u8>)
        ensures
            byte == (if self.pos() < self.input().len() {
                Some(self.input()[self.pos()])
            } else {
                None
            }),
    {
        proof {
            use_type_invariant(self);
        }
        if self.idx < self.bytes.len() {
            Some(self.bytes[self.idx])
        } else {
            None
        }
    }

    /// The next byte, which stays unconsumed; at the end of the input the
    /// failure to find `ex`.
    pub fn peek(&self, ex: Expected) -> (byte: Result<u8, Error>)
        ensures
            byte matches Ok(b) ==> parse_byte(self.input(), self.pos(), ex) == Ok::<_, Failure>(
                (b, self.pos() + 1),
            ),
            byte matches Err(e) ==> parse_byte(self.input(), self.pos(), ex) == Err::<(u8, int), _>(
                e@,
            ),
    {
        proof {
            use_type_invariant(self);
        }
        match self.try_peek() {
            Some(b) => Ok(b),
            None => Err(self.err_unexpected(ex, Found::Eof)),
        }
    }

    /// Consumes the next byte; `None`, and nothing consumed, at the end of
    /// the input.
    pub fn try_next(&mut self) -> (byte: Option<u8>)
        ensures
            final(self).input() == old(self).input(),
            old(self).pos() < old(self).input().len() ==> byte == Some(
                old(self).input()[old(self).pos()],
            ) && final(self).pos() == old(self).pos() + 1,
            old(self).pos() >= old(self).input().len() ==> byte.is_none() && final(self).pos()
                == old(self).pos(),
    {
        proof {
            use_type_invariant(&*self);
        }
        if self.idx < self.bytes.len() {
            let b = self.bytes[self.idx];
            self.idx = self.idx + 1;
            Some(b)
        } else {
            None
        }
    }

    /// Consumes the next byte; at the end of the input the failure to find
    /// `ex`.
    pub fn next(&mut self, ex: Expected) -> (byte: Result<u8, Error>)
        ensures
            final(self).input() == old(self).input(),
            byte matches Ok(b) ==> parse_byte(old(self).input(), old(self).pos(), ex) == Ok::<
                _,
                Failure,
            >((b, final(self).pos())),
            byte matches Err(e) ==> final(self).pos() == e@.idx,
            byte matches Err(e) ==> parse_byte(old(self).input(), old(self).pos(), ex) == Err::<
                (u8, int),
                _,
            >(e@),
    {
        proof {
            use_type_invariant(&*self);
        }
        match self.try_next() {
            Some(b) => Ok(b),
            None => Err(self.err_unexpected(ex, Found::Eof)),
        }
    }

    /// Consumes one byte, which must be `\n`.
    pub fn expect_newline(&mut self) -> (r: Result<(), Error>)
        ensures
            final(self).input() == old(self).input(),
            r matches Ok(u) ==> parse_newline(old(self).input(), old(self).pos()) == Ok::<
                _,
                Failure,
            >(((), final(self).pos())),
            r matches Err(e) ==> final(self).pos() == e@.idx,
            r matches Err(e) ==> parse_newline(old(self).input(), old(self).pos()) == Err::<
                ((), int),
                _,
            >(e@),
    {
        let byte = self.next(Expected::Newline)?;
        if byte == 0x0a {
            Ok(())
        } else {
            Err(self.err_unexpected(Expected::Newline, Found::NonNewline(byte)))
        }
    }

    fn read_be16(&mut self, ex: Expected) -> (r: Result<u16, Error>)
        ensures
            final(self).input() == old(self).input(),
            r matches Ok(v) ==> parse_uint(old(self).input(), old(self).pos(), 2, ex) == Ok::<
                _,
                Failure,
            >((v as int, final(self).pos())),
            r matches Err(e) ==> final(self).pos() == e@.idx,
            r matches Err(e) ==> parse_uint(old(self).input(), old(self).pos(), 2, ex) == Err::<
                (int, int),
                _,
            >(e@),
    {
        let a = self.next(ex)?;
        let b = self.next(ex)?;
        Ok((a as u16) * 0x100 + (b as u16))
    }

    fn read_be32(&mut self, ex: Expected) -> (r: Result<u32, Error>)
        ensures
            final(self).input() == old(self).input(),
            r matches Ok(v) ==> parse_uint(old(self).input(), old(self).pos(), 4, ex) == Ok::<
                _,
                Failure,
            >((v as int, final(self).pos())),
            r matches Err(e) ==> final(self).pos() == e@.idx,
            r matches Err(e) ==> parse_uint(old(self).input(), old(self).pos(), 4, ex) == Err::<
                (int, int),
                _,
            >(e@),
    {
        let hi = self.read_be16(ex)?;
        let lo = self.read_be16(ex)?;
        Ok((hi as u32) * 0x1_0000 + (lo as u32))
    }

    fn read_be64(&mut self, ex: Expected) -> (r: Result<u64, Error>)
        ensures
            final(self).input() == old(self).input(),
            r matches Ok(v) ==> parse_uint(old(self).input(), old(self).pos(), 8, ex) == Ok::<
                _,
                Failure,
            >((v as int, final(self).pos())),
            r matches Err(e) ==> final(self).pos() == e@.idx,
            r matches Err(e) ==> parse_uint(old(self).input(), old(self).pos(), 8, ex) == Err::<
                (int, int),
                _,
            >(e@),
    {
        let hi = self.read_be32(ex)?;
        let lo = self.read_be32(ex)?;
        Ok((hi as u64) * 0x1_0000_0000 + (lo as u64))
    }

    /// An unsigned byte.
    pub fn decode_u8(&mut self) -> (r: Result<u8, Error>)
        ensures
            final(self).input() == old(self).input(),
            r matches Ok(v) ==> parse_uint(old(self).input(), old(self).pos(), 1, Expected::Uint8)
                == Ok::<_, Failure>((v as int, final(self).pos())),
            r matches Err(e) ==> final(self).pos() == e@.idx,
            r matches Err(e) ==> parse_uint(old(self).input(), old(self).pos(), 1, Expected::Uint8)
                == Err::<(int, int), _>(e@),
    {
        self.next(Expected::Uint8)
    }

    /// A signed byte in two's complement.
    pub fn decode_i8(&mut self) -> (r: Result<i8, Error>)
        ensures
            final(self).input() == old(self).input(),
            r matches Ok(v) ==> parse_int(
                old(self).input(),
                old(self).pos(),
                1,
                0x80,
                Expected::Int8,
            ) == Ok::<_, Failure>((v as int, final(self).pos())),
            r matches Err(e) ==> final(self).pos() == e@.idx,
            r matches Err(e) ==> parse_int(
                old(self).input(),
                old(self).pos(),
                1,
                0x80,
                Expected::Int8,
            ) == Err::<(int, int), _>(e@),
    {
        let b = self.next(Expected::Int8)?;
        if b < 0x80 {
            Ok(b as i8)
        } else {
            Ok((b as i16 - 0x100) as i8)
        }
    }

    /// An unsigned 16-bit integer, high byte first.
    pub fn decode_u16(&mut self) -> (r: Result<u16, Error>)
        ensures
            final(self).input() == old(self).input(),
            r matches Ok(v) ==> parse_uint(old(self).input(), old(self).pos(), 2, Expected::Uint16)
                == Ok::<_, Failure>((v as int, final(self).pos())),
            r matches Err(e) ==> final(self).pos() == e@.idx,
            r matches Err(e) ==> parse_uint(old(self).input(), old(self).pos(), 2, Expected::Uint16)
                == Err::<(int, int), _>(e@),
    {
        self.read_be16(Expected::Uint16)
    }

    /// A signed 16-bit integer, high byte first.
    pub fn decode_i16(&mut self) -> (r: Result<i16, Error>)
        ensures
            final(self).input() == old(self).input(),
            r matches Ok(v) ==> parse_int(
                old(self).input(),
                old(self).pos(),
                2,
                0x8000,
                Expected::Int16,
            ) == Ok::<_, Failure>((v as int, final(self).pos())),
            r matches Err(e) ==> final(self).pos() == e@.idx,
            r matches Err(e) ==> parse_int(
                old(self).input(),
                old(self).pos(),
                2,
                0x8000,
                Expected::Int16,
            ) == Err::<(int, int), _>(e@),
    {
        let u = self.read_be16(Expected::Int16)?;
        if u < 0x8000 {
            Ok(u as i16)
        } else {
            Ok((u as i32 - 0x1_0000) as i16)
        }
    }

    /// An unsigned 24-bit integer, high byte first.
    pub fn decode_u24(&mut self) -> (r: Result<u32, Error>)
        ensures
            final(self).input() == old(self).input(),
            r matches Ok(v) ==> parse_uint(old(self).input(), old(self).pos(), 3, Expected::Uint24)
                == Ok::<_, Failure>((v as int, final(self).pos())),
            r matches Err(e) ==> final(self).pos() == e@.idx,
            r matches Err(e) ==> parse_uint(old(self).input(), old(self).pos(), 3, Expected::Uint24)
                == Err::<(int, int), _>(e@),
    {
        let hi = self.read_be16(Expected::Uint24)?;
        let lo = self.next(Expected::Uint24)?;
        Ok((hi as u32) * 0x100 + (lo as u32))
    }

    /// An unsigned 32-bit integer, high byte first.
    pub fn decode_u32(&mut self) -> (r: Result<u32, Error>)
        ensures
            final(self).input() == old(self).input(),
            r matches Ok(v) ==> parse_uint(old(self).input(), old(self).pos(), 4, Expected::Uint32)
                == Ok::<_, Failure>((v as int, final(self).pos())),
            r matches Err(e) ==> final(self).pos() == e@.idx,
            r matches Err(e) ==> parse_uint(old(self).input(), old(self).pos(), 4, Expected::Uint32)
                == Err::<(int, int), _>(e@),
    {
        self.read_be32(Expected::Uint32)
    }

    /// A signed 32-bit integer, high byte first.
    pub fn decode_i32(&mut self) -> (r: Result<i32, Error>)
        ensures
            final(self).input() == old(self).input(),
            r matches Ok(v) ==> parse_int(
                old(self).input(),
                old(self).pos(),
                4,
                0x8000_0000,
                Expected::Int32,
            ) == Ok::<_, Failure>((v as int, final(self).pos())),
            r matches Err(e) ==> final(self).pos() == e@.idx,
            r matches Err(e) ==> parse_int(
                old(self).input(),
                old(self).pos(),
                4,
                0x8000_0000,
                Expected::Int32,
            ) == Err::<(int, int), _>(e@),
    {
        let u = self.read_be32(Expected::Int32)?;
        if u < 0x8000_0000 {
            Ok(u as i32)
        } else {
            Ok((u as i64 - 0x1_0000_0000) as i32)
        }
    }

    /// A signed 64-bit integer, high byte first.
    pub fn decode_i64(&mut self) -> (r: Result<i64, Error>)
        ensures
            final(self).input() == old(self).input(),
            r matches Ok(v) ==> parse_int(
                old(self).input(),
                old(self).pos(),
                8,
                0x8000_0000_0000_0000,
                Expected::Int64,
            ) == Ok::<_, Failure>((v as int, final(self).pos())),
            r matches Err(e) ==> final(self).pos() == e@.idx,
            r matches Err(e) ==> parse_int(
                old(self).input(),
                old(self).pos(),
                8,
                0x8000_0000_0000_0000,
                Expected::Int64,
            ) == Err::<(int, int), _>(e@),
    {
        let u = self.read_be64(Expected::Int64)?;
        if u < 0x8000_0000_0000_0000 {
            Ok(u as i64)
        } else {
            Ok((u as i128 - 0x1_0000_0000_0000_0000) as i64)
        }
    }

    /// The bit pattern of a 32-bit IEEE-754 number, high byte first.
    pub fn decode_f32(&mut self) -> (r: Result<u32, Error>)
        ensures
            final(self).input() == old(self).input(),
            r matches Ok(v) ==> parse_uint(old(self).input(), old(self).pos(), 4, Expected::Single)
                == Ok::<_, Failure>((v as int, final(self).pos())),
            r matches Err(e) ==> final(self).pos() == e@.idx,
            r matches Err(e) ==> parse_uint(old(self).input(), old(self).pos(), 4, Expected::Single)
                == Err::<(int, int), _>(e@),
    {
        self.read_be32(Expected::Single)
    }

    /// The bit pattern of a 64-bit IEEE-754 number, high byte first.
    pub fn decode_f64(&mut self) -> (r: Result<u64, Error>)
        ensures
            final(self).input() == old(self).input(),
            r matches Ok(v) ==> parse_uint(old(self).input(), old(self).pos(), 8, Expected::Double)
                == Ok::<_, Failure>((v as int, final(self).pos())),
            r matches Err(e) ==> final(self).pos() == e@.idx,
            r matches Err(e) ==> parse_uint(old(self).input(), old(self).pos(), 8, Expected::Double)
                == Err::<(int, int), _>(e@),
    {
        self.read_be64(Expected::Double)
    }
}

} // verus!
