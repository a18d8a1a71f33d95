//! The dynamic value type and its tagged binary encoding.
//!
//! A value starts with one tag byte. Decoding accepts every form of the
//! table below; encoding always writes the shortest form.
//!
//! | tag         | meaning                                              |
//! |-------------|------------------------------------------------------|
//! | `00`–`7f`   | the integer that the tag spells                      |
//! | `80`–`8f`   | a byte string of `tag - 80` bytes                    |
//! | `90`–`9f`   | an array of `tag - 90` values                        |
//! | `a0` / `a1` | a byte string with an 8-bit / 32-bit length          |
//! | `a2` / `a3` | an array with an 8-bit / 32-bit length               |
//! | `a4` / `a5` | false / true                                         |
//! | `a6` / `a7` | a 32-bit / 64-bit IEEE-754 number                    |
//! | `a8`–`ab`   | a signed integer of 8 / 16 / 32 / 64 bits            |
//! | `ac` / `ad` | no value / some value, which follows                 |
//! | `ae`–`b0`   | an entity index of 8 / 16 / 32 bits                  |
//! | `b1`        | the invalid entity id                                |
//! | `b2`–`bf`   | reserved                                             |
//! | `c0`–`ff`   | the entity index `tag - c0`                          |

use vstd::prelude::*;
use crate::decode;
use crate::decode::{eof, parse_int, parse_uint, Expected, Failure, Found, FoundView, Parsed};
use crate::encode;
use crate::encode::{be16_bytes, be32_bytes, be64_bytes, untwos};
use crate::ieee;

verus! {

/// A reference to an entity: its index in the entity array, or none.
#[derive(Clone, Copy, PartialEq, Eq, Debug)]
pub enum EntityId {
    Invalid,
    Idx(u32),
}

/// A dynamic value. A `Float` holds the bit pattern of a 64-bit IEEE-754
/// number.
#[derive(PartialEq, Debug)]
pub enum Value {
    Bool(bool),
    Int(i64),
    Float(u64),
    Bytes(Vec<u8>),
    Array(Vec<Value>),
    Maybe(Option<Box<Value>>),
    EntityId(EntityId),
}

/// The mathematical content of a [`Value`].
pub enum ValueView {
    Bool(bool),
    Int(i64),
    Float(u64),
    Bytes(Seq<u8>),
    Array(Seq<ValueView>),
    Maybe(Option<Box<ValueView>>),
    EntityId(EntityId),
}

impl Value {
    /// The mathematical content of the value.
    pub open spec fn view(&self) -> ValueView
        decreases self,
    {
        match self {
            Value::Bool(b) => ValueView::Bool(*b),
            Value::Int(i) => ValueView::Int(*i),
            Value::Float(bits) => ValueView::Float(*bits),
            Value::Bytes(bs) => ValueView::Bytes(bs@),
            Value::Array(vs) => ValueView::Array(
                Seq::new(
                    vs@.len(),
                    |i: int|
                        if 0 <= i < vs@.len() {
                            vs@[i].view()
                        } else {
                            arbitrary()
                        },
                ),
            ),
            Value::Maybe(None) => ValueView::Maybe(None),
            Value::Maybe(Some(b)) => ValueView::Maybe(Some(Box::new(b.view()))),
            Value::EntityId(id) => ValueView::EntityId(*id),
        }
    }
}

/// The contents of a sequence of values, one by one.
pub open spec fn views(vs: Seq<Value>) -> Seq<ValueView> {
    Seq::new(vs.len(), |i: int| vs[i].view())
}

/// The content of an array is the contents of its elements.
pub proof fn lemma_array_view(vs: Vec<Value>)
    ensures
        Value::Array(vs).view() == ValueView::Array(views(vs@)),
{
    assert(Value::Array(vs).view()->Array_0 =~= views(vs@));
}

/// A rule that replaces each entity id of a value while the value is
/// encoded.
pub trait EntityIdRewrite {
    /// What `id` is replaced with.
    spec fn target(&self, id: EntityId) -> EntityId;

    /// Replaces `id`.
    fn rewrite(&self, id: EntityId) -> (r: EntityId)
        ensures
            r == self.target(id),
    ;
}

/// The rule that keeps every entity id.
pub struct Identity;

impl EntityIdRewrite for Identity {
    open spec fn target(&self, id: EntityId) -> EntityId {
        id
    }

    fn rewrite(&self, id: EntityId) -> (r: EntityId) {
        id
    }
}

/// The rule `t` as a function.
pub open spec fn rule_of<T: EntityIdRewrite>(t: &T) -> spec_fn(EntityId) -> EntityId {
    |id: EntityId| t.target(id)
}

/// The value `v` with each entity id in it, at any depth, replaced by what
/// `f` gives for it.
pub open spec fn rewritten(v: ValueView, f: spec_fn(EntityId) -> EntityId) -> ValueView
    decreases v,
{
    match v {
        ValueView::Array(vs) => ValueView::Array(
            Seq::new(
                vs.len(),
                |i: int|
                    if 0 <= i < vs.len() {
                        rewritten(vs[i], f)
                    } else {
                        arbitrary()
                    },
            ),
        ),
        ValueView::Maybe(Some(b)) => ValueView::Maybe(Some(Box::new(rewritten(*b, f)))),
        ValueView::EntityId(id) => ValueView::EntityId(f(id)),
        _ => v,
    }
}

/// A value can be encoded if each byte string and each array in it, at any
/// depth, has a length that fits 32 bits.
pub open spec fn encodable(v: ValueView) -> bool
    decreases v,
{
    match v {
        ValueView::Bytes(bs) => bs.len() <= u32::MAX,
        ValueView::Array(vs) => vs.len() <= u32::MAX && forall|i: int|
            0 <= i < vs.len() ==> encodable(#[trigger] vs[i]),
        ValueView::Maybe(Some(b)) => encodable(*b),
        _ => true,
    }
}

/// The encoding of an integer: the shortest of the inline form and the
/// signed forms of 8, 16, 32 and 64 bits that holds it.
pub open spec fn int_bytes(i: i64) -> Seq<u8> {
    if 0 <= i < 0x80 {
        seq![i as u8]
    } else if -0x80 <= i < 0x80 {
        seq![0xa8u8, untwos(i as int, 0x80) as u8]
    } else if -0x8000 <= i < 0x8000 {
        seq![0xa9u8] + be16_bytes(untwos(i as int, 0x8000))
    } else if -0x8000_0000 <= i < 0x8000_0000 {
        seq![0xaau8] + be32_bytes(untwos(i as int, 0x8000_0000))
    } else {
        seq![0xabu8] + be64_bytes(untwos(i as int, 0x8000_0000_0000_0000))
    }
}

/// The encoding of an IEEE-754 number: its 32-bit pattern where it has
/// one, else its 64-bit pattern.
pub open spec fn float_bytes(bits: u64) -> Seq<u8> {
    match ieee::narrowed(bits) {
        Some(f) => seq![0xa6u8] + be32_bytes(f as int),
        None => seq![0xa7u8] + be64_bytes(bits as int),
    }
}

/// The encoding of the length of a byte string or an array: in the tag
/// itself below 16, else in one byte where it fits, else in four.
pub open spec fn length_bytes(len: int, inline: u8, short: u8, long: u8) -> Seq<u8> {
    if len < 0x10 {
        seq![(inline + len) as u8]
    } else if len < 0x100 {
        seq![short, len as u8]
    } else {
        seq![long] + be32_bytes(len)
    }
}

/// The encoding of an entity id: an index in the tag itself below 64, else
/// in the fewest of one, two and four bytes.
pub open spec fn entity_id_bytes(id: EntityId) -> Seq<u8> {
    match id {
        EntityId::Invalid => seq![0xb1u8],
        EntityId::Idx(i) => if i < 0x40 {
            seq![(0xc0 + i) as u8]
        } else if i < 0x100 {
            seq![0xaeu8, i as u8]
        } else if i < 0x1_0000 {
            seq![0xafu8] + be16_bytes(i as int)
        } else {
            seq![0xb0u8] + be32_bytes(i as int)
        },
    }
}

/// The encoding of a value.
pub open spec fn value_bytes(v: ValueView) -> Seq<u8>
    decreases v, 0nat,
{
    match v {
        ValueView::Bool(false) => seq![0xa4u8],
        ValueView::Bool(true) => seq![0xa5u8],
        ValueView::Int(i) => int_bytes(i),
        ValueView::Float(bits) => float_bytes(bits),
        ValueView::Bytes(bs) => length_bytes(bs.len() as int, 0x80, 0xa0, 0xa1) + bs,
        ValueView::Array(vs) => length_bytes(vs.len() as int, 0x90, 0xa2, 0xa3) + values_bytes(
            vs,
            vs.len(),
        ),
        ValueView::Maybe(None) => seq![0xacu8],
        ValueView::Maybe(Some(b)) => seq![0xadu8] + value_bytes(*b),
        ValueView::EntityId(id) => entity_id_bytes(id),
    }
}

/// The encodings of the first `n` values of `vs`, one after the other.
pub open spec fn values_bytes(vs: Seq<ValueView>, n: nat) -> Seq<u8>
    decreases vs, n,
{
    if n == 0 || n > vs.len() {
        Seq::empty()
    } else {
        values_bytes(vs, (n - 1) as nat) + value_bytes(vs[n - 1])
    }
}

/// `len` raw bytes at `pos`.
pub open spec fn parse_bytes(s: Seq<u8>, pos: int, len: int) -> Parsed<Seq<u8>> {
    if 0 <= pos && pos + len <= s.len() {
        Ok((s.subrange(pos, pos + len), pos + len))
    } else {
        Err(eof(s, Expected::ByteString))
    }
}

/// The byte string value of a run of raw bytes.
pub open spec fn bytes_value(r: Parsed<Seq<u8>>) -> Parsed<ValueView> {
    match r {
        Ok((bs, next)) => Ok((ValueView::Bytes(bs), next)),
        Err(e) => Err(e),
    }
}

/// The array value of a run of values.
pub open spec fn array_value(r: Parsed<Seq<ValueView>>) -> Parsed<ValueView> {
    match r {
        Ok((vs, next)) => Ok((ValueView::Array(vs), next)),
        Err(e) => Err(e),
    }
}

/// The integer value of a number.
pub open spec fn int_value(r: Parsed<int>) -> Parsed<ValueView> {
    match r {
        Ok((i, next)) => Ok((ValueView::Int(i as i64), next)),
        Err(e) => Err(e),
    }
}

/// The entity id value of an index.
pub open spec fn idx_value(r: Parsed<int>) -> Parsed<ValueView> {
    match r {
        Ok((i, next)) => Ok((ValueView::EntityId(EntityId::Idx(i as u32)), next)),
        Err(e) => Err(e),
    }
}

/// The run `front` followed by the run that `r` found.
pub open spec fn prepend(front: Seq<ValueView>, r: Parsed<Seq<ValueView>>) -> Parsed<
    Seq<ValueView>,
> {
    match r {
        Ok((vs, next)) => Ok((front + vs, next)),
        Err(e) => Err(e),
    }
}

/// Where the tag at `pos` is that of an array: the number of its elements
/// and the position of the first, or the failure to read the number.
pub open spec fn array_header(s: Seq<u8>, pos: int) -> Option<Parsed<int>> {
    let b = s[pos];
    if 0x90 <= b < 0xa0 {
        Some(Ok((b - 0x90, pos + 1)))
    } else if b == 0xa2 {
        Some(parse_uint(s, pos + 1, 1, Expected::Uint8))
    } else if b == 0xa3 {
        Some(parse_uint(s, pos + 1, 4, Expected::Uint32))
    } else {
        None
    }
}

/// The value at `pos` that holds no other value: every tag of the table
/// but those of arrays and `ad`.
#[verifier::opaque]
pub open spec fn parse_leaf(s: Seq<u8>, pos: int) -> Parsed<ValueView> {
    let b = s[pos];
    if b < 0x80 {
        Ok((ValueView::Int(b as i64), pos + 1))
    } else if b < 0x90 {
        bytes_value(parse_bytes(s, pos + 1, b - 0x80))
    } else if b == 0xa0 {
        match parse_uint(s, pos + 1, 1, Expected::Uint8) {
            Ok((len, next)) => bytes_value(parse_bytes(s, next, len)),
            Err(e) => Err(e),
        }
    } else if b == 0xa1 {
        match parse_uint(s, pos + 1, 4, Expected::Uint32) {
            Ok((len, next)) => bytes_value(parse_bytes(s, next, len)),
            Err(e) => Err(e),
        }
    } else if b == 0xa4 {
        Ok((ValueView::Bool(false), pos + 1))
    } else if b == 0xa5 {
        Ok((ValueView::Bool(true), pos + 1))
    } else if b == 0xa6 {
        match parse_uint(s, pos + 1, 4, Expected::Single) {
            Ok((f, next)) => Ok((ValueView::Float(ieee::widened(f as u32)), next)),
            Err(e) => Err(e),
        }
    } else if b == 0xa7 {
        match parse_uint(s, pos + 1, 8, Expected::Double) {
            Ok((d, next)) => Ok((ValueView::Float(d as u64), next)),
            Err(e) => Err(e),
        }
    } else if b == 0xa8 {
        int_value(parse_int(s, pos + 1, 1, 0x80, Expected::Int8))
    } else if b == 0xa9 {
        int_value(parse_int(s, pos + 1, 2, 0x8000, Expected::Int16))
    } else if b == 0xaa {
        int_value(parse_int(s, pos + 1, 4, 0x8000_0000, Expected::Int32))
    } else if b == 0xab {
        int_value(parse_int(s, pos + 1, 8, 0x8000_0000_0000_0000, Expected::Int64))
    } else if b == 0xac {
        Ok((ValueView::Maybe(None), pos + 1))
    } else if b == 0xae {
        idx_value(parse_uint(s, pos + 1, 1, Expected::Uint8))
    } else if b == 0xaf {
        idx_value(parse_uint(s, pos + 1, 2, Expected::Uint16))
    } else if b == 0xb0 {
        idx_value(parse_uint(s, pos + 1, 4, Expected::Uint32))
    } else if b == 0xb1 {
        Ok((ValueView::EntityId(EntityId::Invalid), pos + 1))
    } else if b >= 0xc0 {
        Ok((ValueView::EntityId(EntityId::Idx((b - 0xc0) as u32)), pos + 1))
    } else {
        Err(Failure { idx: pos + 1, ex: Expected::Value, got: FoundView::InvalidByte(b) })
    }
}

/// The table of tags, tag by tag.
pub proof fn lemma_leaf_table(s: Seq<u8>, pos: int)
    ensures
        s[pos] < 0x80 ==> parse_leaf(s, pos) == Ok::<_, Failure>(
            (ValueView::Int(s[pos] as i64), pos + 1),
        ),
        0x80 <= s[pos] < 0x90 ==> parse_leaf(s, pos) == bytes_value(
            parse_bytes(s, pos + 1, s[pos] - 0x80),
        ),
        s[pos] == 0xa0 ==> parse_leaf(s, pos) == (match parse_uint(
            s,
            pos + 1,
            1,
            Expected::Uint8,
        ) {
            Ok((len, next)) => bytes_value(parse_bytes(s, next, len)),
            Err(e) => Err(e),
        }),
        s[pos] == 0xa1 ==> parse_leaf(s, pos) == (match parse_uint(
            s,
            pos + 1,
            4,
            Expected::Uint32,
        ) {
            Ok((len, next)) => bytes_value(parse_bytes(s, next, len)),
            Err(e) => Err(e),
        }),
        s[pos] == 0xa4 ==> parse_leaf(s, pos) == Ok::<_, Failure>(
            (ValueView::Bool(false), pos + 1),
        ),
        s[pos] == 0xa5 ==> parse_leaf(s, pos) == Ok::<_, Failure>(
            (ValueView::Bool(true), pos + 1),
        ),
        s[pos] == 0xa6 ==> parse_leaf(s, pos) == (match parse_uint(
            s,
            pos + 1,
            4,
            Expected::Single,
        ) {
            Ok((f, next)) => Ok((ValueView::Float(ieee::widened(f as u32)), next)),
            Err(e) => Err(e),
        }),
        s[pos] == 0xa7 ==> parse_leaf(s, pos) == (match parse_uint(
            s,
            pos + 1,
            8,
            Expected::Double,
        ) {
            Ok((d, next)) => Ok((ValueView::Float(d as u64), next)),
            Err(e) => Err(e),
        }),
        s[pos] == 0xa8 ==> parse_leaf(s, pos) == int_value(
            parse_int(s, pos + 1, 1, 0x80, Expected::Int8),
        ),
        s[pos] == 0xa9 ==> parse_leaf(s, pos) == int_value(
            parse_int(s, pos + 1, 2, 0x8000, Expected::Int16),
        ),
        s[pos] == 0xaa ==> parse_leaf(s, pos) == int_value(
            parse_int(s, pos + 1, 4, 0x8000_0000, Expected::Int32),
        ),
        s[pos] == 0xab ==> parse_leaf(s, pos) == int_value(
            parse_int(s, pos + 1, 8, 0x8000_0000_0000_0000, Expected::Int64),
        ),
        s[pos] == 0xac ==> parse_leaf(s, pos) == Ok::<_, Failure>(
            (ValueView::Maybe(None), pos + 1),
        ),
        s[pos] == 0xae ==> parse_leaf(s, pos) == idx_value(
            parse_uint(s, pos + 1, 1, Expected::Uint8),
        ),
        s[pos] == 0xaf ==> parse_leaf(s, pos) == idx_value(
            parse_uint(s, pos + 1, 2, Expected::Uint16),
        ),
        s[pos] == 0xb0 ==> parse_leaf(s, pos) == idx_value(
            parse_uint(s, pos + 1, 4, Expected::Uint32),
        ),
        s[pos] == 0xb1 ==> parse_leaf(s, pos) == Ok::<_, Failure>(
            (ValueView::EntityId(EntityId::Invalid), pos + 1),
        ),
        0xb2 <= s[pos] < 0xc0 ==> parse_leaf(s, pos) == Err::<(ValueView, int), _>(
            Failure { idx: pos + 1, ex: Expected::Value, got: FoundView::InvalidByte(s[pos]) },
        ),
        s[pos] >= 0xc0 ==> parse_leaf(s, pos) == Ok::<_, Failure>(
            (ValueView::EntityId(EntityId::Idx((s[pos] - 0xc0) as u32)), pos + 1),
        ),
{
    reveal(parse_leaf);
}

/// The optional value that holds what `r` found.
pub open spec fn some_value(r: Parsed<ValueView>) -> Parsed<ValueView> {
    match r {
        Ok((v, next)) => Ok((ValueView::Maybe(Some(Box::new(v))), next)),
        Err(e) => Err(e),
    }
}

/// The value at `pos`, by the table of tags.
pub open spec fn parse_value(s: Seq<u8>, pos: int) -> Parsed<ValueView>
    decreases s.len() - pos, 0nat,
{
    if !(0 <= pos < s.len()) {
        Err(eof(s, Expected::Value))
    } else if s[pos] == 0xad {
        some_value(parse_value(s, pos + 1))
    } else {
        match array_header(s, pos) {
            Some(Ok((n, first))) => array_value(parse_values(s, first, n as nat)),
            Some(Err(e)) => Err(e),
            None => parse_leaf(s, pos),
        }
    }
}

/// `n` values from `pos` on, one after the other. (A value takes at least
/// one byte and ends within the input, so the test on the position behind
/// it never fails: see [`lemma_parse_value_advances`].)
pub open spec fn parse_values(s: Seq<u8>, pos: int, n: nat) -> Parsed<Seq<ValueView>>
    decreases s.len() - pos, n + 1,
{
    if n == 0 {
        Ok((Seq::empty(), pos))
    } else {
        match parse_value(s, pos) {
            Ok((v, next)) => if pos < next <= s.len() {
                prepend(seq![v], parse_values(s, next, (n - 1) as nat))
            } else {
                Err(eof(s, Expected::Value))
            },
            Err(e) => Err(e),
        }
    }
}

impl Value {
    /// Whether the value can be encoded: whether every length in it fits 32
    /// bits.
    pub fn is_encodable(&self) -> (r: bool)
        ensures
            r == encodable(self@),
        decreases self,
    {
        match self {
            Value::Bytes(bs) => bs.len() <= 0xffff_ffff,
            Value::Array(vs) => {
                if vs.len() > 0xffff_ffff {
                    return false;
                }
                let mut i: usize = 0;
                while i < vs.len()
                    invariant
                        i <= vs.len(),
                        *self == Value::Array(*vs),
                        forall|j: int| 0 <= j < i ==> encodable(#[trigger] self@->Array_0[j]),
                    decreases vs.len() - i,
                {
                    if !vs[i].is_encodable() {
                        assert(!encodable(self@->Array_0[i as int]));
                        return false;
                    }
                    i = i + 1;
                }
                true
            },
            Value::Maybe(Some(b)) => b.is_encodable(),
            _ => true,
        }
    }
}

impl<'a> decode::State<'a> {
    fn decode_bytes(&mut self, len: usize) -> (r: Result<Value, decode::Error>)
        ensures
            final(self).input() == old(self).input(),
            r matches Ok(v) ==> bytes_value(
                parse_bytes(old(self).input(), old(self).pos(), len as int),
            ) == Ok::<_, Failure>((v@, final(self).pos())),
            r matches Err(e) ==> final(self).pos() == e@.idx,
            r matches Err(e) ==> bytes_value(
                parse_bytes(old(self).input(), old(self).pos(), len as int),
            ) == Err::<(ValueView, int), _>(e@),
    {
        let start = self.position();
        let mut bytes: Vec<u8> = Vec::new();
        let mut i: usize = 0;
        while i < len
            invariant
                self.input() == old(self).input(),
                i <= len,
                start == old(self).pos(),
                self.pos() == start + i,
                self.pos() <= self.input().len(),
                bytes@ == self.input().subrange(start as int, start + i),
            decreases len - i,
        {
            let b = self.next(Expected::ByteString)?;
            bytes.push(b);
            i = i + 1;
        }
        Ok(Value::Bytes(bytes))
    }

    /// Decodes `len` values, one after the other.
    pub fn decode_values(&mut self, len: usize) -> (r: Result<Vec<Value>, decode::Error>)
        ensures
            final(self).input() == old(self).input(),
            r matches Ok(vs) ==> parse_values(old(self).input(), old(self).pos(), len as nat)
                == Ok::<_, Failure>((views(vs@), final(self).pos())),
            r matches Err(e) ==> final(self).pos() == e@.idx,
            r matches Err(e) ==> parse_values(old(self).input(), old(self).pos(), len as nat)
                == Err::<(Seq<ValueView>, int), _>(e@),
        decreases old(self).input().len() - old(self).pos(), 2nat,
    {
        let start = self.position();
        let mut vals: Vec<Value> = Vec::new();
        let mut i: usize = 0;
        assert(views(vals@) =~= Seq::<ValueView>::empty());
        while i < len
            invariant
                self.input() == old(self).input(),
                i <= len,
                start == old(self).pos(),
                start <= self.pos() <= self.input().len(),
                parse_values(self.input(), start as int, len as nat) == prepend(
                    views(vals@),
                    parse_values(self.input(), self.pos(), (len - i) as nat),
                ),
            decreases len - i,
        {
            let ghost before = self.pos();
            let ghost front = views(vals@);
            let v = match self.decode_value() {
                Ok(v) => v,
                Err(e) => {
                    return Err(e);
                },
            };
            proof {
                lemma_parse_value_advances(self.input(), before);
                assert(front + seq![v@] =~= views(vals@.push(v)));
                let rest = parse_values(self.input(), self.pos(), (len - i - 1) as nat);
                assert(prepend(front, prepend(seq![v@], rest)) == prepend(
                    front + seq![v@],
                    rest,
                )) by {
                    if let Ok((vs, next)) = rest {
                        assert(front + (seq![v@] + vs) =~= (front + seq![v@]) + vs);
                    }
                }
            }
            vals.push(v);
            i = i + 1;
        }
        assert(views(vals@) + Seq::<ValueView>::empty() =~= views(vals@));
        Ok(vals)
    }

    fn decode_array(&mut self, len: usize) -> (r: Result<Value, decode::Error>)
        ensures
            final(self).input() == old(self).input(),
            r matches Ok(v) ==> array_value(
                parse_values(old(self).input(), old(self).pos(), len as nat),
            ) == Ok::<_, Failure>((v@, final(self).pos())),
            r matches Err(e) ==> final(self).pos() == e@.idx,
            r matches Err(e) ==> array_value(
                parse_values(old(self).input(), old(self).pos(), len as nat),
            ) == Err::<(ValueView, int), _>(e@),
        decreases old(self).input().len() - old(self).pos(), 3nat,
    {
        let vals = self.decode_values(len)?;
        proof {
            lemma_array_view(vals);
        }
        Ok(Value::Array(vals))
    }

    /// Decodes one value.
    pub fn decode_value(&mut self) -> (r: Result<Value, decode::Error>)
        ensures
            final(self).input() == old(self).input(),
            r matches Ok(v) ==> parse_value(old(self).input(), old(self).pos()) == Ok::<
                _,
                Failure,
            >((v@, final(self).pos())),
            r matches Err(e) ==> final(self).pos() == e@.idx,
            r matches Err(e) ==> parse_value(old(self).input(), old(self).pos()) == Err::<
                (ValueView, int),
                _,
            >(e@),
        decreases old(self).input().len() - old(self).pos(), 0nat,
    {
        reveal(parse_leaf);
        let b = self.next(Expected::Value)?;
        if b < 0x80 {
            Ok(Value::Int(b as i64))
        } else if b < 0x90 {
            self.decode_bytes((b - 0x80) as usize)
        } else if b < 0xa0 {
            self.decode_array((b - 0x90) as usize)
        } else if b == 0xa0 {
            let len = self.decode_u8()?;
            self.decode_bytes(len as usize)
        } else if b == 0xa1 {
            let len = self.decode_u32()?;
            self.decode_bytes(len as usize)
        } else if b == 0xa2 {
            let len = self.decode_u8()?;
            self.decode_array(len as usize)
        } else if b == 0xa3 {
            let len = self.decode_u32()?;
            self.decode_array(len as usize)
        } else if b == 0xa4 {
            Ok(Value::Bool(false))
        } else if b == 0xa5 {
            Ok(Value::Bool(true))
        } else if b == 0xa6 {
            let f = self.decode_f32()?;
            Ok(Value::Float(ieee::widen(f)))
        } else if b == 0xa7 {
            let d = self.decode_f64()?;
            Ok(Value::Float(d))
        } else if b == 0xa8 {
            let i = self.decode_i8()?;
            Ok(Value::Int(i as i64))
        } else if b == 0xa9 {
            let i = self.decode_i16()?;
            Ok(Value::Int(i as i64))
        } else if b == 0xaa {
            let i = self.decode_i32()?;
            Ok(Value::Int(i as i64))
        } else if b == 0xab {
            let i = self.decode_i64()?;
            Ok(Value::Int(i))
        } else if b == 0xac {
            Ok(Value::Maybe(None))
        } else if b == 0xad {
            let v = self.decode_value()?;
            Ok(Value::Maybe(Some(Box::new(v))))
        } else if b == 0xae {
            let i = self.decode_u8()?;
            Ok(Value::EntityId(EntityId::Idx(i as u32)))
        } else if b == 0xaf {
            let i = self.decode_u16()?;
            Ok(Value::EntityId(EntityId::Idx(i as u32)))
        } else if b == 0xb0 {
            let i = self.decode_u32()?;
            Ok(Value::EntityId(EntityId::Idx(i)))
        } else if b == 0xb1 {
            Ok(Value::EntityId(EntityId::Invalid))
        } else if b < 0xc0 {
            Err(self.err_unexpected(Expected::Value, Found::InvalidByte(b)))
        } else {
            Ok(Value::EntityId(EntityId::Idx((b - 0xc0) as u32)))
        }
    }
}

/// A value takes at least one byte and ends within the input.
pub proof fn lemma_parse_value_advances(s: Seq<u8>, pos: int)
    ensures
        parse_value(s, pos) matches Ok((v, next)) ==> pos < next <= s.len(),
    decreases s.len() - pos, 0nat,
{
    reveal(parse_leaf);
    if 0 <= pos < s.len() {
        let b = s[pos];
        if 0x90 <= b < 0xa0 {
            lemma_parse_values_advances(s, pos + 1, (b - 0x90) as nat);
        } else if b == 0xa2 {
            if let Ok((len, next)) = parse_uint(s, pos + 1, 1, Expected::Uint8) {
                lemma_parse_values_advances(s, next, len as nat);
            }
        } else if b == 0xa3 {
            if let Ok((len, next)) = parse_uint(s, pos + 1, 4, Expected::Uint32) {
                lemma_parse_values_advances(s, next, len as nat);
            }
        } else if b == 0xad {
            lemma_parse_value_advances(s, pos + 1);
        }
    }
}

/// A run of values ends within the input, no earlier than it starts.
pub proof fn lemma_parse_values_advances(s: Seq<u8>, pos: int, n: nat)
    requires
        0 <= pos <= s.len(),
    ensures
        parse_values(s, pos, n) matches Ok((vs, next)) ==> pos <= next <= s.len() && vs.len() == n,
    decreases s.len() - pos, n + 1,
{
    if n > 0 {
        lemma_parse_value_advances(s, pos);
        if let Ok((v, next)) = parse_value(s, pos) {
            lemma_parse_values_advances(s, next, (n - 1) as nat);
        }
    }
}

impl encode::State {
    /// Encodes `val` in its shortest form, with each entity id in it
    /// replaced by the rule `e_id_transform` just before it is written.
    #[verifier::rlimit(50)]
    pub fn encode_value<T: EntityIdRewrite>(&mut self, val: &Value, e_id_transform: &T)
        requires
            encodable(val@),
        ensures
            final(self).written() == old(self).written() + value_bytes(
                rewritten(val@, rule_of(e_id_transform)),
            ),
        decreases val,
    {
        match val {
            Value::Bool(false) => self.write_u8(0xa4),
            Value::Bool(true) => self.write_u8(0xa5),
            Value::Int(i) => {
                let i = *i;
                if 0 <= i && i < 0x80 {
                    self.write_u8(i as u8);
                } else if -0x80 <= i && i < 0x80 {
                    self.write_u8(0xa8);
                    self.write_i8(i as i8);
                } else if -0x8000 <= i && i < 0x8000 {
                    self.write_u8(0xa9);
                    self.write_i16(i as i16);
                } else if -0x8000_0000 <= i && i < 0x8000_0000 {
                    self.write_u8(0xaa);
                    self.write_i32(i as i32);
                } else {
                    self.write_u8(0xab);
                    self.write_i64(i);
                }
            },
            Value::Float(bits) => {
                match ieee::narrow(*bits) {
                    Some(f) => {
                        self.write_u8(0xa6);
                        self.write_u32(f);
                    },
                    None => {
                        self.write_u8(0xa7);
                        self.write_u64(*bits);
                    },
                }
            },
            Value::Bytes(bs) => {
                self.write_length(bs.len(), 0x80, 0xa0, 0xa1);
                self.write(bs.as_slice());
            },
            Value::Array(vs) => {
                self.write_length(vs.len(), 0x90, 0xa2, 0xa3);
                let ghost items = rewritten(val@, rule_of(e_id_transform))->Array_0;
                let mut i: usize = 0;
                while i < vs.len()
                    invariant
                        i <= vs.len(),
                        *val == Value::Array(*vs),
                        encodable(val@),
                        items == rewritten(val@, rule_of(e_id_transform))->Array_0,
                        items.len() == vs.len(),
                        self.written() == old(self).written() + length_bytes(
                            vs.len() as int,
                            0x90,
                            0xa2,
                            0xa3,
                        ) + values_bytes(items, i as nat),
                    decreases vs.len() - i,
                {
                    assert(encodable(val@->Array_0[i as int]));
                    assert(items[i as int] == rewritten(vs[i as int]@, rule_of(e_id_transform)));
                    self.encode_value(&vs[i], e_id_transform);
                    i = i + 1;
                }
            },
            Value::Maybe(None) => self.write_u8(0xac),
            Value::Maybe(Some(v)) => {
                self.write_u8(0xad);
                self.encode_value(v, e_id_transform);
            },
            Value::EntityId(id) => {
                match e_id_transform.rewrite(*id) {
                    EntityId::Idx(i) => {
                        if i < 0x40 {
                            self.write_u8(0xc0 + i as u8);
                        } else if i < 0x100 {
                            self.write_u8(0xae);
                            self.write_u8(i as u8);
                        } else if i < 0x1_0000 {
                            self.write_u8(0xaf);
                            self.write_u16(i as u16);
                        } else {
                            self.write_u8(0xb0);
                            self.write_u32(i);
                        }
                    },
                    EntityId::Invalid => self.write_u8(0xb1),
                }
            },
        }
    }

    fn write_length(&mut self, len: usize, inline: u8, short: u8, long: u8)
        requires
            len <= u32::MAX,
            inline <= 0xf0,
        ensures
            final(self).written() == old(self).written() + length_bytes(
                len as int,
                inline,
                short,
                long,
            ),
    {
        if len < 0x10 {
            self.write_u8(inline + len as u8);
        } else if len < 0x100 {
            self.write_u8(short);
            self.write_u8(len as u8);
        } else {
            self.write_u8(long);
            self.write_u32(len as u32);
        }
    }
}

} // verus!
