//! Entities: the compact encoding of a reference to one record of a
//! component array, the list of such references that an entity is, and the
//! array of all entities with its tombstones.
//!
//! A component index starts with one tag byte:
//!
//! | tag         | id                  | idx                           |
//! |-------------|---------------------|-------------------------------|
//! | `00`–`3f`   | the tag             | 8 bits                        |
//! | `40`–`7f`   | `tag - 40`          | 16 bits                       |
//! | `80`–`83`   | 8 bits              | 8 / 16 / 24 / 32 bits         |
//! | `84`–`87`   | 16 bits             | 8 / 16 / 24 / 32 bits         |
//! | `88` / `89` | 8 bits / 16 bits    | zero                          |
//! | `8a`–`bf`   | reserved            |                               |
//! | `c0`–`ff`   | `tag - c0`          | zero                          |

use vstd::prelude::*;
use crate::decode;
use crate::decode::{parse_byte, parse_uint, Expected, Failure, Found, FoundView, Parsed};
use crate::encode;
use crate::encode::{be16_bytes, be24_bytes, be32_bytes, decimal};
use crate::text::{
    ascii_chars, byte_views, bytes_eq, is_word, lemma_header_words, parse_decimal, parse_header,
    parse_number, take_word,
};

verus! {

/// A reference to the record `idx` of the component array whose id is `id`.
#[derive(Clone, Copy, PartialEq, Eq, Debug)]
pub struct ComponentIdx {
    pub id: u16,
    pub idx: u32,
}

/// An entity: the records that it is made of, and whether it was deleted
/// since the world was decoded.
#[derive(PartialEq, Eq, Debug)]
pub struct EntityData {
    pub is_deleted: bool,
    pub components: Vec<ComponentIdx>,
}

/// The mathematical content of an [`EntityData`].
pub struct EntityView {
    pub is_deleted: bool,
    pub components: Seq<ComponentIdx>,
}

impl View for EntityData {
    type V = EntityView;

    open spec fn view(&self) -> EntityView {
        EntityView { is_deleted: self.is_deleted, components: self.components@ }
    }
}

/// All entities, each at the position that is its id.
#[derive(PartialEq, Eq, Debug)]
pub struct EntityArray {
    pub entries: Vec<EntityData>,
}

impl View for EntityArray {
    type V = Seq<EntityView>;

    open spec fn view(&self) -> Seq<EntityView> {
        Seq::new(self.entries@.len(), |i: int| self.entries@[i]@)
    }
}

/// The number of entities among the first `n` that are not deleted.
pub open spec fn live_count(entities: Seq<EntityView>, n: int) -> nat
    decreases n,
{
    if n <= 0 || n > entities.len() {
        0
    } else {
        live_count(entities, n - 1) + if entities[n - 1].is_deleted {
            0nat
        } else {
            1nat
        }
    }
}

/// The index that the entity at `i` has among the entities that are not
/// deleted; `None` if it is deleted.
pub open spec fn packed_idx(entities: Seq<EntityView>, i: int) -> Option<u32> {
    if entities[i].is_deleted {
        None
    } else {
        Some(live_count(entities, i) as u32)
    }
}

/// The number of live entities grows with the prefix, by at most one each.
pub proof fn lemma_live_count_monotone(entities: Seq<EntityView>, i: int, j: int)
    requires
        0 <= i <= j <= entities.len(),
    ensures
        live_count(entities, i) <= live_count(entities, j) <= live_count(entities, i) + (j - i),
    decreases j - i,
{
    if i < j {
        lemma_live_count_monotone(entities, i, j - 1);
    }
}

/// The packed indices of the live entities rise strictly in the order of
/// the entities, start at zero and leave no number out: the packed index
/// of a live entity is the number of live entities before it.
pub proof fn lemma_packed_idxs_dense(entities: Seq<EntityView>, i: int, j: int)
    requires
        entities.len() <= u32::MAX,
        0 <= i < j < entities.len(),
        !entities[i].is_deleted,
        !entities[j].is_deleted,
    ensures
        packed_idx(entities, i)->Some_0 < packed_idx(entities, j)->Some_0,
        (forall|k: int| i < k < j ==> entities[k].is_deleted) ==> packed_idx(entities, j)->Some_0
            == packed_idx(entities, i)->Some_0 + 1,
        (forall|k: int| 0 <= k < i ==> entities[k].is_deleted) ==> packed_idx(entities, i)
            == Some(0u32),
        packed_idx(entities, j)->Some_0 < live_count(entities, entities.len() as int),
{
    lemma_live_count_monotone(entities, 0, i);
    lemma_live_count_monotone(entities, i + 1, j);
    lemma_live_count_monotone(entities, 0, j);
    lemma_live_count_monotone(entities, j + 1, entities.len() as int);
    assert(live_count(entities, i + 1) == live_count(entities, i) + 1);
    assert(live_count(entities, j + 1) == live_count(entities, j) + 1);
    if forall|k: int| i < k < j ==> entities[k].is_deleted {
        lemma_all_deleted(entities, i + 1, j);
    }
    if forall|k: int| 0 <= k < i ==> entities[k].is_deleted {
        lemma_all_deleted(entities, 0, i);
    }
}

proof fn lemma_all_deleted(entities: Seq<EntityView>, i: int, j: int)
    requires
        0 <= i <= j <= entities.len(),
        forall|k: int| i <= k < j ==> entities[k].is_deleted,
    ensures
        live_count(entities, j) == live_count(entities, i),
    decreases j - i,
{
    if i < j {
        lemma_all_deleted(entities, i, j - 1);
    }
}

impl EntityArray {
    /// Whether the entity array can be encoded: whether each entity that
    /// is not deleted has at most 65535 component indices.
    pub fn is_encodable(&self) -> (r: bool)
        ensures
            r == entities_encodable(self@),
    {
        let mut i: usize = 0;
        while i < self.entries.len()
            invariant
                i <= self.entries.len(),
                self@.len() == self.entries.len(),
                forall|j: int|
                    0 <= j < i && !(#[trigger] self@[j]).is_deleted ==> self@[j].components.len()
                        <= 0xffff,
            decreases self.entries.len() - i,
        {
            assert(self@[i as int] == self.entries@[i as int]@);
            if !self.entries[i].is_deleted && self.entries[i].components.len() > 0xffff {
                return false;
            }
            i = i + 1;
        }
        true
    }

    /// No entities.
    pub fn empty() -> (array: Self)
        ensures
            array@ == Seq::<EntityView>::empty(),
    {
        let array = EntityArray { entries: Vec::new() };
        assert(array@ =~= Seq::<EntityView>::empty());
        array
    }

    /// For each entity, in order, the index that it has once the deleted
    /// entities are left out: `None` for a deleted entity, else the number
    /// of entities before it that are not deleted.
    pub fn packed_idxs(&self) -> (idxs: Vec<Option<u32>>)
        requires
            self@.len() <= u32::MAX,
        ensures
            idxs@.len() == self@.len(),
            forall|i: int| 0 <= i < self@.len() ==> idxs@[i] == packed_idx(self@, i),
    {
        let mut idxs: Vec<Option<u32>> = Vec::new();
        let mut next: u32 = 0;
        let mut k: usize = 0;
        while k < self.entries.len()
            invariant
                k <= self.entries.len(),
                self@.len() == self.entries.len(),
                self@.len() <= u32::MAX,
                idxs@.len() == k,
                next == live_count(self@, k as int),
                next <= k,
                forall|i: int| 0 <= i < k ==> idxs@[i] == packed_idx(self@, i),
            decreases self.entries.len() - k,
        {
            assert(self@[k as int] == self.entries@[k as int]@);
            if self.entries[k].is_deleted {
                idxs.push(None);
            } else {
                idxs.push(Some(next));
                next = next + 1;
            }
            k = k + 1;
        }
        idxs
    }
}

/// What a decoder of an unsigned integer of `width` bytes says that it
/// wants.
pub open spec fn uint_expected(width: int) -> Expected {
    if width == 1 {
        Expected::Uint8
    } else if width == 2 {
        Expected::Uint16
    } else if width == 3 {
        Expected::Uint24
    } else {
        Expected::Uint32
    }
}

/// The component index with the id `id` and the idx that stands at `pos`
/// in `width` bytes; the idx zero for the width zero.
pub open spec fn parse_idx(s: Seq<u8>, pos: int, id: int, width: int) -> Parsed<ComponentIdx> {
    if width == 0 {
        Ok((ComponentIdx { id: id as u16, idx: 0 }, pos))
    } else {
        match parse_uint(s, pos, width, uint_expected(width)) {
            Ok((idx, next)) => Ok((ComponentIdx { id: id as u16, idx: idx as u32 }, next)),
            Err(e) => Err(e),
        }
    }
}

/// The component index whose id stands at `pos` in `id_width` bytes, with
/// the idx behind it in `width` bytes.
pub open spec fn parse_id_idx(s: Seq<u8>, pos: int, id_width: int, width: int) -> Parsed<
    ComponentIdx,
> {
    match parse_uint(s, pos, id_width, uint_expected(id_width)) {
        Ok((id, next)) => parse_idx(s, next, id, width),
        Err(e) => Err(e),
    }
}

/// The component index at `pos`, by the table of tags.
pub open spec fn parse_component_idx(s: Seq<u8>, pos: int) -> Parsed<ComponentIdx> {
    match parse_byte(s, pos, Expected::ComponentIndex) {
        Ok((b, next)) => if b < 0x40 {
            parse_idx(s, next, b as int, 1)
        } else if b < 0x80 {
            parse_idx(s, next, b - 0x40, 2)
        } else if b < 0x84 {
            parse_id_idx(s, next, 1, b - 0x80 + 1)
        } else if b < 0x88 {
            parse_id_idx(s, next, 2, b - 0x84 + 1)
        } else if b == 0x88 {
            parse_id_idx(s, next, 1, 0)
        } else if b == 0x89 {
            parse_id_idx(s, next, 2, 0)
        } else if b < 0xc0 {
            Err(Failure { idx: next, ex: Expected::ComponentIndex, got: FoundView::InvalidByte(b) })
        } else {
            Ok((ComponentIdx { id: (b - 0xc0) as u16, idx: 0 }, next))
        },
        Err(e) => Err(e),
    }
}

/// The run `front` followed by the run that `r` found.
pub open spec fn prepend_idxs(front: Seq<ComponentIdx>, r: Parsed<Seq<ComponentIdx>>) -> Parsed<
    Seq<ComponentIdx>,
> {
    match r {
        Ok((cs, next)) => Ok((front + cs, next)),
        Err(e) => Err(e),
    }
}

/// `n` component indices from `pos` on, one after the other.
pub open spec fn parse_component_idxs(s: Seq<u8>, pos: int, n: nat) -> Parsed<Seq<ComponentIdx>>
    decreases n,
{
    if n == 0 {
        Ok((Seq::empty(), pos))
    } else {
        match parse_component_idx(s, pos) {
            Ok((c, next)) => prepend_idxs(seq![c], parse_component_idxs(s, next, (n - 1) as nat)),
            Err(e) => Err(e),
        }
    }
}

/// The entity at `pos`: the number of its component indices, in one byte
/// below 255 and else in two bytes behind the byte `ff`, and the indices.
/// An entity is never deleted when it is decoded.
pub open spec fn parse_entity_data(s: Seq<u8>, pos: int) -> Parsed<EntityView> {
    match parse_byte(s, pos, Expected::ComponentIndexCount) {
        Ok((b, next)) => {
            let count: Parsed<int> = if b == 0xff {
                parse_uint(s, next, 2, Expected::Uint16)
            } else {
                Ok((b as int, next))
            };
            match count {
                Ok((n, first)) => match parse_component_idxs(s, first, n as nat) {
                    Ok((cs, end)) => Ok((EntityView { is_deleted: false, components: cs }, end)),
                    Err(e) => Err(e),
                },
                Err(e) => Err(e),
            }
        },
        Err(e) => Err(e),
    }
}

/// The run `front` followed by the run that `r` found.
pub open spec fn prepend_entities(front: Seq<EntityView>, r: Parsed<Seq<EntityView>>) -> Parsed<
    Seq<EntityView>,
> {
    match r {
        Ok((es, next)) => Ok((front + es, next)),
        Err(e) => Err(e),
    }
}

/// `n` entities from `pos` on, one after the other.
pub open spec fn parse_entities(s: Seq<u8>, pos: int, n: nat) -> Parsed<Seq<EntityView>>
    decreases n,
{
    if n == 0 {
        Ok((Seq::empty(), pos))
    } else {
        match parse_entity_data(s, pos) {
            Ok((e, next)) => prepend_entities(seq![e], parse_entities(s, next, (n - 1) as nat)),
            Err(e) => Err(e),
        }
    }
}

/// The word `ENTITIES` in ASCII.
pub open spec fn entities_word() -> Seq<u8> {
    seq![0x45u8, 0x4e, 0x54, 0x49, 0x54, 0x49, 0x45, 0x53]
}

/// The entity array at `pos`: the header line `ENTITIES` and the number of
/// entities, then the entities.
pub open spec fn parse_entity_array(s: Seq<u8>, pos: int) -> Parsed<Seq<EntityView>> {
    match parse_header(s, pos, Expected::EntityArrayHeader) {
        Ok((words, next)) => if words.len() != 2 {
            Err(
                Failure {
                    idx: next,
                    ex: Expected::EntityArrayHeaderFields,
                    got: FoundView::FieldCount(words.len() as int),
                },
            )
        } else if words[0] != entities_word() {
            Err(
                Failure {
                    idx: next,
                    ex: Expected::EntityArraySignature,
                    got: FoundView::InvalidSignature(ascii_chars(words[0])),
                },
            )
        } else {
            match parse_decimal(words[1], u32::MAX as nat) {
                Some(n) => parse_entities(s, next, n),
                None => Err(
                    Failure {
                        idx: next,
                        ex: Expected::EntityCount,
                        got: FoundView::InvalidNumber,
                    },
                ),
            }
        },
        Err(e) => Err(e),
    }
}

/// The bytes of an idx in `width` bytes; none for the width zero.
pub open spec fn idx_bytes(idx: int, width: int) -> Seq<u8> {
    if width == 0 {
        Seq::empty()
    } else if width == 1 {
        seq![idx as u8]
    } else if width == 2 {
        be16_bytes(idx)
    } else if width == 3 {
        be24_bytes(idx)
    } else {
        be32_bytes(idx)
    }
}

/// The fewest bytes that hold `idx`: none for zero, else one to four.
pub open spec fn idx_width(idx: u32) -> int {
    if idx == 0 {
        0
    } else if idx < 0x100 {
        1
    } else if idx < 0x1_0000 {
        2
    } else if idx < 0x100_0000 {
        3
    } else {
        4
    }
}

/// The encoding of a component index: for each size of id and each size
/// of idx the one tag of the table that fits both most closely.
pub open spec fn component_idx_bytes(c: ComponentIdx) -> Seq<u8> {
    let w = idx_width(c.idx);
    if c.id < 0x40 && w == 0 {
        seq![(0xc0 + c.id) as u8]
    } else if c.id < 0x40 && w == 1 {
        seq![c.id as u8, c.idx as u8]
    } else if c.id < 0x40 && w == 2 {
        seq![(0x40 + c.id) as u8] + be16_bytes(c.idx as int)
    } else if c.id < 0x100 {
        if w == 0 {
            seq![0x88u8, c.id as u8]
        } else {
            seq![(0x7f + w) as u8, c.id as u8] + idx_bytes(c.idx as int, w)
        }
    } else {
        if w == 0 {
            seq![0x89u8] + be16_bytes(c.id as int)
        } else {
            seq![(0x83 + w) as u8] + be16_bytes(c.id as int) + idx_bytes(c.idx as int, w)
        }
    }
}

/// The encodings of the first `n` component indices of `cs`, one after
/// the other.
pub open spec fn component_idxs_bytes(cs: Seq<ComponentIdx>, n: int) -> Seq<u8>
    decreases n,
{
    if n <= 0 || n > cs.len() {
        Seq::empty()
    } else {
        component_idxs_bytes(cs, n - 1) + component_idx_bytes(cs[n - 1])
    }
}

/// The encoding of an entity of at most 65535 component indices: their
/// number, in one byte below 255 and else in two bytes behind the byte
/// `ff`, and the indices.
pub open spec fn entity_data_bytes(e: EntityView) -> Seq<u8> {
    let n = e.components.len() as int;
    (if n < 0xff {
        seq![n as u8]
    } else {
        seq![0xffu8] + be16_bytes(n)
    }) + component_idxs_bytes(e.components, n)
}

/// The encodings of those of the first `n` entities that are not deleted,
/// one after the other.
pub open spec fn live_entities_bytes(entities: Seq<EntityView>, n: int) -> Seq<u8>
    decreases n,
{
    if n <= 0 || n > entities.len() {
        Seq::empty()
    } else {
        live_entities_bytes(entities, n - 1) + if entities[n - 1].is_deleted {
            Seq::empty()
        } else {
            entity_data_bytes(entities[n - 1])
        }
    }
}

/// The encoding of an entity array: the header line with the number of
/// entities that are not deleted, and those entities. A deleted entity
/// leaves no trace.
pub open spec fn entity_array_bytes(entities: Seq<EntityView>) -> Seq<u8> {
    entities_word() + seq![0x20u8] + decimal(live_count(entities, entities.len() as int))
        + seq![0x0au8] + live_entities_bytes(entities, entities.len() as int)
}

/// Whether an entity array can be encoded: whether each entity that is
/// not deleted has at most 65535 component indices.
pub open spec fn entities_encodable(entities: Seq<EntityView>) -> bool {
    forall|i: int|
        0 <= i < entities.len() && !(#[trigger] entities[i]).is_deleted
            ==> entities[i].components.len() <= 0xffff
}

/// How many bytes the id of a component index takes.
#[derive(Clone, Copy, PartialEq, Eq, Debug)]
pub enum IdScale {
    /// An id below 64, which fits the tag.
    U6(u8),
    /// An id of one byte.
    U8(u8),
    /// An id of two bytes.
    U16(u16),
}

/// How many bytes the idx of a component index takes.
#[derive(Clone, Copy, PartialEq, Eq, Debug)]
pub enum IdxScale {
    /// The idx zero, which takes none.
    Zero,
    /// An idx of one byte.
    U8(u8),
    /// An idx of two bytes.
    U16(u16),
    /// An idx of three bytes.
    U24(u32),
    /// An idx of four bytes.
    U32(u32),
}

impl IdScale {
    /// The smallest class that holds `id`.
    pub fn from_id(id: u16) -> (scale: Self)
        ensures
            scale == (if id < 0x40 {
                IdScale::U6(id as u8)
            } else if id < 0x100 {
                IdScale::U8(id as u8)
            } else {
                IdScale::U16(id)
            }),
    {
        if id < 0x100 {
            if id < 0x40 {
                IdScale::U6(id as u8)
            } else {
                IdScale::U8(id as u8)
            }
        } else {
            IdScale::U16(id)
        }
    }
}

impl IdxScale {
    /// The smallest class that holds `idx`.
    pub fn from_idx(idx: u32) -> (scale: Self)
        ensures
            scale == (if idx == 0 {
                IdxScale::Zero
            } else if idx < 0x100 {
                IdxScale::U8(idx as u8)
            } else if idx < 0x1_0000 {
                IdxScale::U16(idx as u16)
            } else if idx < 0x100_0000 {
                IdxScale::U24(idx)
            } else {
                IdxScale::U32(idx)
            }),
    {
        if idx < 0x100 {
            if idx == 0 {
                IdxScale::Zero
            } else {
                IdxScale::U8(idx as u8)
            }
        } else if idx < 0x1_0000 {
            IdxScale::U16(idx as u16)
        } else if idx < 0x100_0000 {
            IdxScale::U24(idx)
        } else {
            IdxScale::U32(idx)
        }
    }
}

impl<'a> decode::State<'a> {
    fn decode_idx(&mut self, id: u16, width: u8) -> (r: Result<ComponentIdx, decode::Error>)
        requires
            width <= 4,
        ensures
            final(self).input() == old(self).input(),
            r matches Ok(c) ==> parse_idx(
                old(self).input(),
                old(self).pos(),
                id as int,
                width as int,
            ) == Ok::<_, Failure>((c, final(self).pos())),
            r matches Err(e) ==> final(self).pos() == e@.idx,
            r matches Err(e) ==> parse_idx(
                old(self).input(),
                old(self).pos(),
                id as int,
                width as int,
            ) == Err::<(ComponentIdx, int), _>(e@),
    {
        let idx: u32 = if width == 0 {
            0
        } else if width == 1 {
            self.decode_u8()? as u32
        } else if width == 2 {
            self.decode_u16()? as u32
        } else if width == 3 {
            self.decode_u24()?
        } else {
            self.decode_u32()?
        };
        Ok(ComponentIdx { id, idx })
    }

    fn decode_id_idx(&mut self, id_width: u8, width: u8) -> (r: Result<
        ComponentIdx,
        decode::Error,
    >)
        requires
            id_width == 1 || id_width == 2,
            width <= 4,
        ensures
            final(self).input() == old(self).input(),
            r matches Ok(c) ==> parse_id_idx(
                old(self).input(),
                old(self).pos(),
                id_width as int,
                width as int,
            ) == Ok::<_, Failure>((c, final(self).pos())),
            r matches Err(e) ==> final(self).pos() == e@.idx,
            r matches Err(e) ==> parse_id_idx(
                old(self).input(),
                old(self).pos(),
                id_width as int,
                width as int,
            ) == Err::<(ComponentIdx, int), _>(e@),
    {
        let id: u16 = if id_width == 1 {
            self.decode_u8()? as u16
        } else {
            self.decode_u16()?
        };
        self.decode_idx(id, width)
    }

    /// Decodes one component index.
    pub fn decode_component_idx(&mut self) -> (r: Result<ComponentIdx, decode::Error>)
        ensures
            final(self).input() == old(self).input(),
            r matches Ok(c) ==> parse_component_idx(old(self).input(), old(self).pos()) == Ok::<
                _,
                Failure,
            >((c, final(self).pos())),
            r matches Err(e) ==> final(self).pos() == e@.idx,
            r matches Err(e) ==> parse_component_idx(old(self).input(), old(self).pos()) == Err::<
                (ComponentIdx, int),
                _,
            >(e@),
    {
        let b = self.next(Expected::ComponentIndex)?;
        if b < 0x40 {
            self.decode_idx(b as u16, 1)
        } else if b < 0x80 {
            self.decode_idx((b - 0x40) as u16, 2)
        } else if b < 0x84 {
            self.decode_id_idx(1, b - 0x80 + 1)
        } else if b < 0x88 {
            self.decode_id_idx(2, b - 0x84 + 1)
        } else if b == 0x88 {
            self.decode_id_idx(1, 0)
        } else if b == 0x89 {
            self.decode_id_idx(2, 0)
        } else if b < 0xc0 {
            Err(self.err_unexpected(Expected::ComponentIndex, Found::InvalidByte(b)))
        } else {
            Ok(ComponentIdx { id: (b - 0xc0) as u16, idx: 0 })
        }
    }

    /// Decodes one entity.
    #[verifier::loop_isolation(false)]
    pub fn decode_entity_data(&mut self) -> (r: Result<EntityData, decode::Error>)
        ensures
            final(self).input() == old(self).input(),
            r matches Ok(e) ==> parse_entity_data(old(self).input(), old(self).pos()) == Ok::<
                _,
                Failure,
            >((e@, final(self).pos())),
            r matches Err(e) ==> final(self).pos() == e@.idx,
            r matches Err(e) ==> parse_entity_data(old(self).input(), old(self).pos()) == Err::<
                (EntityView, int),
                _,
            >(e@),
    {
        let b = self.next(Expected::ComponentIndexCount)?;
        let num_comp_idxs: u16 = if b == 0xff {
            self.decode_u16()?
        } else {
            b as u16
        };
        let ghost first = self.pos();
        let mut components: Vec<ComponentIdx> = Vec::new();
        let mut i: u16 = 0;
        while i < num_comp_idxs
            invariant
                self.input() == old(self).input(),
                i <= num_comp_idxs,
                parse_component_idxs(self.input(), first, num_comp_idxs as nat) == prepend_idxs(
                    components@,
                    parse_component_idxs(self.input(), self.pos(), (num_comp_idxs - i) as nat),
                ),
            decreases num_comp_idxs - i,
        {
            let ghost front = components@;
            let c = self.decode_component_idx()?;
            proof {
                let rest = parse_component_idxs(
                    self.input(),
                    self.pos(),
                    (num_comp_idxs - i - 1) as nat,
                );
                assert(prepend_idxs(front, prepend_idxs(seq![c], rest)) == prepend_idxs(
                    front.push(c),
                    rest,
                )) by {
                    if let Ok((cs, next)) = rest {
                        assert(front + (seq![c] + cs) =~= front.push(c) + cs);
                    }
                }
            }
            components.push(c);
            i = i + 1;
        }
        assert(components@ + Seq::<ComponentIdx>::empty() =~= components@);
        Ok(EntityData { is_deleted: false, components })
    }

    /// Decodes the entity array.
    #[verifier::loop_isolation(false)]
    pub fn decode_entity_array(&mut self) -> (r: Result<EntityArray, decode::Error>)
        ensures
            final(self).input() == old(self).input(),
            r matches Ok(a) ==> parse_entity_array(old(self).input(), old(self).pos()) == Ok::<
                _,
                Failure,
            >((a@, final(self).pos())),
            r matches Err(e) ==> final(self).pos() == e@.idx,
            r matches Err(e) ==> parse_entity_array(old(self).input(), old(self).pos()) == Err::<
                (Seq<EntityView>, int),
                _,
            >(e@),
    {
        let ghost s = self.input();
        let ghost pos = self.pos();
        let mut header = self.decode_header_words(Expected::EntityArrayHeader)?;
        proof {
            lemma_header_words(s, pos, Expected::EntityArrayHeader);
        }
        let ghost words = byte_views(header@);
        if header.len() != 2 {
            return Err(
                self.err_unexpected(
                    Expected::EntityArrayHeaderFields,
                    Found::FieldCount(header.len()),
                ),
            );
        }
        assert(words[0] == header[0]@ && words[1] == header[1]@);
        let signature: [u8; 8] = [0x45, 0x4e, 0x54, 0x49, 0x54, 0x49, 0x45, 0x53];
        assert(signature@ =~= entities_word());
        assert(is_word(words[0]));
        if !bytes_eq(header[0].as_slice(), signature.as_slice()) {
            let word = take_word(&mut header, 0);
            return Err(
                self.err_unexpected(
                    Expected::EntityArraySignature,
                    Found::InvalidSignature(word),
                ),
            );
        }
        let num_entities: u32 = match parse_number(header[1].as_slice(), 0xffff_ffff) {
            Some(n) => n,
            None => {
                return Err(self.err_unexpected(Expected::EntityCount, Found::InvalidNumber));
            },
        };
        let ghost first = self.pos();
        let mut entries: Vec<EntityData> = Vec::new();
        let ghost mut found: Seq<EntityView> = Seq::empty();
        let mut i: u32 = 0;
        while i < num_entities
            invariant
                self.input() == s,
                i <= num_entities,
                found == (EntityArray { entries })@,
                parse_entities(s, first, num_entities as nat) == prepend_entities(
                    found,
                    parse_entities(s, self.pos(), (num_entities - i) as nat),
                ),
            decreases num_entities - i,
        {
            let e = self.decode_entity_data()?;
            proof {
                let rest = parse_entities(s, self.pos(), (num_entities - i - 1) as nat);
                assert(prepend_entities(found, prepend_entities(seq![e@], rest))
                    == prepend_entities(found.push(e@), rest)) by {
                    if let Ok((es, next)) = rest {
                        assert(found + (seq![e@] + es) =~= found.push(e@) + es);
                    }
                }
                found = found.push(e@);
            }
            entries.push(e);
            assert(found =~= (EntityArray { entries })@);
            i = i + 1;
        }
        assert(found + Seq::<EntityView>::empty() =~= found);
        Ok(EntityArray { entries })
    }
}

impl encode::State {
    /// Encodes one component index in its one form.
    #[verifier::rlimit(50)]
    pub fn encode_component_idx(&mut self, comp_idx: ComponentIdx)
        ensures
            final(self).written() == old(self).written() + component_idx_bytes(comp_idx),
    {
        let id_s = IdScale::from_id(comp_idx.id);
        let idx_s = IdxScale::from_idx(comp_idx.idx);
        match (id_s, idx_s) {
            (IdScale::U6(a), IdxScale::Zero) => {
                self.write_u8(0xc0 + a);
            },
            (IdScale::U6(a), IdxScale::U8(b)) => {
                self.write_u8(a);
                self.write_u8(b);
            },
            (IdScale::U6(a), IdxScale::U16(b)) => {
                self.write_u8(0x40 + a);
                self.write_u16(b);
            },
            (IdScale::U6(a), IdxScale::U24(b)) => {
                self.write_u8(0x82);
                self.write_u8(a);
                self.write_u24(b);
            },
            (IdScale::U6(a), IdxScale::U32(b)) => {
                self.write_u8(0x83);
                self.write_u8(a);
                self.write_u32(b);
            },
            (IdScale::U8(a), IdxScale::Zero) => {
                self.write_u8(0x88);
                self.write_u8(a);
            },
            (IdScale::U8(a), IdxScale::U8(b)) => {
                self.write_u8(0x80);
                self.write_u8(a);
                self.write_u8(b);
            },
            (IdScale::U8(a), IdxScale::U16(b)) => {
                self.write_u8(0x81);
                self.write_u8(a);
                self.write_u16(b);
            },
            (IdScale::U8(a), IdxScale::U24(b)) => {
                self.write_u8(0x82);
                self.write_u8(a);
                self.write_u24(b);
            },
            (IdScale::U8(a), IdxScale::U32(b)) => {
                self.write_u8(0x83);
                self.write_u8(a);
                self.write_u32(b);
            },
            (IdScale::U16(a), IdxScale::Zero) => {
                self.write_u8(0x89);
                self.write_u16(a);
            },
            (IdScale::U16(a), IdxScale::U8(b)) => {
                self.write_u8(0x84);
                self.write_u16(a);
                self.write_u8(b);
            },
            (IdScale::U16(a), IdxScale::U16(b)) => {
                self.write_u8(0x85);
                self.write_u16(a);
                self.write_u16(b);
            },
            (IdScale::U16(a), IdxScale::U24(b)) => {
                self.write_u8(0x86);
                self.write_u16(a);
                self.write_u24(b);
            },
            (IdScale::U16(a), IdxScale::U32(b)) => {
                self.write_u8(0x87);
                self.write_u16(a);
                self.write_u32(b);
            },
        }
    }

    /// Encodes one entity, whether it is deleted or not.
    pub fn encode_entity_data(&mut self, data: &EntityData)
        requires
            data@.components.len() <= 0xffff,
        ensures
            final(self).written() == old(self).written() + entity_data_bytes(data@),
    {
        let len = data.components.len();
        if len < 0xff {
            self.write_u8(len as u8);
        } else {
            self.write_u8(0xff);
            self.write_u16(len as u16);
        }
        let ghost head = self.written();
        let mut i: usize = 0;
        while i < len
            invariant
                i <= len,
                len == data.components.len(),
                self.written() == head + component_idxs_bytes(data@.components, i as int),
            decreases len - i,
        {
            self.encode_component_idx(data.components[i]);
            i = i + 1;
        }
    }

    /// Encodes the entity array without its deleted entities. The entities
    /// behind a deleted one move up, so an entity id that a component holds
    /// must be rewritten by [`EntityArray::packed_idxs`] when it is encoded.
    pub fn encode_entity_array(&mut self, array: &EntityArray)
        requires
            entities_encodable(array@),
        ensures
            final(self).written() == old(self).written() + entity_array_bytes(array@),
    {
        let n = array.entries.len();
        let mut len: u64 = 0;
        let mut i: usize = 0;
        while i < n
            invariant
                i <= n,
                n == array.entries.len(),
                n == array@.len(),
                len == live_count(array@, i as int),
                len <= i,
            decreases n - i,
        {
            assert(array@[i as int] == array.entries@[i as int]@);
            if !array.entries[i].is_deleted {
                len = len + 1;
            }
            i = i + 1;
        }
        let signature: [u8; 8] = [0x45, 0x4e, 0x54, 0x49, 0x54, 0x49, 0x45, 0x53];
        assert(signature@ =~= entities_word());
        self.write(signature.as_slice());
        self.write_u8(0x20);
        self.write_fmt(len);
        self.write_u8(0x0a);
        let ghost head = self.written();
        let mut i: usize = 0;
        while i < n
            invariant
                i <= n,
                n == array.entries.len(),
                n == array@.len(),
                entities_encodable(array@),
                self.written() == head + live_entities_bytes(array@, i as int),
            decreases n - i,
        {
            assert(array@[i as int] == array.entries@[i as int]@);
            if !array.entries[i].is_deleted {
                self.encode_entity_data(&array.entries[i]);
            }
            i = i + 1;
        }
    }
}

/// The first `n` entities without the deleted ones.
pub open spec fn compacted(entities: Seq<EntityView>, n: int) -> Seq<EntityView>
    decreases n,
{
    if n <= 0 || n > entities.len() {
        Seq::empty()
    } else if entities[n - 1].is_deleted {
        compacted(entities, n - 1)
    } else {
        compacted(entities, n - 1).push(entities[n - 1])
    }
}

/// The encodings of the live entities depend on the entities up to `n`
/// only.
proof fn lemma_live_prefix(a: Seq<EntityView>, b: Seq<EntityView>, n: int)
    requires
        0 <= n <= a.len(),
        n <= b.len(),
        forall|i: int| 0 <= i < n ==> a[i] == b[i],
    ensures
        live_entities_bytes(a, n) == live_entities_bytes(b, n),
        live_count(a, n) == live_count(b, n),
    decreases n,
{
    if n > 0 {
        lemma_live_prefix(a, b, n - 1);
    }
}

/// Leaving the deleted entities out leaves live entities only, as many as
/// were live, with the same encodings.
pub proof fn lemma_compacted(entities: Seq<EntityView>, n: int)
    requires
        0 <= n <= entities.len(),
    ensures
        compacted(entities, n).len() == live_count(entities, n),
        forall|i: int|
            0 <= i < compacted(entities, n).len() ==> !(#[trigger] compacted(
                entities,
                n,
            )[i]).is_deleted,
        live_count(compacted(entities, n), compacted(entities, n).len() as int) == live_count(
            entities,
            n,
        ),
        live_entities_bytes(compacted(entities, n), compacted(entities, n).len() as int)
            == live_entities_bytes(entities, n),
    decreases n,
{
    if n > 0 {
        lemma_compacted(entities, n - 1);
        let shorter = compacted(entities, n - 1);
        let all = compacted(entities, n);
        if !entities[n - 1].is_deleted {
            lemma_live_prefix(all, shorter, shorter.len() as int);
            assert(live_entities_bytes(entities, n) == live_entities_bytes(entities, n - 1)
                + entity_data_bytes(entities[n - 1]));
        } else {
            assert(live_entities_bytes(entities, n - 1) + Seq::<u8>::empty()
                =~= live_entities_bytes(entities, n - 1));
        }
    }
}

/// A deleted entity leaves no trace: an entity array is encoded as the
/// array of its live entities is, and the number in its header line counts
/// the live entities only.
pub proof fn lemma_deleted_leave_no_trace(entities: Seq<EntityView>)
    ensures
        entity_array_bytes(entities) == entity_array_bytes(
            compacted(entities, entities.len() as int),
        ),
{
    lemma_compacted(entities, entities.len() as int);
}

} // verus!
