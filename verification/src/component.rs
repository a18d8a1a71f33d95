//! Component arrays and the global component: named fields, records of
//! values, and the block that holds them on disk.
//!
//! A component array is written as the header line
//! `COMPONENT <name> <id> <records> <field>*`, and the global component as
//! `GLOBAL <field>*`; the values follow, record by record.

use vstd::prelude::*;
use crate::decode;
use crate::decode::{Expected, Failure, Found, FoundView, Parsed};
use crate::encode;
use crate::encode::decimal;
use crate::text::{
    are_words, ascii_chars, ascii_words, byte_views, bytes_eq, is_word, lemma_header_words,
    parse_decimal, parse_header, parse_number, string_views, take_word,
};
use crate::value::{
    encodable, parse_value, parse_values, rewritten, rule_of, values_bytes, views,
    EntityId, EntityIdRewrite, Value, ValueView,
};

verus! {

/// The position of the first of `names` that is `name`.
pub open spec fn position_of(names: Seq<Seq<char>>, name: Seq<char>) -> Option<int> {
    if exists|i: int| 0 <= i < names.len() && names[i] == name {
        Some(choose|i: int| is_first_at(names, name, i))
    } else {
        None
    }
}

/// Whether `i` is the least position of `name` among `names`.
pub open spec fn is_first_at(names: Seq<Seq<char>>, name: Seq<char>, i: int) -> bool {
    &&& 0 <= i < names.len()
    &&& names[i] == name
    &&& forall|j: int| 0 <= j < i ==> names[j] != name
}

/// Whether the name at `i` stands at an earlier position too.
pub open spec fn repeats_at(names: Seq<Seq<char>>, i: int) -> bool {
    exists|j: int| 0 <= j < i && names[j] == names[i]
}

/// Whether no name stands at two positions.
pub open spec fn distinct(names: Seq<Seq<char>>) -> bool {
    forall|i: int| 0 <= i < names.len() ==> !repeats_at(names, i)
}

/// Whether `i` is the least position of a name that an earlier position
/// holds too.
pub open spec fn is_first_repeat(names: Seq<Seq<char>>, i: int) -> bool {
    &&& 0 <= i < names.len()
    &&& repeats_at(names, i)
    &&& forall|k: int| 0 <= k < i ==> !repeats_at(names, k)
}

/// The position of the first name that an earlier position holds too.
pub open spec fn first_repeat(names: Seq<Seq<char>>) -> Option<int> {
    if distinct(names) {
        None
    } else {
        Some(choose|i: int| is_first_repeat(names, i))
    }
}

/// The least position is unique.
pub proof fn lemma_first_at(names: Seq<Seq<char>>, name: Seq<char>, i: int)
    requires
        is_first_at(names, name, i),
    ensures
        position_of(names, name) == Some(i),
{
    let k = choose|k: int| is_first_at(names, name, k);
    assert(is_first_at(names, name, k));
    assert(!(k < i) && !(i < k));
}

/// The first repeat is unique.
pub proof fn lemma_first_repeat(names: Seq<Seq<char>>, i: int)
    requires
        is_first_repeat(names, i),
    ensures
        first_repeat(names) == Some(i),
{
    let k = choose|k: int| is_first_repeat(names, k);
    assert(is_first_repeat(names, k));
    assert(!(k < i) && !(i < k));
}

/// The first of `ts` that stands at an earlier position too, found by
/// comparing each with all before it.
pub fn find_duplicate_quadratic(ts: &[String]) -> (dup: Option<&String>)
    ensures
        dup matches Some(t) ==> first_repeat(string_views(ts@)) matches Some(i) && t@
            == string_views(ts@)[i],
        dup.is_none() ==> distinct(string_views(ts@)),
{
    let ghost names = string_views(ts@);
    let mut i: usize = 0;
    while i < ts.len()
        invariant
            i <= ts.len(),
            names == string_views(ts@),
            forall|k: int| 0 <= k < i ==> !repeats_at(names, k),
        decreases ts.len() - i,
    {
        let mut j: usize = 0;
        while j < i
            invariant
                j <= i < ts.len(),
                names == string_views(ts@),
                forall|k: int| 0 <= k < i ==> !repeats_at(names, k),
                forall|k: int| 0 <= k < j ==> names[k] != names[i as int],
            decreases i - j,
        {
            if ts[j] == ts[i] {
                proof {
                    assert(names[j as int] == names[i as int]);
                    assert(repeats_at(names, i as int));
                    lemma_first_repeat(names, i as int);
                }
                return Some(&ts[i]);
            }
            j = j + 1;
        }
        i = i + 1;
    }
    None
}

/// The position of the first of `scheme` that is `name`.
pub fn position(scheme: &[String], name: &str) -> (r: Option<usize>)
    ensures
        r matches Some(i) ==> position_of(string_views(scheme@), name@) == Some(i as int)
            && is_first_at(string_views(scheme@), name@, i as int),
        r.is_none() ==> position_of(string_views(scheme@), name@).is_none(),
{
    let ghost names = string_views(scheme@);
    let mut i: usize = 0;
    while i < scheme.len()
        invariant
            i <= scheme.len(),
            names == string_views(scheme@),
            forall|j: int| 0 <= j < i ==> names[j] != name@,
        decreases scheme.len() - i,
    {
        if bytes_eq(scheme[i].as_str().as_bytes(), name.as_bytes()) {
            proof {
                vstd::utf8::encode_utf8_decode_utf8(scheme[i as int]@);
                vstd::utf8::encode_utf8_decode_utf8(name@);
                assert(names[i as int] == name@);
                lemma_first_at(names, name@, i as int);
            }
            return Some(i);
        }
        i = i + 1;
    }
    None
}

/// The values of one record, with the names of their fields.
#[derive(Clone, Copy)]
pub struct ComponentRef<'a> {
    pub scheme: &'a [String],
    pub values: &'a [Value],
}

/// The mathematical content of a record: the names of the fields and the
/// values.
pub struct RecordView {
    pub scheme: Seq<Seq<char>>,
    pub values: Seq<ValueView>,
}

impl<'a> ComponentRef<'a> {
    /// The mathematical content of the record.
    pub open spec fn view(&self) -> RecordView {
        RecordView { scheme: string_views(self.scheme@), values: views(self.values@) }
    }

    /// The position of the field `name`.
    pub fn field_idx(self, name: &str) -> (r: Option<usize>)
        ensures
            r matches Some(i) ==> position_of(self@.scheme, name@) == Some(i as int),
            r.is_none() ==> position_of(self@.scheme, name@).is_none(),
    {
        position(self.scheme, name)
    }

    /// The value of the field `name`; `None` if there is no such field, or
    /// no value at its position.
    pub fn field(self, name: &str) -> (r: Option<&'a Value>)
        ensures
            r matches Some(v) ==> position_of(self@.scheme, name@) matches Some(i) && i
                < self@.values.len() && v@ == self@.values[i],
            r.is_none() ==> match position_of(self@.scheme, name@) {
                Some(i) => i >= self@.values.len(),
                None => true,
            },
    {
        match self.field_idx(name) {
            Some(i) => if i < self.values.len() {
                Some(&self.values[i])
            } else {
                None
            },
            None => None,
        }
    }
}

/// The values of one record, open to change, with the names of their
/// fields.
pub struct ComponentMut<'a> {
    pub scheme: &'a [String],
    pub values: &'a mut [Value],
}

impl<'a> ComponentMut<'a> {
    /// The mathematical content of the record.
    pub open spec fn view(&self) -> RecordView {
        RecordView { scheme: string_views(self.scheme@), values: views(self.values@) }
    }

    /// The position of the field `name`.
    pub fn field_idx(&self, name: &str) -> (r: Option<usize>)
        ensures
            r matches Some(i) ==> position_of(self@.scheme, name@) == Some(i as int),
            r.is_none() ==> position_of(self@.scheme, name@).is_none(),
    {
        position(self.scheme, name)
    }

    /// The value of the field `name`; `None` if there is no such field, or
    /// no value at its position.
    pub fn field(&self, name: &str) -> (r: Option<&Value>)
        ensures
            r matches Some(v) ==> position_of(self@.scheme, name@) matches Some(i) && i
                < self@.values.len() && v@ == self@.values[i],
            r.is_none() ==> match position_of(self@.scheme, name@) {
                Some(i) => i >= self@.values.len(),
                None => true,
            },
    {
        match self.field_idx(name) {
            Some(i) => if i < self.values.len() {
                Some(&self.values[i])
            } else {
                None
            },
            None => None,
        }
    }

    /// The record as it is now, closed to change.
    pub fn to_ref(&self) -> (r: ComponentRef<'_>)
        ensures
            r@ == self@,
    {
        ComponentRef { scheme: self.scheme, values: &*self.values }
    }

    /// The value of the field `name`, open to change; `None` if there is
    /// no such field, or no value at its position. What is written to the
    /// value is written to the record, and nothing else changes.
    pub fn field_mut(&mut self, name: &str) -> (r: Option<&mut Value>)
        ensures
            final(self).scheme == old(self).scheme,
            r matches Some(v) ==> position_of(old(self)@.scheme, name@) matches Some(i) && i
                < old(self)@.values.len() && *v == old(self).values@[i]
                && final(self).values@ == old(self).values@.update(i, *final(v)),
            r.is_none() ==> final(self).values@ == old(self).values@ && match position_of(
                old(self)@.scheme,
                name@,
            ) {
                Some(i) => i >= old(self)@.values.len(),
                None => true,
            },
    {
        match self.field_idx(name) {
            Some(i) => if i < self.values.len() {
                Some(&mut self.values[i])
            } else {
                None
            },
            None => None,
        }
    }
}

/// A named array of records, all with the fields of one scheme.
pub struct ComponentArray {
    name: String,
    id: u16,
    scheme: Vec<String>,
    values: Vec<Value>,
}

/// The mathematical content of a [`ComponentArray`].
#[verifier::ext_equal]
pub struct ComponentArrayView {
    pub name: Seq<char>,
    pub id: u16,
    pub scheme: Seq<Seq<char>>,
    pub values: Seq<ValueView>,
}

/// Where the values of the record `idx` stand among the values of an
/// array with `fields` fields and `len` values: from the first to behind
/// the last. With no fields only the record 0 exists, and is empty. A
/// record whose end does not fit 32 bits does not exist.
pub open spec fn record_range(fields: int, len: int, idx: u32) -> Option<(int, int)> {
    if fields == 0 {
        if idx == 0 {
            Some((0, 0))
        } else {
            None
        }
    } else if (idx + 1) * fields <= u32::MAX && (idx + 1) * fields <= len {
        Some((idx * fields, (idx + 1) * fields))
    } else {
        None
    }
}

impl ComponentArrayView {
    /// The number of records that the header line declares: the number of
    /// whole records among the values, and zero for an array with no
    /// fields.
    pub open spec fn records(self) -> int {
        if self.scheme.len() == 0 {
            0
        } else {
            self.values.len() as int / self.scheme.len() as int
        }
    }

    /// Whether the array is as a decoder leaves it: no field name stands
    /// twice, and the values fill whole records.
    pub open spec fn wf(self) -> bool {
        &&& distinct(self.scheme)
        &&& self.values.len() == self.records() * self.scheme.len()
    }

    /// The array with `values` in the place of the values of the record
    /// `idx`.
    pub open spec fn with_record(self, idx: u32, values: Seq<ValueView>) -> ComponentArrayView {
        match record_range(self.scheme.len() as int, self.values.len() as int, idx) {
            Some((start, end)) => ComponentArrayView {
                values: self.values.subrange(0, start) + values + self.values.subrange(
                    end,
                    self.values.len() as int,
                ),
                ..self
            },
            None => self,
        }
    }

    /// The record `idx`.
    pub open spec fn record(self, idx: u32) -> Option<RecordView> {
        match record_range(self.scheme.len() as int, self.values.len() as int, idx) {
            Some((start, end)) => Some(
                RecordView { scheme: self.scheme, values: self.values.subrange(start, end) },
            ),
            None => None,
        }
    }
}

fn record_bounds(fields: usize, len: usize, idx: u32) -> (r: Option<(usize, usize)>)
    ensures
        r matches Some((start, end)) ==> record_range(fields as int, len as int, idx) == Some(
            (start as int, end as int),
        ) && start <= end <= len,
        r.is_none() ==> record_range(fields as int, len as int, idx).is_none(),
{
    if fields == 0 {
        return if idx == 0 {
            Some((0, 0))
        } else {
            None
        };
    }
    if fields > len || fields > 0xffff_ffff {
        assert((idx + 1) * fields >= fields) by (nonlinear_arith)
            requires
                idx >= 0,
                fields >= 0,
        ;
        return None;
    }
    let n: u64 = fields as u64;
    assert((idx + 1) * n <= 0x1_0000_0000 * 0xffff_ffff) by (nonlinear_arith)
        requires
            0 <= idx <= 0xffff_ffff,
            0 <= n <= 0xffff_ffff,
    ;
    let end: u64 = (idx as u64 + 1) * n;
    if end > 0xffff_ffff || end > len as u64 {
        return None;
    }
    assert(idx * n == (idx + 1) * n - n) by (nonlinear_arith);
    Some(((end - n) as usize, end as usize))
}

impl ComponentArray {
    /// The mathematical content of the array.
    pub closed spec fn view(&self) -> ComponentArrayView {
        ComponentArrayView {
            name: self.name@,
            id: self.id,
            scheme: string_views(self.scheme@),
            values: views(self.values@),
        }
    }

    /// The name of the component.
    pub fn name(&self) -> (r: &str)
        ensures
            r@ == self@.name,
    {
        self.name.as_str()
    }

    /// The id of the component.
    pub fn id(&self) -> (r: u16)
        ensures
            r == self@.id,
    {
        self.id
    }

    /// The names of the fields of a record, in order.
    pub fn scheme(&self) -> (r: &[String])
        ensures
            string_views(r@) == self@.scheme,
    {
        self.scheme.as_slice()
    }

    /// Whether the component has no fields, and so marks an entity by its
    /// presence alone.
    pub fn is_marker(&self) -> (r: bool)
        ensures
            r == (self@.scheme.len() == 0),
    {
        self.scheme.len() == 0
    }

    /// The position of the field `name` in a record.
    pub fn field_idx(&self, name: &str) -> (r: Option<usize>)
        ensures
            r matches Some(i) ==> position_of(self@.scheme, name@) == Some(i as int),
            r.is_none() ==> position_of(self@.scheme, name@).is_none(),
    {
        position(self.scheme.as_slice(), name)
    }

    /// The record `idx`. A marker component has the record 0 and no other,
    /// whatever its header line declared.
    pub fn get(&self, idx: u32) -> (r: Option<ComponentRef<'_>>)
        ensures
            r matches Some(c) ==> self@.record(idx) == Some(c@),
            r.is_none() ==> self@.record(idx).is_none(),
    {
        match record_bounds(self.scheme.len(), self.values.len(), idx) {
            Some((start, end)) => {
                let values = vstd::slice::slice_subrange(self.values.as_slice(), start, end);
                assert(views(values@) =~= views(self.values@).subrange(start as int, end as int));
                Some(ComponentRef { scheme: self.scheme.as_slice(), values })
            },
            None => None,
        }
    }

    /// The record `idx`, open to change. What is written to its values is
    /// written to the array; the other records stay as they are.
    pub fn get_mut(&mut self, idx: u32) -> (r: Option<ComponentMut<'_>>)
        ensures
            r matches Some(c) ==> old(self)@.record(idx) == Some(c@) && final(self)@ =~= old(
                self,
            )@.with_record(idx, views(final(c.values)@)),
            r.is_none() ==> old(self)@.record(idx).is_none() && *final(self) == *old(self),
    {
        match record_bounds(self.scheme.len(), self.values.len(), idx) {
            Some((start, end)) => {
                let ghost before = self.values@;
                let ghost len = self.values@.len() as int;
                let (head, rest) = self.values.as_mut_slice().split_at_mut(start);
                let (values, tail) = rest.split_at_mut(end - start);
                assert(views(values@) =~= views(before).subrange(start as int, end as int));
                assert(views(final(head)@ + final(values)@ + final(tail)@) =~= views(
                    before,
                ).subrange(0, start as int) + views(final(values)@) + views(before).subrange(
                    end as int,
                    len,
                ));
                Some(ComponentMut { scheme: self.scheme.as_slice(), values })
            },
            None => None,
        }
    }
}

/// The one record of the state that belongs to the world as a whole.
pub struct GlobalComponent {
    scheme: Vec<String>,
    values: Vec<Value>,
}

impl GlobalComponent {
    /// The mathematical content of the global component.
    pub closed spec fn view(&self) -> RecordView {
        RecordView { scheme: string_views(self.scheme@), values: views(self.values@) }
    }

    /// The global component without fields.
    pub fn empty() -> (global: Self)
        ensures
            global@.scheme.len() == 0,
            global@.values.len() == 0,
    {
        Self { scheme: Vec::new(), values: Vec::new() }
    }

    /// The names of the fields, in order.
    pub fn scheme(&self) -> (r: &[String])
        ensures
            string_views(r@) == self@.scheme,
    {
        self.scheme.as_slice()
    }

    /// Whether the global component has no fields.
    pub fn is_empty(&self) -> (r: bool)
        ensures
            r == (self@.scheme.len() == 0),
    {
        self.scheme.len() == 0
    }

    /// The position of the field `name`.
    pub fn field_idx(&self, name: &str) -> (r: Option<usize>)
        ensures
            r matches Some(i) ==> position_of(self@.scheme, name@) == Some(i as int),
            r.is_none() ==> position_of(self@.scheme, name@).is_none(),
    {
        position(self.scheme.as_slice(), name)
    }

    /// The record.
    pub fn get(&self) -> (r: ComponentRef<'_>)
        ensures
            r@ == self@,
    {
        ComponentRef { scheme: self.scheme.as_slice(), values: self.values.as_slice() }
    }

    /// The record, open to change. What is written to its values is
    /// written to the global component.
    pub fn get_mut(&mut self) -> (r: ComponentMut<'_>)
        ensures
            r@ == old(self)@,
            final(self)@.scheme == old(self)@.scheme,
            final(self)@.values == views(final(r.values)@),
    {
        ComponentMut { scheme: self.scheme.as_slice(), values: self.values.as_mut_slice() }
    }
}

/// The word `COMPONENT` in ASCII.
pub open spec fn component_word() -> Seq<u8> {
    seq![0x43u8, 0x4f, 0x4d, 0x50, 0x4f, 0x4e, 0x45, 0x4e, 0x54]
}

/// The word `GLOBAL` in ASCII.
pub open spec fn global_word() -> Seq<u8> {
    seq![0x47u8, 0x4c, 0x4f, 0x42, 0x41, 0x4c]
}

/// The failure that a block reports behind its header line.
pub open spec fn header_failure<T>(at: int, ex: Expected, got: FoundView) -> Parsed<T> {
    Err(Failure { idx: at, ex, got })
}

/// The record that `scheme` names, with the values that `r` found.
pub open spec fn record_of(scheme: Seq<Seq<char>>, r: Parsed<Seq<ValueView>>) -> Parsed<
    RecordView,
> {
    match r {
        Ok((values, next)) => Ok((RecordView { scheme, values }, next)),
        Err(e) => Err(e),
    }
}

/// The values of `count` records of the fields `scheme` from `pos` on, if
/// no field name stands twice and the number of values fits 32 bits.
pub open spec fn parse_records(s: Seq<u8>, pos: int, scheme: Seq<Seq<char>>, count: nat) -> Parsed<
    RecordView,
> {
    match first_repeat(scheme) {
        Some(i) => header_failure(
            pos,
            Expected::DistinctFieldNames,
            FoundView::DuplicateName(scheme[i]),
        ),
        None => if count * scheme.len() > u32::MAX {
            header_failure(pos, Expected::ComponentValueCount, FoundView::Overflow)
        } else {
            record_of(scheme, parse_values(s, pos, count * scheme.len()))
        },
    }
}

/// The component array at `pos`: the header line with the word
/// `COMPONENT`, the name, the id, the number of records and the names of
/// the fields, then the values of all records.
pub open spec fn parse_component_array(s: Seq<u8>, pos: int) -> Parsed<ComponentArrayView> {
    match parse_header(s, pos, Expected::ComponentArrayHeader) {
        Ok((words, next)) => if words.len() < 4 {
            header_failure(next, Expected::ComponentArrayHeader, FoundView::TooFewFields)
        } else if words[0] != component_word() {
            header_failure(
                next,
                Expected::ComponentArraySignature,
                FoundView::InvalidSignature(ascii_chars(words[0])),
            )
        } else {
            match parse_decimal(words[2], 0xffff) {
                None => header_failure(next, Expected::ComponentId, FoundView::InvalidNumber),
                Some(id) => match parse_decimal(words[3], 0xffff_ffff) {
                    None => header_failure(
                        next,
                        Expected::ComponentCount,
                        FoundView::InvalidNumber,
                    ),
                    Some(count) => match parse_records(
                        s,
                        next,
                        ascii_words(words.skip(4)),
                        count,
                    ) {
                        Ok((record, end)) => Ok(
                            (
                                ComponentArrayView {
                                    name: ascii_chars(words[1]),
                                    id: id as u16,
                                    scheme: record.scheme,
                                    values: record.values,
                                },
                                end,
                            ),
                        ),
                        Err(e) => Err(e),
                    },
                },
            }
        },
        Err(e) => Err(e),
    }
}

/// The global component at `pos`: the header line with the word `GLOBAL`
/// and the names of the fields, then one value for each field.
pub open spec fn parse_global_component(s: Seq<u8>, pos: int) -> Parsed<RecordView> {
    match parse_header(s, pos, Expected::GlobalComponentHeader) {
        Ok((words, next)) => if words.len() < 1 {
            header_failure(next, Expected::GlobalComponentHeader, FoundView::TooFewFields)
        } else if words[0] != global_word() {
            header_failure(
                next,
                Expected::GlobalComponentSignature,
                FoundView::InvalidSignature(ascii_chars(words[0])),
            )
        } else {
            parse_records(s, next, ascii_words(words.skip(1)), 1)
        },
        Err(e) => Err(e),
    }
}

/// Each of `values` with its entity ids replaced by what `f` gives for
/// them.
pub open spec fn rewritten_all(values: Seq<ValueView>, f: spec_fn(EntityId) -> EntityId) -> Seq<
    ValueView,
> {
    Seq::new(values.len(), |i: int| rewritten(values[i], f))
}

/// Whether each of `values` can be encoded.
pub open spec fn all_encodable(values: Seq<ValueView>) -> bool {
    forall|i: int| 0 <= i < values.len() ==> encodable(#[trigger] values[i])
}

/// The first `n` field names as they stand in a header line: each behind
/// a space.
pub open spec fn fields_bytes(scheme: Seq<Seq<char>>, n: int) -> Seq<u8>
    decreases n,
{
    if n <= 0 || n > scheme.len() {
        Seq::empty()
    } else {
        fields_bytes(scheme, n - 1) + seq![0x20u8] + vstd::utf8::encode_utf8(scheme[n - 1])
    }
}

/// The field names and the values of a block: the rest of the header
/// line, then the values one after the other, with their entity ids
/// replaced by what `f` gives for them.
pub open spec fn record_bytes(
    scheme: Seq<Seq<char>>,
    values: Seq<ValueView>,
    f: spec_fn(EntityId) -> EntityId,
) -> Seq<u8> {
    fields_bytes(scheme, scheme.len() as int) + seq![0x0au8] + values_bytes(
        rewritten_all(values, f),
        values.len(),
    )
}

/// The encoding of a component array: the header line with the name, the
/// id, the number of records and the names of the fields, then the values.
pub open spec fn component_array_bytes(
    c: ComponentArrayView,
    f: spec_fn(EntityId) -> EntityId,
) -> Seq<u8> {
    component_word() + seq![0x20u8] + vstd::utf8::encode_utf8(c.name) + seq![0x20u8] + decimal(
        c.id as nat,
    ) + seq![0x20u8] + decimal(c.records() as nat) + record_bytes(c.scheme, c.values, f)
}

/// The encoding of the global component: the header line with the names
/// of the fields, then the values.
pub open spec fn global_component_bytes(g: RecordView, f: spec_fn(EntityId) -> EntityId) -> Seq<
    u8,
> {
    global_word() + record_bytes(g.scheme, g.values, f)
}

impl<'a> decode::State<'a> {
    /// Decodes the names of the fields from the words of a header line
    /// behind the first `skip`, and then `count` records of values.
    #[verifier::loop_isolation(false)]
    fn decode_records(&mut self, header: &mut Vec<Vec<u8>>, skip: usize, count: u32) -> (r: Result<
        (Vec<String>, Vec<Value>),
        decode::Error,
    >)
        requires
            skip <= old(header).len(),
            are_words(byte_views(old(header)@).skip(skip as int)),
        ensures
            final(self).input() == old(self).input(),
            r matches Ok((scheme, values)) ==> parse_records(
                old(self).input(),
                old(self).pos(),
                ascii_words(byte_views(old(header)@).skip(skip as int)),
                count as nat,
            ) == Ok::<_, Failure>(
                (
                    RecordView { scheme: string_views(scheme@), values: views(values@) },
                    final(self).pos(),
                ),
            ),
            r matches Err(e) ==> final(self).pos() == e@.idx,
            r matches Err(e) ==> parse_records(
                old(self).input(),
                old(self).pos(),
                ascii_words(byte_views(old(header)@).skip(skip as int)),
                count as nat,
            ) == Err::<(RecordView, int), _>(e@),
    {
        let ghost words = byte_views(old(header)@).skip(skip as int);
        let ghost names = ascii_words(words);
        let n = header.len();
        let mut scheme: Vec<String> = Vec::new();
        let mut i: usize = skip;
        while i < n
            invariant
                skip <= i <= n,
                n == header.len(),
                scheme.len() == i - skip,
                forall|j: int| i <= j < n ==> (#[trigger] header[j]) == old(header)[j],
                forall|j: int| 0 <= j < i - skip ==> (#[trigger] scheme[j])@ == names[j],
            decreases n - i,
        {
            assert(header[i as int]@ == words[i - skip]);
            assert(is_word(words[i - skip]));
            let word = take_word(header, i);
            scheme.push(word);
            i = i + 1;
        }
        assert(string_views(scheme@) =~= names);
        match find_duplicate_quadratic(scheme.as_slice()) {
            Some(dup) => {
                return Err(
                    self.err_unexpected(
                        Expected::DistinctFieldNames,
                        Found::DuplicateName(dup.clone()),
                    ),
                );
            },
            None => {},
        }
        let fields = scheme.len();
        let num_values: usize = if count == 0 || fields == 0 {
            assert(count * fields == 0) by (nonlinear_arith)
                requires
                    count == 0 || fields == 0,
            ;
            0
        } else if fields > 0xffff_ffff {
            assert(count * fields > 0xffff_ffff) by (nonlinear_arith)
                requires
                    count >= 1,
                    fields > 0xffff_ffff,
            ;
            return Err(self.err_unexpected(Expected::ComponentValueCount, Found::Overflow));
        } else {
            assert(count * fields <= 0xffff_ffff * 0xffff_ffff) by (nonlinear_arith)
                requires
                    0 <= count <= 0xffff_ffff,
                    0 <= fields <= 0xffff_ffff,
            ;
            let product: u64 = count as u64 * fields as u64;
            if product > 0xffff_ffff {
                return Err(self.err_unexpected(Expected::ComponentValueCount, Found::Overflow));
            }
            product as usize
        };
        let values = self.decode_values(num_values)?;
        Ok((scheme, values))
    }

    /// Decodes a component array.
    pub fn decode_component_array(&mut self) -> (r: Result<ComponentArray, decode::Error>)
        ensures
            final(self).input() == old(self).input(),
            r matches Ok(a) ==> parse_component_array(old(self).input(), old(self).pos()) == Ok::<
                _,
                Failure,
            >((a@, final(self).pos())),
            r matches Ok(a) ==> a@.wf(),
            r matches Err(e) ==> final(self).pos() == e@.idx,
            r matches Err(e) ==> parse_component_array(old(self).input(), old(self).pos())
                == Err::<(ComponentArrayView, int), _>(e@),
    {
        let ghost s = self.input();
        let ghost pos = self.pos();
        let mut header = self.decode_header_words(Expected::ComponentArrayHeader)?;
        proof {
            lemma_header_words(s, pos, Expected::ComponentArrayHeader);
        }
        let ghost words = byte_views(header@);
        if header.len() < 4 {
            return Err(
                self.err_unexpected(Expected::ComponentArrayHeader, Found::TooFewFields),
            );
        }
        assert(words[0] == header[0]@ && words[1] == header[1]@ && words[2] == header[2]@
            && words[3] == header[3]@);
        assert(is_word(words[0]) && is_word(words[1]));
        let signature: [u8; 9] = [0x43, 0x4f, 0x4d, 0x50, 0x4f, 0x4e, 0x45, 0x4e, 0x54];
        assert(signature@ =~= component_word());
        if !bytes_eq(header[0].as_slice(), signature.as_slice()) {
            let word = take_word(&mut header, 0);
            return Err(
                self.err_unexpected(
                    Expected::ComponentArraySignature,
                    Found::InvalidSignature(word),
                ),
            );
        }
        let id: u16 = match parse_number(header[2].as_slice(), 0xffff) {
            Some(id) => id as u16,
            None => {
                return Err(self.err_unexpected(Expected::ComponentId, Found::InvalidNumber));
            },
        };
        let num_components: u32 = match parse_number(header[3].as_slice(), 0xffff_ffff) {
            Some(n) => n,
            None => {
                return Err(self.err_unexpected(Expected::ComponentCount, Found::InvalidNumber));
            },
        };
        let name = take_word(&mut header, 1);
        assert(byte_views(header@).skip(4) =~= words.skip(4));
        assert(are_words(words.skip(4))) by {
            assert forall|w: int| 0 <= w < words.skip(4).len() implies is_word(
                #[trigger] words.skip(4)[w],
            ) by {
                assert(is_word(words[w + 4]));
            }
        }
        let ghost first = self.pos();
        let (scheme, values) = self.decode_records(&mut header, 4, num_components)?;
        let array = ComponentArray { name, id, scheme, values };
        proof {
            lemma_records_fill(array@.scheme.len() as int, num_components as int);
            lemma_parse_values_len(s, first, (num_components * array@.scheme.len()) as nat);
        }
        Ok(array)
    }

    /// Decodes the global component.
    pub fn decode_global_component(&mut self) -> (r: Result<GlobalComponent, decode::Error>)
        ensures
            final(self).input() == old(self).input(),
            r matches Ok(g) ==> parse_global_component(old(self).input(), old(self).pos())
                == Ok::<_, Failure>((g@, final(self).pos())) && distinct(g@.scheme)
                && g@.values.len() == g@.scheme.len(),
            r matches Err(e) ==> final(self).pos() == e@.idx,
            r matches Err(e) ==> parse_global_component(old(self).input(), old(self).pos())
                == Err::<(RecordView, int), _>(e@),
    {
        let ghost s = self.input();
        let ghost pos = self.pos();
        let mut header = self.decode_header_words(Expected::GlobalComponentHeader)?;
        proof {
            lemma_header_words(s, pos, Expected::GlobalComponentHeader);
        }
        let ghost words = byte_views(header@);
        if header.len() < 1 {
            return Err(
                self.err_unexpected(Expected::GlobalComponentHeader, Found::TooFewFields),
            );
        }
        assert(words[0] == header[0]@);
        assert(is_word(words[0]));
        let signature: [u8; 6] = [0x47, 0x4c, 0x4f, 0x42, 0x41, 0x4c];
        assert(signature@ =~= global_word());
        if !bytes_eq(header[0].as_slice(), signature.as_slice()) {
            let word = take_word(&mut header, 0);
            return Err(
                self.err_unexpected(
                    Expected::GlobalComponentSignature,
                    Found::InvalidSignature(word),
                ),
            );
        }
        assert(are_words(words.skip(1))) by {
            assert forall|w: int| 0 <= w < words.skip(1).len() implies is_word(
                #[trigger] words.skip(1)[w],
            ) by {
                assert(is_word(words[w + 1]));
            }
        }
        let ghost first = self.pos();
        let (scheme, values) = self.decode_records(&mut header, 1, 1)?;
        proof {
            lemma_parse_values_len(s, first, scheme.len() as nat);
        }
        Ok(GlobalComponent { scheme, values })
    }
}

/// `count` records of `fields` values are whole records.
proof fn lemma_records_fill(fields: int, count: int)
    requires
        0 <= fields,
        0 <= count,
    ensures
        fields > 0 ==> (count * fields) / fields == count,
        fields == 0 ==> count * fields == 0,
{
    if fields > 0 {
        assert((count * fields) / fields == count) by (nonlinear_arith)
            requires
                fields > 0,
                count >= 0,
        ;
    } else {
        assert(count * fields == 0) by (nonlinear_arith)
            requires
                fields == 0,
        ;
    }
}

/// A run of `n` values that the decoder finds has `n` values.
pub proof fn lemma_parse_values_len(s: Seq<u8>, pos: int, n: nat)
    ensures
        parse_values(s, pos, n) matches Ok((vs, next)) ==> vs.len() == n,
    decreases n,
{
    if n > 0 {
        if let Ok((v, next)) = parse_value(s, pos) {
            lemma_parse_values_len(s, next, (n - 1) as nat);
        }
    }
}

impl encode::State {
    /// Writes the names of the fields and the values of a block.
    fn encode_record<T: EntityIdRewrite>(
        &mut self,
        scheme: &Vec<String>,
        values: &Vec<Value>,
        e_id_transform: &T,
    )
        requires
            all_encodable(views(values@)),
        ensures
            final(self).written() == old(self).written() + record_bytes(
                string_views(scheme@),
                views(values@),
                rule_of(e_id_transform),
            ),
    {
        let ghost names = string_views(scheme@);
        let ghost items = rewritten_all(views(values@), rule_of(e_id_transform));
        let mut i: usize = 0;
        while i < scheme.len()
            invariant
                i <= scheme.len(),
                names == string_views(scheme@),
                self.written() == old(self).written() + fields_bytes(names, i as int),
            decreases scheme.len() - i,
        {
            self.write_u8(0x20);
            self.write(scheme[i].as_str().as_bytes());
            i = i + 1;
        }
        self.write_u8(0x0a);
        let ghost head = self.written();
        let mut i: usize = 0;
        while i < values.len()
            invariant
                i <= values.len(),
                all_encodable(views(values@)),
                items == rewritten_all(views(values@), rule_of(e_id_transform)),
                self.written() == head + values_bytes(items, i as nat),
            decreases values.len() - i,
        {
            assert(encodable(views(values@)[i as int]));
            self.encode_value(&values[i], e_id_transform);
            i = i + 1;
        }
    }

    /// Encodes a component array: its header line, then its values, with
    /// each entity id in them replaced by the rule `e_id_transform`.
    #[verifier::rlimit(50)]
    pub fn encode_component_array<T: EntityIdRewrite>(
        &mut self,
        array: &ComponentArray,
        e_id_transform: &T,
    )
        requires
            all_encodable(array@.values),
        ensures
            final(self).written() == old(self).written() + component_array_bytes(
                array@,
                rule_of(e_id_transform),
            ),
    {
        let len: usize = if array.scheme.len() == 0 {
            0
        } else {
            array.values.len() / array.scheme.len()
        };
        let signature: [u8; 9] = [0x43, 0x4f, 0x4d, 0x50, 0x4f, 0x4e, 0x45, 0x4e, 0x54];
        assert(signature@ =~= component_word());
        self.write(signature.as_slice());
        self.write_u8(0x20);
        self.write(array.name.as_str().as_bytes());
        self.write_u8(0x20);
        self.write_fmt(array.id as u64);
        self.write_u8(0x20);
        self.write_fmt(len as u64);
        self.encode_record(&array.scheme, &array.values, e_id_transform);
    }

    /// Encodes the global component: its header line, then its values,
    /// with each entity id in them replaced by the rule `e_id_transform`.
    pub fn encode_global_component<T: EntityIdRewrite>(
        &mut self,
        global: &GlobalComponent,
        e_id_transform: &T,
    )
        requires
            all_encodable(global@.values),
        ensures
            final(self).written() == old(self).written() + global_component_bytes(
                global@,
                rule_of(e_id_transform),
            ),
    {
        let signature: [u8; 6] = [0x47, 0x4c, 0x4f, 0x42, 0x41, 0x4c];
        assert(signature@ =~= global_word());
        self.write(signature.as_slice());
        self.encode_record(&global.scheme, &global.values, e_id_transform);
    }
}

/// A name that stands twice among the words of a header line stands twice
/// among the names of the fields.
proof fn lemma_repeat_found(words: Seq<Seq<u8>>, skip: int, i: int, j: int)
    requires
        0 <= skip <= i < j < words.len(),
        words[i] == words[j],
    ensures
        first_repeat(ascii_words(words.skip(skip))).is_some(),
{
    let names = ascii_words(words.skip(skip));
    assert(names[i - skip] == names[j - skip]);
    assert(repeats_at(names, j - skip));
}

/// No field name stands twice: a component array whose header line names
/// one field twice is not decoded.
pub proof fn lemma_component_fields_unique(s: Seq<u8>, pos: int, i: int, j: int)
    requires
        parse_header(s, pos, Expected::ComponentArrayHeader) matches Ok((words, _)) && 4 <= i < j
            < words.len() && words[i] == words[j],
    ensures
        parse_component_array(s, pos).is_err(),
{
    let words = parse_header(s, pos, Expected::ComponentArrayHeader)->Ok_0.0;
    lemma_repeat_found(words, 4, i, j);
}

/// No field name stands twice: a global component whose header line names
/// one field twice is not decoded.
pub proof fn lemma_global_fields_unique(s: Seq<u8>, pos: int, i: int, j: int)
    requires
        parse_header(s, pos, Expected::GlobalComponentHeader) matches Ok((words, _)) && 1 <= i < j
            < words.len() && words[i] == words[j],
    ensures
        parse_global_component(s, pos).is_err(),
{
    let words = parse_header(s, pos, Expected::GlobalComponentHeader)->Ok_0.0;
    lemma_repeat_found(words, 1, i, j);
}

/// A component array that is decoded is well formed: no field name stands
/// twice in it, and its values fill whole records.
pub proof fn lemma_component_array_wf(s: Seq<u8>, pos: int)
    ensures
        parse_component_array(s, pos) matches Ok((c, next)) ==> c.wf(),
{
    if let Ok((c, next)) = parse_component_array(s, pos) {
        let (words, first) = parse_header(s, pos, Expected::ComponentArrayHeader)->Ok_0;
        let count = parse_decimal(words[3], 0xffff_ffff)->Some_0;
        let scheme = ascii_words(words.skip(4));
        lemma_parse_values_len(s, first, count * scheme.len());
        lemma_records_fill(scheme.len() as int, count as int);
    }
}

/// A marker component, which has no fields, has the record 0 and no
/// other, whatever number of records its header line declared; the record
/// 0 is empty.
pub proof fn lemma_marker_records(c: ComponentArrayView, idx: u32)
    requires
        c.scheme.len() == 0,
    ensures
        idx == 0 ==> c.record(idx) == Some(
            RecordView { scheme: c.scheme, values: Seq::<ValueView>::empty() },
        ),
        idx != 0 ==> c.record(idx).is_none(),
{
    if idx == 0 {
        assert(c.values.subrange(0, 0) =~= Seq::<ValueView>::empty());
    }
}

/// Whether each of `values` can be encoded.
pub fn values_encodable(values: &[Value]) -> (r: bool)
    ensures
        r == all_encodable(views(values@)),
{
    let mut i: usize = 0;
    while i < values.len()
        invariant
            i <= values.len(),
            forall|j: int| 0 <= j < i ==> encodable(#[trigger] views(values@)[j]),
        decreases values.len() - i,
    {
        if !values[i].is_encodable() {
            assert(!encodable(views(values@)[i as int]));
            return false;
        }
        i = i + 1;
    }
    true
}

impl ComponentArray {
    /// Whether the component array can be encoded: whether each of its
    /// values can be.
    pub fn is_encodable(&self) -> (r: bool)
        ensures
            r == all_encodable(self@.values),
    {
        values_encodable(self.values.as_slice())
    }
}

impl GlobalComponent {
    /// Whether the global component can be encoded: whether each of its
    /// values can be.
    pub fn is_encodable(&self) -> (r: bool)
        ensures
            r == all_encodable(self@.values),
    {
        values_encodable(self.values.as_slice())
    }
}

} // verus!
