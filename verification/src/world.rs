//! The world: its component arrays by id, its global component and its
//! entities, and the document that holds them all.
//!
//! ```text
//! WORLD <component arrays> <greatest component id>
//! { <component array> <newline> }*
//! <global component> <newline>
//! <entity array>
//! ```

use vstd::prelude::*;
use vec_map::VecMap;
use crate::component::{
    all_encodable, component_array_bytes, global_component_bytes, parse_component_array,
    parse_global_component, position, position_of, ComponentArray, ComponentArrayView,
    GlobalComponent, RecordView,
};
use crate::decode;
use crate::decode::{parse_newline, Expected, Failure, Found, FoundView, Parsed};
use crate::encode;
use crate::encode::decimal;
use crate::entity::{
    entities_encodable, entity_array_bytes, packed_idx, parse_entity_array, EntityArray,
    EntityView,
};
use crate::text::{
    ascii_chars, byte_views, bytes_eq, is_word, lemma_header_words, parse_decimal, parse_header,
    parse_number, take_word,
};
use crate::value::{rule_of, EntityId, EntityIdRewrite};

verus! {

/// `vec_map::VecMap`, a map from small integers to values, of which Verus
/// sees no more than the contracts below say.
#[verifier::external_type_specification]
#[verifier::external_body]
#[verifier::reject_recursive_types(V)]
pub struct ExVecMap<V>(vec_map::VecMap<V>);

/// What a map of component arrays holds: the array at each key.
pub uninterp spec fn held(m: VecMap<ComponentArray>) -> Map<int, ComponentArray>;

/// `VecMap::with_capacity`: the new map holds nothing. The capacity is
/// room set aside and no part of what the map holds; it is kept small
/// enough to be allocated.
#[verifier::external_body]
fn map_with_capacity(capacity: usize) -> (map: VecMap<ComponentArray>)
    requires
        capacity <= 0xffff,
    ensures
        held(map).dom() == Set::<int>::empty(),
{
    VecMap::with_capacity(capacity)
}

/// `VecMap::contains_key`: whether the map holds a value at `key`.
#[verifier::external_body]
fn map_contains_key(m: &VecMap<ComponentArray>, key: usize) -> (r: bool)
    ensures
        r == held(*m).dom().contains(key as int),
{
    m.contains_key(key)
}

/// `VecMap::insert`: the map holds `value` at `key` afterwards and is
/// otherwise unchanged; what it held at `key` before is handed back. The
/// map grows to `key` places, so the key is kept small enough for that.
#[verifier::external_body]
fn map_insert(m: &mut VecMap<ComponentArray>, key: usize, value: ComponentArray) -> (r: Option<
    ComponentArray,
>)
    requires
        key <= 0xffff,
    ensures
        held(*final(m)) == held(*old(m)).insert(key as int, value),
        r == (if held(*old(m)).dom().contains(key as int) {
            Some(held(*old(m))[key as int])
        } else {
            None
        }),
{
    m.insert(key, value)
}

/// `VecMap::get`: the value that the map holds at `key`, if any.
#[verifier::external_body]
fn map_get(m: &VecMap<ComponentArray>, key: usize) -> (r: Option<&ComponentArray>)
    ensures
        r == (if held(*m).dom().contains(key as int) {
            Some(&held(*m)[key as int])
        } else {
            None
        }),
{
    m.get(key)
}

/// `VecMap::get_mut`: the value that the map holds at `key`, if any, open
/// to change. What is written to it is what the map holds at `key`
/// afterwards; the map is otherwise unchanged.
#[verifier::external_body]
fn map_get_mut(m: &mut VecMap<ComponentArray>, key: usize) -> (r: Option<&mut ComponentArray>)
    ensures
        r matches Some(c) ==> held(*old(m)).dom().contains(key as int) && *c == held(
            *old(m),
        )[key as int] && held(*final(m)) == held(*old(m)).insert(key as int, *final(c)),
        r.is_none() ==> !held(*old(m)).dom().contains(key as int) && held(*final(m)) == held(
            *old(m),
        ),
{
    m.get_mut(key)
}

/// `VecMap::keys`, collected: the keys at which the map holds a value, all
/// of them, each once, in ascending order.
#[verifier::external_body]
fn map_keys(m: &VecMap<ComponentArray>) -> (keys: Vec<usize>)
    ensures
        ascending_keys(held(*m).dom(), keys@),
{
    m.keys().collect()
}

/// The contents of the component arrays of a map.
pub open spec fn array_views(m: Map<int, ComponentArray>) -> Map<int, ComponentArrayView> {
    Map::new(|k: int| m.dom().contains(k), |k: int| m[k]@)
}

/// A world: its component arrays by id, its global component and its
/// entities.
pub struct World {
    components: VecMap<ComponentArray>,
    global: GlobalComponent,
    entities: EntityArray,
}

/// The mathematical content of a [`World`].
#[verifier::ext_equal]
pub struct WorldView {
    pub components: Map<int, ComponentArrayView>,
    pub global: RecordView,
    pub entities: Seq<EntityView>,
}

/// Whether one of `components` has the name `name`.
pub open spec fn name_taken(components: Map<int, ComponentArrayView>, name: Seq<char>) -> bool {
    exists|k: int| components.dom().contains(k) && (#[trigger] components[k]).name == name
}

impl WorldView {
    /// Whether the world is as a decoder leaves it: each component array
    /// stands at its id, no two have one name, no field name stands twice
    /// in one of them, and their values fill whole records.
    pub open spec fn wf(self) -> bool {
        &&& forall|k: int|
            self.components.dom().contains(k) ==> (#[trigger] self.components[k]).id == k
                && self.components[k].wf()
        &&& forall|j: int, k: int|
            self.components.dom().contains(j) && self.components.dom().contains(k) && j != k
                ==> (#[trigger] self.components[j]).name != (#[trigger] self.components[k]).name
    }

    /// Whether the world can be encoded: whether each value in it can be,
    /// the entities are no more than their ids can count, and each live
    /// entity has at most 65535 component indices.
    pub open spec fn encodable(self) -> bool {
        &&& forall|k: int|
            self.components.dom().contains(k) ==> all_encodable(
                (#[trigger] self.components[k]).values,
            )
        &&& all_encodable(self.global.values)
        &&& self.entities.len() <= u32::MAX
        &&& entities_encodable(self.entities)
    }
}

/// The word `WORLD` in ASCII.
pub open spec fn world_word() -> Seq<u8> {
    seq![0x57u8, 0x4f, 0x52, 0x4c, 0x44]
}

/// The failure that the world reports behind a line.
pub open spec fn world_failure<T>(at: int, ex: Expected, got: FoundView) -> Parsed<T> {
    Err(Failure { idx: at, ex, got })
}

/// `n` component arrays from `pos` on, each with a newline behind it,
/// added to `found`. A component array fails the world if its name is that
/// of one found before, if its id is above `max`, or if its id is that of
/// one found before.
pub open spec fn parse_components(
    s: Seq<u8>,
    pos: int,
    n: nat,
    max: int,
    found: Map<int, ComponentArrayView>,
) -> Parsed<Map<int, ComponentArrayView>>
    decreases n,
{
    if n == 0 {
        Ok((found, pos))
    } else {
        match parse_component_array(s, pos) {
            Ok((c, next)) => if name_taken(found, c.name) {
                world_failure(
                    next,
                    Expected::UniqueComponentNames,
                    FoundView::DuplicateComponentName(c.name),
                )
            } else if c.id > max {
                world_failure(
                    next,
                    Expected::ComponentIdsWithinMaximum(max as u16),
                    FoundView::IdAboveMaximum { name: c.name, id: c.id },
                )
            } else if found.dom().contains(c.id as int) {
                world_failure(
                    next,
                    Expected::UniqueComponentIds,
                    FoundView::DuplicateId { name: c.name, id: c.id },
                )
            } else {
                match parse_newline(s, next) {
                    Ok((_, after)) => parse_components(
                        s,
                        after,
                        (n - 1) as nat,
                        max,
                        found.insert(c.id as int, c),
                    ),
                    Err(e) => Err(e),
                }
            },
            Err(e) => Err(e),
        }
    }
}

/// The global component and the entity array from `pos` on, with the
/// component arrays `components` the whole world.
pub open spec fn parse_world_rest(
    s: Seq<u8>,
    pos: int,
    components: Map<int, ComponentArrayView>,
) -> Parsed<WorldView> {
    match parse_global_component(s, pos) {
        Ok((global, next)) => match parse_newline(s, next) {
            Ok((_, after)) => match parse_entity_array(s, after) {
                Ok((entities, end)) => Ok((WorldView { components, global, entities }, end)),
                Err(e) => Err(e),
            },
            Err(e) => Err(e),
        },
        Err(e) => Err(e),
    }
}

/// The number of component arrays and the greatest component id that the
/// header line at `pos` declares, and the position behind the line.
pub open spec fn parse_world_header(s: Seq<u8>, pos: int) -> Parsed<(nat, nat)> {
    match parse_header(s, pos, Expected::WorldHeader) {
        Ok((words, next)) => if words.len() != 3 {
            world_failure(
                next,
                Expected::WorldHeaderFields,
                FoundView::FieldCount(words.len() as int),
            )
        } else if words[0] != world_word() {
            world_failure(
                next,
                Expected::WorldSignature,
                FoundView::InvalidSignature(ascii_chars(words[0])),
            )
        } else {
            match parse_decimal(words[1], 0xffff) {
                None => world_failure(
                    next,
                    Expected::ComponentArrayCount,
                    FoundView::InvalidNumber,
                ),
                Some(count) => match parse_decimal(words[2], 0xffff) {
                    None => world_failure(
                        next,
                        Expected::MaxComponentId,
                        FoundView::InvalidNumber,
                    ),
                    Some(max) => Ok(((count, max), next)),
                },
            }
        },
        Err(e) => Err(e),
    }
}

/// The world at `pos`: the header line with the word `WORLD`, the number
/// of component arrays and the greatest component id, then the component
/// arrays, the global component and the entity array.
pub open spec fn parse_world(s: Seq<u8>, pos: int) -> Parsed<WorldView> {
    match parse_world_header(s, pos) {
        Ok(((count, max), next)) => match parse_components(
            s,
            next,
            count,
            max as int,
            Map::empty(),
        ) {
            Ok((components, after)) => parse_world_rest(s, after, components),
            Err(e) => Err(e),
        },
        Err(e) => Err(e),
    }
}

/// What an entity id becomes when the world is encoded: the packed index
/// of the entity that it names, and the invalid id if it names a deleted
/// entity or none at all.
pub open spec fn packed_target(entities: Seq<EntityView>, id: EntityId) -> EntityId {
    match id {
        EntityId::Invalid => EntityId::Invalid,
        EntityId::Idx(i) => if i < entities.len() {
            match packed_idx(entities, i as int) {
                Some(n) => EntityId::Idx(n),
                None => EntityId::Invalid,
            }
        } else {
            EntityId::Invalid
        },
    }
}

/// [`packed_target`] as a function of the entity id.
pub open spec fn packing(entities: Seq<EntityView>) -> spec_fn(EntityId) -> EntityId {
    |id: EntityId| packed_target(entities, id)
}

/// The rule that replaces an entity id by the packed index of its entity.
pub struct Compaction {
    /// The packed index of each entity; `None` for a deleted one.
    pub packed_idxs: Vec<Option<u32>>,
}

impl EntityIdRewrite for Compaction {
    open spec fn target(&self, id: EntityId) -> EntityId {
        match id {
            EntityId::Invalid => EntityId::Invalid,
            EntityId::Idx(i) => if i < self.packed_idxs@.len() {
                match self.packed_idxs@[i as int] {
                    Some(n) => EntityId::Idx(n),
                    None => EntityId::Invalid,
                }
            } else {
                EntityId::Invalid
            },
        }
    }

    fn rewrite(&self, id: EntityId) -> (r: EntityId) {
        match id {
            EntityId::Invalid => EntityId::Invalid,
            EntityId::Idx(i) => if (i as usize) < self.packed_idxs.len() {
                match self.packed_idxs[i as usize] {
                    Some(n) => EntityId::Idx(n),
                    None => EntityId::Invalid,
                }
            } else {
                EntityId::Invalid
            },
        }
    }
}

/// Whether `k` is the greatest of `keys`.
pub open spec fn is_top(keys: Set<int>, k: int) -> bool {
    keys.contains(k) && forall|j: int| keys.contains(j) ==> j <= k
}

/// The greatest of `keys`; zero if there are none.
pub open spec fn top_key(keys: Set<int>) -> int {
    if exists|k: int| is_top(keys, k) {
        choose|k: int| is_top(keys, k)
    } else {
        0
    }
}

/// The encodings of the component arrays with an id below `bound`, in the
/// order of their ids, each with a newline behind it.
pub open spec fn components_bytes(
    components: Map<int, ComponentArrayView>,
    bound: int,
    f: spec_fn(EntityId) -> EntityId,
) -> Seq<u8>
    decreases bound,
{
    if bound <= 0 {
        Seq::empty()
    } else {
        components_bytes(components, bound - 1, f) + if components.dom().contains(bound - 1) {
            component_array_bytes(components[bound - 1], f) + seq![0x0au8]
        } else {
            Seq::empty()
        }
    }
}

/// The header line of a world, without its newline: the word `WORLD`, the
/// number of component arrays and the greatest of their ids.
pub open spec fn world_line(w: WorldView) -> Seq<u8> {
    world_word() + seq![0x20u8] + decimal(w.components.dom().len()) + seq![0x20u8] + decimal(
        top_key(w.components.dom()) as nat,
    )
}

/// What follows the component arrays in the encoding of a world: the
/// global component, a newline, and the entity array without the deleted
/// entities.
pub open spec fn world_tail(w: WorldView) -> Seq<u8> {
    global_component_bytes(w.global, packing(w.entities)) + seq![0x0au8] + entity_array_bytes(
        w.entities,
    )
}

/// The encoding of a world: the header line, the component arrays in the
/// order of their ids, the global component, and the entity array without
/// the deleted entities. Each entity id in a value is replaced by the
/// packed index of its entity, or by the invalid id if that entity is
/// deleted or does not exist.
pub open spec fn world_bytes(w: WorldView) -> Seq<u8> {
    world_line(w) + seq![0x0au8] + components_bytes(
        w.components,
        top_key(w.components.dom()) + 1,
        packing(w.entities),
    ) + world_tail(w)
}

/// Where no component array has an id from `from` up to `to`, nothing is
/// written for those ids.
proof fn lemma_components_gap(
    components: Map<int, ComponentArrayView>,
    from: int,
    to: int,
    f: spec_fn(EntityId) -> EntityId,
)
    requires
        0 <= from <= to,
        forall|k: int| from <= k < to ==> !components.dom().contains(k),
    ensures
        components_bytes(components, to, f) == components_bytes(components, from, f),
    decreases to - from,
{
    if from < to {
        lemma_components_gap(components, from, to - 1, f);
        assert(components_bytes(components, to - 1, f) + Seq::<u8>::empty()
            =~= components_bytes(components, to - 1, f));
    }
}

impl World {
    /// The mathematical content of the world.
    pub closed spec fn view(&self) -> WorldView {
        WorldView {
            components: array_views(held(self.components)),
            global: self.global@,
            entities: self.entities@,
        }
    }

    /// The world without component arrays, fields and entities.
    pub fn empty() -> (world: Self)
        ensures
            world@.components == Map::<int, ComponentArrayView>::empty(),
            world@.global.scheme.len() == 0,
            world@.global.values.len() == 0,
            world@.entities.len() == 0,
    {
        let world = Self {
            components: map_with_capacity(0),
            global: GlobalComponent::empty(),
            entities: EntityArray::empty(),
        };
        assert(world@.components =~= Map::<int, ComponentArrayView>::empty());
        world
    }

    /// Decodes the world that `reader` starts with.
    pub fn from_reader(reader: &[u8]) -> (r: Result<Self, decode::Error>)
        ensures
            r matches Ok(world) ==> parse_world(reader@, 0) matches Ok((w, _)) && world@ == w
                && world@.wf() && world@.encodable(),
            r matches Err(e) ==> parse_world(reader@, 0) == Err::<(WorldView, int), _>(e@),
    {
        let mut state = decode::State::new(reader);
        state.decode_world()
    }

    /// Encodes the world and appends the bytes to `writer`.
    pub fn to_writer(&self, writer: &mut Vec<u8>)
        requires
            self@.encodable(),
        ensures
            final(writer)@ == old(writer)@ + world_bytes(self@),
    {
        let mut out: Vec<u8> = Vec::new();
        std::mem::swap(&mut out, writer);
        let mut state = encode::State::new(out);
        state.encode_world(self);
        *writer = state.into_inner();
    }

    /// Whether the world can be encoded.
    pub fn is_encodable(&self) -> (r: bool)
        ensures
            r == self@.encodable(),
    {
        if self.entities.entries.len() > 0xffff_ffff || !self.entities.is_encodable()
            || !self.global.is_encodable() {
            return false;
        }
        let keys = map_keys(&self.components);
        let mut i: usize = 0;
        while i < keys.len()
            invariant
                i <= keys.len(),
                ascending_keys(self@.components.dom(), keys@),
                forall|j: int|
                    0 <= j < i ==> all_encodable(
                        (#[trigger] self@.components[keys[j] as int]).values,
                    ),
            decreases keys.len() - i,
        {
            match map_get(&self.components, keys[i]) {
                Some(component_array) => {
                    assert(self@.components[keys[i as int] as int] == component_array@);
                    if !component_array.is_encodable() {
                        return false;
                    }
                },
                None => {},
            }
            i = i + 1;
        }
        assert forall|k: int| self@.components.dom().contains(k) implies all_encodable(
            (#[trigger] self@.components[k]).values,
        ) by {
            let j = choose|j: int| 0 <= j < keys.len() && #[trigger] keys[j] == k;
            assert(all_encodable(self@.components[keys[j] as int].values));
        }
        true
    }

    /// The component array with the id `id`.
    pub fn component(&self, id: u16) -> (r: Option<&ComponentArray>)
        ensures
            r matches Some(c) ==> self@.components.dom().contains(id as int)
                && self@.components[id as int] == c@,
            r.is_none() ==> !self@.components.dom().contains(id as int),
    {
        map_get(&self.components, id as usize)
    }

    /// The component array with the id `id`, open to change. What is
    /// written to it is written to the world; the rest of the world stays
    /// as it is.
    pub fn component_mut(&mut self, id: u16) -> (r: Option<&mut ComponentArray>)
        ensures
            r matches Some(c) ==> old(self)@.components.dom().contains(id as int) && c@ == old(
                self,
            )@.components[id as int] && final(self)@ =~= (WorldView {
                components: old(self)@.components.insert(id as int, final(c)@),
                ..old(self)@
            }),
            r.is_none() ==> !old(self)@.components.dom().contains(id as int) && final(self)@
                =~= old(self)@,
    {
        map_get_mut(&mut self.components, id as usize)
    }

    /// The global component.
    pub fn global(&self) -> (r: &GlobalComponent)
        ensures
            r@ == self@.global,
    {
        &self.global
    }

    /// The global component, open to change.
    pub fn global_mut(&mut self) -> (r: &mut GlobalComponent)
        ensures
            r@ == old(self)@.global,
            final(self)@ == (WorldView { global: final(r)@, ..old(self)@ }),
    {
        &mut self.global
    }

    /// The entities.
    pub fn entities(&self) -> (r: &EntityArray)
        ensures
            r@ == self@.entities,
    {
        &self.entities
    }

    /// The entities, open to change.
    pub fn entities_mut(&mut self) -> (r: &mut EntityArray)
        ensures
            r@ == old(self)@.entities,
            final(self)@ == (WorldView { entities: final(r)@, ..old(self)@ }),
    {
        &mut self.entities
    }
}

/// Whether `names` are the names of `components`.
pub open spec fn names_of(names: Seq<Seq<char>>, components: Map<int, ComponentArrayView>) -> bool {
    forall|name: Seq<char>|
        name_taken(components, name) <==> exists|i: int|
            0 <= i < names.len() && #[trigger] names[i] == name
}

proof fn lemma_names_added(
    names: Seq<Seq<char>>,
    components: Map<int, ComponentArrayView>,
    c: ComponentArrayView,
    key: int,
)
    requires
        names_of(names, components),
        !components.dom().contains(key),
    ensures
        names_of(names.push(c.name), components.insert(key, c)),
{
    let more = names.push(c.name);
    let all = components.insert(key, c);
    assert forall|name: Seq<char>| name_taken(all, name) implies exists|i: int|
        0 <= i < more.len() && #[trigger] more[i] == name by {
        let k = choose|k: int| all.dom().contains(k) && (#[trigger] all[k]).name == name;
        if k == key {
            assert(more[names.len() as int] == name);
        } else {
            assert(components.dom().contains(k) && components[k].name == name);
            assert(name_taken(components, name));
            let i = choose|i: int| 0 <= i < names.len() && #[trigger] names[i] == name;
            assert(more[i] == name);
        }
    }
    assert forall|name: Seq<char>|
        (exists|i: int| 0 <= i < more.len() && #[trigger] more[i] == name) implies name_taken(
        all,
        name,
    ) by {
        let i = choose|i: int| 0 <= i < more.len() && #[trigger] more[i] == name;
        if i == names.len() {
            assert(all.dom().contains(key) && all[key].name == name);
        } else {
            assert(names[i] == name);
            assert(name_taken(components, name));
            let k = choose|k: int|
                components.dom().contains(k) && (#[trigger] components[k]).name == name;
            assert(all.dom().contains(k) && all[k].name == name);
        }
    }
}

impl<'a> decode::State<'a> {
    /// Decodes the header line of a world: the number of component arrays
    /// and the greatest component id.
    fn decode_world_header(&mut self) -> (r: Result<(u16, u16), decode::Error>)
        ensures
            final(self).input() == old(self).input(),
            r matches Ok((count, max)) ==> parse_world_header(old(self).input(), old(self).pos())
                == Ok::<_, Failure>(((count as nat, max as nat), final(self).pos())),
            r matches Err(e) ==> final(self).pos() == e@.idx,
            r matches Err(e) ==> parse_world_header(old(self).input(), old(self).pos()) == Err::<
                ((nat, nat), int),
                _,
            >(e@),
    {
        let ghost s = self.input();
        let ghost pos = self.pos();
        let mut header = self.decode_header_words(Expected::WorldHeader)?;
        proof {
            lemma_header_words(s, pos, Expected::WorldHeader);
        }
        let ghost words = byte_views(header@);
        if header.len() != 3 {
            return Err(
                self.err_unexpected(Expected::WorldHeaderFields, Found::FieldCount(header.len())),
            );
        }
        assert(words[0] == header[0]@ && words[1] == header[1]@ && words[2] == header[2]@);
        assert(is_word(words[0]));
        let signature: [u8; 5] = [0x57, 0x4f, 0x52, 0x4c, 0x44];
        assert(signature@ =~= world_word());
        if !bytes_eq(header[0].as_slice(), signature.as_slice()) {
            let word = take_word(&mut header, 0);
            return Err(
                self.err_unexpected(Expected::WorldSignature, Found::InvalidSignature(word)),
            );
        }
        let num_component_arrays: u16 = match parse_number(header[1].as_slice(), 0xffff) {
            Some(n) => n as u16,
            None => {
                return Err(
                    self.err_unexpected(Expected::ComponentArrayCount, Found::InvalidNumber),
                );
            },
        };
        let max_component_id: u16 = match parse_number(header[2].as_slice(), 0xffff) {
            Some(n) => n as u16,
            None => {
                return Err(self.err_unexpected(Expected::MaxComponentId, Found::InvalidNumber));
            },
        };
        Ok((num_component_arrays, max_component_id))
    }

    /// Decodes a world.
    #[verifier::loop_isolation(false)]
    #[verifier::rlimit(50)]
    pub fn decode_world(&mut self) -> (r: Result<World, decode::Error>)
        ensures
            final(self).input() == old(self).input(),
            r matches Ok(world) ==> parse_world(old(self).input(), old(self).pos()) == Ok::<
                _,
                Failure,
            >((world@, final(self).pos())),
            r matches Ok(world) ==> world@.wf() && world@.encodable(),
            r matches Err(e) ==> final(self).pos() == e@.idx,
            r matches Err(e) ==> parse_world(old(self).input(), old(self).pos()) == Err::<
                (WorldView, int),
                _,
            >(e@),
    {
        let ghost s = self.input();
        proof {
            lemma_world_unique(s, self.pos());
            crate::lossless::lemma_parsed_world_lossless(s, self.pos());
        }
        let (num_component_arrays, max_component_id) = self.decode_world_header()?;
        let ghost first = self.pos();
        let mut component_arrays = map_with_capacity(max_component_id as usize);
        let mut component_names: Vec<String> = Vec::new();
        let mut i: u16 = 0;
        assert(array_views(held(component_arrays)) =~= Map::<int, ComponentArrayView>::empty());
        while i < num_component_arrays
            invariant
                self.input() == s,
                i <= num_component_arrays,
                names_of(
                    crate::text::string_views(component_names@),
                    array_views(held(component_arrays)),
                ),
                parse_components(
                    s,
                    first,
                    num_component_arrays as nat,
                    max_component_id as int,
                    Map::empty(),
                ) == parse_components(
                    s,
                    self.pos(),
                    (num_component_arrays - i) as nat,
                    max_component_id as int,
                    array_views(held(component_arrays)),
                ),
            decreases num_component_arrays - i,
        {
            let ghost found = array_views(held(component_arrays));
            let ghost names = crate::text::string_views(component_names@);
            let array = self.decode_component_array()?;
            let id = array.id();
            match position(component_names.as_slice(), array.name()) {
                Some(at) => {
                    proof {
                        assert(names[at as int] == array@.name);
                        assert(name_taken(found, array@.name));
                    }
                    return Err(
                        self.err_unexpected(
                            Expected::UniqueComponentNames,
                            Found::DuplicateComponentName(array.name().to_owned()),
                        ),
                    );
                },
                None => {
                    proof {
                        if name_taken(found, array@.name) {
                            let at = choose|at: int|
                                0 <= at < names.len() && #[trigger] names[at] == array@.name;
                            assert(position_of(names, array@.name).is_some());
                        }
                    }
                },
            }
            if id > max_component_id {
                return Err(
                    self.err_unexpected(
                        Expected::ComponentIdsWithinMaximum(max_component_id),
                        Found::IdAboveMaximum { name: array.name().to_owned(), id },
                    ),
                );
            }
            if map_contains_key(&component_arrays, id as usize) {
                return Err(
                    self.err_unexpected(
                        Expected::UniqueComponentIds,
                        Found::DuplicateId { name: array.name().to_owned(), id },
                    ),
                );
            }
            let name = array.name().to_owned();
            proof {
                lemma_names_added(names, found, array@, id as int);
                assert(crate::text::string_views(component_names@.push(name)) =~= names.push(
                    array@.name,
                ));
            }
            component_names.push(name);
            let ghost view = array@;
            map_insert(&mut component_arrays, id as usize, array);
            assert(array_views(held(component_arrays)) =~= found.insert(id as int, view));
            self.expect_newline()?;
            i = i + 1;
        }
        let global = self.decode_global_component()?;
        self.expect_newline()?;
        let entities = self.decode_entity_array()?;
        Ok(World { components: component_arrays, global, entities })
    }
}

impl encode::State {
    /// Encodes the component arrays at `keys`, each with a newline behind
    /// it.
    fn encode_components(&mut self, world: &World, keys: &Vec<usize>, transform_id: &Compaction)
        requires
            world@.encodable(),
            ascending_keys(world@.components.dom(), keys@),
        ensures
            final(self).written() == old(self).written() + components_bytes(
                world@.components,
                top_key(world@.components.dom()) + 1,
                rule_of(transform_id),
            ),
    {
        let ghost components = world@.components;
        let ghost f = rule_of(transform_id);
        let mut i: usize = 0;
        while i < keys.len()
            invariant
                i <= keys.len(),
                components == world@.components,
                f == rule_of(transform_id),
                world@.encodable(),
                ascending_keys(components.dom(), keys@),
                self.written() == old(self).written() + components_bytes(
                    components,
                    next_key(keys@, i as int),
                    f,
                ),
            decreases keys.len() - i,
        {
            let key = keys[i];
            proof {
                lemma_no_key_between(components.dom(), keys@, i as int);
                lemma_components_gap(components, next_key(keys@, i as int), key as int, f);
            }
            match map_get(&world.components, key) {
                Some(component_array) => {
                    assert(components[key as int] == component_array@);
                    self.encode_component_array(component_array, transform_id);
                    self.write_u8(0x0a);
                },
                None => {},
            }
            i = i + 1;
        }
        proof {
            lemma_ascending_keys(components.dom(), keys@);
        }
    }

    /// Writes the header line of a world.
    fn encode_world_header(&mut self, world: &World, keys: &Vec<usize>)
        requires
            ascending_keys(world@.components.dom(), keys@),
        ensures
            final(self).written() == old(self).written() + (world_line(world@) + seq![0x0au8]),
    {
        let num_component_arrays = keys.len();
        let max_component_arrays: usize = if num_component_arrays == 0 {
            0
        } else {
            keys[num_component_arrays - 1]
        };
        proof {
            lemma_ascending_keys(world@.components.dom(), keys@);
        }
        let signature: [u8; 5] = [0x57, 0x4f, 0x52, 0x4c, 0x44];
        assert(signature@ =~= world_word());
        self.write(signature.as_slice());
        self.write_u8(0x20);
        self.write_fmt(num_component_arrays as u64);
        self.write_u8(0x20);
        self.write_fmt(max_component_arrays as u64);
        self.write_u8(0x0a);
        assert(self.written() =~= old(self).written() + (world_line(world@) + seq![0x0au8]));
    }

    /// Writes what follows the component arrays of a world.
    fn encode_world_tail(&mut self, world: &World, transform_id: &Compaction)
        requires
            world@.encodable(),
            rule_of(transform_id) == packing(world@.entities),
        ensures
            final(self).written() == old(self).written() + world_tail(world@),
    {
        self.encode_global_component(&world.global, transform_id);
        self.write_u8(0x0a);
        self.encode_entity_array(&world.entities);
        assert(self.written() =~= old(self).written() + world_tail(world@));
    }

    /// Encodes a world. The deleted entities are left out, and each entity
    /// id in a value is replaced by the packed index of its entity, or by
    /// the invalid id if that entity is deleted or does not exist.
    #[verifier::rlimit(50)]
    pub fn encode_world(&mut self, world: &World)
        requires
            world@.encodable(),
        ensures
            final(self).written() == old(self).written() + world_bytes(world@),
    {
        let ghost entities = world@.entities;
        let keys = map_keys(&world.components);
        self.encode_world_header(world, &keys);
        let packed_idxs = world.entities.packed_idxs();
        let transform_id = Compaction { packed_idxs };
        proof {
            assert forall|id: EntityId| transform_id.target(id) == packed_target(entities, id) by {}
            assert(rule_of(&transform_id) =~= packing(entities));
        }
        self.encode_components(world, &keys, &transform_id);
        self.encode_world_tail(world, &transform_id);
        assert(self.written() =~= old(self).written() + world_bytes(world@));
    }
}

/// Whether `keys` are the members of `dom`, all of them, in ascending
/// order.
pub open spec fn ascending_keys(dom: Set<int>, keys: Seq<usize>) -> bool {
    &&& forall|i: int, j: int| 0 <= i < j < keys.len() ==> keys[i] < keys[j]
    &&& forall|i: int| 0 <= i < keys.len() ==> dom.contains(#[trigger] keys[i] as int)
    &&& forall|k: int|
        dom.contains(k) ==> exists|i: int| 0 <= i < keys.len() && #[trigger] keys[i] == k
}

/// The least key that may come at the position `i`: zero at the start,
/// else one more than the key before.
pub open spec fn next_key(keys: Seq<usize>, i: int) -> int {
    if i <= 0 {
        0
    } else {
        keys[i - 1] + 1
    }
}

/// Between a key and the one before it there is none.
proof fn lemma_no_key_between(dom: Set<int>, keys: Seq<usize>, i: int)
    requires
        ascending_keys(dom, keys),
        0 <= i < keys.len(),
    ensures
        next_key(keys, i) <= keys[i],
        forall|k: int| next_key(keys, i) <= k < keys[i] ==> !dom.contains(k),
{
    assert forall|k: int| next_key(keys, i) <= k < keys[i] implies !dom.contains(k) by {
        if dom.contains(k) {
            let j = choose|j: int| 0 <= j < keys.len() && #[trigger] keys[j] == k;
            if j < i {
                if j < i - 1 {
                    assert(keys[j] < keys[i - 1]);
                }
            } else if j > i {
                assert(keys[i] < keys[j]);
            }
        }
    }
    if i > 0 {
        assert(keys[i - 1] < keys[i]);
    }
}

/// The keys in ascending order are as many as the set has members, and
/// the last of them is the greatest.
proof fn lemma_ascending_keys(dom: Set<int>, keys: Seq<usize>)
    requires
        ascending_keys(dom, keys),
    ensures
        dom.finite(),
        dom.len() == keys.len(),
        top_key(dom) == (if keys.len() == 0 {
            0
        } else {
            keys[keys.len() - 1] as int
        }),
        top_key(dom) + 1 == next_key(keys, keys.len() as int) || keys.len() == 0,
{
    let ids = keys.map_values(|k: usize| k as int);
    assert(ids.no_duplicates()) by {
        assert forall|i: int, j: int|
            0 <= i < ids.len() && 0 <= j < ids.len() && i != j implies ids[i] != ids[j] by {
            if i < j {
                assert(keys[i] < keys[j]);
            } else {
                assert(keys[j] < keys[i]);
            }
        }
    }
    assert(ids.to_set() =~= dom) by {
        assert forall|k: int| dom.contains(k) implies ids.to_set().contains(k) by {
            let i = choose|i: int| 0 <= i < keys.len() && #[trigger] keys[i] == k;
            assert(ids[i] == k);
        }
        assert forall|k: int| ids.to_set().contains(k) implies dom.contains(k) by {
            let i = choose|i: int| 0 <= i < ids.len() && ids[i] == k;
            assert(dom.contains(keys[i] as int));
        }
    }
    ids.unique_seq_to_set();
    vstd::seq_lib::seq_to_set_is_finite(ids);
    if keys.len() > 0 {
        let top = keys[keys.len() - 1] as int;
        assert(is_top(dom, top)) by {
            assert forall|j: int| dom.contains(j) implies j <= top by {
                let i = choose|i: int| 0 <= i < keys.len() && #[trigger] keys[i] == j;
                if i < keys.len() - 1 {
                    assert(keys[i] < keys[keys.len() - 1]);
                }
            }
        }
        let chosen = top_key(dom);
        assert(is_top(dom, chosen));
        assert(chosen == top);
    } else {
        assert forall|k: int| !is_top(dom, k) by {
            if dom.contains(k) {
                let i = choose|i: int| 0 <= i < keys.len() && #[trigger] keys[i] == k;
            }
        }
    }
}

/// What holds of the component arrays of a world while it is decoded:
/// they are finitely many, each stands at its id, no id is above `max`, no
/// two have one name, and each is well formed.
pub open spec fn unique_within(components: Map<int, ComponentArrayView>, max: int) -> bool {
    &&& components.dom().finite()
    &&& forall|k: int|
        components.dom().contains(k) ==> (#[trigger] components[k]).id == k && k <= max
            && components[k].wf()
    &&& forall|j: int, k: int|
        components.dom().contains(j) && components.dom().contains(k) && j != k
            ==> (#[trigger] components[j]).name != (#[trigger] components[k]).name
}

/// Each component array that is decoded into a world brings a new name
/// and a new id that is not above the maximum.
pub proof fn lemma_parse_components_unique(
    s: Seq<u8>,
    pos: int,
    n: nat,
    max: int,
    found: Map<int, ComponentArrayView>,
)
    requires
        unique_within(found, max),
    ensures
        parse_components(s, pos, n, max, found) matches Ok((all, _)) ==> unique_within(all, max)
            && all.dom().len() == found.dom().len() + n,
    decreases n,
{
    if n > 0 {
        if let Ok((c, next)) = parse_component_array(s, pos) {
            if !name_taken(found, c.name) && c.id <= max && !found.dom().contains(c.id as int) {
                if let Ok((_, after)) = parse_newline(s, next) {
                    let more = found.insert(c.id as int, c);
                    crate::component::lemma_component_array_wf(s, pos);
                    assert(unique_within(more, max)) by {
                        assert forall|j: int, k: int|
                            more.dom().contains(j) && more.dom().contains(k) && j != k implies (
                        #[trigger] more[j]).name != (#[trigger] more[k]).name by {
                            if j == c.id as int {
                                assert(found.dom().contains(k));
                                assert(found[k].name != c.name);
                            } else if k == c.id as int {
                                assert(found.dom().contains(j));
                                assert(found[j].name != c.name);
                            }
                        }
                    }
                    lemma_parse_components_unique(s, after, (n - 1) as nat, max, more);
                }
            }
        }
    }
}

/// A world that is decoded has as many component arrays as its header
/// line declares, each at its own id and with its own name, and none with
/// an id above the declared maximum: a document in which two component
/// arrays share a name or an id, or in which one has an id above the
/// maximum, is not decoded.
pub proof fn lemma_world_unique(s: Seq<u8>, pos: int)
    ensures
        parse_world(s, pos) matches Ok((w, _)) ==> parse_world_header(s, pos) matches Ok(
            ((count, max), _),
        ) && unique_within(w.components, max as int) && w.components.dom().len() == count
            && w.wf(),
{
    if let Ok(((count, max), next)) = parse_world_header(s, pos) {
        lemma_parse_components_unique(s, next, count, max as int, Map::empty());
    }
}

/// What becomes of the entity ids in the values of a world when it is
/// encoded: an id that names a live entity becomes the packed index of
/// that entity, which is the number of live entities before it; an id
/// that names a deleted entity or no entity becomes the invalid id; and
/// the invalid id stays.
pub proof fn lemma_packed_target(entities: Seq<EntityView>, i: u32)
    ensures
        i < entities.len() && !entities[i as int].is_deleted ==> packed_target(
            entities,
            EntityId::Idx(i),
        ) == EntityId::Idx(crate::entity::live_count(entities, i as int) as u32),
        i < entities.len() && entities[i as int].is_deleted ==> packed_target(
            entities,
            EntityId::Idx(i),
        ) == EntityId::Invalid,
        i >= entities.len() ==> packed_target(entities, EntityId::Idx(i)) == EntityId::Invalid,
        packed_target(entities, EntityId::Invalid) == EntityId::Invalid,
{
}

/// The rule reaches every entity id of a value, at any depth.
pub proof fn lemma_rewritten_reaches(entities: Seq<EntityView>, id: EntityId)
    ensures
        crate::value::rewritten(crate::value::ValueView::EntityId(id), packing(entities))
            == crate::value::ValueView::EntityId(packed_target(entities, id)),
        crate::value::rewritten(
            crate::value::ValueView::Maybe(Some(Box::new(crate::value::ValueView::EntityId(id)))),
            packing(entities),
        ) == crate::value::ValueView::Maybe(
            Some(Box::new(crate::value::ValueView::EntityId(packed_target(entities, id)))),
        ),
        crate::value::rewritten(
            crate::value::ValueView::Array(seq![crate::value::ValueView::EntityId(id)]),
            packing(entities),
        ) == crate::value::ValueView::Array(
            seq![crate::value::ValueView::EntityId(packed_target(entities, id))],
        ),
{
    let v = crate::value::ValueView::EntityId(id);
    let inner = crate::value::rewritten(v, packing(entities));
    assert(inner == crate::value::ValueView::EntityId(packing(entities)(id)));
    let boxed = crate::value::ValueView::Maybe(Some(Box::new(v)));
    assert(crate::value::rewritten(boxed, packing(entities)) == crate::value::ValueView::Maybe(
        Some(Box::new(inner)),
    ));
    let array = crate::value::ValueView::Array(seq![v]);
    assert(crate::value::rewritten(array, packing(entities))->Array_0 =~= seq![inner]);
}

} // verus!
