//! What holds between the encoding and the decoding of whole blocks: the
//! decoder reads back what the encoder wrote, with the deleted entities
//! gone and the entity ids rewritten.

use vstd::prelude::*;
use crate::component::{
    all_encodable, component_array_bytes, component_word, distinct, fields_bytes,
    global_component_bytes, global_word, parse_component_array, parse_global_component,
    parse_records, rewritten_all, ComponentArrayView, RecordView,
};
use crate::decode::{parse_newline, parse_uint, Expected, Failure};
use crate::encode::decimal;
use crate::entity::{
    compacted, entities_encodable, entities_word, entity_array_bytes, entity_data_bytes,
    lemma_live_count_monotone, live_count, live_entities_bytes, parse_component_idx,
    parse_component_idxs, parse_entities, parse_entity_array, parse_entity_data,
    prepend_entities, EntityView,
};
use crate::roundtrip::{
    holds_at, lemma_holds_first, lemma_holds_split, lemma_parse_encoded_entity,
    lemma_parse_encoded_values,
};
use crate::text::{
    are_words, ascii_chars, ascii_words, is_name, is_space, is_word, joined, lemma_decimal,
    lemma_header_words, lemma_joined_prefix, lemma_name_bytes, lemma_parse_decimal,
    lemma_parse_encoded_header, parse_decimal, parse_header,
};
use crate::value::{encodable, rewritten, values_bytes, EntityId, ValueView};
use crate::world::{
    components_bytes, is_top, name_taken, packing, parse_components, parse_world,
    parse_world_header, parse_world_rest, top_key, world_bytes, world_line, world_tail,
    world_word, WorldView,
};

verus! {

/// A run of `n + 1` entities is a run of `n` and one more.
proof fn lemma_entities_snoc(s: Seq<u8>, pos: int, n: nat)
    ensures
        parse_entities(s, pos, n + 1) == (match parse_entities(s, pos, n) {
            Ok((es, next)) => match parse_entity_data(s, next) {
                Ok((e, end)) => Ok((es.push(e), end)),
                Err(e) => Err(e),
            },
            Err(e) => Err(e),
        }),
    decreases n,
{
    let empty = Seq::<EntityView>::empty();
    if n == 0 {
        assert(parse_entities(s, pos, 0) == Ok::<_, Failure>((empty, pos)));
        if let Ok((e, next)) = parse_entity_data(s, pos) {
            assert(parse_entities(s, next, 0) == Ok::<_, Failure>((empty, next)));
            assert(seq![e] + empty =~= empty.push(e));
        }
    } else {
        if let Ok((e0, mid)) = parse_entity_data(s, pos) {
            let shorter = parse_entities(s, mid, (n - 1) as nat);
            assert(parse_entities(s, pos, n) == prepend_entities(seq![e0], shorter));
            assert(parse_entities(s, pos, n + 1) == prepend_entities(
                seq![e0],
                parse_entities(s, mid, n),
            ));
            lemma_entities_snoc(s, mid, (n - 1) as nat);
            if let Ok((es, next)) = shorter {
                if let Ok((e, end)) = parse_entity_data(s, next) {
                    assert(seq![e0] + es.push(e) =~= (seq![e0] + es).push(e));
                }
            }
        }
    }
}

/// Decoding undoes encoding, for the live entities of an array.
pub proof fn lemma_parse_encoded_entities(entities: Seq<EntityView>, n: int, s: Seq<u8>, pos: int)
    requires
        0 <= n <= entities.len(),
        entities_encodable(entities),
        holds_at(s, pos, live_entities_bytes(entities, n)),
    ensures
        parse_entities(s, pos, live_count(entities, n)) == Ok::<_, Failure>(
            (compacted(entities, n), pos + live_entities_bytes(entities, n).len()),
        ),
    decreases n,
{
    if n > 0 {
        let front = live_entities_bytes(entities, n - 1);
        let e = entities[n - 1];
        if e.is_deleted {
            assert(live_entities_bytes(entities, n) =~= front);
            lemma_parse_encoded_entities(entities, n - 1, s, pos);
        } else {
            lemma_holds_split(s, pos, front, entity_data_bytes(e));
            lemma_parse_encoded_entities(entities, n - 1, s, pos);
            lemma_parse_encoded_entity(e, s, pos + front.len());
            lemma_entities_snoc(s, pos, live_count(entities, n - 1));
        }
    }
}

/// Decoding undoes encoding, for an entity array, up to the deleted
/// entities: the decoder finds the live entities, in their order.
pub proof fn lemma_parse_encoded_entity_array(entities: Seq<EntityView>, s: Seq<u8>, pos: int)
    requires
        entities.len() <= u32::MAX,
        entities_encodable(entities),
        holds_at(s, pos, entity_array_bytes(entities)),
    ensures
        parse_entity_array(s, pos) == Ok::<_, Failure>(
            (
                compacted(entities, entities.len() as int),
                pos + entity_array_bytes(entities).len(),
            ),
        ),
{
    let n = entities.len() as int;
    let live = live_count(entities, n);
    lemma_live_count_monotone(entities, 0, n);
    let ws = seq![entities_word(), decimal(live)];
    let line = joined(ws, 2);
    let body = live_entities_bytes(entities, n);
    lemma_decimal(live);
    assert(is_word(entities_word())) by {
        let w = entities_word();
        assert(w[0] == 0x45 && w[1] == 0x4e && w[2] == 0x54 && w[3] == 0x49 && w[4] == 0x54
            && w[5] == 0x49 && w[6] == 0x45 && w[7] == 0x53);
    }
    assert(are_words(ws));
    assert(joined(ws, 1) == ws[0]);
    assert(line =~= entities_word() + seq![0x20u8] + decimal(live));
    assert(entity_array_bytes(entities) =~= (line + seq![0x0au8]) + body);
    lemma_holds_split(s, pos, line + seq![0x0au8], body);
    lemma_holds_split(s, pos, line, seq![0x0au8]);
    lemma_holds_first(s, pos + line.len(), seq![0x0au8]);
    lemma_parse_encoded_header(s, pos, ws, Expected::EntityArrayHeader);
    lemma_parse_decimal(live, u32::MAX as nat);
    lemma_parse_encoded_entities(entities, n, s, pos + line.len() + 1);
}

/// A value that can be encoded can still be encoded when its entity ids
/// are replaced.
pub proof fn lemma_rewritten_encodable(v: ValueView, f: spec_fn(EntityId) -> EntityId)
    requires
        encodable(v),
    ensures
        encodable(rewritten(v, f)),
    decreases v,
{
    match v {
        ValueView::Array(vs) => {
            let ws = rewritten(v, f)->Array_0;
            assert forall|i: int| 0 <= i < ws.len() implies encodable(#[trigger] ws[i]) by {
                assert(encodable(vs[i]));
                lemma_rewritten_encodable(vs[i], f);
            }
        },
        ValueView::Maybe(Some(inner)) => {
            lemma_rewritten_encodable(*inner, f);
        },
        _ => {},
    }
}

/// The bytes of each field name.
pub open spec fn field_words(scheme: Seq<Seq<char>>) -> Seq<Seq<u8>> {
    Seq::new(scheme.len(), |i: int| vstd::utf8::encode_utf8(scheme[i]))
}

/// Whether each of `names` can stand in a header line.
pub open spec fn are_names(names: Seq<Seq<char>>) -> bool {
    forall|i: int| 0 <= i < names.len() ==> is_name(#[trigger] names[i])
}

/// The field names of a header line are its last words.
proof fn lemma_joined_fields(front: Seq<Seq<u8>>, scheme: Seq<Seq<char>>, n: int)
    requires
        front.len() >= 1,
        0 <= n <= scheme.len(),
    ensures
        joined(front + field_words(scheme), front.len() + n) == joined(front, front.len() as int)
            + fields_bytes(scheme, n),
    decreases n,
{
    let all = front + field_words(scheme);
    if n == 0 {
        lemma_joined_prefix(all, front, front.len() as int);
        assert(joined(front, front.len() as int) + Seq::<u8>::empty() =~= joined(
            front,
            front.len() as int,
        ));
    } else {
        lemma_joined_fields(front, scheme, n - 1);
        assert(all[front.len() + n - 1] == vstd::utf8::encode_utf8(scheme[n - 1]));
        assert(joined(all, front.len() + n) =~= joined(front, front.len() as int) + (fields_bytes(
            scheme,
            n - 1,
        ) + seq![0x20u8] + vstd::utf8::encode_utf8(scheme[n - 1])));
    }
}

/// The words of the field names spell the field names.
proof fn lemma_field_words(scheme: Seq<Seq<char>>)
    requires
        are_names(scheme),
    ensures
        are_words(field_words(scheme)),
        ascii_words(field_words(scheme)) == scheme,
{
    assert forall|i: int| 0 <= i < scheme.len() implies is_word(#[trigger] field_words(scheme)[i])
        && ascii_chars(field_words(scheme)[i]) == scheme[i] by {
        assert(is_name(scheme[i]));
        lemma_name_bytes(scheme[i]);
    }
    assert(ascii_words(field_words(scheme)) =~= scheme);
}

/// Decoding undoes encoding, for the values of a block: the decoder finds
/// the values with their entity ids rewritten.
proof fn lemma_parse_encoded_records(
    scheme: Seq<Seq<char>>,
    values: Seq<ValueView>,
    f: spec_fn(EntityId) -> EntityId,
    count: nat,
    s: Seq<u8>,
    pos: int,
)
    requires
        distinct(scheme),
        count * scheme.len() == values.len(),
        values.len() <= u32::MAX,
        all_encodable(values),
        holds_at(s, pos, values_bytes(rewritten_all(values, f), values.len())),
    ensures
        parse_records(s, pos, scheme, count) == Ok::<_, Failure>(
            (
                RecordView { scheme, values: rewritten_all(values, f) },
                pos + values_bytes(rewritten_all(values, f), values.len()).len(),
            ),
        ),
{
    let items = rewritten_all(values, f);
    assert forall|i: int| 0 <= i < items.len() implies encodable(#[trigger] items[i]) by {
        assert(encodable(values[i]));
        lemma_rewritten_encodable(values[i], f);
    }
    lemma_parse_encoded_values(items, items.len(), s, pos);
    assert(items.take(items.len() as int) =~= items);
}

/// Whether a component array can be read back from its encoding: whether
/// it is well formed, its name and the names of its fields can stand in a
/// header line, and its values can be encoded and are no more than 32 bits
/// can count.
pub open spec fn array_lossless(c: ComponentArrayView) -> bool {
    &&& c.wf()
    &&& is_name(c.name)
    &&& are_names(c.scheme)
    &&& c.values.len() <= u32::MAX
    &&& all_encodable(c.values)
}

/// The component array `c` as it is read back: with its entity ids
/// rewritten.
pub open spec fn array_reread(c: ComponentArrayView, f: spec_fn(EntityId) -> EntityId)
    -> ComponentArrayView {
    ComponentArrayView { values: rewritten_all(c.values, f), ..c }
}

/// Decoding undoes encoding, for a component array, up to the rewriting of
/// entity ids.
#[verifier::rlimit(50)]
pub proof fn lemma_parse_encoded_component_array(
    c: ComponentArrayView,
    f: spec_fn(EntityId) -> EntityId,
    s: Seq<u8>,
    pos: int,
)
    requires
        array_lossless(c),
        holds_at(s, pos, component_array_bytes(c, f)),
    ensures
        parse_component_array(s, pos) == Ok::<_, Failure>(
            (array_reread(c, f), pos + component_array_bytes(c, f).len()),
        ),
{
    let fields = c.scheme.len() as int;
    let records = c.records();
    assert(0 <= records <= c.values.len()) by {
        if fields > 0 {
            assert(records * fields >= records) by (nonlinear_arith)
                requires
                    fields >= 1,
                    records >= 0,
            ;
        }
    }
    let name = vstd::utf8::encode_utf8(c.name);
    let front = seq![component_word(), name, decimal(c.id as nat), decimal(records as nat)];
    let ws = front + field_words(c.scheme);
    let line = joined(ws, ws.len() as int);
    let body = values_bytes(rewritten_all(c.values, f), c.values.len());
    lemma_name_bytes(c.name);
    lemma_decimal(c.id as nat);
    lemma_decimal(records as nat);
    lemma_field_words(c.scheme);
    assert(is_word(component_word())) by {
        let w = component_word();
        assert(w[0] == 0x43 && w[1] == 0x4f && w[2] == 0x4d && w[3] == 0x50 && w[4] == 0x4f
            && w[5] == 0x4e && w[6] == 0x45 && w[7] == 0x4e && w[8] == 0x54);
    }
    assert(are_words(ws)) by {
        assert forall|w: int| 0 <= w < ws.len() implies is_word(#[trigger] ws[w]) by {
            if w >= 4 {
                assert(ws[w] == field_words(c.scheme)[w - 4]);
            }
        }
    }
    lemma_joined_fields(front, c.scheme, fields);
    assert(joined(front, 4) =~= component_word() + seq![0x20u8] + name + seq![0x20u8] + decimal(
        c.id as nat,
    ) + seq![0x20u8] + decimal(records as nat)) by {
        assert(joined(front, 1) == front[0]);
        assert(joined(front, 2) == joined(front, 1) + seq![0x20u8] + front[1]);
        assert(joined(front, 3) == joined(front, 2) + seq![0x20u8] + front[2]);
    }
    assert(component_array_bytes(c, f) =~= (line + seq![0x0au8]) + body);
    lemma_holds_split(s, pos, line + seq![0x0au8], body);
    lemma_holds_split(s, pos, line, seq![0x0au8]);
    lemma_holds_first(s, pos + line.len(), seq![0x0au8]);
    lemma_parse_encoded_header(s, pos, ws, Expected::ComponentArrayHeader);
    lemma_parse_decimal(c.id as nat, 0xffff);
    lemma_parse_decimal(records as nat, 0xffff_ffff);
    assert(ws.skip(4) =~= field_words(c.scheme));
    lemma_parse_encoded_records(
        c.scheme,
        c.values,
        f,
        records as nat,
        s,
        pos + line.len() + 1,
    );
}

/// Whether a record can be read back from its encoding as the global
/// component: whether no field name stands twice, each field has its
/// value, the names of the fields can stand in a header line, and the
/// values can be encoded.
pub open spec fn global_lossless(g: RecordView) -> bool {
    &&& distinct(g.scheme)
    &&& are_names(g.scheme)
    &&& g.values.len() == g.scheme.len()
    &&& g.values.len() <= u32::MAX
    &&& all_encodable(g.values)
}

/// Decoding undoes encoding, for the global component, up to the rewriting
/// of entity ids.
pub proof fn lemma_parse_encoded_global_component(
    g: RecordView,
    f: spec_fn(EntityId) -> EntityId,
    s: Seq<u8>,
    pos: int,
)
    requires
        global_lossless(g),
        holds_at(s, pos, global_component_bytes(g, f)),
    ensures
        parse_global_component(s, pos) == Ok::<_, Failure>(
            (
                RecordView { scheme: g.scheme, values: rewritten_all(g.values, f) },
                pos + global_component_bytes(g, f).len(),
            ),
        ),
{
    let fields = g.scheme.len() as int;
    let front = seq![global_word()];
    let ws = front + field_words(g.scheme);
    let line = joined(ws, ws.len() as int);
    let body = values_bytes(rewritten_all(g.values, f), g.values.len());
    lemma_field_words(g.scheme);
    assert(is_word(global_word())) by {
        let w = global_word();
        assert(w[0] == 0x47 && w[1] == 0x4c && w[2] == 0x4f && w[3] == 0x42 && w[4] == 0x41
            && w[5] == 0x4c);
    }
    assert(are_words(ws)) by {
        assert forall|w: int| 0 <= w < ws.len() implies is_word(#[trigger] ws[w]) by {
            if w >= 1 {
                assert(ws[w] == field_words(g.scheme)[w - 1]);
            }
        }
    }
    lemma_joined_fields(front, g.scheme, fields);
    assert(joined(front, 1) == global_word());
    assert(global_component_bytes(g, f) =~= (line + seq![0x0au8]) + body);
    lemma_holds_split(s, pos, line + seq![0x0au8], body);
    lemma_holds_split(s, pos, line, seq![0x0au8]);
    lemma_holds_first(s, pos + line.len(), seq![0x0au8]);
    lemma_parse_encoded_header(s, pos, ws, Expected::GlobalComponentHeader);
    assert(ws.skip(1) =~= field_words(g.scheme));
    lemma_parse_encoded_records(g.scheme, g.values, f, 1, s, pos + line.len() + 1);
}

/// A run of `n + 1` component arrays is a run of `n` and one more, which
/// is held against those `n` and what was found before them.
proof fn lemma_components_snoc(
    s: Seq<u8>,
    pos: int,
    n: nat,
    max: int,
    found: Map<int, ComponentArrayView>,
)
    ensures
        parse_components(s, pos, n + 1, max, found) == (match parse_components(
            s,
            pos,
            n,
            max,
            found,
        ) {
            Ok((all, next)) => parse_components(s, next, 1, max, all),
            Err(e) => Err(e),
        }),
    decreases n,
{
    if n == 0 {
        assert(parse_components(s, pos, 0, max, found) == Ok::<_, Failure>((found, pos)));
    } else {
        if let Ok((c, next)) = parse_component_array(s, pos) {
            if !name_taken(found, c.name) && c.id <= max && !found.dom().contains(c.id as int) {
                if let Ok((_, after)) = parse_newline(s, next) {
                    let more = found.insert(c.id as int, c);
                    assert(parse_components(s, pos, n, max, found) == parse_components(
                        s,
                        after,
                        (n - 1) as nat,
                        max,
                        more,
                    ));
                    assert(parse_components(s, pos, n + 1, max, found) == parse_components(
                        s,
                        after,
                        n,
                        max,
                        more,
                    ));
                    lemma_components_snoc(s, after, (n - 1) as nat, max, more);
                }
            }
        }
    }
}

/// The number of `keys` below `bound`.
pub open spec fn count_below(keys: Set<int>, bound: int) -> nat
    decreases bound,
{
    if bound <= 0 {
        0
    } else {
        count_below(keys, bound - 1) + if keys.contains(bound - 1) {
            1nat
        } else {
            0nat
        }
    }
}

/// The component arrays with an id below `bound`, as they are read back.
pub open spec fn reread_below(
    components: Map<int, ComponentArrayView>,
    bound: int,
    f: spec_fn(EntityId) -> EntityId,
) -> Map<int, ComponentArrayView> {
    Map::new(
        |k: int| components.dom().contains(k) && k < bound,
        |k: int| array_reread(components[k], f),
    )
}

/// Whether the component arrays of a world can be read back from their
/// encoding: whether each stands at its id, no two have one name, and
/// each can be read back.
pub open spec fn components_lossless(components: Map<int, ComponentArrayView>) -> bool {
    &&& forall|k: int|
        components.dom().contains(k) ==> (#[trigger] components[k]).id == k && array_lossless(
            components[k],
        )
    &&& forall|j: int, k: int|
        components.dom().contains(j) && components.dom().contains(k) && j != k
            ==> (#[trigger] components[j]).name != (#[trigger] components[k]).name
}

/// Decoding undoes encoding, for the component arrays of a world, up to
/// the rewriting of entity ids.
#[verifier::rlimit(50)]
proof fn lemma_parse_encoded_components(
    components: Map<int, ComponentArrayView>,
    f: spec_fn(EntityId) -> EntityId,
    bound: int,
    max: int,
    s: Seq<u8>,
    pos: int,
)
    requires
        components_lossless(components),
        bound <= max + 1,
        holds_at(s, pos, components_bytes(components, bound, f)),
    ensures
        parse_components(
            s,
            pos,
            count_below(components.dom(), bound),
            max,
            Map::empty(),
        ) == Ok::<_, Failure>(
            (
                reread_below(components, bound, f),
                pos + components_bytes(components, bound, f).len(),
            ),
        ),
    decreases bound,
{
    let empty = Map::<int, ComponentArrayView>::empty();
    if bound <= 0 {
        assert(reread_below(components, bound, f) =~= empty) by {
            assert forall|k: int| components.dom().contains(k) implies k >= 0 by {
                assert(components[k].id == k);
            }
        }
    } else {
        let key = bound - 1;
        let front = components_bytes(components, key, f);
        let n = count_below(components.dom(), key);
        if components.dom().contains(key) {
            let c = components[key];
            let block = component_array_bytes(c, f) + seq![0x0au8];
            lemma_holds_split(s, pos, front, block);
            lemma_parse_encoded_components(components, f, key, max, s, pos);
            let found = reread_below(components, key, f);
            let at = pos + front.len();
            lemma_holds_split(s, at, component_array_bytes(c, f), seq![0x0au8]);
            lemma_parse_encoded_component_array(c, f, s, at);
            let next = at + component_array_bytes(c, f).len();
            lemma_holds_first(s, next, seq![0x0au8]);
            lemma_components_snoc(s, pos, n, max, empty);
            assert(!name_taken(found, c.name)) by {
                if name_taken(found, c.name) {
                    let k = choose|k: int|
                        found.dom().contains(k) && (#[trigger] found[k]).name == c.name;
                    assert(components[k].name == components[key].name);
                }
            }
            let reread = array_reread(c, f);
            assert(parse_components(s, next + 1, 0, max, found.insert(key, reread)) == Ok::<
                _,
                Failure,
            >((found.insert(key, reread), next + 1)));
            assert(found.insert(key, reread) =~= reread_below(components, bound, f));
        } else {
            assert(components_bytes(components, bound, f) =~= front);
            lemma_parse_encoded_components(components, f, key, max, s, pos);
            assert(reread_below(components, key, f) =~= reread_below(components, bound, f));
        }
    }
}

/// The keys below a bound are as many as were counted.
proof fn lemma_count_below(keys: Set<int>, bound: int)
    requires
        forall|k: int| keys.contains(k) ==> k >= 0,
    ensures
        Set::new(|k: int| keys.contains(k) && k < bound).finite(),
        Set::new(|k: int| keys.contains(k) && k < bound).len() == count_below(keys, bound),
    decreases bound,
{
    let below = Set::new(|k: int| keys.contains(k) && k < bound);
    if bound <= 0 {
        assert(below =~= Set::<int>::empty());
    } else {
        lemma_count_below(keys, bound - 1);
        let fewer = Set::new(|k: int| keys.contains(k) && k < bound - 1);
        if keys.contains(bound - 1) {
            assert(below =~= fewer.insert(bound - 1));
        } else {
            assert(below =~= fewer);
        }
    }
}

/// Keys below a bound have a greatest among them, if there are any.
proof fn lemma_top_key(keys: Set<int>, bound: int)
    requires
        forall|k: int| keys.contains(k) ==> 0 <= k < bound,
    ensures
        keys =~= Set::<int>::empty() ==> top_key(keys) == 0,
        !(keys =~= Set::<int>::empty()) ==> is_top(keys, top_key(keys)),
        0 <= top_key(keys),
        top_key(keys) < bound || bound <= 0,
    decreases bound,
{
    if keys =~= Set::<int>::empty() {
        assert forall|k: int| !is_top(keys, k) by {}
    } else {
        let some = choose|k: int| keys.contains(k);
        assert(keys.contains(some)) by {
            if forall|k: int| !keys.contains(k) {
                assert(keys =~= Set::<int>::empty());
            }
        }
        if keys.contains(bound - 1) {
            assert(is_top(keys, bound - 1));
        } else {
            assert forall|k: int| keys.contains(k) implies 0 <= k < bound - 1 by {}
            lemma_top_key(keys, bound - 1);
        }
        let top = top_key(keys);
        assert(is_top(keys, top));
    }
}

/// Whether a world can be read back from its encoding: whether its
/// component arrays and its global component can be, its component arrays
/// are at most 65535, its entities are no more than their ids can count,
/// and each live entity has at most 65535 component indices.
pub open spec fn world_lossless(w: WorldView) -> bool {
    &&& components_lossless(w.components)
    &&& w.components.dom().finite()
    &&& w.components.dom().len() <= 0xffff
    &&& global_lossless(w.global)
    &&& w.entities.len() <= u32::MAX
    &&& entities_encodable(w.entities)
}

/// The world `w` as it is read back from its encoding: without its deleted
/// entities, and with each entity id in a value replaced by the packed
/// index of its entity, or by the invalid id if that entity is deleted or
/// does not exist.
pub open spec fn world_reread(w: WorldView) -> WorldView {
    let f = packing(w.entities);
    WorldView {
        components: Map::new(
            |k: int| w.components.dom().contains(k),
            |k: int| array_reread(w.components[k], f),
        ),
        global: RecordView { scheme: w.global.scheme, values: rewritten_all(w.global.values, f) },
        entities: compacted(w.entities, w.entities.len() as int),
    }
}

/// Decoding undoes encoding, for the header line of a world.
proof fn lemma_parse_encoded_world_header(w: WorldView, s: Seq<u8>, pos: int)
    requires
        world_lossless(w),
        holds_at(s, pos, world_line(w) + seq![0x0au8]),
    ensures
        parse_world_header(s, pos) == Ok::<_, Failure>(
            (
                (w.components.dom().len(), top_key(w.components.dom()) as nat),
                pos + world_line(w).len() + 1,
            ),
        ),
        0 <= top_key(w.components.dom()) <= 0xffff,
{
    let keys = w.components.dom();
    assert forall|k: int| keys.contains(k) implies 0 <= k < 0x1_0000 by {
        assert(w.components[k].id == k);
    }
    lemma_top_key(keys, 0x1_0000);
    let top = top_key(keys);
    let count = keys.len();
    let ws = seq![world_word(), decimal(count), decimal(top as nat)];
    let line = joined(ws, 3);
    lemma_decimal(count);
    lemma_decimal(top as nat);
    assert(is_word(world_word())) by {
        let word = world_word();
        assert(word[0] == 0x57 && word[1] == 0x4f && word[2] == 0x52 && word[3] == 0x4c
            && word[4] == 0x44);
    }
    assert(are_words(ws));
    assert(line =~= world_line(w)) by {
        assert(joined(ws, 1) == ws[0]);
        assert(joined(ws, 2) == joined(ws, 1) + seq![0x20u8] + ws[1]);
    }
    lemma_holds_split(s, pos, line, seq![0x0au8]);
    lemma_holds_first(s, pos + line.len(), seq![0x0au8]);
    lemma_parse_encoded_header(s, pos, ws, Expected::WorldHeader);
    lemma_parse_decimal(count, 0xffff);
    lemma_parse_decimal(top as nat, 0xffff);
}

/// Decoding undoes encoding, for all component arrays of a world.
proof fn lemma_parse_encoded_world_components(w: WorldView, s: Seq<u8>, pos: int)
    requires
        world_lossless(w),
        holds_at(
            s,
            pos,
            components_bytes(w.components, top_key(w.components.dom()) + 1, packing(w.entities)),
        ),
    ensures
        parse_components(
            s,
            pos,
            w.components.dom().len(),
            top_key(w.components.dom()),
            Map::empty(),
        ) == Ok::<_, Failure>(
            (
                world_reread(w).components,
                pos + components_bytes(
                    w.components,
                    top_key(w.components.dom()) + 1,
                    packing(w.entities),
                ).len(),
            ),
        ),
{
    let keys = w.components.dom();
    let f = packing(w.entities);
    assert forall|k: int| keys.contains(k) implies 0 <= k < 0x1_0000 by {
        assert(w.components[k].id == k);
    }
    lemma_top_key(keys, 0x1_0000);
    let top = top_key(keys);
    lemma_parse_encoded_components(w.components, f, top + 1, top, s, pos);
    lemma_count_below(keys, top + 1);
    assert forall|k: int| keys.contains(k) implies k < top + 1 by {
        assert(is_top(keys, top));
    }
    assert(Set::new(|k: int| keys.contains(k) && k < top + 1) =~= keys);
    assert(reread_below(w.components, top + 1, f) =~= world_reread(w).components);
}

/// Decoding undoes encoding, for the global component and the entities
/// of a world.
proof fn lemma_parse_encoded_world_rest(
    w: WorldView,
    components: Map<int, ComponentArrayView>,
    s: Seq<u8>,
    pos: int,
)
    requires
        world_lossless(w),
        holds_at(s, pos, world_tail(w)),
    ensures
        parse_world_rest(s, pos, components) == Ok::<_, Failure>(
            (
                WorldView {
                    components,
                    global: world_reread(w).global,
                    entities: world_reread(w).entities,
                },
                pos + world_tail(w).len(),
            ),
        ),
{
    let f = packing(w.entities);
    let global = global_component_bytes(w.global, f);
    let entities = entity_array_bytes(w.entities);
    assert(world_tail(w) =~= global + (seq![0x0au8] + entities));
    lemma_holds_split(s, pos, global, seq![0x0au8] + entities);
    lemma_parse_encoded_global_component(w.global, f, s, pos);
    let behind = pos + global.len();
    lemma_holds_split(s, behind, seq![0x0au8], entities);
    lemma_holds_first(s, behind, seq![0x0au8]);
    lemma_parse_encoded_entity_array(w.entities, s, behind + 1);
}

/// Decoding undoes encoding, for a world, up to compaction: what the
/// decoder reads back from the encoding of a world is that world without
/// its deleted entities and with its entity ids rewritten. For a world
/// without deleted entities whose entity ids all name entities, that is
/// the world itself.
#[verifier::rlimit(50)]
pub proof fn lemma_world_round_trip(w: WorldView)
    requires
        world_lossless(w),
    ensures
        parse_world(world_bytes(w), 0) == Ok::<_, Failure>(
            (world_reread(w), world_bytes(w).len() as int),
        ),
{
    let s = world_bytes(w);
    let head = world_line(w) + seq![0x0au8];
    let arrays = components_bytes(
        w.components,
        top_key(w.components.dom()) + 1,
        packing(w.entities),
    );
    let tail = world_tail(w);
    assert(s == head + arrays + tail);
    assert(s.subrange(0, s.len() as int) =~= s);
    lemma_holds_split(s, 0, head + arrays, tail);
    lemma_holds_split(s, 0, head, arrays);
    lemma_parse_encoded_world_header(w, s, 0);
    let first: int = head.len() as int;
    lemma_parse_encoded_world_components(w, s, first);
    let second: int = first + arrays.len();
    lemma_parse_encoded_world_rest(w, world_reread(w).components, s, second);
}

/// A word spells a name.
proof fn lemma_word_name(word: Seq<u8>)
    requires
        is_word(word),
    ensures
        is_name(ascii_chars(word)),
{
    let name = ascii_chars(word);
    assert forall|i: int| 0 <= i < name.len() implies '\0' <= (#[trigger] name[i]) <= '\u{7f}'
        && !is_space(name[i] as u8) by {
        assert(name[i] == word[i] as char);
        assert(word[i] < 0x80);
    }
}

/// What the decoder reads as the values of a block can be encoded.
proof fn lemma_parsed_records_lossless(s: Seq<u8>, pos: int, words: Seq<Seq<u8>>, count: nat)
    requires
        are_words(words),
        0 <= pos <= s.len(),
    ensures
        parse_records(s, pos, ascii_words(words), count) matches Ok((record, next)) ==> {
            &&& distinct(record.scheme)
            &&& record.scheme == ascii_words(words)
            &&& are_names(record.scheme)
            &&& record.values.len() == count * record.scheme.len()
            &&& record.values.len() <= u32::MAX
            &&& all_encodable(record.values)
        },
{
    let scheme = ascii_words(words);
    if let Ok((record, next)) = parse_records(s, pos, scheme, count) {
        crate::roundtrip::lemma_parse_values_shortest(s, pos, count * scheme.len());
        assert forall|i: int| 0 <= i < scheme.len() implies is_name(#[trigger] scheme[i]) by {
            assert(is_word(words[i]));
            lemma_word_name(words[i]);
        }
    }
}

/// What the decoder reads as a component array can be read back from its
/// encoding.
pub proof fn lemma_parsed_component_array_lossless(s: Seq<u8>, pos: int)
    ensures
        parse_component_array(s, pos) matches Ok((c, next)) ==> array_lossless(c),
{
    if let Ok((c, next)) = parse_component_array(s, pos) {
        lemma_header_words(s, pos, Expected::ComponentArrayHeader);
        let (words, first) = parse_header(s, pos, Expected::ComponentArrayHeader)->Ok_0;
        let count = parse_decimal(words[3], 0xffff_ffff)->Some_0;
        assert(are_words(words.skip(4))) by {
            assert forall|w: int| 0 <= w < words.skip(4).len() implies is_word(
                #[trigger] words.skip(4)[w],
            ) by {
                assert(is_word(words[w + 4]));
            }
        }
        lemma_parsed_records_lossless(s, first, words.skip(4), count);
        crate::component::lemma_component_array_wf(s, pos);
        assert(is_word(words[1]));
        lemma_word_name(words[1]);
    }
}

/// What the decoder reads as the global component can be read back from
/// its encoding.
pub proof fn lemma_parsed_global_component_lossless(s: Seq<u8>, pos: int)
    ensures
        parse_global_component(s, pos) matches Ok((g, next)) ==> global_lossless(g),
{
    if let Ok((g, next)) = parse_global_component(s, pos) {
        lemma_header_words(s, pos, Expected::GlobalComponentHeader);
        let (words, first) = parse_header(s, pos, Expected::GlobalComponentHeader)->Ok_0;
        assert(are_words(words.skip(1))) by {
            assert forall|w: int| 0 <= w < words.skip(1).len() implies is_word(
                #[trigger] words.skip(1)[w],
            ) by {
                assert(is_word(words[w + 1]));
            }
        }
        lemma_parsed_records_lossless(s, first, words.skip(1), 1);
    }
}

/// A run of component indices that the decoder finds is as long as was
/// asked for.
proof fn lemma_parsed_component_idxs_len(s: Seq<u8>, pos: int, n: nat)
    ensures
        parse_component_idxs(s, pos, n) matches Ok((cs, next)) ==> cs.len() == n,
    decreases n,
{
    if n > 0 {
        if let Ok((c, next)) = parse_component_idx(s, pos) {
            lemma_parsed_component_idxs_len(s, next, (n - 1) as nat);
        }
    }
}

/// What the decoder reads as entities are live entities, as many as were
/// asked for, each with at most 65535 component indices.
proof fn lemma_parsed_entities(s: Seq<u8>, pos: int, n: nat)
    ensures
        parse_entities(s, pos, n) matches Ok((es, next)) ==> es.len() == n && forall|i: int|
            0 <= i < es.len() ==> !(#[trigger] es[i]).is_deleted && es[i].components.len()
                <= 0xffff,
    decreases n,
{
    if n > 0 {
        if let Ok((e, next)) = parse_entity_data(s, pos) {
            let b = s[pos];
            if b == 0xff {
                let (count, first) = parse_uint(s, pos + 1, 2, Expected::Uint16)->Ok_0;
                crate::encode::lemma_be16_written(s, pos + 1);
                lemma_parsed_component_idxs_len(s, first, count as nat);
            } else {
                lemma_parsed_component_idxs_len(s, pos + 1, b as nat);
            }
            lemma_parsed_entities(s, next, (n - 1) as nat);
            if let Ok((es, end)) = parse_entities(s, next, (n - 1) as nat) {
                let all = seq![e] + es;
                assert forall|i: int| 0 <= i < all.len() implies !(#[trigger] all[i]).is_deleted
                    && all[i].components.len() <= 0xffff by {
                    if i > 0 {
                        assert(all[i] == es[i - 1]);
                    }
                }
            }
        }
    }
}

/// What the decoder reads as the component arrays of a world can be read
/// back from their encoding.
proof fn lemma_parsed_components_lossless(
    s: Seq<u8>,
    pos: int,
    n: nat,
    max: int,
    found: Map<int, ComponentArrayView>,
)
    requires
        components_lossless(found),
    ensures
        parse_components(s, pos, n, max, found) matches Ok((all, _)) ==> components_lossless(all),
    decreases n,
{
    if n > 0 {
        if let Ok((c, next)) = parse_component_array(s, pos) {
            if !name_taken(found, c.name) && c.id <= max && !found.dom().contains(c.id as int) {
                if let Ok((_, after)) = parse_newline(s, next) {
                    let more = found.insert(c.id as int, c);
                    lemma_parsed_component_array_lossless(s, pos);
                    assert(components_lossless(more)) by {
                        assert forall|j: int, k: int|
                            more.dom().contains(j) && more.dom().contains(k) && j != k implies (
                        #[trigger] more[j]).name != (#[trigger] more[k]).name by {
                            if j == c.id as int {
                                assert(found.dom().contains(k));
                                assert(found[k].name != c.name);
                            } else if k == c.id as int {
                                assert(found.dom().contains(j));
                                assert(found[j].name != c.name);
                            }
                        }
                    }
                    lemma_parsed_components_lossless(s, after, (n - 1) as nat, max, more);
                }
            }
        }
    }
}

/// A world that the decoder reads can be encoded, and can be read back
/// from its encoding.
pub proof fn lemma_parsed_world_lossless(s: Seq<u8>, pos: int)
    ensures
        parse_world(s, pos) matches Ok((w, _)) ==> world_lossless(w) && w.encodable(),
{
    if let Ok((w, end)) = parse_world(s, pos) {
        let ((count, max), next) = parse_world_header(s, pos)->Ok_0;
        crate::world::lemma_world_unique(s, pos);
        lemma_parsed_components_lossless(s, next, count, max as int, Map::empty());
        let (components, after) = parse_components(s, next, count, max as int, Map::empty())->Ok_0;
        lemma_parsed_global_component_lossless(s, after);
        let (global, behind) = parse_global_component(s, after)->Ok_0;
        let (_, start) = parse_newline(s, behind)->Ok_0;
        lemma_header_words(s, start, Expected::EntityArrayHeader);
        let (words, first) = parse_header(s, start, Expected::EntityArrayHeader)->Ok_0;
        let n = parse_decimal(words[1], u32::MAX as nat)->Some_0;
        lemma_parsed_entities(s, first, n);
    }
}

} // verus!
