//! What holds between the encoding and the decoding of values: decoding
//! undoes encoding, no encoding of a value is shorter than the one that
//! the encoder writes, and that one is the only encoding of its length.

use vstd::prelude::*;
use crate::decode::{
    be16, be24, be32, be64, be_uint, parse_uint, twos, Expected, Failure, Parsed,
};
use crate::encode::{
    be16_bytes, be24_bytes, be32_bytes, be64_bytes, lemma_be16_read, lemma_be16_written,
    lemma_be32_len, lemma_be32_read, lemma_be32_written, lemma_be64_len, lemma_be64_read,
    lemma_be64_written, untwos,
};
use crate::entity::{
    component_idx_bytes, component_idxs_bytes, entity_data_bytes, idx_bytes, idx_width,
    parse_component_idx, parse_component_idxs, parse_entity_data, parse_idx, prepend_idxs,
    ComponentIdx, EntityView,
};
use crate::ieee;
use crate::value::{
    array_header, encodable, entity_id_bytes, float_bytes, int_bytes, lemma_leaf_table,
    lemma_parse_value_advances, length_bytes, parse_leaf, parse_value, parse_values, prepend,
    value_bytes, values_bytes, EntityId, ValueView,
};

verus! {

/// The bytes `b` stand in `s` at `pos`.
pub open spec fn holds_at(s: Seq<u8>, pos: int, b: Seq<u8>) -> bool {
    0 <= pos && pos + b.len() <= s.len() && s.subrange(pos, pos + b.len()) == b
}

pub proof fn lemma_holds_split(s: Seq<u8>, pos: int, a: Seq<u8>, b: Seq<u8>)
    requires
        holds_at(s, pos, a + b),
    ensures
        holds_at(s, pos, a),
        holds_at(s, pos + a.len(), b),
{
    let whole = s.subrange(pos, pos + (a + b).len());
    assert(s.subrange(pos, pos + a.len()) =~= whole.subrange(0, a.len() as int));
    assert(whole.subrange(0, a.len() as int) =~= a);
    assert(s.subrange(pos + a.len(), pos + a.len() + b.len()) =~= whole.subrange(
        a.len() as int,
        (a + b).len() as int,
    ));
    assert(whole.subrange(a.len() as int, (a + b).len() as int) =~= b);
}

pub proof fn lemma_holds_first(s: Seq<u8>, pos: int, b: Seq<u8>)
    requires
        holds_at(s, pos, b),
        b.len() > 0,
    ensures
        s[pos] == b[0],
{
    assert(s.subrange(pos, pos + b.len())[0] == s[pos]);
}

/// The run that `r` found, with the value behind it added.
pub open spec fn snoc(s: Seq<u8>, r: Parsed<Seq<ValueView>>) -> Parsed<Seq<ValueView>> {
    match r {
        Ok((vs, next)) => match parse_value(s, next) {
            Ok((v, end)) => Ok((vs.push(v), end)),
            Err(e) => Err(e),
        },
        Err(e) => Err(e),
    }
}

/// A run of `n + 1` values is a run of `n` values and one more.
pub proof fn lemma_parse_values_snoc(s: Seq<u8>, pos: int, n: nat)
    requires
        0 <= pos <= s.len(),
    ensures
        parse_values(s, pos, n + 1) == snoc(s, parse_values(s, pos, n)),
    decreases n,
{
    lemma_parse_value_advances(s, pos);
    let empty = Seq::<ValueView>::empty();
    if n == 0 {
        assert(parse_values(s, pos, 0) == Ok::<_, Failure>((empty, pos)));
        if let Ok((v, next)) = parse_value(s, pos) {
            assert(parse_values(s, next, 0) == Ok::<_, Failure>((empty, next)));
            assert(seq![v] + empty =~= empty.push(v));
        }
    } else {
        if let Ok((v0, mid)) = parse_value(s, pos) {
            let shorter = parse_values(s, mid, (n - 1) as nat);
            assert(parse_values(s, pos, n) == prepend(seq![v0], shorter));
            assert(parse_values(s, pos, n + 1) == prepend(seq![v0], parse_values(s, mid, n)));
            lemma_parse_values_snoc(s, mid, (n - 1) as nat);
            assert(parse_values(s, mid, n) == snoc(s, shorter));
            if let Ok((vs, next)) = shorter {
                if let Ok((v, end)) = parse_value(s, next) {
                    assert(seq![v0] + vs.push(v) =~= (seq![v0] + vs).push(v));
                }
            }
        }
    }
}

/// The encodings of the first `n` values depend on those values only.
pub proof fn lemma_values_bytes_prefix(a: Seq<ValueView>, b: Seq<ValueView>, n: nat)
    requires
        n <= a.len(),
        n <= b.len(),
        forall|i: int| 0 <= i < n ==> a[i] == b[i],
    ensures
        values_bytes(a, n) == values_bytes(b, n),
    decreases n,
{
    if n > 0 {
        lemma_values_bytes_prefix(a, b, (n - 1) as nat);
    }
}

proof fn lemma_length_round_trip(s: Seq<u8>, pos: int, len: int, inline: u8, short: u8, long: u8)
    requires
        0 <= len <= u32::MAX,
        inline == 0x80 || inline == 0x90,
        holds_at(s, pos, length_bytes(len, inline, short, long)),
    ensures
        len < 0x10 ==> s[pos] == inline + len,
        0x10 <= len < 0x100 ==> s[pos] == short && parse_uint(s, pos + 1, 1, Expected::Uint8)
            == Ok::<_, Failure>((len, pos + 2)),
        0x100 <= len ==> s[pos] == long && parse_uint(s, pos + 1, 4, Expected::Uint32) == Ok::<
            _,
            Failure,
        >((len, pos + 5)),
{
    let b = length_bytes(len, inline, short, long);
    lemma_holds_first(s, pos, b);
    if len < 0x10 {
    } else if len < 0x100 {
        assert(s.subrange(pos, pos + 2)[1] == s[pos + 1]);
    } else {
        lemma_holds_split(s, pos, seq![long], be32_bytes(len));
        lemma_be32_read(s, pos + 1, len);
    }
}

proof fn lemma_parse_encoded_int(i: i64, s: Seq<u8>, pos: int)
    requires
        holds_at(s, pos, int_bytes(i)),
    ensures
        parse_value(s, pos) == Ok::<_, Failure>((ValueView::Int(i), pos + int_bytes(i).len())),
{
    lemma_leaf_table(s, pos);
    lemma_holds_first(s, pos, int_bytes(i));
    if 0 <= i < 0x80 {
    } else if -0x80 <= i < 0x80 {
        assert(s.subrange(pos, pos + 2)[1] == s[pos + 1]);
    } else if -0x8000 <= i < 0x8000 {
        lemma_holds_split(s, pos, seq![0xa9u8], be16_bytes(untwos(i as int, 0x8000)));
        lemma_be16_read(s, pos + 1, untwos(i as int, 0x8000));
    } else if -0x8000_0000 <= i < 0x8000_0000 {
        lemma_holds_split(s, pos, seq![0xaau8], be32_bytes(untwos(i as int, 0x8000_0000)));
        lemma_be32_read(s, pos + 1, untwos(i as int, 0x8000_0000));
    } else {
        lemma_be64_len(untwos(i as int, 0x8000_0000_0000_0000));
        lemma_holds_split(
            s,
            pos,
            seq![0xabu8],
            be64_bytes(untwos(i as int, 0x8000_0000_0000_0000)),
        );
        lemma_be64_read(s, pos + 1, untwos(i as int, 0x8000_0000_0000_0000));
    }
}

proof fn lemma_parse_encoded_float(bits: u64, s: Seq<u8>, pos: int)
    requires
        holds_at(s, pos, float_bytes(bits)),
    ensures
        parse_value(s, pos) == Ok::<_, Failure>(
            (ValueView::Float(bits), pos + float_bytes(bits).len()),
        ),
{
    lemma_leaf_table(s, pos);
    lemma_holds_first(s, pos, float_bytes(bits));
    match ieee::narrowed(bits) {
        Some(f) => {
            lemma_holds_split(s, pos, seq![0xa6u8], be32_bytes(f as int));
            lemma_be32_read(s, pos + 1, f as int);
            assert(ieee::widened(f) == bits);
        },
        None => {
            lemma_be64_len(bits as int);
            lemma_holds_split(s, pos, seq![0xa7u8], be64_bytes(bits as int));
            lemma_be64_read(s, pos + 1, bits as int);
        },
    }
}

proof fn lemma_parse_encoded_bytes(bs: Seq<u8>, s: Seq<u8>, pos: int)
    requires
        bs.len() <= u32::MAX,
        holds_at(s, pos, value_bytes(ValueView::Bytes(bs))),
    ensures
        parse_value(s, pos) == Ok::<_, Failure>(
            (ValueView::Bytes(bs), pos + value_bytes(ValueView::Bytes(bs)).len()),
        ),
{
    lemma_leaf_table(s, pos);
    let prefix = length_bytes(bs.len() as int, 0x80, 0xa0, 0xa1);
    lemma_holds_split(s, pos, prefix, bs);
    lemma_length_round_trip(s, pos, bs.len() as int, 0x80, 0xa0, 0xa1);
}

proof fn lemma_parse_encoded_entity_id(id: EntityId, s: Seq<u8>, pos: int)
    requires
        holds_at(s, pos, entity_id_bytes(id)),
    ensures
        parse_value(s, pos) == Ok::<_, Failure>(
            (ValueView::EntityId(id), pos + entity_id_bytes(id).len()),
        ),
{
    lemma_holds_first(s, pos, entity_id_bytes(id));
    match id {
        EntityId::Invalid => {
            assert(s[pos] == 0xb1);
            lemma_leaf_table(s, pos);
        },
        EntityId::Idx(i) => {
            if i < 0x40 {
                assert(s[pos] == 0xc0 + i);
                lemma_leaf_table(s, pos);
            } else if i < 0x100 {
                assert(s[pos] == 0xae);
                assert(s.subrange(pos, pos + 2)[1] == s[pos + 1]);
                assert(parse_uint(s, pos + 1, 1, Expected::Uint8) == Ok::<_, Failure>(
                    (i as int, pos + 2),
                ));
                lemma_leaf_table(s, pos);
            } else if i < 0x1_0000 {
                assert(s[pos] == 0xaf);
                lemma_holds_split(s, pos, seq![0xafu8], be16_bytes(i as int));
                lemma_be16_read(s, pos + 1, i as int);
                assert(parse_uint(s, pos + 1, 2, Expected::Uint16) == Ok::<_, Failure>(
                    (i as int, pos + 3),
                ));
                lemma_leaf_table(s, pos);
            } else {
                assert(s[pos] == 0xb0);
                lemma_holds_split(s, pos, seq![0xb0u8], be32_bytes(i as int));
                lemma_be32_read(s, pos + 1, i as int);
                assert(parse_uint(s, pos + 1, 4, Expected::Uint32) == Ok::<_, Failure>(
                    (i as int, pos + 5),
                ));
                lemma_leaf_table(s, pos);
            }
        },
    }
}

proof fn lemma_parse_encoded_array(vs: Seq<ValueView>, s: Seq<u8>, pos: int)
    requires
        vs.len() <= u32::MAX,
        holds_at(s, pos, value_bytes(ValueView::Array(vs))),
        parse_values(s, pos + length_bytes(vs.len() as int, 0x90, 0xa2, 0xa3).len(), vs.len())
            == Ok::<_, Failure>((vs, pos + value_bytes(ValueView::Array(vs)).len())),
    ensures
        parse_value(s, pos) == Ok::<_, Failure>(
            (ValueView::Array(vs), pos + value_bytes(ValueView::Array(vs)).len()),
        ),
{
    lemma_leaf_table(s, pos);
    let prefix = length_bytes(vs.len() as int, 0x90, 0xa2, 0xa3);
    lemma_holds_split(s, pos, prefix, values_bytes(vs, vs.len()));
    lemma_length_round_trip(s, pos, vs.len() as int, 0x90, 0xa2, 0xa3);
}

proof fn lemma_parse_encoded_flat(v: ValueView, s: Seq<u8>, pos: int)
    requires
        v is Bool || v == ValueView::Maybe(None),
        holds_at(s, pos, value_bytes(v)),
    ensures
        parse_value(s, pos) == Ok::<_, Failure>((v, pos + value_bytes(v).len())),
{
    lemma_leaf_table(s, pos);
    lemma_holds_first(s, pos, value_bytes(v));
}

proof fn lemma_parse_encoded_some(inner: ValueView, s: Seq<u8>, pos: int)
    requires
        holds_at(s, pos, seq![0xadu8] + value_bytes(inner)),
        parse_value(s, pos + 1) == Ok::<_, Failure>((inner, pos + 1 + value_bytes(inner).len())),
    ensures
        parse_value(s, pos) == Ok::<_, Failure>(
            (ValueView::Maybe(Some(Box::new(inner))), pos + 1 + value_bytes(inner).len()),
        ),
{
    lemma_leaf_table(s, pos);
    lemma_holds_first(s, pos, seq![0xadu8] + value_bytes(inner));
}

/// Decoding undoes encoding: where the encoding of `v` stands in the
/// input, the decoder finds `v` and stops behind the encoding.
pub proof fn lemma_parse_encoded(v: ValueView, s: Seq<u8>, pos: int)
    requires
        encodable(v),
        holds_at(s, pos, value_bytes(v)),
    ensures
        parse_value(s, pos) == Ok::<_, Failure>((v, pos + value_bytes(v).len())),
    decreases v, 0nat,
{
    match v {
        ValueView::Bool(_) => {
            lemma_parse_encoded_flat(v, s, pos);
        },
        ValueView::Int(i) => {
            lemma_parse_encoded_int(i, s, pos);
        },
        ValueView::Float(bits) => {
            lemma_parse_encoded_float(bits, s, pos);
        },
        ValueView::Bytes(bs) => {
            lemma_parse_encoded_bytes(bs, s, pos);
        },
        ValueView::Array(vs) => {
            let prefix = length_bytes(vs.len() as int, 0x90, 0xa2, 0xa3);
            lemma_holds_split(s, pos, prefix, values_bytes(vs, vs.len()));
            lemma_parse_encoded_values(vs, vs.len(), s, pos + prefix.len());
            assert(vs.take(vs.len() as int) =~= vs);
            lemma_parse_encoded_array(vs, s, pos);
        },
        ValueView::Maybe(None) => {
            lemma_parse_encoded_flat(v, s, pos);
        },
        ValueView::Maybe(Some(inner)) => {
            lemma_holds_split(s, pos, seq![0xadu8], value_bytes(*inner));
            lemma_parse_encoded(*inner, s, pos + 1);
            lemma_parse_encoded_some(*inner, s, pos);
        },
        ValueView::EntityId(id) => {
            lemma_parse_encoded_entity_id(id, s, pos);
        },
    }
}

/// Decoding undoes encoding, for a run of values.
pub proof fn lemma_parse_encoded_values(vs: Seq<ValueView>, n: nat, s: Seq<u8>, pos: int)
    requires
        n <= vs.len(),
        forall|i: int| 0 <= i < n ==> encodable(#[trigger] vs[i]),
        holds_at(s, pos, values_bytes(vs, n)),
    ensures
        parse_values(s, pos, n) == Ok::<_, Failure>(
            (vs.take(n as int), pos + values_bytes(vs, n).len()),
        ),
    decreases vs, n,
{
    if n == 0 {
        assert(vs.take(0) =~= Seq::<ValueView>::empty());
    } else {
        let front = values_bytes(vs, (n - 1) as nat);
        let last = value_bytes(vs[n - 1]);
        lemma_holds_split(s, pos, front, last);
        lemma_parse_encoded_values(vs, (n - 1) as nat, s, pos);
        lemma_parse_encoded(vs[n - 1], s, pos + front.len());
        lemma_parse_values_snoc(s, pos, (n - 1) as nat);
        assert(vs.take(n - 1).push(vs[n - 1]) =~= vs.take(n as int));
    }
}

/// Round trip: the decoder reads the encoding of a value back as that
/// value, and consumes all of it.
pub proof fn lemma_round_trip(v: ValueView)
    requires
        encodable(v),
    ensures
        parse_value(value_bytes(v), 0) == Ok::<_, Failure>((v, value_bytes(v).len() as int)),
{
    let b = value_bytes(v);
    assert(b.subrange(0, b.len() as int) =~= b);
    lemma_parse_encoded(v, b, 0);
}

/// The encoding of `v` that stands in `s` from `pos` to `next` is no
/// shorter than the one that the encoder writes, and if it is as short, it
/// is that one, byte for byte.
pub open spec fn shortest_at(s: Seq<u8>, pos: int, v: ValueView, next: int) -> bool {
    &&& pos < next <= s.len()
    &&& encodable(v)
    &&& value_bytes(v).len() <= next - pos
    &&& value_bytes(v).len() == next - pos ==> s.subrange(pos, next) == value_bytes(v)
}

proof fn lemma_int8_shortest(s: Seq<u8>, pos: int)
    requires
        0 <= pos < s.len(),
        s[pos] < 0x80 || s[pos] == 0xa8,
    ensures
        parse_leaf(s, pos) matches Ok((v, next)) ==> shortest_at(s, pos, v, next),
{
    lemma_leaf_table(s, pos);
    if let Ok((v, next)) = parse_leaf(s, pos) {
        let i = v->Int_0;
        if s[pos] < 0x80 || !(0 <= i < 0x80) {
            assert(s.subrange(pos, next) =~= int_bytes(i));
        }
    }
}

proof fn lemma_int16_shortest(s: Seq<u8>, pos: int)
    requires
        0 <= pos < s.len(),
        s[pos] == 0xa9,
    ensures
        parse_leaf(s, pos) matches Ok((v, next)) ==> shortest_at(s, pos, v, next),
{
    lemma_leaf_table(s, pos);
    if let Ok((v, next)) = parse_leaf(s, pos) {
        let i = v->Int_0;
        let u = be16(s, pos + 1);
        lemma_be16_written(s, pos + 1);
        assert(i == twos(u, 0x8000));
        if !(-0x80 <= i < 0x80) {
            assert(untwos(i as int, 0x8000) == u);
            assert(int_bytes(i) == seq![0xa9u8] + be16_bytes(u));
            assert(s.subrange(pos, next) =~= seq![0xa9u8] + s.subrange(pos + 1, pos + 3));
        }
    }
}

#[verifier::rlimit(50)]
proof fn lemma_int32_shortest(s: Seq<u8>, pos: int)
    requires
        0 <= pos < s.len(),
        s[pos] == 0xaa,
    ensures
        parse_leaf(s, pos) matches Ok((v, next)) ==> shortest_at(s, pos, v, next),
{
    lemma_leaf_table(s, pos);
    if let Ok((v, next)) = parse_leaf(s, pos) {
        let i = v->Int_0;
        let u = be32(s, pos + 1);
        lemma_be32_written(s, pos + 1);
        lemma_be32_len(u);
        assert(i == twos(u, 0x8000_0000));
        if !(-0x8000 <= i < 0x8000) {
            assert(untwos(i as int, 0x8000_0000) == u);
            assert(int_bytes(i) == seq![0xaau8] + be32_bytes(u));
            assert(s.subrange(pos, next) =~= seq![0xaau8] + s.subrange(pos + 1, pos + 5));
        }
    }
}

#[verifier::rlimit(50)]
proof fn lemma_int64_shortest(s: Seq<u8>, pos: int)
    requires
        0 <= pos < s.len(),
        s[pos] == 0xab,
    ensures
        parse_leaf(s, pos) matches Ok((v, next)) ==> shortest_at(s, pos, v, next),
{
    lemma_leaf_table(s, pos);
    if let Ok((v, next)) = parse_leaf(s, pos) {
        let i = v->Int_0;
        let u = be64(s, pos + 1);
        lemma_be64_written(s, pos + 1);
        lemma_be64_len(u);
        assert(i == twos(u, 0x8000_0000_0000_0000));
        if !(-0x8000_0000 <= i < 0x8000_0000) {
            assert(untwos(i as int, 0x8000_0000_0000_0000) == u);
            assert(int_bytes(i) == seq![0xabu8] + be64_bytes(u));
            assert(s.subrange(pos, next) =~= seq![0xabu8] + s.subrange(pos + 1, pos + 9));
        }
    }
}

proof fn lemma_int_shortest(s: Seq<u8>, pos: int)
    requires
        0 <= pos < s.len(),
        s[pos] < 0x80 || 0xa8 <= s[pos] <= 0xab,
    ensures
        parse_leaf(s, pos) matches Ok((v, next)) ==> shortest_at(s, pos, v, next),
{
    let b = s[pos];
    if b < 0x80 || b == 0xa8 {
        lemma_int8_shortest(s, pos);
    } else if b == 0xa9 {
        lemma_int16_shortest(s, pos);
    } else if b == 0xaa {
        lemma_int32_shortest(s, pos);
    } else {
        lemma_int64_shortest(s, pos);
    }
}

#[verifier::rlimit(50)]
proof fn lemma_float_shortest(s: Seq<u8>, pos: int)
    requires
        0 <= pos < s.len(),
        s[pos] == 0xa6 || s[pos] == 0xa7,
    ensures
        parse_leaf(s, pos) matches Ok((v, next)) ==> shortest_at(s, pos, v, next),
{
    lemma_leaf_table(s, pos);
    if let Ok((v, next)) = parse_leaf(s, pos) {
        let bits = v->Float_0;
        if s[pos] == 0xa6 {
            lemma_be32_written(s, pos + 1);
            let f = be32(s, pos + 1) as u32;
            ieee::lemma_narrow_inverts_widen(f);
            assert(s.subrange(pos, next) =~= seq![0xa6u8] + s.subrange(pos + 1, pos + 5));
        } else {
            lemma_be64_written(s, pos + 1);
            lemma_be64_len(bits as int);
            match ieee::narrowed(bits) {
                Some(f) => {
                    lemma_be32_len(f as int);
                },
                None => {
                    assert(s.subrange(pos, next) =~= seq![0xa7u8] + s.subrange(
                        pos + 1,
                        pos + 9,
                    ));
                },
            }
        }
    }
}

#[verifier::rlimit(50)]
proof fn lemma_bytes_shortest(s: Seq<u8>, pos: int)
    requires
        0 <= pos < s.len(),
        0x80 <= s[pos] < 0x90 || s[pos] == 0xa0 || s[pos] == 0xa1,
    ensures
        parse_leaf(s, pos) matches Ok((v, next)) ==> shortest_at(s, pos, v, next),
{
    lemma_leaf_table(s, pos);
    let b = s[pos];
    if let Ok((v, next)) = parse_leaf(s, pos) {
        let bs = v->Bytes_0;
        let len = bs.len() as int;
        if b < 0x90 {
            assert(s.subrange(pos, next) =~= seq![b] + bs);
        } else if b == 0xa0 {
            if len >= 0x10 {
                assert(s.subrange(pos, next) =~= seq![0xa0u8, len as u8] + bs);
            }
        } else {
            lemma_be32_written(s, pos + 1);
            lemma_be32_len(len);
            if len >= 0x100 {
                assert(s.subrange(pos, next) =~= seq![0xa1u8] + s.subrange(pos + 1, pos + 5)
                    + bs);
            }
        }
    }
}

#[verifier::rlimit(50)]
proof fn lemma_entity_id_shortest(s: Seq<u8>, pos: int)
    requires
        0 <= pos < s.len(),
        0xae <= s[pos] <= 0xb1 || 0xc0 <= s[pos],
    ensures
        parse_leaf(s, pos) matches Ok((v, next)) ==> shortest_at(s, pos, v, next),
{
    lemma_leaf_table(s, pos);
    let b = s[pos];
    if let Ok((v, next)) = parse_leaf(s, pos) {
        let id = v->EntityId_0;
        if b == 0xb1 || b >= 0xc0 {
            assert(s.subrange(pos, next) =~= entity_id_bytes(id));
        } else {
            let i = id->Idx_0;
            if b == 0xae {
                if i >= 0x40 {
                    assert(s.subrange(pos, next) =~= entity_id_bytes(id));
                }
            } else if b == 0xaf {
                lemma_be16_written(s, pos + 1);
                if i >= 0x100 {
                    assert(s.subrange(pos, next) =~= seq![0xafu8] + s.subrange(
                        pos + 1,
                        pos + 3,
                    ));
                }
            } else {
                lemma_be32_written(s, pos + 1);
                lemma_be32_len(i as int);
                if i >= 0x1_0000 {
                    assert(s.subrange(pos, next) =~= seq![0xb0u8] + s.subrange(
                        pos + 1,
                        pos + 5,
                    ));
                }
            }
        }
    }
}

proof fn lemma_flat_shortest(s: Seq<u8>, pos: int)
    requires
        0 <= pos < s.len(),
        s[pos] == 0xa4 || s[pos] == 0xa5 || s[pos] == 0xac || 0xb2 <= s[pos] < 0xc0,
    ensures
        parse_leaf(s, pos) matches Ok((v, next)) ==> shortest_at(s, pos, v, next),
{
    lemma_leaf_table(s, pos);
    if let Ok((v, next)) = parse_leaf(s, pos) {
        assert(s.subrange(pos, next) =~= value_bytes(v));
    }
}

proof fn lemma_array_shortest(s: Seq<u8>, pos: int, vs: Seq<ValueView>, next: int)
    requires
        0 <= pos < s.len(),
        array_header(s, pos) matches Some(Ok((n, first))) && {
            &&& vs.len() == n
            &&& first <= next <= s.len()
            &&& values_bytes(vs, vs.len()).len() <= next - first
            &&& values_bytes(vs, vs.len()).len() == next - first ==> s.subrange(first, next)
                == values_bytes(vs, vs.len())
        },
        forall|i: int| 0 <= i < vs.len() ==> encodable(#[trigger] vs[i]),
    ensures
        shortest_at(s, pos, ValueView::Array(vs), next),
{
    let b = s[pos];
    let n = vs.len() as int;
    let first = array_header(s, pos)->Some_0->Ok_0.1;
    let items = values_bytes(vs, vs.len());
    if b < 0xa0 {
        if items.len() == next - first {
            assert(s.subrange(pos, next) =~= seq![b] + items);
        }
    } else if b == 0xa2 {
        if n >= 0x10 && items.len() == next - first {
            assert(s.subrange(pos, next) =~= seq![0xa2u8, n as u8] + items);
        }
    } else {
        lemma_be32_written(s, pos + 1);
        lemma_be32_len(n);
        if n >= 0x100 && items.len() == next - first {
            assert(s.subrange(pos, next) =~= seq![0xa3u8] + s.subrange(pos + 1, pos + 5)
                + items);
        }
    }
}

/// Whatever the decoder accepts as a value is at least as long as the
/// encoding that the encoder writes for that value, and what is exactly
/// as long is that encoding.
pub proof fn lemma_parse_shortest(s: Seq<u8>, pos: int)
    ensures
        parse_value(s, pos) matches Ok((v, next)) ==> shortest_at(s, pos, v, next),
    decreases s.len() - pos, 0nat,
{
    if 0 <= pos < s.len() {
        let b = s[pos];
        if b == 0xad {
            lemma_parse_shortest(s, pos + 1);
            if let Ok((inner, next)) = parse_value(s, pos + 1) {
                if value_bytes(inner).len() == next - (pos + 1) {
                    assert(s.subrange(pos, next) =~= seq![0xadu8] + s.subrange(pos + 1, next));
                }
            }
        } else {
            match array_header(s, pos) {
                Some(Ok((n, first))) => {
                    if b == 0xa3 {
                        lemma_be32_written(s, pos + 1);
                    }
                    lemma_parse_values_shortest(s, first, n as nat);
                    if let Ok((vs, next)) = parse_values(s, first, n as nat) {
                        lemma_array_shortest(s, pos, vs, next);
                    }
                },
                Some(Err(_)) => {},
                None => {
                    if b < 0x80 || 0xa8 <= b <= 0xab {
                        lemma_int_shortest(s, pos);
                    } else if b == 0xa6 || b == 0xa7 {
                        lemma_float_shortest(s, pos);
                    } else if b < 0x90 || b == 0xa0 || b == 0xa1 {
                        lemma_bytes_shortest(s, pos);
                    } else if 0xae <= b <= 0xb1 || 0xc0 <= b {
                        lemma_entity_id_shortest(s, pos);
                    } else {
                        lemma_flat_shortest(s, pos);
                    }
                },
            }
        }
    }
}

/// The same for a run of values.
pub proof fn lemma_parse_values_shortest(s: Seq<u8>, pos: int, n: nat)
    requires
        0 <= pos <= s.len(),
    ensures
        parse_values(s, pos, n) matches Ok((vs, next)) ==> {
            &&& vs.len() == n
            &&& pos <= next <= s.len()
            &&& forall|i: int| 0 <= i < n ==> encodable(#[trigger] vs[i])
            &&& values_bytes(vs, n).len() <= next - pos
            &&& values_bytes(vs, n).len() == next - pos ==> s.subrange(pos, next) == values_bytes(
                vs,
                n,
            )
        },
    decreases s.len() - pos, n + 1,
{
    if n == 0 {
        assert(s.subrange(pos, pos) =~= Seq::<u8>::empty());
    } else {
        let m = (n - 1) as nat;
        lemma_parse_values_snoc(s, pos, m);
        lemma_parse_values_shortest(s, pos, m);
        if let Ok((front, mid)) = parse_values(s, pos, m) {
            lemma_parse_shortest(s, mid);
            if let Ok((v, next)) = parse_value(s, mid) {
                let vs = front.push(v);
                lemma_values_bytes_prefix(vs, front, m);
                assert(values_bytes(vs, n) == values_bytes(vs, m) + value_bytes(vs[n - 1]));
                if values_bytes(vs, n).len() == next - pos {
                    assert(s.subrange(pos, next) =~= s.subrange(pos, mid) + s.subrange(
                        mid,
                        next,
                    ));
                }
            }
        }
    }
}

/// Canonical bytes are stable: input that decodes to a value and is no
/// longer than the encoder's output for that value is that output, so
/// encoding what was decoded gives the input back.
pub proof fn lemma_canonical_stable(b: Seq<u8>)
    ensures
        parse_value(b, 0) matches Ok((v, next)) ==> (next == value_bytes(v).len() ==> b.subrange(
            0,
            next,
        ) == value_bytes(v)),
{
    lemma_parse_shortest(b, 0);
}

/// Every encoding of a value, shortest or not, decodes to the value that
/// the encoder's own output decodes to.
pub proof fn lemma_same_value_as_canonical(b: Seq<u8>)
    ensures
        parse_value(b, 0) matches Ok((v, next)) ==> parse_value(value_bytes(v), 0) == Ok::<
            _,
            Failure,
        >((v, value_bytes(v).len() as int)),
{
    lemma_parse_shortest(b, 0);
    if let Ok((v, next)) = parse_value(b, 0) {
        lemma_round_trip(v);
    }
}

/// The encoder never writes more than it must: no input that decodes to
/// `v` is shorter than the encoding of `v`.
pub proof fn lemma_minimal(b: Seq<u8>)
    ensures
        parse_value(b, 0) matches Ok((v, next)) ==> value_bytes(v).len() <= next,
{
    lemma_parse_shortest(b, 0);
}

/// Small integers take one byte, the integer itself.
pub proof fn lemma_small_int_inline(i: i64)
    requires
        0 <= i < 0x80,
    ensures
        value_bytes(ValueView::Int(i)) == seq![i as u8],
{
}

/// Small entity indices take one byte, `c0` plus the index.
pub proof fn lemma_small_idx_inline(i: u32)
    requires
        i < 0x40,
    ensures
        value_bytes(ValueView::EntityId(EntityId::Idx(i))) == seq![(0xc0 + i) as u8],
{
}

/// Reading back three bytes that spell `v` gives `v`.
proof fn lemma_be24_read(s: Seq<u8>, pos: int, v: int)
    requires
        0 <= v < 0x100_0000,
        0 <= pos,
        pos + 3 <= s.len(),
        s.subrange(pos, pos + 3) == be24_bytes(v),
    ensures
        be24(s, pos) == v,
{
    let b = s.subrange(pos, pos + 3);
    assert(b[0] == s[pos] && b[1] == s[pos + 1] && b[2] == s[pos + 2]);
}

proof fn lemma_idx_read(s: Seq<u8>, pos: int, id: u16, idx: u32, width: int)
    requires
        0 <= width <= 4,
        width == 0 ==> idx == 0,
        width == 1 ==> idx < 0x100,
        width == 2 ==> idx < 0x1_0000,
        width == 3 ==> idx < 0x100_0000,
        holds_at(s, pos, idx_bytes(idx as int, width)),
    ensures
        parse_idx(s, pos, id as int, width) == Ok::<_, Failure>(
            (ComponentIdx { id, idx }, pos + width),
        ),
{
    if width == 1 {
        lemma_holds_first(s, pos, idx_bytes(idx as int, width));
    } else if width == 2 {
        lemma_be16_read(s, pos, idx as int);
    } else if width == 3 {
        lemma_be24_read(s, pos, idx as int);
    } else if width == 4 {
        lemma_be32_read(s, pos, idx as int);
    }
}

proof fn lemma_short_id_read(c: ComponentIdx, s: Seq<u8>, pos: int)
    requires
        c.id < 0x40,
        idx_width(c.idx) <= 2,
        holds_at(s, pos, component_idx_bytes(c)),
    ensures
        parse_component_idx(s, pos) == Ok::<_, Failure>((c, pos + component_idx_bytes(c).len())),
{
    let w = idx_width(c.idx);
    lemma_holds_first(s, pos, component_idx_bytes(c));
    if w == 1 {
        assert(component_idx_bytes(c) =~= seq![c.id as u8] + seq![c.idx as u8]);
        lemma_holds_split(s, pos, seq![c.id as u8], seq![c.idx as u8]);
        lemma_idx_read(s, pos + 1, c.id, c.idx, 1);
    } else if w == 2 {
        lemma_holds_split(s, pos, seq![(0x40 + c.id) as u8], be16_bytes(c.idx as int));
        lemma_idx_read(s, pos + 1, c.id, c.idx, 2);
    }
}

proof fn lemma_byte_id_read(c: ComponentIdx, s: Seq<u8>, pos: int)
    requires
        c.id < 0x100,
        !(c.id < 0x40 && idx_width(c.idx) <= 2),
        holds_at(s, pos, component_idx_bytes(c)),
    ensures
        parse_component_idx(s, pos) == Ok::<_, Failure>((c, pos + component_idx_bytes(c).len())),
{
    let w = idx_width(c.idx);
    let tag: u8 = if w == 0 {
        0x88
    } else {
        (0x7f + w) as u8
    };
    let rest = idx_bytes(c.idx as int, w);
    assert(component_idx_bytes(c) =~= seq![tag, c.id as u8] + rest);
    lemma_holds_split(s, pos, seq![tag, c.id as u8], rest);
    assert(s.subrange(pos, pos + 2)[0] == s[pos] && s.subrange(pos, pos + 2)[1] == s[pos + 1]);
    lemma_idx_read(s, pos + 2, c.id, c.idx, w);
}

proof fn lemma_word_id_read(c: ComponentIdx, s: Seq<u8>, pos: int)
    requires
        c.id >= 0x100,
        holds_at(s, pos, component_idx_bytes(c)),
    ensures
        parse_component_idx(s, pos) == Ok::<_, Failure>((c, pos + component_idx_bytes(c).len())),
{
    let w = idx_width(c.idx);
    let tag: u8 = if w == 0 {
        0x89
    } else {
        (0x83 + w) as u8
    };
    let rest = idx_bytes(c.idx as int, w);
    assert(component_idx_bytes(c) =~= seq![tag] + be16_bytes(c.id as int) + rest);
    lemma_holds_split(s, pos, seq![tag] + be16_bytes(c.id as int), rest);
    lemma_holds_split(s, pos, seq![tag], be16_bytes(c.id as int));
    lemma_holds_first(s, pos, seq![tag]);
    lemma_be16_read(s, pos + 1, c.id as int);
    lemma_idx_read(s, pos + 3, c.id, c.idx, w);
}

/// Decoding undoes encoding, for a component index: where its encoding
/// stands in the input, the decoder finds it and stops behind the
/// encoding.
pub proof fn lemma_parse_encoded_component_idx(c: ComponentIdx, s: Seq<u8>, pos: int)
    requires
        holds_at(s, pos, component_idx_bytes(c)),
    ensures
        parse_component_idx(s, pos) == Ok::<_, Failure>((c, pos + component_idx_bytes(c).len())),
{
    if c.id < 0x40 && idx_width(c.idx) <= 2 {
        lemma_short_id_read(c, s, pos);
    } else if c.id < 0x100 {
        lemma_byte_id_read(c, s, pos);
    } else {
        lemma_word_id_read(c, s, pos);
    }
}

/// Decoding undoes encoding, for a run of component indices.
#[verifier::rlimit(50)]
pub proof fn lemma_parse_encoded_component_idxs(cs: Seq<ComponentIdx>, n: int, s: Seq<u8>, pos: int)
    requires
        0 <= n <= cs.len(),
        holds_at(s, pos, component_idxs_bytes(cs, n)),
    ensures
        parse_component_idxs(s, pos, n as nat) == Ok::<_, Failure>(
            (cs.take(n), pos + component_idxs_bytes(cs, n).len()),
        ),
    decreases n,
{
    if n == 0 {
        assert(cs.take(0) =~= Seq::<ComponentIdx>::empty());
    } else {
        let front = component_idxs_bytes(cs, n - 1);
        lemma_holds_split(s, pos, front, component_idx_bytes(cs[n - 1]));
        lemma_parse_encoded_component_idxs(cs, n - 1, s, pos);
        lemma_parse_encoded_component_idx(cs[n - 1], s, pos + front.len());
        lemma_component_idxs_snoc(s, pos, (n - 1) as nat);
        assert(cs.take(n - 1).push(cs[n - 1]) =~= cs.take(n));
    }
}

/// A run of `n + 1` component indices is a run of `n` and one more.
proof fn lemma_component_idxs_snoc(s: Seq<u8>, pos: int, n: nat)
    ensures
        parse_component_idxs(s, pos, n + 1) == (match parse_component_idxs(s, pos, n) {
            Ok((cs, next)) => match parse_component_idx(s, next) {
                Ok((c, end)) => Ok((cs.push(c), end)),
                Err(e) => Err(e),
            },
            Err(e) => Err(e),
        }),
    decreases n,
{
    let empty = Seq::<ComponentIdx>::empty();
    if n == 0 {
        assert(parse_component_idxs(s, pos, 0) == Ok::<_, Failure>((empty, pos)));
        if let Ok((c, next)) = parse_component_idx(s, pos) {
            assert(parse_component_idxs(s, next, 0) == Ok::<_, Failure>((empty, next)));
            assert(seq![c] + empty =~= empty.push(c));
        }
    } else {
        if let Ok((c0, mid)) = parse_component_idx(s, pos) {
            let shorter = parse_component_idxs(s, mid, (n - 1) as nat);
            assert(parse_component_idxs(s, pos, n) == prepend_idxs(seq![c0], shorter));
            assert(parse_component_idxs(s, pos, n + 1) == prepend_idxs(
                seq![c0],
                parse_component_idxs(s, mid, n),
            ));
            lemma_component_idxs_snoc(s, mid, (n - 1) as nat);
            if let Ok((cs, next)) = shorter {
                if let Ok((c, end)) = parse_component_idx(s, next) {
                    assert(seq![c0] + cs.push(c) =~= (seq![c0] + cs).push(c));
                }
            }
        }
    }
}

/// Decoding undoes encoding, for an entity: the decoder finds its
/// component indices, and finds it live.
pub proof fn lemma_parse_encoded_entity(e: EntityView, s: Seq<u8>, pos: int)
    requires
        e.components.len() <= 0xffff,
        holds_at(s, pos, entity_data_bytes(e)),
    ensures
        parse_entity_data(s, pos) == Ok::<_, Failure>(
            (
                EntityView { is_deleted: false, components: e.components },
                pos + entity_data_bytes(e).len(),
            ),
        ),
{
    let n = e.components.len() as int;
    let count: Seq<u8> = if n < 0xff {
        seq![n as u8]
    } else {
        seq![0xffu8] + be16_bytes(n)
    };
    let idxs = component_idxs_bytes(e.components, n);
    lemma_holds_split(s, pos, count, idxs);
    lemma_holds_first(s, pos, count);
    if n >= 0xff {
        lemma_holds_split(s, pos, seq![0xffu8], be16_bytes(n));
        lemma_be16_read(s, pos + 1, n);
    }
    lemma_parse_encoded_component_idxs(e.components, n, s, pos + count.len());
    assert(e.components.take(n) =~= e.components);
}

/// Three bytes of input are the bytes of the number they spell.
proof fn lemma_be24_written(s: Seq<u8>, pos: int)
    requires
        0 <= pos,
        pos + 3 <= s.len(),
    ensures
        0 <= be24(s, pos) < 0x100_0000,
        be24_bytes(be24(s, pos)) == s.subrange(pos, pos + 3),
{
    assert(be24_bytes(be24(s, pos)) =~= s.subrange(pos, pos + 3));
}

/// An idx read from `width` bytes needs no more bytes than that, and if
/// it needs as many, those bytes are its encoding.
proof fn lemma_idx_written(s: Seq<u8>, pos: int, width: int)
    requires
        1 <= width <= 4,
        0 <= pos,
        pos + width <= s.len(),
    ensures
        0 <= be_uint(s, pos, width) <= u32::MAX,
        idx_width(be_uint(s, pos, width) as u32) <= width,
        idx_width(be_uint(s, pos, width) as u32) == width ==> idx_bytes(
            be_uint(s, pos, width),
            width,
        ) == s.subrange(pos, pos + width),
{
    if width == 1 {
        assert(seq![s[pos]] =~= s.subrange(pos, pos + 1));
    } else if width == 2 {
        lemma_be16_written(s, pos);
    } else if width == 3 {
        lemma_be24_written(s, pos);
    } else {
        lemma_be32_written(s, pos);
    }
}

/// The encoding of the component index `c` that stands in `s` from `pos`
/// to `next` is no shorter than the one that the encoder writes, and if it
/// is as short, it is that one, byte for byte.
pub open spec fn shortest_idx_at(s: Seq<u8>, pos: int, c: ComponentIdx, next: int) -> bool {
    &&& pos < next <= s.len()
    &&& component_idx_bytes(c).len() <= next - pos
    &&& component_idx_bytes(c).len() == next - pos ==> s.subrange(pos, next)
        == component_idx_bytes(c)
}

#[verifier::rlimit(50)]
proof fn lemma_inline_id_shortest(s: Seq<u8>, pos: int)
    requires
        0 <= pos < s.len(),
        s[pos] < 0x80 || s[pos] >= 0xc0,
    ensures
        parse_component_idx(s, pos) matches Ok((c, next)) ==> shortest_idx_at(s, pos, c, next),
{
    let b = s[pos];
    if let Ok((c, next)) = parse_component_idx(s, pos) {
        if b >= 0xc0 {
            assert(s.subrange(pos, next) =~= component_idx_bytes(c));
        } else if b < 0x40 {
            lemma_idx_written(s, pos + 1, 1);
            if c.idx != 0 {
                assert(s.subrange(pos, next) =~= component_idx_bytes(c));
            }
        } else {
            lemma_idx_written(s, pos + 1, 2);
            if c.idx >= 0x100 {
                assert(s.subrange(pos, next) =~= seq![b] + s.subrange(pos + 1, pos + 3));
            }
        }
    }
}

#[verifier::rlimit(50)]
proof fn lemma_byte_id_shortest(s: Seq<u8>, pos: int)
    requires
        0 <= pos < s.len(),
        0x80 <= s[pos] < 0x84 || s[pos] == 0x88,
    ensures
        parse_component_idx(s, pos) matches Ok((c, next)) ==> shortest_idx_at(s, pos, c, next),
{
    let b = s[pos];
    if let Ok((c, next)) = parse_component_idx(s, pos) {
        let w = idx_width(c.idx);
        if b == 0x88 {
            if c.id >= 0x40 {
                assert(s.subrange(pos, next) =~= component_idx_bytes(c));
            }
        } else {
            let width = b - 0x80 + 1;
            lemma_idx_written(s, pos + 2, width);
            if !(c.id < 0x40 && w <= 2) && w == width {
                assert(s.subrange(pos, next) =~= seq![b, c.id as u8] + s.subrange(
                    pos + 2,
                    pos + 2 + width,
                ));
            }
        }
    }
}

#[verifier::rlimit(50)]
proof fn lemma_word_id_shortest(s: Seq<u8>, pos: int)
    requires
        0 <= pos < s.len(),
        0x84 <= s[pos] < 0x88 || s[pos] == 0x89,
    ensures
        parse_component_idx(s, pos) matches Ok((c, next)) ==> shortest_idx_at(s, pos, c, next),
{
    let b = s[pos];
    if let Ok((c, next)) = parse_component_idx(s, pos) {
        let w = idx_width(c.idx);
        lemma_be16_written(s, pos + 1);
        if b == 0x89 {
            if c.id >= 0x100 {
                assert(s.subrange(pos, next) =~= seq![b] + s.subrange(pos + 1, pos + 3));
            }
        } else {
            let width = b - 0x84 + 1;
            lemma_idx_written(s, pos + 3, width);
            if c.id >= 0x100 && w == width {
                assert(s.subrange(pos, next) =~= seq![b] + s.subrange(pos + 1, pos + 3)
                    + s.subrange(pos + 3, pos + 3 + width));
            }
        }
    }
}

/// Whatever the decoder accepts as a component index is at least as long
/// as the encoding that the encoder writes for it, and what is exactly as
/// long is that encoding: each component index has one shortest form, and
/// the encoder writes it.
pub proof fn lemma_component_idx_shortest(s: Seq<u8>, pos: int)
    ensures
        parse_component_idx(s, pos) matches Ok((c, next)) ==> shortest_idx_at(s, pos, c, next),
{
    if 0 <= pos < s.len() {
        let b = s[pos];
        if b < 0x80 || b >= 0xc0 {
            lemma_inline_id_shortest(s, pos);
        } else if b < 0x84 || b == 0x88 {
            lemma_byte_id_shortest(s, pos);
        } else if b < 0x88 || b == 0x89 {
            lemma_word_id_shortest(s, pos);
        }
    }
}

} // verus!
