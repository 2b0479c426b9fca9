//! The mathematical model of values and of their shapes, with the encoding
//! and the type-directed decoding of whole values.
use vstd::prelude::*;
use vstd::utf8::encode_utf8;
use crate::wire::{
    bool_encoding, bytes_encoding, compact_encoding, decode_bool, decode_bytes, decode_char,
    decode_compact, decode_fixed, decode_len, decode_option_tag, decode_str, decode_u8, is_scalar,
    le_bytes, lemma_compact_read_encoding, lemma_decode_bytes_encoding, lemma_decode_fixed_le,
    lemma_decode_str_encoding, lemma_le_bytes_len, lemma_pow256_small, option_bool_encoding,
    extends_to, lemma_bytes_stable, lemma_compact_stable, lemma_fixed_stable, lemma_u8_stable,
    Decoded, Fault,
};

verus! {

/// A value as SCALE sees it.
pub enum Val {
    Bool(bool),
    I8(i8),
    I16(i16),
    I32(i32),
    I64(i64),
    U8(u8),
    U16(u16),
    U32(u32),
    U64(u64),
    /// A character, by its code point.
    Char(u32),
    Str(Seq<char>),
    Bytes(Seq<u8>),
    /// An integer written in compact form.
    Compact(u64),
    Unit,
    Option(Option<Box<Val>>),
    /// A sequence whose length is written before it.
    List(Seq<Val>),
    /// A fixed number of values: a tuple or the fields of a struct.
    Tuple(Seq<Val>),
    /// Map entries, in order.
    Dict(Seq<(Val, Val)>),
    /// The variant of the given index of an enum, with its fields.
    Variant(u32, Seq<Val>),
}

/// The shape that a decoder is told to expect.
pub enum Ty {
    Bool,
    I8,
    I16,
    I32,
    I64,
    U8,
    U16,
    U32,
    U64,
    Char,
    Str,
    Bytes,
    Compact,
    Unit,
    Option(Box<Ty>),
    List(Box<Ty>),
    Tuple(Seq<Ty>),
    Dict(Box<Ty>, Box<Ty>),
    /// The field shapes of each variant, by index.
    Enum(Seq<Seq<Ty>>),
}

/// Whether every variant index in `v` fits in a byte.
pub open spec fn encodable(v: Val) -> bool
    decreases v,
{
    match v {
        Val::Option(Some(x)) => encodable(*x),
        Val::List(xs) => encodable_list(xs),
        Val::Tuple(xs) => encodable_list(xs),
        Val::Dict(es) => encodable_entries(es),
        Val::Variant(i, xs) => i < 256 && encodable_list(xs),
        _ => true,
    }
}

pub open spec fn encodable_list(xs: Seq<Val>) -> bool
    decreases xs,
{
    if xs.len() == 0 {
        true
    } else {
        encodable(xs[0]) && encodable_list(xs.drop_first())
    }
}

pub open spec fn encodable_entries(es: Seq<(Val, Val)>) -> bool
    decreases es,
{
    if es.len() == 0 {
        true
    } else {
        encodable(es[0].0) && encodable(es[0].1) && encodable_entries(es.drop_first())
    }
}

/// The SCALE encoding of `v` (meaningful where `encodable(v)`).
pub open spec fn encode(v: Val) -> Seq<u8>
    decreases v,
{
    match v {
        Val::Bool(b) => bool_encoding(b),
        Val::I8(x) => le_bytes((x as u8) as nat, 1),
        Val::I16(x) => le_bytes((x as u16) as nat, 2),
        Val::I32(x) => le_bytes((x as u32) as nat, 4),
        Val::I64(x) => le_bytes((x as u64) as nat, 8),
        Val::U8(x) => seq![x],
        Val::U16(x) => le_bytes(x as nat, 2),
        Val::U32(x) => le_bytes(x as nat, 4),
        Val::U64(x) => le_bytes(x as nat, 8),
        Val::Char(c) => le_bytes(c as nat, 4),
        Val::Str(s) => bytes_encoding(encode_utf8(s)),
        Val::Bytes(b) => bytes_encoding(b),
        Val::Compact(x) => compact_encoding(x),
        Val::Unit => Seq::empty(),
        Val::Option(None) => seq![0u8],
        Val::Option(Some(x)) => match *x {
            Val::Bool(b) => option_bool_encoding(Some(b)),
            _ => seq![1u8] + encode(*x),
        },
        Val::List(xs) => compact_encoding(xs.len() as u64) + encode_list(xs),
        Val::Tuple(xs) => encode_list(xs),
        Val::Dict(es) => compact_encoding(es.len() as u64) + encode_entries(es),
        Val::Variant(i, xs) => seq![i as u8] + encode_list(xs),
    }
}

/// The encodings of the values, one after the other.
pub open spec fn encode_list(xs: Seq<Val>) -> Seq<u8>
    decreases xs,
{
    if xs.len() == 0 {
        Seq::empty()
    } else {
        encode(xs[0]) + encode_list(xs.drop_first())
    }
}

/// Each key followed by its value, entry after entry.
pub open spec fn encode_entries(es: Seq<(Val, Val)>) -> Seq<u8>
    decreases es,
{
    if es.len() == 0 {
        Seq::empty()
    } else {
        encode(es[0].0) + encode(es[0].1) + encode_entries(es.drop_first())
    }
}

/// Prepends a decoded value to the values decoded after it.
pub open spec fn cons_decoded<T>(first: T, n: nat, rest: Decoded<Seq<T>>) -> Decoded<Seq<T>> {
    match rest {
        Decoded::Done { value, len } => Decoded::Done { value: seq![first] + value, len: n + len },
        Decoded::Short => Decoded::Short,
        Decoded::Fail(f, m) => Decoded::Fail(f, n + m),
    }
}

/// Decodes a value of shape `t` from the start of `s`.
pub open spec fn decode(s: Seq<u8>, t: Ty) -> Decoded<Val>
    decreases t, 1nat, 0nat,
{
    match t {
        Ty::Bool => decode_bool(s).map(|b: bool| Val::Bool(b)),
        Ty::I8 => decode_fixed(s, 1).map(|v: u64| Val::I8((v as u8) as i8)),
        Ty::I16 => decode_fixed(s, 2).map(|v: u64| Val::I16((v as u16) as i16)),
        Ty::I32 => decode_fixed(s, 4).map(|v: u64| Val::I32((v as u32) as i32)),
        Ty::I64 => decode_fixed(s, 8).map(|v: u64| Val::I64(v as i64)),
        Ty::U8 => decode_u8(s).map(|v: u8| Val::U8(v)),
        Ty::U16 => decode_fixed(s, 2).map(|v: u64| Val::U16(v as u16)),
        Ty::U32 => decode_fixed(s, 4).map(|v: u64| Val::U32(v as u32)),
        Ty::U64 => decode_fixed(s, 8).map(|v: u64| Val::U64(v)),
        Ty::Char => decode_char(s).map(|c: u32| Val::Char(c)),
        Ty::Str => decode_str(s).map(|x: Seq<char>| Val::Str(x)),
        Ty::Bytes => decode_bytes(s).map(|x: Seq<u8>| Val::Bytes(x)),
        Ty::Compact => decode_compact(s).map(|v: u64| Val::Compact(v)),
        Ty::Unit => Decoded::Done { value: Val::Unit, len: 0 },
        Ty::Option(inner) => match decode_option_tag(s) {
            Decoded::Done { value: tag, len: _ } => if tag == 0 {
                Decoded::Done { value: Val::Option(None), len: 1 }
            } else if *inner is Bool {
                Decoded::Done { value: Val::Option(Some(Box::new(Val::Bool(tag == 1)))), len: 1 }
            } else if tag == 1 {
                match decode(s.skip(1), *inner) {
                    Decoded::Done { value, len } => Decoded::Done {
                        value: Val::Option(Some(Box::new(value))),
                        len: 1 + len,
                    },
                    Decoded::Short => Decoded::Short,
                    Decoded::Fail(f, m) => Decoded::Fail(f, 1 + m),
                }
            } else {
                Decoded::Fail(Fault::InvalidOption(2), 1)
            },
            Decoded::Short => Decoded::Short,
            Decoded::Fail(f, m) => Decoded::Fail(f, m),
        },
        Ty::List(_) => match decode_len(s) {
            Decoded::Done { value: n, len } => match decode_many(s.skip(len as int), t, n as nat) {
                Decoded::Done { value, len: m } => Decoded::Done { value: Val::List(value), len: len + m },
                Decoded::Short => Decoded::Short,
                Decoded::Fail(f, m) => Decoded::Fail(f, len + m),
            },
            Decoded::Short => Decoded::Short,
            Decoded::Fail(f, m) => Decoded::Fail(f, m),
        },
        Ty::Tuple(ts) => decode_fields(s, ts).map(|xs: Seq<Val>| Val::Tuple(xs)),
        Ty::Dict(_, _) => match decode_len(s) {
            Decoded::Done { value: n, len } => match decode_entries(s.skip(len as int), t, n as nat) {
                Decoded::Done { value, len: m } => Decoded::Done { value: Val::Dict(value), len: len + m },
                Decoded::Short => Decoded::Short,
                Decoded::Fail(f, m) => Decoded::Fail(f, len + m),
            },
            Decoded::Short => Decoded::Short,
            Decoded::Fail(f, m) => Decoded::Fail(f, m),
        },
        Ty::Enum(variants) => match decode_u8(s) {
            Decoded::Done { value: i, len: _ } => if (i as int) < variants.len() {
                match decode_fields(s.skip(1), variants[i as int]) {
                    Decoded::Done { value, len } => Decoded::Done {
                        value: Val::Variant(i as u32, value),
                        len: 1 + len,
                    },
                    Decoded::Short => Decoded::Short,
                    Decoded::Fail(f, m) => Decoded::Fail(f, 1 + m),
                }
            } else {
                Decoded::Fail(Fault::UnknownVariant(i), 1)
            },
            Decoded::Short => Decoded::Short,
            Decoded::Fail(f, m) => Decoded::Fail(f, m),
        },
    }
}

/// Decodes `n` elements of the list shape `t`, one after the other.
pub open spec fn decode_many(s: Seq<u8>, t: Ty, n: nat) -> Decoded<Seq<Val>>
    decreases t, 0nat, n,
{
    if n == 0 {
        Decoded::Done { value: Seq::empty(), len: 0 }
    } else {
        match t {
            Ty::List(elem) => match decode(s, *elem) {
                Decoded::Done { value, len } => cons_decoded(
                    value,
                    len,
                    decode_many(s.skip(len as int), t, (n - 1) as nat),
                ),
                Decoded::Short => Decoded::Short,
                Decoded::Fail(f, m) => Decoded::Fail(f, m),
            },
            _ => Decoded::Done { value: Seq::empty(), len: 0 },
        }
    }
}

/// Decodes values of the shapes `ts`, one after the other.
pub open spec fn decode_fields(s: Seq<u8>, ts: Seq<Ty>) -> Decoded<Seq<Val>>
    decreases ts, 0nat, 0nat,
{
    if ts.len() == 0 {
        Decoded::Done { value: Seq::empty(), len: 0 }
    } else {
        match decode(s, ts[0]) {
            Decoded::Done { value, len } => cons_decoded(
                value,
                len,
                decode_fields(s.skip(len as int), ts.drop_first()),
            ),
            Decoded::Short => Decoded::Short,
            Decoded::Fail(f, m) => Decoded::Fail(f, m),
        }
    }
}

/// Decodes `n` entries of the map shape `t`, each a key then its value.
pub open spec fn decode_entries(s: Seq<u8>, t: Ty, n: nat) -> Decoded<Seq<(Val, Val)>>
    decreases t, 0nat, n,
{
    if n == 0 {
        Decoded::Done { value: Seq::empty(), len: 0 }
    } else {
        match t {
            Ty::Dict(kt, vt) => match decode(s, *kt) {
                Decoded::Done { value: k, len: a } => match decode(s.skip(a as int), *vt) {
                    Decoded::Done { value: v, len: b } => cons_decoded(
                        (k, v),
                        a + b,
                        decode_entries(s.skip((a + b) as int), t, (n - 1) as nat),
                    ),
                    Decoded::Short => Decoded::Short,
                    Decoded::Fail(f, m) => Decoded::Fail(f, a + m),
                },
                Decoded::Short => Decoded::Short,
                Decoded::Fail(f, m) => Decoded::Fail(f, m),
            },
            _ => Decoded::Done { value: Seq::empty(), len: 0 },
        }
    }
}


/// Whether `v` is a value of shape `t`, with every length within `usize`.
pub open spec fn conforms(v: Val, t: Ty) -> bool
    decreases v,
{
    match (v, t) {
        (Val::Bool(_), Ty::Bool) => true,
        (Val::I8(_), Ty::I8) => true,
        (Val::I16(_), Ty::I16) => true,
        (Val::I32(_), Ty::I32) => true,
        (Val::I64(_), Ty::I64) => true,
        (Val::U8(_), Ty::U8) => true,
        (Val::U16(_), Ty::U16) => true,
        (Val::U32(_), Ty::U32) => true,
        (Val::U64(_), Ty::U64) => true,
        (Val::Char(c), Ty::Char) => is_scalar(c),
        (Val::Str(x), Ty::Str) => encode_utf8(x).len() <= usize::MAX,
        (Val::Bytes(b), Ty::Bytes) => b.len() <= usize::MAX,
        (Val::Compact(_), Ty::Compact) => true,
        (Val::Unit, Ty::Unit) => true,
        (Val::Option(None), Ty::Option(_)) => true,
        (Val::Option(Some(x)), Ty::Option(it)) => conforms(*x, *it),
        (Val::List(xs), Ty::List(e)) => xs.len() <= usize::MAX && conforms_each(xs, *e),
        (Val::Tuple(xs), Ty::Tuple(ts)) => conforms_fields(xs, ts),
        (Val::Dict(es), Ty::Dict(kt, vt)) => es.len() <= usize::MAX && conforms_entries(
            es,
            *kt,
            *vt,
        ),
        (Val::Variant(i, xs), Ty::Enum(vs)) => i < vs.len() && conforms_fields(xs, vs[i as int]),
        _ => false,
    }
}

pub open spec fn conforms_each(xs: Seq<Val>, t: Ty) -> bool
    decreases xs,
{
    if xs.len() == 0 {
        true
    } else {
        conforms(xs[0], t) && conforms_each(xs.drop_first(), t)
    }
}

pub open spec fn conforms_fields(xs: Seq<Val>, ts: Seq<Ty>) -> bool
    decreases xs,
{
    if xs.len() == 0 {
        ts.len() == 0
    } else {
        ts.len() == xs.len() && conforms(xs[0], ts[0]) && conforms_fields(
            xs.drop_first(),
            ts.drop_first(),
        )
    }
}

pub open spec fn conforms_entries(es: Seq<(Val, Val)>, kt: Ty, vt: Ty) -> bool
    decreases es,
{
    if es.len() == 0 {
        true
    } else {
        conforms(es[0].0, kt) && conforms(es[0].1, vt) && conforms_entries(es.drop_first(), kt, vt)
    }
}

/// Round trip for the values that hold no other value.
proof fn lemma_round_trip_scalar(v: Val, t: Ty, rest: Seq<u8>)
    requires
        conforms(v, t),
        !(v is Option || v is List || v is Tuple || v is Dict || v is Variant),
    ensures
        decode(encode(v) + rest, t) == (Decoded::Done { value: v, len: encode(v).len() }),
{
    let e = encode(v);
    let s = e + rest;
    lemma_pow256_small();
    match v {
        Val::Bool(b) => {},
        Val::I8(x) => {
            lemma_decode_fixed_le((x as u8) as nat, 1, rest);
            lemma_le_bytes_len((x as u8) as nat, 1);
            assert(((x as u8) as i8) == x) by (bit_vector);
        },
        Val::I16(x) => {
            lemma_decode_fixed_le((x as u16) as nat, 2, rest);
            lemma_le_bytes_len((x as u16) as nat, 2);
            assert(((x as u16) as i16) == x) by (bit_vector);
        },
        Val::I32(x) => {
            lemma_decode_fixed_le((x as u32) as nat, 4, rest);
            lemma_le_bytes_len((x as u32) as nat, 4);
            assert(((x as u32) as i32) == x) by (bit_vector);
        },
        Val::I64(x) => {
            lemma_decode_fixed_le((x as u64) as nat, 8, rest);
            lemma_le_bytes_len((x as u64) as nat, 8);
            assert(((x as u64) as i64) == x) by (bit_vector);
        },
        Val::U8(x) => {},
        Val::U16(x) => {
            lemma_decode_fixed_le(x as nat, 2, rest);
            lemma_le_bytes_len(x as nat, 2);
        },
        Val::U32(x) => {
            lemma_decode_fixed_le(x as nat, 4, rest);
            lemma_le_bytes_len(x as nat, 4);
        },
        Val::U64(x) => {
            lemma_decode_fixed_le(x as nat, 8, rest);
            lemma_le_bytes_len(x as nat, 8);
        },
        Val::Char(c) => {
            lemma_decode_fixed_le(c as nat, 4, rest);
            lemma_le_bytes_len(c as nat, 4);
        },
        Val::Str(x) => {
            lemma_decode_str_encoding(x, rest);
        },
        Val::Bytes(b) => {
            lemma_decode_bytes_encoding(b, rest);
        },
        Val::Compact(x) => {
            lemma_compact_read_encoding(x, rest);
        },
        Val::Unit => {
            assert(s.skip(0) =~= s);
        },
        _ => {},
    }
}

/// Round trip: decoding the encoding of a value, with the shape the value
/// has, gives the value back and consumes exactly its encoding, whatever
/// bytes follow it.
pub proof fn lemma_round_trip(v: Val, t: Ty, rest: Seq<u8>)
    requires
        conforms(v, t),
        encodable(v),
    ensures
        decode(encode(v) + rest, t) == (Decoded::Done { value: v, len: encode(v).len() }),
    decreases v, 1nat,
{
    match v {
        Val::Option(_) => lemma_round_trip_option(v, t, rest),
        Val::List(_) => lemma_round_trip_list(v, t, rest),
        Val::Tuple(xs) => lemma_round_trip_fields(xs, t->Tuple_0, rest),
        Val::Dict(_) => lemma_round_trip_dict(v, t, rest),
        Val::Variant(_, _) => lemma_round_trip_variant(v, t, rest),
        _ => lemma_round_trip_scalar(v, t, rest),
    }
}

proof fn lemma_round_trip_option(v: Val, t: Ty, rest: Seq<u8>)
    requires
        v is Option,
        conforms(v, t),
        encodable(v),
    ensures
        decode(encode(v) + rest, t) == (Decoded::Done { value: v, len: encode(v).len() }),
    decreases v, 0nat,
{
    let s = encode(v) + rest;
    match v {
        Val::Option(Some(x)) => {
            let it = *t->Option_0;
            assert(conforms(*x, it));
            match *x {
                Val::Bool(b) => {
                    assert(it is Bool);
                    assert(s[0] == if b { 1u8 } else { 2u8 });
                    assert(decode_option_tag(s) == (Decoded::Done { value: s[0], len: 1 }));
                },
                _ => {
                    assert(!(it is Bool));
                    assert(s[0] == 1u8);
                    assert(s.skip(1) =~= encode(*x) + rest);
                    lemma_round_trip(*x, it, rest);
                    assert(decode(s.skip(1), it) == (Decoded::Done { value: *x, len: encode(*x).len() }));
                },
            }
        },
        _ => {},
    }
}

proof fn lemma_round_trip_list(v: Val, t: Ty, rest: Seq<u8>)
    requires
        v is List,
        conforms(v, t),
        encodable(v),
    ensures
        decode(encode(v) + rest, t) == (Decoded::Done { value: v, len: encode(v).len() }),
    decreases v, 0nat,
{
    let xs = v->List_0;
    let s = encode(v) + rest;
    let c = compact_encoding(xs.len() as u64);
    let l = encode_list(xs);
    assert(s =~= c + (l + rest));
    lemma_compact_read_encoding(xs.len() as u64, l + rest);
    assert(s.skip(c.len() as int) =~= l + rest);
    lemma_round_trip_many(xs, t, rest);
}

proof fn lemma_round_trip_dict(v: Val, t: Ty, rest: Seq<u8>)
    requires
        v is Dict,
        conforms(v, t),
        encodable(v),
    ensures
        decode(encode(v) + rest, t) == (Decoded::Done { value: v, len: encode(v).len() }),
    decreases v, 0nat,
{
    let es = v->Dict_0;
    let s = encode(v) + rest;
    let c = compact_encoding(es.len() as u64);
    let l = encode_entries(es);
    assert(s =~= c + (l + rest));
    lemma_compact_read_encoding(es.len() as u64, l + rest);
    assert(s.skip(c.len() as int) =~= l + rest);
    lemma_round_trip_entries(es, t, rest);
}

proof fn lemma_round_trip_variant(v: Val, t: Ty, rest: Seq<u8>)
    requires
        v is Variant,
        conforms(v, t),
        encodable(v),
    ensures
        decode(encode(v) + rest, t) == (Decoded::Done { value: v, len: encode(v).len() }),
    decreases v, 0nat,
{
    let i = v->Variant_0;
    let xs = v->Variant_1;
    let s = encode(v) + rest;
    assert(s.skip(1) =~= encode_list(xs) + rest);
    lemma_round_trip_fields(xs, t->Enum_0[i as int], rest);
}

/// Round trip for the elements of a list.
pub proof fn lemma_round_trip_many(xs: Seq<Val>, t: Ty, rest: Seq<u8>)
    requires
        t is List,
        conforms_each(xs, *t->List_0),
        encodable_list(xs),
    ensures
        decode_many(encode_list(xs) + rest, t, xs.len()) == (Decoded::Done {
            value: xs,
            len: encode_list(xs).len(),
        }),
    decreases xs, 0nat,
{
    if xs.len() == 0 {
        assert(xs =~= Seq::<Val>::empty());
    } else {
        let tail = xs.drop_first();
        let s = encode_list(xs) + rest;
        assert(s =~= encode(xs[0]) + (encode_list(tail) + rest));
        lemma_round_trip(xs[0], *t->List_0, encode_list(tail) + rest);
        assert(s.skip(encode(xs[0]).len() as int) =~= encode_list(tail) + rest);
        lemma_round_trip_many(tail, t, rest);
        assert(seq![xs[0]] + tail =~= xs);
    }
}

/// Round trip for the fields of a tuple, a struct or an enum variant.
pub proof fn lemma_round_trip_fields(xs: Seq<Val>, ts: Seq<Ty>, rest: Seq<u8>)
    requires
        conforms_fields(xs, ts),
        encodable_list(xs),
    ensures
        decode_fields(encode_list(xs) + rest, ts) == (Decoded::Done {
            value: xs,
            len: encode_list(xs).len(),
        }),
    decreases xs, 0nat,
{
    if xs.len() == 0 {
        assert(xs =~= Seq::<Val>::empty());
    } else {
        let tail = xs.drop_first();
        let s = encode_list(xs) + rest;
        assert(s =~= encode(xs[0]) + (encode_list(tail) + rest));
        lemma_round_trip(xs[0], ts[0], encode_list(tail) + rest);
        assert(s.skip(encode(xs[0]).len() as int) =~= encode_list(tail) + rest);
        lemma_round_trip_fields(tail, ts.drop_first(), rest);
        assert(seq![xs[0]] + tail =~= xs);
    }
}

/// Round trip for the entries of a map.
pub proof fn lemma_round_trip_entries(es: Seq<(Val, Val)>, t: Ty, rest: Seq<u8>)
    requires
        t is Dict,
        conforms_entries(es, *t->Dict_0, *t->Dict_1),
        encodable_entries(es),
    ensures
        decode_entries(encode_entries(es) + rest, t, es.len()) == (Decoded::Done {
            value: es,
            len: encode_entries(es).len(),
        }),
    decreases es, 0nat,
{
    if es.len() == 0 {
        assert(es =~= Seq::<(Val, Val)>::empty());
    } else {
        let tail = es.drop_first();
        let ek = encode(es[0].0);
        let ev = encode(es[0].1);
        let s = encode_entries(es) + rest;
        assert(s =~= ek + (ev + (encode_entries(tail) + rest)));
        lemma_round_trip(es[0].0, *t->Dict_0, ev + (encode_entries(tail) + rest));
        assert(s.skip(ek.len() as int) =~= ev + (encode_entries(tail) + rest));
        lemma_round_trip(es[0].1, *t->Dict_1, encode_entries(tail) + rest);
        assert(s.skip((ek.len() + ev.len()) as int) =~= encode_entries(tail) + rest);
        lemma_round_trip_entries(tail, t, rest);
        assert(seq![es[0]] + tail =~= es);
    }
}


pub proof fn lemma_map_extends<T, U>(d: Decoded<T>, e: Decoded<T>, n: nat, f: spec_fn(T) -> U)
    requires
        extends_to(d, e, n),
    ensures
        extends_to(d.map(f), e.map(f), n),
{
}

/// Decoding reads no byte past the value it returns: with more bytes after
/// them, the same bytes decode the same way, unless they ran out.
pub proof fn lemma_decode_stable(s: Seq<u8>, t: Ty, rest: Seq<u8>)
    ensures
        extends_to(decode(s, t), decode(s + rest, t), s.len()),
    decreases t, 2nat, 0nat,
{
    match t {
        Ty::Option(_) => lemma_option_stable(s, t, rest),
        Ty::List(_) => lemma_list_stable(s, t, rest),
        Ty::Tuple(ts) => {
            lemma_fields_stable(s, ts, rest);
            lemma_map_extends(
                decode_fields(s, ts),
                decode_fields(s + rest, ts),
                s.len(),
                |xs: Seq<Val>| Val::Tuple(xs),
            );
        },
        Ty::Dict(_, _) => lemma_dict_stable(s, t, rest),
        Ty::Enum(_) => lemma_enum_stable(s, t, rest),
        _ => lemma_scalar_stable(s, t, rest),
    }
}

proof fn lemma_scalar_stable(s: Seq<u8>, t: Ty, rest: Seq<u8>)
    requires
        !(t is Option || t is List || t is Tuple || t is Dict || t is Enum),
    ensures
        extends_to(decode(s, t), decode(s + rest, t), s.len()),
{
    let r = s + rest;
    lemma_u8_stable(s, rest);
    lemma_compact_stable(s, rest);
    lemma_bytes_stable(s, rest);
    match t {
        Ty::Bool => lemma_map_extends(decode_bool(s), decode_bool(r), s.len(), |b: bool| Val::Bool(b)),
        Ty::I8 => {
            lemma_fixed_stable(s, 1, rest);
            lemma_map_extends(decode_fixed(s, 1), decode_fixed(r, 1), s.len(), |v: u64| Val::I8((v as u8) as i8));
        },
        Ty::I16 => {
            lemma_fixed_stable(s, 2, rest);
            lemma_map_extends(decode_fixed(s, 2), decode_fixed(r, 2), s.len(), |v: u64| Val::I16((v as u16) as i16));
        },
        Ty::I32 => {
            lemma_fixed_stable(s, 4, rest);
            lemma_map_extends(decode_fixed(s, 4), decode_fixed(r, 4), s.len(), |v: u64| Val::I32((v as u32) as i32));
        },
        Ty::I64 => {
            lemma_fixed_stable(s, 8, rest);
            lemma_map_extends(decode_fixed(s, 8), decode_fixed(r, 8), s.len(), |v: u64| Val::I64(v as i64));
        },
        Ty::U8 => lemma_map_extends(decode_u8(s), decode_u8(r), s.len(), |v: u8| Val::U8(v)),
        Ty::U16 => {
            lemma_fixed_stable(s, 2, rest);
            lemma_map_extends(decode_fixed(s, 2), decode_fixed(r, 2), s.len(), |v: u64| Val::U16(v as u16));
        },
        Ty::U32 => {
            lemma_fixed_stable(s, 4, rest);
            lemma_map_extends(decode_fixed(s, 4), decode_fixed(r, 4), s.len(), |v: u64| Val::U32(v as u32));
        },
        Ty::U64 => {
            lemma_fixed_stable(s, 8, rest);
            lemma_map_extends(decode_fixed(s, 8), decode_fixed(r, 8), s.len(), |v: u64| Val::U64(v));
        },
        Ty::Char => {
            lemma_fixed_stable(s, 4, rest);
            lemma_map_extends(decode_char(s), decode_char(r), s.len(), |c: u32| Val::Char(c));
        },
        Ty::Str => lemma_map_extends(decode_str(s), decode_str(r), s.len(), |x: Seq<char>| Val::Str(x)),
        Ty::Bytes => lemma_map_extends(decode_bytes(s), decode_bytes(r), s.len(), |x: Seq<u8>| Val::Bytes(x)),
        Ty::Compact => lemma_map_extends(decode_compact(s), decode_compact(r), s.len(), |v: u64| Val::Compact(v)),
        _ => {},
    }
}

proof fn lemma_option_stable(s: Seq<u8>, t: Ty, rest: Seq<u8>)
    requires
        t is Option,
    ensures
        extends_to(decode(s, t), decode(s + rest, t), s.len()),
    decreases t, 1nat, 0nat,
{
    lemma_u8_stable(s, rest);
    if s.len() >= 1 && s[0] == 1 {
        assert((s + rest).skip(1) =~= s.skip(1) + rest);
        lemma_decode_stable(s.skip(1), *t->Option_0, rest);
    }
}

proof fn lemma_list_stable(s: Seq<u8>, t: Ty, rest: Seq<u8>)
    requires
        t is List,
    ensures
        extends_to(decode(s, t), decode(s + rest, t), s.len()),
    decreases t, 1nat, 0nat,
{
    lemma_compact_stable(s, rest);
    match decode_len(s) {
        Decoded::Done { value, len } => {
            assert((s + rest).skip(len as int) =~= s.skip(len as int) + rest);
            lemma_many_stable(s.skip(len as int), t, value as nat, rest);
        },
        _ => {},
    }
}

proof fn lemma_dict_stable(s: Seq<u8>, t: Ty, rest: Seq<u8>)
    requires
        t is Dict,
    ensures
        extends_to(decode(s, t), decode(s + rest, t), s.len()),
    decreases t, 1nat, 0nat,
{
    lemma_compact_stable(s, rest);
    match decode_len(s) {
        Decoded::Done { value, len } => {
            assert((s + rest).skip(len as int) =~= s.skip(len as int) + rest);
            lemma_entries_stable(s.skip(len as int), t, value as nat, rest);
        },
        _ => {},
    }
}

proof fn lemma_enum_stable(s: Seq<u8>, t: Ty, rest: Seq<u8>)
    requires
        t is Enum,
    ensures
        extends_to(decode(s, t), decode(s + rest, t), s.len()),
    decreases t, 1nat, 0nat,
{
    lemma_u8_stable(s, rest);
    let variants = t->Enum_0;
    if s.len() >= 1 && (s[0] as int) < variants.len() {
        assert((s + rest).skip(1) =~= s.skip(1) + rest);
        lemma_fields_stable(s.skip(1), variants[s[0] as int], rest);
    }
}

proof fn lemma_many_stable(s: Seq<u8>, t: Ty, n: nat, rest: Seq<u8>)
    requires
        t is List,
    ensures
        extends_to(decode_many(s, t, n), decode_many(s + rest, t, n), s.len()),
    decreases t, 0nat, n,
{
    if n > 0 {
        let elem = *t->List_0;
        lemma_decode_stable(s, elem, rest);
        match decode(s, elem) {
            Decoded::Done { value, len } => {
                assert((s + rest).skip(len as int) =~= s.skip(len as int) + rest);
                lemma_many_stable(s.skip(len as int), t, (n - 1) as nat, rest);
            },
            _ => {},
        }
    }
}

proof fn lemma_fields_stable(s: Seq<u8>, ts: Seq<Ty>, rest: Seq<u8>)
    ensures
        extends_to(decode_fields(s, ts), decode_fields(s + rest, ts), s.len()),
    decreases ts, 0nat, 0nat,
{
    if ts.len() > 0 {
        lemma_decode_stable(s, ts[0], rest);
        match decode(s, ts[0]) {
            Decoded::Done { value, len } => {
                assert((s + rest).skip(len as int) =~= s.skip(len as int) + rest);
                lemma_fields_stable(s.skip(len as int), ts.drop_first(), rest);
            },
            _ => {},
        }
    }
}

#[verifier::rlimit(40)]
proof fn lemma_entries_stable(s: Seq<u8>, t: Ty, n: nat, rest: Seq<u8>)
    requires
        t is Dict,
    ensures
        extends_to(decode_entries(s, t, n), decode_entries(s + rest, t, n), s.len()),
    decreases t, 0nat, n,
{
    if n > 0 {
        let kt = *t->Dict_0;
        let vt = *t->Dict_1;
        lemma_decode_stable(s, kt, rest);
        match decode(s, kt) {
            Decoded::Done { value: k, len: a } => {
                assert((s + rest).skip(a as int) =~= s.skip(a as int) + rest);
                lemma_decode_stable(s.skip(a as int), vt, rest);
                assert(s.skip(a as int).len() == s.len() - a);
                match decode(s.skip(a as int), vt) {
                    Decoded::Done { value: v, len: b } => {
                        assert((s + rest).skip((a + b) as int) =~= s.skip((a + b) as int) + rest);
                        assert(s.skip(a as int).skip(b as int) =~= s.skip((a + b) as int));
                        lemma_entries_stable(s.skip((a + b) as int), t, (n - 1) as nat, rest);
                    },
                    _ => {},
                }
            },
            _ => {},
        }
    }
}

/// Truncated input: every proper prefix of the encoding of a value runs out
/// of input when decoded with the value's shape; it never decodes to another
/// value nor fails otherwise.
pub proof fn lemma_truncated(v: Val, t: Ty, n: nat)
    requires
        conforms(v, t),
        encodable(v),
        n < encode(v).len(),
    ensures
        decode(encode(v).take(n as int), t) is Short,
{
    let e = encode(v);
    let p = e.take(n as int);
    let r = e.skip(n as int);
    assert(p + r =~= e);
    lemma_decode_stable(p, t, r);
    lemma_round_trip(v, t, Seq::empty());
    assert(e + Seq::<u8>::empty() =~= e);
}

} // verus!
