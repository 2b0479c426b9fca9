//! Whole values and their shapes, with the entry points that encode a value
//! into bytes and decode bytes into a value of a given shape.
use vstd::prelude::*;
use crate::de::{outcome_by, outcome_view, reports, Deserializer};
use crate::err::{Error, OtherError};
use crate::read::{EndOfInput, Read};
use crate::wire::{Decoded, Fault};
use crate::model::{
    cons_decoded, decode, decode_entries, decode_fields, decode_many, encodable, encodable_entries,
    encodable_list, encode, encode_entries, encode_list, Ty, Val,
};
use crate::ser::Serializer;
use crate::write::Write;

verus! {

broadcast use {
    vstd::std_specs::vec::axiom_vec_decreases_to_view,
    vstd::std_specs::vec::axiom_vec_index_decreases,
};

/// A value that the codec can encode.
#[derive(Debug, PartialEq, Eq)]
pub enum Value {
    Bool(bool),
    I8(i8),
    I16(i16),
    I32(i32),
    I64(i64),
    U8(u8),
    U16(u16),
    U32(u32),
    U64(u64),
    Char(char),
    Str(String),
    Bytes(Vec<u8>),
    /// An integer written in compact form.
    Compact(u64),
    Unit,
    Option(Option<Box<Value>>),
    /// A sequence whose length is written before it.
    List(Vec<Value>),
    /// A fixed number of values: a tuple or the fields of a struct.
    Tuple(Vec<Value>),
    /// Map entries, in order.
    Dict(Vec<(Value, Value)>),
    /// A variant of an enum, with its fields. The names serve error messages;
    /// only the index is written.
    Variant {
        enum_name: &'static str,
        variant_name: &'static str,
        index: u32,
        fields: Vec<Value>,
    },
}

/// The shape of a value, which the decoder is told to expect.
#[derive(Debug, PartialEq, Eq)]
pub enum Shape {
    Bool,
    I8,
    I16,
    I32,
    I64,
    U8,
    U16,
    U32,
    U64,
    Char,
    Str,
    Bytes,
    Compact,
    Unit,
    Option(Box<Shape>),
    List(Box<Shape>),
    Tuple(Vec<Shape>),
    Dict(Box<Shape>, Box<Shape>),
    Enum { name: &'static str, variants: Vec<VariantShape> },
}

/// One variant of an enum shape.
#[derive(Debug, PartialEq, Eq)]
pub struct VariantShape {
    pub name: &'static str,
    pub fields: Vec<Shape>,
}

pub open spec fn val_of(v: Value) -> Val
    decreases v,
{
    match v {
        Value::Bool(b) => Val::Bool(b),
        Value::I8(x) => Val::I8(x),
        Value::I16(x) => Val::I16(x),
        Value::I32(x) => Val::I32(x),
        Value::I64(x) => Val::I64(x),
        Value::U8(x) => Val::U8(x),
        Value::U16(x) => Val::U16(x),
        Value::U32(x) => Val::U32(x),
        Value::U64(x) => Val::U64(x),
        Value::Char(c) => Val::Char(c as u32),
        Value::Str(s) => Val::Str(s@),
        Value::Bytes(b) => Val::Bytes(b@),
        Value::Compact(x) => Val::Compact(x),
        Value::Unit => Val::Unit,
        Value::Option(None) => Val::Option(None),
        Value::Option(Some(x)) => Val::Option(Some(Box::new(val_of(*x)))),
        Value::List(xs) => Val::List(vals_of(xs@)),
        Value::Tuple(xs) => Val::Tuple(vals_of(xs@)),
        Value::Dict(es) => Val::Dict(entries_of(es@)),
        Value::Variant { index, fields, .. } => Val::Variant(index, vals_of(fields@)),
    }
}

pub open spec fn vals_of(xs: Seq<Value>) -> Seq<Val>
    decreases xs,
{
    if xs.len() == 0 {
        Seq::empty()
    } else {
        seq![val_of(xs[0])] + vals_of(xs.drop_first())
    }
}

pub open spec fn entries_of(es: Seq<(Value, Value)>) -> Seq<(Val, Val)>
    decreases es,
{
    if es.len() == 0 {
        Seq::empty()
    } else {
        seq![(val_of(es[0].0), val_of(es[0].1))] + entries_of(es.drop_first())
    }
}

impl View for Value {
    type V = Val;

    open spec fn view(&self) -> Val {
        val_of(*self)
    }
}

pub open spec fn ty_of(t: Shape) -> Ty
    decreases t,
{
    match t {
        Shape::Bool => Ty::Bool,
        Shape::I8 => Ty::I8,
        Shape::I16 => Ty::I16,
        Shape::I32 => Ty::I32,
        Shape::I64 => Ty::I64,
        Shape::U8 => Ty::U8,
        Shape::U16 => Ty::U16,
        Shape::U32 => Ty::U32,
        Shape::U64 => Ty::U64,
        Shape::Char => Ty::Char,
        Shape::Str => Ty::Str,
        Shape::Bytes => Ty::Bytes,
        Shape::Compact => Ty::Compact,
        Shape::Unit => Ty::Unit,
        Shape::Option(x) => Ty::Option(Box::new(ty_of(*x))),
        Shape::List(x) => Ty::List(Box::new(ty_of(*x))),
        Shape::Tuple(ts) => Ty::Tuple(tys_of(ts@)),
        Shape::Dict(k, v) => Ty::Dict(Box::new(ty_of(*k)), Box::new(ty_of(*v))),
        Shape::Enum { variants, .. } => Ty::Enum(variant_tys_of(variants@)),
    }
}

pub open spec fn tys_of(ts: Seq<Shape>) -> Seq<Ty>
    decreases ts,
{
    if ts.len() == 0 {
        Seq::empty()
    } else {
        seq![ty_of(ts[0])] + tys_of(ts.drop_first())
    }
}

pub open spec fn variant_tys_of(vs: Seq<VariantShape>) -> Seq<Seq<Ty>>
    decreases vs,
{
    if vs.len() == 0 {
        Seq::empty()
    } else {
        seq![tys_of(vs[0].fields@)] + variant_tys_of(vs.drop_first())
    }
}

impl View for Shape {
    type V = Ty;

    open spec fn view(&self) -> Ty {
        ty_of(*self)
    }
}


pub proof fn lemma_vals_of(xs: Seq<Value>)
    ensures
        vals_of(xs).len() == xs.len(),
        forall|i: int| 0 <= i < xs.len() ==> #[trigger] vals_of(xs)[i] == val_of(xs[i]),
    decreases xs.len(),
{
    if xs.len() > 0 {
        lemma_vals_of(xs.drop_first());
    }
}

pub proof fn lemma_entries_of(es: Seq<(Value, Value)>)
    ensures
        entries_of(es).len() == es.len(),
        forall|i: int|
            0 <= i < es.len() ==> #[trigger] entries_of(es)[i] == (val_of(es[i].0), val_of(es[i].1)),
    decreases es.len(),
{
    if es.len() > 0 {
        lemma_entries_of(es.drop_first());
    }
}

pub proof fn lemma_tys_of(ts: Seq<Shape>)
    ensures
        tys_of(ts).len() == ts.len(),
        forall|i: int| 0 <= i < ts.len() ==> #[trigger] tys_of(ts)[i] == ty_of(ts[i]),
    decreases ts.len(),
{
    if ts.len() > 0 {
        lemma_tys_of(ts.drop_first());
    }
}

pub proof fn lemma_variant_tys_of(vs: Seq<VariantShape>)
    ensures
        variant_tys_of(vs).len() == vs.len(),
        forall|i: int| 0 <= i < vs.len() ==> #[trigger] variant_tys_of(vs)[i] == tys_of(vs[i].fields@),
    decreases vs.len(),
{
    if vs.len() > 0 {
        lemma_variant_tys_of(vs.drop_first());
    }
}

/// Encoding a list after another is encoding them one after the other.
pub proof fn lemma_encode_list_append(a: Seq<Val>, b: Seq<Val>)
    ensures
        encode_list(a + b) == encode_list(a) + encode_list(b),
        encodable_list(a + b) == (encodable_list(a) && encodable_list(b)),
    decreases a.len(),
{
    if a.len() == 0 {
        assert(a + b =~= b);
    } else {
        assert((a + b).drop_first() =~= a.drop_first() + b);
        lemma_encode_list_append(a.drop_first(), b);
    }
}

pub proof fn lemma_encode_entries_append(a: Seq<(Val, Val)>, b: Seq<(Val, Val)>)
    ensures
        encode_entries(a + b) == encode_entries(a) + encode_entries(b),
        encodable_entries(a + b) == (encodable_entries(a) && encodable_entries(b)),
    decreases a.len(),
{
    if a.len() == 0 {
        assert(a + b =~= b);
    } else {
        assert((a + b).drop_first() =~= a.drop_first() + b);
        lemma_encode_entries_append(a.drop_first(), b);
    }
}

pub proof fn lemma_encode_list_one(x: Val)
    ensures
        encode_list(seq![x]) == encode(x),
        encodable_list(seq![x]) == encodable(x),
{
    reveal_with_fuel(encode_list, 2);
    reveal_with_fuel(encodable_list, 2);
    assert(seq![x].drop_first() =~= Seq::<Val>::empty());
    assert(encode(x) + Seq::<u8>::empty() =~= encode(x));
}

pub proof fn lemma_encode_entries_one(e: (Val, Val))
    ensures
        encode_entries(seq![e]) == encode(e.0) + encode(e.1),
        encodable_entries(seq![e]) == (encodable(e.0) && encodable(e.1)),
{
    reveal_with_fuel(encode_entries, 2);
    reveal_with_fuel(encodable_entries, 2);
    assert(seq![e].drop_first() =~= Seq::<(Val, Val)>::empty());
    assert(encode(e.0) + encode(e.1) + Seq::<u8>::empty() =~= encode(e.0) + encode(e.1));
}

/// What writing a value promises: where it succeeds, the value had every
/// variant index within a byte and its encoding follows what was written
/// before; a failure is a failure of the writer, or a variant index out of
/// range, which names a variant that `found` holds and comes only from a
/// value with such an index; and a value whose indices fit is written in
/// full to a writer that cannot fail.
pub open spec fn wrote_encoding<W: Write>(
    before: Serializer<W>,
    after: Serializer<W>,
    r: Result<(), Error<W::Error>>,
    encodable: bool,
    bytes: Seq<u8>,
    found: spec_fn(&'static str, &'static str, u32) -> bool,
) -> bool {
    &&& r is Ok ==> encodable && after.written() == before.written() + bytes
    &&& r is Err ==> (r->Err_0 is TooManyVariants || (W::fallible() && r->Err_0 is Io))
    &&& r matches Err(Error::TooManyVariants { enum_name, variant_name, variant_index }) ==> {
        &&& !encodable
        &&& variant_index >= 256
        &&& found(enum_name, variant_name, variant_index)
    }
    &&& encodable && !W::fallible() ==> r is Ok
}

/// Whether the variant `variant` of the enum `name`, with index `index`,
/// occurs anywhere in `v`.
pub open spec fn has_variant(v: Value, name: &'static str, variant: &'static str, index: u32) -> bool
    decreases v,
{
    match v {
        Value::Option(Some(x)) => has_variant(*x, name, variant, index),
        Value::List(xs) => has_variant_in(xs@, name, variant, index),
        Value::Tuple(xs) => has_variant_in(xs@, name, variant, index),
        Value::Dict(es) => has_variant_in_entries(es@, name, variant, index),
        Value::Variant { enum_name, variant_name, index: i, fields } => (enum_name == name
            && variant_name == variant && i == index) || has_variant_in(
            fields@,
            name,
            variant,
            index,
        ),
        _ => false,
    }
}

pub open spec fn has_variant_in(
    xs: Seq<Value>,
    name: &'static str,
    variant: &'static str,
    index: u32,
) -> bool
    decreases xs,
{
    if xs.len() == 0 {
        false
    } else {
        has_variant(xs[0], name, variant, index) || has_variant_in(
            xs.drop_first(),
            name,
            variant,
            index,
        )
    }
}

pub open spec fn has_variant_in_entries(
    es: Seq<(Value, Value)>,
    name: &'static str,
    variant: &'static str,
    index: u32,
) -> bool
    decreases es,
{
    if es.len() == 0 {
        false
    } else {
        has_variant(es[0].0, name, variant, index) || has_variant(es[0].1, name, variant, index)
            || has_variant_in_entries(es.drop_first(), name, variant, index)
    }
}

pub proof fn lemma_has_variant_in(
    xs: Seq<Value>,
    i: int,
    name: &'static str,
    variant: &'static str,
    index: u32,
)
    requires
        0 <= i < xs.len(),
        has_variant(xs[i], name, variant, index),
    ensures
        has_variant_in(xs, name, variant, index),
    decreases i,
{
    if i > 0 {
        lemma_has_variant_in(xs.drop_first(), i - 1, name, variant, index);
    }
}

pub proof fn lemma_has_variant_in_entries(
    es: Seq<(Value, Value)>,
    i: int,
    name: &'static str,
    variant: &'static str,
    index: u32,
)
    requires
        0 <= i < es.len(),
        has_variant(es[i].0, name, variant, index) || has_variant(es[i].1, name, variant, index),
    ensures
        has_variant_in_entries(es, name, variant, index),
    decreases i,
{
    if i > 0 {
        lemma_has_variant_in_entries(es.drop_first(), i - 1, name, variant, index);
    }
}

/// Writes a value: the value-level driver of the serializer
pub fn serialize_value<W: Write>(ser: &mut Serializer<W>, v: &Value) -> (r: Result<
    (),
    Error<W::Error>,
>)
    ensures
        wrote_encoding(*old(ser), *final(ser), r, encodable(v@), encode(v@),
            |e: &'static str, n: &'static str, i: u32| has_variant(*v, e, n, i)),
    decreases v, 1nat,
{
    match v {
        Value::Bool(b) => ser.serialize_bool(*b),
        Value::I8(x) => ser.serialize_i8(*x),
        Value::I16(x) => ser.serialize_i16(*x),
        Value::I32(x) => ser.serialize_i32(*x),
        Value::I64(x) => ser.serialize_i64(*x),
        Value::U8(x) => ser.serialize_u8(*x),
        Value::U16(x) => ser.serialize_u16(*x),
        Value::U32(x) => ser.serialize_u32(*x),
        Value::U64(x) => ser.serialize_u64(*x),
        Value::Char(c) => ser.serialize_char(*c),
        Value::Str(s) => ser.serialize_str(s.as_str()),
        Value::Bytes(b) => ser.serialize_bytes(b.as_slice()),
        Value::Compact(x) => ser.serialize_compact(*x),
        Value::Unit => {
            assert(ser.written() =~= ser.written() + Seq::<u8>::empty());
            Ok(())
        },
        Value::Option(None) => ser.serialize_none(),
        Value::Option(Some(x)) => match &**x {
            Value::Bool(b) => {
                assert(encodable(val_of(**x)));
                ser.serialize_some_bool(*b)
            },
            _ => {
                assert(!(val_of(**x) is Bool));
                assert(encodable(v@) == encodable(val_of(**x)));
                match ser.serialize_some() {
                    Ok(()) => {},
                    Err(e) => return Err(e),
                }
                let r = serialize_value(ser, x);
                assert(r is Ok ==> ser.written() =~= old(ser).written() + encode(v@));
                r
            },
        },
        Value::List(xs) => {
            proof {
                lemma_vals_of(xs@);
            }
            match ser.serialize_seq(Some(xs.len())) {
                Ok(()) => {},
                Err(e) => return Err(e),
            }
            let r = serialize_items(ser, xs);
            assert(r is Ok ==> ser.written() =~= old(ser).written() + encode(v@));
            r
        },
        Value::Tuple(xs) => serialize_items(ser, xs),
        Value::Dict(es) => {
            proof {
                lemma_entries_of(es@);
            }
            match ser.serialize_map(Some(es.len())) {
                Ok(()) => {},
                Err(e) => return Err(e),
            }
            let r = serialize_entries(ser, es);
            assert(r is Ok ==> ser.written() =~= old(ser).written() + encode(v@));
            r
        },
        Value::Variant { enum_name, variant_name, index, fields } => {
            match ser.serialize_unit_variant(enum_name, *index, variant_name) {
                Ok(()) => {},
                Err(e) => return Err(e),
            }
            let r = serialize_items(ser, fields);
            assert(r is Ok ==> ser.written() =~= old(ser).written() + encode(v@));
            r
        },
    }
}

/// Writes values one after the other
fn serialize_items<W: Write>(ser: &mut Serializer<W>, xs: &Vec<Value>) -> (r: Result<
    (),
    Error<W::Error>,
>)
    ensures
        wrote_encoding(*old(ser), *final(ser), r, encodable_list(vals_of(xs@)), encode_list(vals_of(xs@)),
            |e: &'static str, n: &'static str, i: u32| has_variant_in(xs@, e, n, i)),
    decreases xs, 2nat,
{
    let ghost ys = vals_of(xs@);
    proof {
        lemma_vals_of(xs@);
        assert(ys.take(0) =~= Seq::<Val>::empty());
        assert(old(ser).written() =~= old(ser).written() + Seq::<u8>::empty());
    }
    let mut i: usize = 0;
    while i < xs.len()
        invariant
            i <= xs@.len() == ys.len(),
            ys == vals_of(xs@),
            forall|j: int| 0 <= j < xs@.len() ==> #[trigger] ys[j] == val_of(xs@[j]),
            encodable_list(ys.take(i as int)),
            ser.written() == old(ser).written() + encode_list(ys.take(i as int)),
        decreases xs@.len() - i,
    {
        let ghost mid = *ser;
        proof {
            assert(ys =~= ys.take(i as int) + (seq![ys[i as int]] + ys.skip(i + 1)));
            lemma_encode_list_append(ys.take(i as int), seq![ys[i as int]] + ys.skip(i + 1));
            lemma_encode_list_append(seq![ys[i as int]], ys.skip(i + 1));
            lemma_encode_list_one(ys[i as int]);
        }
        match serialize_value(ser, &xs[i]) {
            Ok(()) => {},
            Err(e) => {
                proof {
                    if e is TooManyVariants {
                        lemma_has_variant_in(xs@, i as int, e->enum_name, e->variant_name, e->variant_index);
                    }
                }
                return Err(e);
            },
        }
        proof {
            assert(ys.take(i + 1) =~= ys.take(i as int) + seq![ys[i as int]]);
            lemma_encode_list_append(ys.take(i as int), seq![ys[i as int]]);
        }
        i = i + 1;
    }
    assert(ys.take(i as int) =~= ys);
    Ok(())
}

/// Writes map entries one after the other, each key before its value
fn serialize_entries<W: Write>(ser: &mut Serializer<W>, es: &Vec<(Value, Value)>) -> (r: Result<
    (),
    Error<W::Error>,
>)
    ensures
        wrote_encoding(*old(ser), *final(ser), r, encodable_entries(entries_of(es@)), encode_entries(entries_of(es@)),
            |e: &'static str, n: &'static str, i: u32| has_variant_in_entries(es@, e, n, i)),
    decreases es, 2nat,
{
    let ghost ys = entries_of(es@);
    proof {
        lemma_entries_of(es@);
        assert(ys.take(0) =~= Seq::<(Val, Val)>::empty());
        assert(old(ser).written() =~= old(ser).written() + Seq::<u8>::empty());
    }
    let mut i: usize = 0;
    while i < es.len()
        invariant
            i <= es@.len() == ys.len(),
            ys == entries_of(es@),
            forall|j: int| 0 <= j < es@.len() ==> #[trigger] ys[j] == (val_of(es@[j].0), val_of(es@[j].1)),
            encodable_entries(ys.take(i as int)),
            ser.written() == old(ser).written() + encode_entries(ys.take(i as int)),
        decreases es@.len() - i,
    {
        proof {
            assert(ys =~= ys.take(i as int) + (seq![ys[i as int]] + ys.skip(i + 1)));
            lemma_encode_entries_append(ys.take(i as int), seq![ys[i as int]] + ys.skip(i + 1));
            lemma_encode_entries_append(seq![ys[i as int]], ys.skip(i + 1));
            lemma_encode_entries_one(ys[i as int]);
        }
        let entry = &es[i];
        let ghost w0 = ser.written();
        match serialize_value(ser, &entry.0) {
            Ok(()) => {},
            Err(e) => {
                proof {
                    if e is TooManyVariants {
                        lemma_has_variant_in_entries(es@, i as int, e->enum_name, e->variant_name, e->variant_index);
                    }
                }
                return Err(e);
            },
        }
        match serialize_value(ser, &entry.1) {
            Ok(()) => {},
            Err(e) => {
                proof {
                    if e is TooManyVariants {
                        lemma_has_variant_in_entries(es@, i as int, e->enum_name, e->variant_name, e->variant_index);
                    }
                }
                return Err(e);
            },
        }
        proof {
            assert(ys.take(i + 1) =~= ys.take(i as int) + seq![ys[i as int]]);
            lemma_encode_entries_append(ys.take(i as int), seq![ys[i as int]]);
            assert(ser.written() =~= w0 + (encode(ys[i as int].0) + encode(ys[i as int].1)));
        }
        i = i + 1;
    }
    assert(ys.take(i as int) =~= ys);
    Ok(())
}

/// Serializes a value using the SCALE encoding. It fails exactly when an
/// enum variant index in the value does not fit in a byte, and the error
/// names such a variant of the value.
pub fn to_vec(v: &Value) -> (r: Result<Vec<u8>, Error<core::convert::Infallible>>)
    ensures
        r is Ok <==> encodable(v@),
        r is Ok ==> r->Ok_0@ == encode(v@),
        r is Err ==> r->Err_0 is TooManyVariants,
        r matches Err(Error::TooManyVariants { enum_name, variant_name, variant_index }) ==> {
            &&& variant_index >= 256
            &&& has_variant(*v, enum_name, variant_name, variant_index)
        },
{
    let mut ser = Serializer::new(Vec::new());
    match serialize_value(&mut ser, v) {
        Ok(()) => {
            let out = ser.into_inner();
            assert(out@ =~= encode(v@));
            Ok(out)
        },
        Err(e) => Err(e),
    }
}


pub proof fn lemma_vals_of_push(xs: Seq<Value>, x: Value)
    ensures
        vals_of(xs.push(x)) == vals_of(xs).push(val_of(x)),
{
    lemma_vals_of(xs);
    lemma_vals_of(xs.push(x));
    assert(vals_of(xs.push(x)) =~= vals_of(xs).push(val_of(x)));
}

pub proof fn lemma_entries_of_push(es: Seq<(Value, Value)>, e: (Value, Value))
    ensures
        entries_of(es.push(e)) == entries_of(es).push((val_of(e.0), val_of(e.1))),
{
    lemma_entries_of(es);
    lemma_entries_of(es.push(e));
    assert(entries_of(es.push(e)) =~= entries_of(es).push((val_of(e.0), val_of(e.1))));
}

/// Values already decoded, `m` bytes long, in front of what decoding goes on
/// to give.
pub open spec fn prepend<T>(xs: Seq<T>, m: nat, d: Decoded<Seq<T>>) -> Decoded<Seq<T>> {
    match d {
        Decoded::Done { value, len } => Decoded::Done { value: xs + value, len: m + len },
        Decoded::Short => Decoded::Short,
        Decoded::Fail(f, k) => Decoded::Fail(f, m + k),
    }
}

pub proof fn lemma_prepend_cons<T>(xs: Seq<T>, m: nat, x: T, a: nat, d: Decoded<Seq<T>>)
    ensures
        prepend(xs, m, cons_decoded(x, a, d)) == prepend(xs.push(x), m + a, d),
{
    match d {
        Decoded::Done { value, len } => {
            assert(xs + (seq![x] + value) =~= xs.push(x) + value);
        },
        _ => {},
    }
}

pub proof fn lemma_prepend_empty<T>(d: Decoded<Seq<T>>)
    ensures
        prepend(Seq::<T>::empty(), 0, d) == d,
{
    match d {
        Decoded::Done { value, len } => {
            assert(Seq::<T>::empty() + value =~= value);
        },
        _ => {},
    }
}

fn char_value(c: char) -> (v: Value)
    ensures
        v@ == Val::Char(c as u32),
{
    Value::Char(c)
}

/// Reads a value of the given shape: the value-level driver of the
/// deserializer
pub fn deserialize_value<'de, R: Read<'de>>(de: &mut Deserializer<R>, t: &Shape) -> (r: Result<
    Value,
    Error<R::Error>,
>)
    ensures
        outcome_view(old(de).remaining(), final(de).remaining(), r, decode(old(de).remaining(), t@)),
    decreases t, 2nat,
{
    let ghost s = de.remaining();
    match t {
        Shape::Bool => match de.deserialize_bool() {
            Ok(b) => Ok(Value::Bool(b)),
            Err(e) => Err(e),
        },
        Shape::I8 => match de.deserialize_i8() {
            Ok(x) => Ok(Value::I8(x)),
            Err(e) => Err(e),
        },
        Shape::I16 => match de.deserialize_i16() {
            Ok(x) => Ok(Value::I16(x)),
            Err(e) => Err(e),
        },
        Shape::I32 => match de.deserialize_i32() {
            Ok(x) => Ok(Value::I32(x)),
            Err(e) => Err(e),
        },
        Shape::I64 => match de.deserialize_i64() {
            Ok(x) => Ok(Value::I64(x)),
            Err(e) => Err(e),
        },
        Shape::U8 => match de.deserialize_u8() {
            Ok(x) => Ok(Value::U8(x)),
            Err(e) => Err(e),
        },
        Shape::U16 => match de.deserialize_u16() {
            Ok(x) => Ok(Value::U16(x)),
            Err(e) => Err(e),
        },
        Shape::U32 => match de.deserialize_u32() {
            Ok(x) => Ok(Value::U32(x)),
            Err(e) => Err(e),
        },
        Shape::U64 => match de.deserialize_u64() {
            Ok(x) => Ok(Value::U64(x)),
            Err(e) => Err(e),
        },
        Shape::Char => match de.deserialize_char() {
            Ok(c) => Ok(char_value(c)),
            Err(e) => Err(e),
        },
        Shape::Str => match de.deserialize_str() {
            Ok(x) => Ok(Value::Str(x.into_string())),
            Err(e) => Err(e),
        },
        Shape::Bytes => match de.deserialize_bytes() {
            Ok(x) => Ok(Value::Bytes(x.into_vec())),
            Err(e) => Err(e),
        },
        Shape::Compact => match de.read_compact() {
            Ok(x) => Ok(Value::Compact(x)),
            Err(e) => Err(e),
        },
        Shape::Unit => {
            assert(s.skip(0) =~= s);
            Ok(Value::Unit)
        },
        Shape::Option(_) => deserialize_option_value(de, t),
        Shape::List(_) => deserialize_list(de, t),
        Shape::Tuple(ts) => match deserialize_fields(de, ts) {
            Ok(xs) => Ok(Value::Tuple(xs)),
            Err(e) => Err(e),
        },
        Shape::Dict(_, _) => deserialize_dict(de, t),
        Shape::Enum { .. } => deserialize_variant(de, t),
    }
}

/// Reads an option of the shape `t`
fn deserialize_option_value<'de, R: Read<'de>>(de: &mut Deserializer<R>, t: &Shape) -> (r: Result<
    Value,
    Error<R::Error>,
>)
    requires
        t is Option,
    ensures
        outcome_view(old(de).remaining(), final(de).remaining(), r, decode(old(de).remaining(), t@)),
    decreases t, 1nat,
{
    let ghost s = de.remaining();
    match t {
        Shape::Option(inner) => match de.deserialize_option() {
            Ok(None) => Ok(Value::Option(None)),
            Ok(Some(d)) => match &**inner {
                Shape::Bool => {
                    let b = d.deserialize_bool();
                    assert(val_of(Value::Bool(b)) == Val::Bool(b));
                    Ok(Value::Option(Some(Box::new(Value::Bool(b)))))
                },
                _ => {
                    assert(!(ty_of(**inner) is Bool));
                    match d.check_bad_discriminant() {
                        Ok(()) => {},
                        Err(e) => {
                            assert(s[0] == 2);
                            assert(decode(s, t@) == Decoded::<Val>::Fail(Fault::InvalidOption(2), 1));
                            return Err(e);
                        },
                    }
                    let ghost s1 = de.remaining();
                    let r = match deserialize_value(de, inner) {
                        Ok(x) => Ok(Value::Option(Some(Box::new(x)))),
                        Err(e) => Err(e),
                    };
                    proof {
                        if de.remaining().len() <= s1.len() {
                            let a = (s1.len() - de.remaining().len()) as int;
                            assert(s.skip(1 + a) =~= s1.skip(a));
                        }
                    }
                    r
                },
            },
            Err(e) => Err(e),
        },
        _ => Err(Error::TypeMustBeKnown),
    }
}

/// Reads a list of the shape `t`
fn deserialize_list<'de, R: Read<'de>>(de: &mut Deserializer<R>, t: &Shape) -> (r: Result<
    Value,
    Error<R::Error>,
>)
    requires
        t is List,
    ensures
        outcome_view(old(de).remaining(), final(de).remaining(), r, decode(old(de).remaining(), t@)),
    decreases t, 1nat,
{
    let ghost s = de.remaining();
    match t {
        Shape::List(_) => {
            let n = match de.deserialize_seq() {
                Ok(n) => n,
                Err(e) => return Err(e),
            };
            let ghost s1 = de.remaining();
            match deserialize_many(de, t, n) {
                Ok(xs) => {
                    proof {
                        let a = (s.len() - s1.len()) as int;
                        let b = (s1.len() - de.remaining().len()) as int;
                        assert(s.skip(a + b) =~= s1.skip(b));
                    }
                    Ok(Value::List(xs))
                },
                Err(e) => {
                    proof {
                        if de.remaining().len() <= s1.len() {
                            let a = (s.len() - s1.len()) as int;
                            let b = (s1.len() - de.remaining().len()) as int;
                            assert(s.skip(a + b) =~= s1.skip(b));
                        }
                    }
                    Err(e)
                },
            }
        },
        _ => Err(Error::TypeMustBeKnown),
    }
}

/// Reads a map of the shape `t`
fn deserialize_dict<'de, R: Read<'de>>(de: &mut Deserializer<R>, t: &Shape) -> (r: Result<
    Value,
    Error<R::Error>,
>)
    requires
        t is Dict,
    ensures
        outcome_view(old(de).remaining(), final(de).remaining(), r, decode(old(de).remaining(), t@)),
    decreases t, 1nat,
{
    let ghost s = de.remaining();
    match t {
        Shape::Dict(_, _) => {
            let n = match de.deserialize_map() {
                Ok(n) => n,
                Err(e) => return Err(e),
            };
            let ghost s1 = de.remaining();
            match deserialize_entries(de, t, n) {
                Ok(es) => {
                    proof {
                        let a = (s.len() - s1.len()) as int;
                        let b = (s1.len() - de.remaining().len()) as int;
                        assert(s.skip(a + b) =~= s1.skip(b));
                    }
                    Ok(Value::Dict(es))
                },
                Err(e) => {
                    proof {
                        if de.remaining().len() <= s1.len() {
                            let a = (s.len() - s1.len()) as int;
                            let b = (s1.len() - de.remaining().len()) as int;
                            assert(s.skip(a + b) =~= s1.skip(b));
                        }
                    }
                    Err(e)
                },
            }
        },
        _ => Err(Error::TypeMustBeKnown),
    }
}

/// Reads an enum variant of the shape `t`
fn deserialize_variant<'de, R: Read<'de>>(de: &mut Deserializer<R>, t: &Shape) -> (r: Result<
    Value,
    Error<R::Error>,
>)
    requires
        t is Enum,
    ensures
        outcome_view(old(de).remaining(), final(de).remaining(), r, decode(old(de).remaining(), t@)),
    decreases t, 1nat,
{
    let ghost s = de.remaining();
    match t {
        Shape::Enum { name, variants } => {
            let index = match de.deserialize_enum() {
                Ok(i) => i,
                Err(e) => return Err(e),
            };
            proof {
                lemma_variant_tys_of(variants@);
            }
            if (index as usize) < variants.len() {
                let variant = &variants[index as usize];
                let ghost s1 = de.remaining();
                match deserialize_fields(de, &variant.fields) {
                    Ok(fields) => {
                        proof {
                            let b = (s1.len() - de.remaining().len()) as int;
                            assert(s.skip(1 + b) =~= s1.skip(b));
                        }
                        Ok(
                            Value::Variant {
                                enum_name: name,
                                variant_name: variant.name,
                                index: index as u32,
                                fields,
                            },
                        )
                    },
                    Err(e) => {
                        proof {
                            if de.remaining().len() <= s1.len() {
                                let b = (s1.len() - de.remaining().len()) as int;
                                assert(s.skip(1 + b) =~= s1.skip(b));
                            }
                        }
                        Err(e)
                    },
                }
            } else {
                Err(Error::Other(OtherError::from("unknown enum variant index")))
            }
        },
        _ => Err(Error::TypeMustBeKnown),
    }
}

/// Reads `n` elements of the list shape `t`
fn deserialize_many<'de, R: Read<'de>>(de: &mut Deserializer<R>, t: &Shape, n: usize) -> (r: Result<
    Vec<Value>,
    Error<R::Error>,
>)
    requires
        t is List,
    ensures
        outcome_by(old(de).remaining(), final(de).remaining(), r,
            decode_many(old(de).remaining(), t@, n as nat), |xs: Vec<Value>| vals_of(xs@)),
    decreases t, 0nat,
{
    let elem = match t {
        Shape::List(e) => e,
        _ => return Ok(Vec::new()),
    };
    let ghost s0 = de.remaining();
    let mut out: Vec<Value> = Vec::new();
    let mut i: usize = 0;
    proof {
        lemma_prepend_empty(decode_many(s0, t@, n as nat));
        assert(vals_of(out@) =~= Seq::<Val>::empty());
        assert(s0.skip(0) =~= s0);
    }
    while i < n
        invariant
            i <= n,
            s0 == old(de).remaining(),
            *t == Shape::List(*elem),
            t@ == Ty::List(Box::new(elem@)),
            de.remaining().len() <= s0.len(),
            de.remaining() == s0.skip(s0.len() - de.remaining().len()),
            decode_many(s0, t@, n as nat) == prepend(
                vals_of(out@),
                (s0.len() - de.remaining().len()) as nat,
                decode_many(de.remaining(), t@, (n - i) as nat),
            ),
        decreases n - i,
    {
        let ghost cur = de.remaining();
        let ghost m = (s0.len() - cur.len()) as nat;
        let x = match deserialize_value(de, elem) {
            Ok(x) => x,
            Err(e) => {
                proof {
                    let d = decode(cur, elem@);
                    if d is Short {
                        assert(decode_many(cur, t@, (n - i) as nat) is Short);
                    } else {
                        assert(decode_many(cur, t@, (n - i) as nat) == Decoded::<Seq<Val>>::Fail(d->Fail_0, d->Fail_1));
                        assert(s0.skip((m + d->Fail_1) as int) =~= cur.skip(d->Fail_1 as int));
                    }
                }
                return Err(e);
            },
        };
        proof {
            let a = (cur.len() - de.remaining().len()) as nat;
            lemma_prepend_cons(vals_of(out@), m, x@, a,
                decode_many(de.remaining(), t@, (n - i - 1) as nat));
            lemma_vals_of_push(out@, x);
            assert(s0.skip((m + a) as int) =~= cur.skip(a as int));
        }
        out.push(x);
        i = i + 1;
    }
    proof {
        assert(vals_of(out@) + Seq::<Val>::empty() =~= vals_of(out@));
    }
    Ok(out)
}

/// Reads values of the shapes `ts`, one after the other
fn deserialize_fields<'de, R: Read<'de>>(de: &mut Deserializer<R>, ts: &Vec<Shape>) -> (r: Result<
    Vec<Value>,
    Error<R::Error>,
>)
    ensures
        outcome_by(old(de).remaining(), final(de).remaining(), r,
            decode_fields(old(de).remaining(), tys_of(ts@)), |xs: Vec<Value>| vals_of(xs@)),
    decreases ts, 0nat,
{
    let ghost s0 = de.remaining();
    let ghost tys = tys_of(ts@);
    let mut out: Vec<Value> = Vec::new();
    let mut i: usize = 0;
    proof {
        lemma_tys_of(ts@);
        lemma_prepend_empty(decode_fields(s0, tys));
        assert(vals_of(out@) =~= Seq::<Val>::empty());
        assert(s0.skip(0) =~= s0);
        assert(tys.skip(0) =~= tys);
    }
    while i < ts.len()
        invariant
            i <= ts@.len() == tys.len(),
            s0 == old(de).remaining(),
            tys == tys_of(ts@),
            forall|j: int| 0 <= j < ts@.len() ==> #[trigger] tys[j] == ty_of(ts@[j]),
            de.remaining().len() <= s0.len(),
            de.remaining() == s0.skip(s0.len() - de.remaining().len()),
            decode_fields(s0, tys) == prepend(
                vals_of(out@),
                (s0.len() - de.remaining().len()) as nat,
                decode_fields(de.remaining(), tys.skip(i as int)),
            ),
        decreases ts@.len() - i,
    {
        let ghost cur = de.remaining();
        let ghost m = (s0.len() - cur.len()) as nat;
        proof {
            assert(tys.skip(i as int)[0] == tys[i as int]);
            assert(tys.skip(i as int).drop_first() =~= tys.skip(i + 1));
        }
        let x = match deserialize_value(de, &ts[i]) {
            Ok(x) => x,
            Err(e) => {
                proof {
                    let d = decode(cur, tys[i as int]);
                    if d is Short {
                        assert(decode_fields(cur, tys.skip(i as int)) is Short);
                    } else {
                        assert(decode_fields(cur, tys.skip(i as int)) == Decoded::<Seq<Val>>::Fail(d->Fail_0, d->Fail_1));
                        assert(s0.skip((m + d->Fail_1) as int) =~= cur.skip(d->Fail_1 as int));
                    }
                }
                return Err(e);
            },
        };
        proof {
            let a = (cur.len() - de.remaining().len()) as nat;
            lemma_prepend_cons(vals_of(out@), m, x@, a,
                decode_fields(de.remaining(), tys.skip(i + 1)));
            lemma_vals_of_push(out@, x);
            assert(s0.skip((m + a) as int) =~= cur.skip(a as int));
        }
        out.push(x);
        i = i + 1;
    }
    proof {
        assert(tys.skip(i as int) =~= Seq::<Ty>::empty());
        assert(vals_of(out@) + Seq::<Val>::empty() =~= vals_of(out@));
    }
    Ok(out)
}

/// Reads `n` entries of the map shape `t`, each a key then its value
fn deserialize_entries<'de, R: Read<'de>>(de: &mut Deserializer<R>, t: &Shape, n: usize) -> (r: Result<
    Vec<(Value, Value)>,
    Error<R::Error>,
>)
    requires
        t is Dict,
    ensures
        outcome_by(old(de).remaining(), final(de).remaining(), r,
            decode_entries(old(de).remaining(), t@, n as nat), |es: Vec<(Value, Value)>| entries_of(es@)),
    decreases t, 0nat,
{
    let (kt, vt) = match t {
        Shape::Dict(k, v) => (k, v),
        _ => return Ok(Vec::new()),
    };
    let ghost s0 = de.remaining();
    let mut out: Vec<(Value, Value)> = Vec::new();
    let mut i: usize = 0;
    proof {
        lemma_prepend_empty(decode_entries(s0, t@, n as nat));
        assert(entries_of(out@) =~= Seq::<(Val, Val)>::empty());
        assert(s0.skip(0) =~= s0);
    }
    while i < n
        invariant
            i <= n,
            s0 == old(de).remaining(),
            *t == Shape::Dict(*kt, *vt),
            t@ == Ty::Dict(Box::new(kt@), Box::new(vt@)),
            de.remaining().len() <= s0.len(),
            de.remaining() == s0.skip(s0.len() - de.remaining().len()),
            decode_entries(s0, t@, n as nat) == prepend(
                entries_of(out@),
                (s0.len() - de.remaining().len()) as nat,
                decode_entries(de.remaining(), t@, (n - i) as nat),
            ),
        decreases n - i,
    {
        let ghost cur = de.remaining();
        let ghost m = (s0.len() - cur.len()) as nat;
        let k = match deserialize_value(de, kt) {
            Ok(k) => k,
            Err(e) => {
                proof {
                    let d = decode(cur, kt@);
                    if d is Short {
                        assert(decode_entries(cur, t@, (n - i) as nat) is Short);
                    } else {
                        assert(decode_entries(cur, t@, (n - i) as nat) == Decoded::<Seq<(Val, Val)>>::Fail(d->Fail_0, d->Fail_1));
                        assert(s0.skip((m + d->Fail_1) as int) =~= cur.skip(d->Fail_1 as int));
                    }
                }
                return Err(e);
            },
        };
        let ghost mid = de.remaining();
        let v = match deserialize_value(de, vt) {
            Ok(v) => v,
            Err(e) => {
                proof {
                    let d = decode(mid, vt@);
                    let a = (cur.len() - mid.len()) as nat;
                    if d is Short {
                        assert(decode_entries(cur, t@, (n - i) as nat) is Short);
                    } else {
                        assert(mid =~= cur.skip(a as int));
                        assert(decode_entries(cur, t@, (n - i) as nat) == Decoded::<Seq<(Val, Val)>>::Fail(d->Fail_0, a + d->Fail_1));
                        assert(s0.skip((m + a + d->Fail_1) as int) =~= mid.skip(d->Fail_1 as int));
                    }
                }
                return Err(e);
            },
        };
        proof {
            let a = (cur.len() - mid.len()) as nat;
            let b = (mid.len() - de.remaining().len()) as nat;
            assert(cur.skip(a as int).skip(b as int) =~= cur.skip((a + b) as int));
            lemma_prepend_cons(entries_of(out@), m, (k@, v@), a + b,
                decode_entries(de.remaining(), t@, (n - i - 1) as nat));
            lemma_entries_of_push(out@, (k, v));
            assert(s0.skip((m + a + b) as int) =~= cur.skip((a + b) as int));
        }
        out.push((k, v));
        i = i + 1;
    }
    proof {
        assert(entries_of(out@) + Seq::<(Val, Val)>::empty() =~= entries_of(out@));
    }
    Ok(out)
}

/// Deserializes a value of the given shape from bytes encoded with SCALE.
/// Bytes after the value are left unread.
pub fn from_slice<'a>(v: &'a [u8], t: &Shape) -> (r: Result<Value, Error<EndOfInput>>)
    ensures
        match decode(v@, t@) {
            Decoded::Done { value, .. } => r is Ok && r->Ok_0@ == value,
            Decoded::Short => r == Err::<Value, Error<EndOfInput>>(Error::Io(EndOfInput)),
            Decoded::Fail(f, _) => r is Err && reports(r->Err_0, f),
        },
{
    let mut de = Deserializer::new(v);
    let r = deserialize_value(&mut de, t);
    proof {
        if decode(v@, t@) is Short {
            assert(r->Err_0->Io_0 == EndOfInput);
        }
    }
    r
}

} // verus!
