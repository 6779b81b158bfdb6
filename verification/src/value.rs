//! The values that can be handed to the encoder, and the bytes each is laid
//! out as.
//!
//! The wire format is fixed-width and carries no tags, so the set of shapes is
//! closed: integers of a stated width, booleans, floating-point numbers,
//! strings, tuples, structs and sequences. Every other shape is rejected.

use crate::encoder::{
    extends, framed, lemma_frame, lemma_framed, reserved_slot, size_prefix, Encoder,
};
use crate::error::Error;
use crate::wire::{
    le_bytes, le_value, lemma_le_bytes_len, lemma_le_round_trip, radix, unsigned,
};
use vstd::prelude::*;
use vstd::utf8::encode_utf8;

verus! {

/// A value as the codec sees it.
#[derive(Debug, PartialEq, Eq)]
pub enum Value {
    /// The unit value. Not supported.
    Nil,
    /// An unsigned integer of the platform's width. Not supported.
    Usize(usize),
    U64(u64),
    U32(u32),
    U16(u16),
    U8(u8),
    /// A signed integer of the platform's width. Not supported.
    Isize(isize),
    I64(i64),
    I32(i32),
    I16(i16),
    I8(i8),
    Bool(bool),
    /// A 32-bit IEEE-754 number, held as its bit pattern.
    F32(u32),
    /// A 64-bit IEEE-754 number, held as its bit pattern.
    F64(u64),
    /// A single character. Not supported.
    Char(char),
    Str(String),
    /// A fixed number of elements, each of its own shape.
    Tuple(Vec<Value>),
    /// The fields of a struct in the order of their declaration.
    Struct(Vec<Value>),
    /// Any number of elements, meant to be of one shape. Each is laid out by
    /// its own shape, whether or not the others share it.
    Sequence(Vec<Value>),
    /// A value that may be absent. Not supported.
    Optional(Option<Box<Value>>),
    /// A collection of keys with their values. Not supported.
    Keyed(Vec<(Value, Value)>),
    /// One variant of an enumeration, with its fields. Not supported.
    Variant(usize, Vec<Value>),
}

/// What a value holds: the view of a `Value`, with sequences in place of
/// vectors and of strings.
pub enum Term {
    Nil,
    Usize(usize),
    U64(u64),
    U32(u32),
    U16(u16),
    U8(u8),
    Isize(isize),
    I64(i64),
    I32(i32),
    I16(i16),
    I8(i8),
    Bool(bool),
    F32(u32),
    F64(u64),
    Char(char),
    Str(Seq<char>),
    Tuple(Seq<Term>),
    Struct(Seq<Term>),
    Sequence(Seq<Term>),
    /// A value that the wire format has no layout for: one that may be
    /// absent, a keyed collection or a variant of an enumeration.
    Unsupported,
}

/// What `v` holds.
pub open spec fn term(v: Value) -> Term
    decreases v,
{
    match v {
        Value::Nil => Term::Nil,
        Value::Usize(x) => Term::Usize(x),
        Value::U64(x) => Term::U64(x),
        Value::U32(x) => Term::U32(x),
        Value::U16(x) => Term::U16(x),
        Value::U8(x) => Term::U8(x),
        Value::Isize(x) => Term::Isize(x),
        Value::I64(x) => Term::I64(x),
        Value::I32(x) => Term::I32(x),
        Value::I16(x) => Term::I16(x),
        Value::I8(x) => Term::I8(x),
        Value::Bool(x) => Term::Bool(x),
        Value::F32(bits) => Term::F32(bits),
        Value::F64(bits) => Term::F64(bits),
        Value::Char(x) => Term::Char(x),
        Value::Str(s) => Term::Str(s@),
        Value::Tuple(elements) => Term::Tuple(terms(elements@)),
        Value::Struct(fields) => Term::Struct(terms(fields@)),
        Value::Sequence(elements) => Term::Sequence(terms(elements@)),
        _ => Term::Unsupported,
    }
}

/// What each of `values` holds.
pub open spec fn terms(values: Seq<Value>) -> Seq<Term>
    decreases values,
{
    if values.len() == 0 {
        Seq::empty()
    } else {
        terms(values.drop_last()).push(term(values.last()))
    }
}

impl View for Value {
    type V = Term;

    open spec fn view(&self) -> Term {
        term(*self)
    }
}

/// `terms` keeps the number and the order of the values.
pub proof fn lemma_terms(values: Seq<Value>)
    ensures
        terms(values).len() == values.len(),
        forall|i: int| 0 <= i < values.len() ==> terms(values)[i] == term(#[trigger] values[i]),
    decreases values.len(),
{
    if values.len() > 0 {
        let front = values.drop_last();
        lemma_terms(front);
        assert forall|i: int| 0 <= i < values.len() implies terms(values)[i] == term(
            #[trigger] values[i],
        ) by {
            if i < front.len() {
                assert(front[i] == values[i]);
            }
        }
    }
}

/// What a reader has to know of a value to read it back: the wire carries
/// the content of a value and nothing of its shape.
#[derive(Debug, PartialEq, Eq)]
pub enum Shape {
    /// Not supported.
    Nil,
    /// Not supported.
    Usize,
    U64,
    U32,
    U16,
    U8,
    /// Not supported.
    Isize,
    I64,
    I32,
    I16,
    I8,
    Bool,
    F32,
    F64,
    /// Not supported.
    Char,
    Str,
    /// A tuple of elements of these shapes.
    Tuple(Vec<Shape>),
    /// A struct with fields of these shapes.
    Struct(Vec<Shape>),
    /// A sequence of elements of this shape.
    Sequence(Box<Shape>),
    /// Not supported.
    Optional,
    /// Not supported.
    Keyed,
    /// Not supported.
    Variant,
}

/// Whether `t` is of the shape `shape`.
pub open spec fn shaped(t: Term, shape: Shape) -> bool
    decreases t,
{
    match t {
        Term::Nil => shape is Nil,
        Term::Usize(_) => shape is Usize,
        Term::U64(_) => shape is U64,
        Term::U32(_) => shape is U32,
        Term::U16(_) => shape is U16,
        Term::U8(_) => shape is U8,
        Term::Isize(_) => shape is Isize,
        Term::I64(_) => shape is I64,
        Term::I32(_) => shape is I32,
        Term::I16(_) => shape is I16,
        Term::I8(_) => shape is I8,
        Term::Bool(_) => shape is Bool,
        Term::F32(_) => shape is F32,
        Term::F64(_) => shape is F64,
        Term::Char(_) => shape is Char,
        Term::Str(_) => shape is Str,
        Term::Tuple(elements) => shape matches Shape::Tuple(shapes) && shapes@.len()
            == elements.len() && forall|i: int|
            0 <= i < elements.len() ==> shaped(#[trigger] elements[i], shapes@[i]),
        Term::Struct(fields) => shape matches Shape::Struct(shapes) && shapes@.len()
            == fields.len() && forall|i: int|
            0 <= i < fields.len() ==> shaped(#[trigger] fields[i], shapes@[i]),
        Term::Sequence(elements) => shape matches Shape::Sequence(each) && forall|i: int|
            0 <= i < elements.len() ==> shaped(#[trigger] elements[i], *each),
        Term::Unsupported => shape is Optional || shape is Keyed || shape is Variant,
    }
}

/// Whether the wire format has a layout for `t` and for everything in it.
pub open spec fn supported(t: Term) -> bool
    decreases t,
{
    match t {
        Term::U64(_) | Term::U32(_) | Term::U16(_) | Term::U8(_) => true,
        Term::I64(_) | Term::I32(_) | Term::I16(_) | Term::I8(_) => true,
        Term::Bool(_) | Term::F32(_) | Term::F64(_) | Term::Str(_) => true,
        Term::Tuple(elements) => all_supported(elements),
        Term::Struct(fields) => all_supported(fields),
        Term::Sequence(elements) => all_supported(elements),
        _ => false,
    }
}

/// Whether every one of `items` is supported.
pub open spec fn all_supported(items: Seq<Term>) -> bool
    decreases items,
{
    items.len() == 0 || (all_supported(items.drop_last()) && supported(items.last()))
}

/// The bytes that a supported value is laid out as.
pub open spec fn encoding(t: Term) -> Seq<u8>
    decreases t,
{
    match t {
        Term::U64(x) => le_bytes(x as nat, 8),
        Term::U32(x) => le_bytes(x as nat, 4),
        Term::U16(x) => le_bytes(x as nat, 2),
        Term::U8(x) => seq![x],
        Term::I64(x) => le_bytes(unsigned(x as int, 8), 8),
        Term::I32(x) => le_bytes(unsigned(x as int, 4), 4),
        Term::I16(x) => le_bytes(unsigned(x as int, 2), 2),
        Term::I8(x) => le_bytes(unsigned(x as int, 1), 1),
        Term::Bool(x) => seq![if x { 1u8 } else { 0u8 }],
        Term::F32(bits) => le_bytes(bits as nat, 4),
        Term::F64(bits) => le_bytes(bits as nat, 8),
        Term::Str(text) => framed(encode_utf8(text)),
        Term::Tuple(elements) => framed(joined(elements)),
        Term::Struct(fields) => framed(joined(fields)),
        Term::Sequence(elements) => framed(size_prefix(elements.len()) + joined(elements)),
        _ => Seq::empty(),
    }
}

/// The encodings of `items`, one after the other.
pub open spec fn joined(items: Seq<Term>) -> Seq<u8>
    decreases items,
{
    if items.len() == 0 {
        Seq::empty()
    } else {
        joined(items.drop_last()) + encoding(items.last())
    }
}

/// Whether `t` is a tuple, a struct or a sequence.
pub open spec fn composite(t: Term) -> bool {
    t is Tuple || t is Struct || t is Sequence
}

/// One unsupported value makes the whole list unsupported.
proof fn lemma_one_unsupported(items: Seq<Term>, i: int)
    requires
        0 <= i < items.len(),
        !supported(items[i]),
    ensures
        !all_supported(items),
    decreases items.len(),
{
    if i < items.len() - 1 {
        lemma_one_unsupported(items.drop_last(), i);
    }
}

/// Encodes `values` in order and stops at the first that is not supported.
fn encode_all(values: &Vec<Value>, encoder: &mut Encoder) -> (r: Result<(), Error>)
    ensures
        r is Ok <==> all_supported(terms(values@)),
        r is Ok ==> final(encoder)@ == old(encoder)@ + joined(terms(values@)),
        r is Err ==> r matches Err(Error::UnsupportedData),
        extends(old(encoder)@, final(encoder)@),
    decreases values,
{
    let ghost all = terms(values@);
    proof {
        lemma_terms(values@);
    }
    let mut i: usize = 0;
    while i < values.len()
        invariant
            i <= values.len(),
            all == terms(values@),
            all.len() == values@.len(),
            forall|k: int| 0 <= k < values@.len() ==> all[k] == term(#[trigger] values@[k]),
            all_supported(all.take(i as int)),
            encoder@ == old(encoder)@ + joined(all.take(i as int)),
        decreases values.len() - i,
    {
        assert(all.take(i + 1).drop_last() =~= all.take(i as int));
        match values[i].encode(encoder) {
            Ok(()) => {},
            Err(e) => {
                proof {
                    lemma_one_unsupported(all, i as int);
                }
                return Err(e);
            },
        }
        i += 1;
    }
    assert(all.take(i as int) =~= all);
    Ok(())
}

impl Value {
    /// Appends the layout of `self` to `encoder`.
    ///
    /// This succeeds exactly for the supported values. For the others the
    /// error is `UnsupportedData`; what was written before the unsupported
    /// part was met stays in the encoder.
    pub fn encode(&self, encoder: &mut Encoder) -> (r: Result<(), Error>)
        ensures
            r is Ok <==> supported(self@),
            r is Ok ==> final(encoder)@ == old(encoder)@ + encoding(self@),
            r is Err ==> r matches Err(Error::UnsupportedData),
            extends(old(encoder)@, final(encoder)@),
        decreases self,
    {
        let ghost start = encoder@;
        match self {
            Value::Nil => encoder.emit_nil(),
            Value::Usize(x) => encoder.emit_usize(*x),
            Value::U64(x) => encoder.emit_u64(*x),
            Value::U32(x) => encoder.emit_u32(*x),
            Value::U16(x) => encoder.emit_u16(*x),
            Value::U8(x) => encoder.emit_u8(*x),
            Value::Isize(x) => encoder.emit_isize(*x),
            Value::I64(x) => encoder.emit_i64(*x),
            Value::I32(x) => encoder.emit_i32(*x),
            Value::I16(x) => encoder.emit_i16(*x),
            Value::I8(x) => encoder.emit_i8(*x),
            Value::Bool(x) => encoder.emit_bool(*x),
            Value::F32(bits) => encoder.emit_u32(*bits),
            Value::F64(bits) => encoder.emit_u64(*bits),
            Value::Char(x) => encoder.emit_char(*x),
            Value::Str(s) => encoder.emit_str(s.as_str()),
            Value::Tuple(elements) => {
                let write = |e: &mut Encoder| -> (out: Result<(), Error>)
                    ensures
                        out is Ok <==> all_supported(terms(elements@)),
                        out is Ok ==> final(e)@ == old(e)@ + joined(terms(elements@)),
                        out is Err ==> out matches Err(Error::UnsupportedData),
                        extends(old(e)@, final(e)@),
                    {
                        encode_all(elements, e)
                    };
                let r = encoder.emit_tuple(elements.len(), write);
                proof {
                    lemma_frame(start, joined(terms(elements@)));
                }
                r
            },
            Value::Struct(fields) => {
                let write = |e: &mut Encoder| -> (out: Result<(), Error>)
                    ensures
                        out is Ok <==> all_supported(terms(fields@)),
                        out is Ok ==> final(e)@ == old(e)@ + joined(terms(fields@)),
                        out is Err ==> out matches Err(Error::UnsupportedData),
                        extends(old(e)@, final(e)@),
                    {
                        encode_all(fields, e)
                    };
                let r = encoder.emit_struct("", fields.len(), write);
                proof {
                    lemma_frame(start, joined(terms(fields@)));
                }
                r
            },
            Value::Sequence(elements) => {
                let write = |e: &mut Encoder| -> (out: Result<(), Error>)
                    ensures
                        out is Ok <==> all_supported(terms(elements@)),
                        out is Ok ==> final(e)@ == old(e)@ + joined(terms(elements@)),
                        out is Err ==> out matches Err(Error::UnsupportedData),
                        extends(old(e)@, final(e)@),
                    {
                        encode_all(elements, e)
                    };
                let r = encoder.emit_seq(elements.len(), write);
                proof {
                    lemma_terms(elements@);
                    let count = size_prefix(elements@.len());
                    let body = joined(terms(elements@));
                    lemma_frame(start, count + body);
                    assert(start + reserved_slot() + count + body =~= start + reserved_slot() + (
                    count + body));
                }
                r
            },
            Value::Optional(_) => Err(Error::UnsupportedData),
            Value::Keyed(_) => Err(Error::UnsupportedData),
            Value::Variant(_, _) => Err(Error::UnsupportedData),
        }
    }
}

/// Whether every size in `t` that a reader goes by can be written in four
/// bytes: the length of each string and the number of elements of each
/// sequence.
pub open spec fn fits(t: Term) -> bool
    decreases t,
{
    match t {
        Term::Str(text) => encode_utf8(text).len() < 0x1_0000_0000,
        Term::Tuple(elements) => forall|i: int|
            0 <= i < elements.len() ==> fits(#[trigger] elements[i]),
        Term::Struct(fields) => forall|i: int| 0 <= i < fields.len() ==> fits(#[trigger] fields[i]),
        Term::Sequence(elements) => elements.len() < 0x1_0000_0000 && forall|i: int|
            0 <= i < elements.len() ==> fits(#[trigger] elements[i]),
        _ => true,
    }
}

/// Where all are supported, each is.
pub proof fn lemma_each_supported(items: Seq<Term>, i: int)
    requires
        all_supported(items),
        0 <= i < items.len(),
    ensures
        supported(items[i]),
    decreases items.len(),
{
    if i < items.len() - 1 {
        lemma_each_supported(items.drop_last(), i);
    }
}

/// The joined encodings begin with the encoding of the first.
pub proof fn lemma_joined_front(items: Seq<Term>)
    requires
        items.len() > 0,
    ensures
        joined(items) == encoding(items[0]) + joined(items.drop_first()),
    decreases items.len(),
{
    let tail = items.drop_first();
    if items.len() == 1 {
        assert(items.drop_last() =~= Seq::<Term>::empty());
        assert(tail =~= Seq::<Term>::empty());
        assert(joined(items) =~= encoding(items[0]) + joined(tail));
    } else {
        let front = items.drop_last();
        lemma_joined_front(front);
        assert(front.drop_first() =~= tail.drop_last());
        assert(tail.last() == items.last());
        assert(joined(items) =~= encoding(items[0]) + joined(tail));
    }
}

/// The encoding of a tuple, a struct or a sequence begins with four bytes
/// that hold, least significant byte first, the number of bytes that follow
/// them. Four bytes hold no number from 2^32 on: such encodings are left out.
pub proof fn lemma_composite_begins_with_its_size(t: Term)
    requires
        composite(t),
        encoding(t).len() - 4 < 0x1_0000_0000,
    ensures
        encoding(t).len() >= 4,
        encoding(t).subrange(0, 4) == le_bytes((encoding(t).len() - 4) as nat, 4),
        le_value(encoding(t).subrange(0, 4)) == encoding(t).len() - 4,
{
    match t {
        Term::Tuple(elements) => lemma_framed(joined(elements)),
        Term::Struct(fields) => lemma_framed(joined(fields)),
        Term::Sequence(elements) => lemma_framed(size_prefix(elements.len()) + joined(elements)),
        _ => {},
    }
    assert(radix(4) == 0x1_0000_0000) by {
        reveal_with_fuel(radix, 5);
    }
    lemma_le_round_trip((encoding(t).len() - 4) as nat, 4);
}

/// A sequence of n elements is laid out as the size of all that follows,
/// then n as a size, then the encodings of the n elements one after the
/// other.
pub proof fn lemma_sequence_layout(elements: Seq<Term>)
    ensures
        encoding(Term::Sequence(elements)) == size_prefix(4 + joined(elements).len())
            + size_prefix(elements.len()) + joined(elements),
{
    lemma_le_bytes_len(elements.len() % 0x1_0000_0000, 4);
    assert(encoding(Term::Sequence(elements)) =~= size_prefix(4 + joined(elements).len())
        + size_prefix(elements.len()) + joined(elements));
}

/// Joining no encodings gives no bytes, and one more value adds its encoding
/// at the end.
pub proof fn lemma_joined(items: Seq<Term>, t: Term)
    ensures
        joined(Seq::<Term>::empty()) == Seq::<u8>::empty(),
        joined(items.push(t)) == joined(items) + encoding(t),
{
    assert(items.push(t).drop_last() =~= items);
}

/// A struct and the tuple of its fields, in the order of their declaration,
/// have the same encoding, and the one is supported where the other is.
pub proof fn lemma_struct_is_tuple(fields: Seq<Term>)
    ensures
        encoding(Term::Struct(fields)) == encoding(Term::Tuple(fields)),
        supported(Term::Struct(fields)) == supported(Term::Tuple(fields)),
{
}

} // verus!
