//! Reads values back from their wire layout.
//!
//! The layout carries no tags: the reader has to know the shape of the value
//! that comes next, and each read takes as many bytes as that value's layout
//! has. The sizes that frame tuples, structs and sequences are passed over
//! and bind nothing: what follows them is read by its own layout.

use crate::encoder::{framed, lemma_framed};
use crate::error::Error;
use crate::value::{
    all_supported, encoding, fits, joined, lemma_each_supported, lemma_joined_front, shaped,
    supported, terms, Shape, Term, Value,
};
use crate::wire::{
    from_utf8, le_bytes, le_value, lemma_radix, lemma_read_back, lemma_signed_read_back,
    read_u16, read_u32, read_u64, signed,
};
use vstd::prelude::*;
use vstd::slice::{slice_subrange, slice_to_vec};
use vstd::utf8::{
    decode_utf8, encode_utf8, encode_utf8_decode_utf8, encode_utf8_valid_utf8, valid_utf8,
};

verus! {

/// Bytes that are being read from the front. The view is what has not been
/// read yet.
#[derive(Debug)]
pub struct Decoder {
    input: Vec<u8>,
    position: usize,
}

impl View for Decoder {
    type V = Seq<u8>;

    closed spec fn view(&self) -> Seq<u8> {
        self.input@.skip(self.position as int)
    }
}

/// Whether a read of `width` bytes took `before` to `after`: the bytes are
/// taken from the front if there are that many, and nothing is taken if
/// there are not.
pub open spec fn took(before: Seq<u8>, width: nat, after: Seq<u8>, failed: bool) -> bool {
    if before.len() >= width {
        !failed && after == before.skip(width as int)
    } else {
        failed && after == before
    }
}

/// The bytes of the string at the front of `bytes`, or why there is none:
/// `EndOfBuffer` where the size or the bytes it announces are not all there,
/// `InvalidString` where the bytes are not UTF-8.
pub open spec fn string_at(bytes: Seq<u8>) -> Result<Seq<u8>, Error> {
    if bytes.len() < 4 {
        Err(Error::EndOfBuffer)
    } else {
        let size = le_value(bytes.take(4)) as int;
        if bytes.len() - 4 < size {
            Err(Error::EndOfBuffer)
        } else if valid_utf8(bytes.subrange(4, 4 + size)) {
            Ok(bytes.subrange(4, 4 + size))
        } else {
            Err(Error::InvalidString)
        }
    }
}

/// What a read of a number of `width` bytes gives: the term that `make`
/// makes of the number, and the bytes behind it.
pub open spec fn number_at(bytes: Seq<u8>, width: nat, make: spec_fn(nat) -> Term) -> Result<
    (Term, Seq<u8>),
    Error,
> {
    if bytes.len() < width {
        Err(Error::EndOfBuffer)
    } else {
        Ok((make(le_value(bytes.take(width as int))), bytes.skip(width as int)))
    }
}

/// `rest` with `first` put in front of its terms, where `rest` is no
/// failure.
pub open spec fn after(first: Seq<Term>, rest: Result<(Seq<Term>, Seq<u8>), Error>) -> Result<
    (Seq<Term>, Seq<u8>),
    Error,
> {
    match rest {
        Ok((terms, bytes)) => Ok((first + terms, bytes)),
        Err(e) => Err(e),
    }
}

/// What reading a value of the shape `shape` from the front of `bytes`
/// gives: the value and the bytes behind it, or the failure.
///
/// The failure is `UnsupportedData` where the shape has no layout,
/// `EndOfBuffer` where the bytes end too early, and `InvalidString` where
/// the bytes of a string are not UTF-8. The sizes that frame a tuple, a
/// struct or a sequence are passed over.
pub open spec fn decoded(shape: Shape, bytes: Seq<u8>) -> Result<(Term, Seq<u8>), Error>
    decreases shape, 0nat,
{
    match shape {
        Shape::U64 => number_at(bytes, 8, |n: nat| Term::U64(n as u64)),
        Shape::U32 => number_at(bytes, 4, |n: nat| Term::U32(n as u32)),
        Shape::U16 => number_at(bytes, 2, |n: nat| Term::U16(n as u16)),
        Shape::U8 => number_at(bytes, 1, |n: nat| Term::U8(n as u8)),
        Shape::I64 => number_at(bytes, 8, |n: nat| Term::I64(signed(n, 8) as i64)),
        Shape::I32 => number_at(bytes, 4, |n: nat| Term::I32(signed(n, 4) as i32)),
        Shape::I16 => number_at(bytes, 2, |n: nat| Term::I16(signed(n, 2) as i16)),
        Shape::I8 => number_at(bytes, 1, |n: nat| Term::I8(signed(n, 1) as i8)),
        Shape::Bool => number_at(bytes, 1, |n: nat| Term::Bool(n != 0)),
        Shape::F32 => number_at(bytes, 4, |n: nat| Term::F32(n as u32)),
        Shape::F64 => number_at(bytes, 8, |n: nat| Term::F64(n as u64)),
        Shape::Str => match string_at(bytes) {
            Ok(text) => Ok((Term::Str(decode_utf8(text)), bytes.skip(4 + text.len() as int))),
            Err(e) => Err(e),
        },
        Shape::Tuple(shapes) => if bytes.len() < 4 {
            Err(Error::EndOfBuffer)
        } else {
            match decoded_all(shapes@, bytes.skip(4)) {
                Ok((elements, rest)) => Ok((Term::Tuple(elements), rest)),
                Err(e) => Err(e),
            }
        },
        Shape::Struct(shapes) => if bytes.len() < 4 {
            Err(Error::EndOfBuffer)
        } else {
            match decoded_all(shapes@, bytes.skip(4)) {
                Ok((fields, rest)) => Ok((Term::Struct(fields), rest)),
                Err(e) => Err(e),
            }
        },
        Shape::Sequence(each) => if bytes.len() < 8 {
            Err(Error::EndOfBuffer)
        } else {
            match decoded_each(*each, le_value(bytes.subrange(4, 8)), bytes.skip(8)) {
                Ok((elements, rest)) => Ok((Term::Sequence(elements), rest)),
                Err(e) => Err(e),
            }
        },
        _ => Err(Error::UnsupportedData),
    }
}

/// What reading one value of each of `shapes`, in their order, gives.
pub open spec fn decoded_all(shapes: Seq<Shape>, bytes: Seq<u8>) -> Result<
    (Seq<Term>, Seq<u8>),
    Error,
>
    decreases shapes, 0nat,
{
    if shapes.len() == 0 {
        Ok((Seq::empty(), bytes))
    } else {
        match decoded(shapes[0], bytes) {
            Ok((first, rest)) => after(seq![first], decoded_all(shapes.drop_first(), rest)),
            Err(e) => Err(e),
        }
    }
}

/// What reading `count` values of the shape `shape` gives.
pub open spec fn decoded_each(shape: Shape, count: nat, bytes: Seq<u8>) -> Result<
    (Seq<Term>, Seq<u8>),
    Error,
>
    decreases shape, count + 1,
{
    if count == 0 {
        Ok((Seq::empty(), bytes))
    } else {
        match decoded(shape, bytes) {
            Ok((first, rest)) => after(seq![first], decoded_each(shape, (count - 1) as nat, rest)),
            Err(e) => Err(e),
        }
    }
}

/// The signed number with the bit pattern of `pattern`.
fn as_i8(pattern: u8) -> (v: i8)
    ensures
        v == signed(pattern as nat, 1),
{
    let v = pattern as i8;
    proof {
        lemma_radix();
        assert(v as int == if pattern >= 0x80 {
            pattern as int - 0x100
        } else {
            pattern as int
        }) by (bit_vector)
            requires
                v == pattern as i8,
        ;
    }
    v
}

/// The signed number with the bit pattern of `pattern`.
fn as_i16(pattern: u16) -> (v: i16)
    ensures
        v == signed(pattern as nat, 2),
{
    let v = pattern as i16;
    proof {
        lemma_radix();
        assert(v as int == if pattern >= 0x8000 {
            pattern as int - 0x1_0000
        } else {
            pattern as int
        }) by (bit_vector)
            requires
                v == pattern as i16,
        ;
    }
    v
}

/// The signed number with the bit pattern of `pattern`.
fn as_i32(pattern: u32) -> (v: i32)
    ensures
        v == signed(pattern as nat, 4),
{
    let v = pattern as i32;
    proof {
        lemma_radix();
        assert(v as int == if pattern >= 0x8000_0000 {
            pattern as int - 0x1_0000_0000
        } else {
            pattern as int
        }) by (bit_vector)
            requires
                v == pattern as i32,
        ;
    }
    v
}

/// The signed number with the bit pattern of `pattern`.
fn as_i64(pattern: u64) -> (v: i64)
    ensures
        v == signed(pattern as nat, 8),
{
    let v = pattern as i64;
    proof {
        lemma_radix();
        assert(v as int == if pattern >= 0x8000_0000_0000_0000 {
            pattern as int - 0x1_0000_0000_0000_0000
        } else {
            pattern as int
        }) by (bit_vector)
            requires
                v == pattern as i64,
        ;
    }
    v
}

impl Decoder {
    #[verifier::type_invariant]
    spec fn in_bounds(&self) -> bool {
        self.position <= self.input@.len()
    }

    /// A decoder that has all of `input` before it.
    pub fn new(input: Vec<u8>) -> (decoder: Decoder)
        ensures
            decoder@ == input@,
    {
        let decoder = Decoder { input, position: 0 };
        assert(decoder@ =~= input@);
        decoder
    }

    /// The number of bytes that have not been read.
    pub fn remaining(&self) -> (n: usize)
        ensures
            n == self@.len(),
    {
        proof {
            use_type_invariant(self);
        }
        self.input.len() - self.position
    }

    /// The next `width` bytes, which are then read.
    fn advance(&mut self, width: usize) -> (r: Result<Vec<u8>, Error>)
        ensures
            took(old(self)@, width as nat, final(self)@, r is Err),
            r matches Ok(bytes) ==> bytes@ == old(self)@.take(width as int),
            r is Err ==> r matches Err(Error::EndOfBuffer),
    {
        proof {
            use_type_invariant(&*self);
        }
        let bytes = slice_to_vec(self.slice_at(self.position, width)?);
        assert(self.input@.skip(self.position + width) =~= self@.skip(width as int));
        self.position = self.position + width;
        Ok(bytes)
    }

    /// Reads one byte.
    pub fn read_u8(&mut self) -> (r: Result<u8, Error>)
        ensures
            took(old(self)@, 1, final(self)@, r is Err),
            r matches Ok(v) ==> v == old(self)@[0],
            r is Err ==> r matches Err(Error::EndOfBuffer),
    {
        let bytes = self.advance(1)?;
        Ok(bytes[0])
    }

    /// Reads two bytes as a number, least significant byte first.
    pub fn read_u16(&mut self) -> (r: Result<u16, Error>)
        ensures
            took(old(self)@, 2, final(self)@, r is Err),
            r matches Ok(v) ==> v as nat == le_value(old(self)@.take(2)),
            r is Err ==> r matches Err(Error::EndOfBuffer),
    {
        let bytes = self.advance(2)?;
        assert(bytes@.subrange(0, 2) =~= bytes@);
        Ok(read_u16(bytes.as_slice()))
    }

    /// Reads four bytes as a number, least significant byte first.
    pub fn read_u32(&mut self) -> (r: Result<u32, Error>)
        ensures
            took(old(self)@, 4, final(self)@, r is Err),
            r matches Ok(v) ==> v as nat == le_value(old(self)@.take(4)),
            r is Err ==> r matches Err(Error::EndOfBuffer),
    {
        let bytes = self.advance(4)?;
        assert(bytes@.subrange(0, 4) =~= bytes@);
        Ok(read_u32(bytes.as_slice()))
    }

    /// Reads eight bytes as a number, least significant byte first.
    pub fn read_u64(&mut self) -> (r: Result<u64, Error>)
        ensures
            took(old(self)@, 8, final(self)@, r is Err),
            r matches Ok(v) ==> v as nat == le_value(old(self)@.take(8)),
            r is Err ==> r matches Err(Error::EndOfBuffer),
    {
        let bytes = self.advance(8)?;
        assert(bytes@.subrange(0, 8) =~= bytes@);
        Ok(read_u64(bytes.as_slice()))
    }

    /// Reads one byte as a number in two's complement.
    pub fn read_i8(&mut self) -> (r: Result<i8, Error>)
        ensures
            took(old(self)@, 1, final(self)@, r is Err),
            r matches Ok(v) ==> v == signed(le_value(old(self)@.take(1)), 1),
            r is Err ==> r matches Err(Error::EndOfBuffer),
    {
        let pattern = self.read_u8()?;
        proof {
            reveal_with_fuel(le_value, 2);
            assert(old(self)@.take(1).skip(1).len() == 0);
        }
        Ok(as_i8(pattern))
    }

    /// Reads two bytes as a number in two's complement.
    pub fn read_i16(&mut self) -> (r: Result<i16, Error>)
        ensures
            took(old(self)@, 2, final(self)@, r is Err),
            r matches Ok(v) ==> v == signed(le_value(old(self)@.take(2)), 2),
            r is Err ==> r matches Err(Error::EndOfBuffer),
    {
        let pattern = self.read_u16()?;
        Ok(as_i16(pattern))
    }

    /// Reads four bytes as a number in two's complement.
    pub fn read_i32(&mut self) -> (r: Result<i32, Error>)
        ensures
            took(old(self)@, 4, final(self)@, r is Err),
            r matches Ok(v) ==> v == signed(le_value(old(self)@.take(4)), 4),
            r is Err ==> r matches Err(Error::EndOfBuffer),
    {
        let pattern = self.read_u32()?;
        Ok(as_i32(pattern))
    }

    /// Reads eight bytes as a number in two's complement.
    pub fn read_i64(&mut self) -> (r: Result<i64, Error>)
        ensures
            took(old(self)@, 8, final(self)@, r is Err),
            r matches Ok(v) ==> v == signed(le_value(old(self)@.take(8)), 8),
            r is Err ==> r matches Err(Error::EndOfBuffer),
    {
        let pattern = self.read_u64()?;
        Ok(as_i64(pattern))
    }

    /// Reads one byte as a truth value: 0 is `false`, every other byte is
    /// `true`.
    pub fn read_bool(&mut self) -> (r: Result<bool, Error>)
        ensures
            took(old(self)@, 1, final(self)@, r is Err),
            r matches Ok(v) ==> v == (old(self)@[0] != 0),
            r is Err ==> r matches Err(Error::EndOfBuffer),
    {
        let byte = self.read_u8()?;
        Ok(byte != 0)
    }

    /// Reads the four bytes of a size: that of a string, the number of
    /// elements of a sequence, or the size that frames a tuple, a struct or a
    /// sequence.
    pub fn read_size(&mut self) -> (r: Result<usize, Error>)
        ensures
            took(old(self)@, 4, final(self)@, r is Err),
            r matches Ok(v) ==> v as nat == le_value(old(self)@.take(4)),
            r is Err ==> r matches Err(Error::EndOfBuffer),
    {
        let size = self.read_u32()?;
        Ok(size as usize)
    }

    /// Reads a string: its size, then that many bytes of UTF-8.
    ///
    /// Where the size or the bytes are not all there the error is
    /// `EndOfBuffer`, where the bytes are not UTF-8 it is `InvalidString`. In
    /// both cases nothing is read.
    pub fn read_str(&mut self) -> (r: Result<String, Error>)
        ensures
            match string_at(old(self)@) {
                Ok(bytes) => r matches Ok(text) && encode_utf8(text@) == bytes && final(self)@
                    == old(self)@.skip(4 + bytes.len() as int),
                Err(Error::InvalidString) => r matches Err(Error::InvalidString) && final(self)@
                    == old(self)@,
                Err(_) => r matches Err(Error::EndOfBuffer) && final(self)@ == old(self)@,
            },
    {
        proof {
            use_type_invariant(&*self);
        }
        let ghost before = self@;
        let (text, end) = self.str_at(self.position)?;
        self.position = end;
        assert(self@ =~= before.skip(end - old(self).position));
        Ok(text)
    }

    /// The `width` bytes from `at` on.
    fn slice_at(&self, at: usize, width: usize) -> (r: Result<&[u8], Error>)
        requires
            at <= self.input@.len(),
        ensures
            self.input@.len() - at >= width ==> (r matches Ok(bytes) && bytes@ == self.input@.skip(
                at as int,
            ).take(width as int)),
            self.input@.len() - at < width ==> r matches Err(Error::EndOfBuffer),
            self.input@.len() <= usize::MAX,
    {
        if self.input.len() - at < width {
            return Err(Error::EndOfBuffer);
        }
        let bytes = slice_subrange(self.input.as_slice(), at, at + width);
        assert(bytes@ =~= self.input@.skip(at as int).take(width as int));
        Ok(bytes)
    }

    /// The string that begins at `at`, and where it ends.
    fn str_at(&self, at: usize) -> (r: Result<(String, usize), Error>)
        requires
            at <= self.input@.len(),
        ensures
            match string_at(self.input@.skip(at as int)) {
                Ok(bytes) => r matches Ok((text, end)) && encode_utf8(text@) == bytes && end == at
                    + 4 + bytes.len() && end <= self.input@.len(),
                Err(e) => r == Err::<(String, usize), Error>(e),
            },
    {
        let ghost before = self.input@.skip(at as int);
        if self.input.len() - at < 4 {
            return Err(Error::EndOfBuffer);
        }
        let first = at + 4;
        let size = read_u32(slice_subrange(self.input.as_slice(), at, first)) as usize;
        assert(self.input@.subrange(at as int, first as int).subrange(0, 4) =~= before.take(4));
        if self.input.len() - first < size {
            return Err(Error::EndOfBuffer);
        }
        let bytes = slice_to_vec(slice_subrange(self.input.as_slice(), first, first + size));
        assert(bytes@ =~= before.subrange(4, 4 + size));
        match from_utf8(bytes) {
            Some(text) => Ok((text, first + size)),
            None => Err(Error::InvalidString),
        }
    }

    /// The value of the shape `shape` that begins at `at`, and where it ends.
    fn value_at(&self, shape: &Shape, at: usize) -> (r: Result<(Value, usize), Error>)
        requires
            at <= self.input@.len(),
        ensures
            match decoded(*shape, self.input@.skip(at as int)) {
                Ok((t, rest)) => r matches Ok((v, end)) && v@ == t && at <= end
                    <= self.input@.len() && rest == self.input@.skip(end as int),
                Err(e) => r == Err::<(Value, usize), Error>(e),
            },
        decreases shape, 0nat,
    {
        let ghost bytes = self.input@.skip(at as int);
        match shape {
            Shape::U64 => {
                let b = self.slice_at(at, 8)?;
                assert(b@.subrange(0, 8) =~= b@);
                assert(bytes.skip(8) =~= self.input@.skip(at + 8));
                Ok((Value::U64(read_u64(b)), at + 8))
            },
            Shape::U32 => {
                let b = self.slice_at(at, 4)?;
                assert(b@.subrange(0, 4) =~= b@);
                assert(bytes.skip(4) =~= self.input@.skip(at + 4));
                Ok((Value::U32(read_u32(b)), at + 4))
            },
            Shape::U16 => {
                let b = self.slice_at(at, 2)?;
                assert(b@.subrange(0, 2) =~= b@);
                assert(bytes.skip(2) =~= self.input@.skip(at + 2));
                Ok((Value::U16(read_u16(b)), at + 2))
            },
            Shape::U8 => {
                let b = self.slice_at(at, 1)?;
                proof {
                    lemma_one_byte(b@);
                }
                assert(bytes.skip(1) =~= self.input@.skip(at + 1));
                Ok((Value::U8(b[0]), at + 1))
            },
            Shape::I64 => {
                let b = self.slice_at(at, 8)?;
                assert(b@.subrange(0, 8) =~= b@);
                assert(bytes.skip(8) =~= self.input@.skip(at + 8));
                Ok((Value::I64(as_i64(read_u64(b))), at + 8))
            },
            Shape::I32 => {
                let b = self.slice_at(at, 4)?;
                assert(b@.subrange(0, 4) =~= b@);
                assert(bytes.skip(4) =~= self.input@.skip(at + 4));
                Ok((Value::I32(as_i32(read_u32(b))), at + 4))
            },
            Shape::I16 => {
                let b = self.slice_at(at, 2)?;
                assert(b@.subrange(0, 2) =~= b@);
                assert(bytes.skip(2) =~= self.input@.skip(at + 2));
                Ok((Value::I16(as_i16(read_u16(b))), at + 2))
            },
            Shape::I8 => {
                let b = self.slice_at(at, 1)?;
                proof {
                    lemma_one_byte(b@);
                }
                assert(bytes.skip(1) =~= self.input@.skip(at + 1));
                Ok((Value::I8(as_i8(b[0])), at + 1))
            },
            Shape::Bool => {
                let b = self.slice_at(at, 1)?;
                proof {
                    lemma_one_byte(b@);
                }
                assert(bytes.skip(1) =~= self.input@.skip(at + 1));
                Ok((Value::Bool(b[0] != 0), at + 1))
            },
            Shape::F32 => {
                let b = self.slice_at(at, 4)?;
                assert(b@.subrange(0, 4) =~= b@);
                assert(bytes.skip(4) =~= self.input@.skip(at + 4));
                Ok((Value::F32(read_u32(b)), at + 4))
            },
            Shape::F64 => {
                let b = self.slice_at(at, 8)?;
                assert(b@.subrange(0, 8) =~= b@);
                assert(bytes.skip(8) =~= self.input@.skip(at + 8));
                Ok((Value::F64(read_u64(b)), at + 8))
            },
            Shape::Str => {
                let (text, end) = self.str_at(at)?;
                proof {
                    encode_utf8_decode_utf8(text@);
                    assert(bytes.skip(end - at) =~= self.input@.skip(end as int));
                }
                Ok((Value::Str(text), end))
            },
            Shape::Tuple(shapes) => {
                let _ = self.slice_at(at, 4)?;
                assert(bytes.skip(4) =~= self.input@.skip(at + 4));
                let (elements, end) = self.values_at(shapes, at + 4)?;
                Ok((Value::Tuple(elements), end))
            },
            Shape::Struct(shapes) => {
                let _ = self.slice_at(at, 4)?;
                assert(bytes.skip(4) =~= self.input@.skip(at + 4));
                let (fields, end) = self.values_at(shapes, at + 4)?;
                Ok((Value::Struct(fields), end))
            },
            Shape::Sequence(each) => {
                let sizes = self.slice_at(at, 8)?;
                let count = read_u32(slice_subrange(sizes, 4, 8)) as usize;
                assert(sizes@.subrange(4, 8).subrange(0, 4) =~= bytes.subrange(4, 8));
                assert(bytes.skip(8) =~= self.input@.skip(at + 8));
                let (elements, end) = self.values_each(each, count, at + 8)?;
                Ok((Value::Sequence(elements), end))
            },
            _ => Err(Error::UnsupportedData),
        }
    }

    /// One value of each of `shapes` from `at` on, and where the last ends.
    fn values_at(&self, shapes: &Vec<Shape>, at: usize) -> (r: Result<(Vec<Value>, usize), Error>)
        requires
            at <= self.input@.len(),
        ensures
            match decoded_all(shapes@, self.input@.skip(at as int)) {
                Ok((ts, rest)) => r matches Ok((vs, end)) && terms(vs@) == ts && at <= end
                    <= self.input@.len() && rest == self.input@.skip(end as int),
                Err(e) => r == Err::<(Vec<Value>, usize), Error>(e),
            },
        decreases shapes, 0nat,
    {
        let ghost whole = decoded_all(shapes@, self.input@.skip(at as int));
        let mut values: Vec<Value> = Vec::new();
        let mut position = at;
        let mut i: usize = 0;
        proof {
            assert(shapes@.skip(0) =~= shapes@);
            lemma_after_nothing(decoded_all(shapes@, self.input@.skip(at as int)));
        }
        while i < shapes.len()
            invariant
                i <= shapes.len(),
                at <= position <= self.input@.len(),
                whole == decoded_all(shapes@, self.input@.skip(at as int)),
                whole == after(
                    terms(values@),
                    decoded_all(shapes@.skip(i as int), self.input@.skip(position as int)),
                ),
            decreases shapes.len() - i,
        {
            let ghost left = shapes@.skip(i as int);
            let ghost bytes = self.input@.skip(position as int);
            assert(left[0] == shapes@[i as int]);
            assert(left.drop_first() =~= shapes@.skip(i + 1));
            match self.value_at(&shapes[i], position) {
                Ok((v, end)) => {
                    proof {
                        lemma_after_one(
                            terms(values@),
                            v@,
                            decoded_all(shapes@.skip(i + 1), self.input@.skip(end as int)),
                        );
                        assert(values@.push(v).drop_last() =~= values@);
                    }
                    values.push(v);
                    position = end;
                },
                Err(e) => {
                    return Err(e);
                },
            }
            i += 1;
        }
        proof {
            assert(terms(values@) + Seq::<Term>::empty() =~= terms(values@));
        }
        Ok((values, position))
    }

    /// `count` values of the shape `shape` from `at` on, and where the last
    /// ends.
    fn values_each(&self, shape: &Shape, count: usize, at: usize) -> (r: Result<
        (Vec<Value>, usize),
        Error,
    >)
        requires
            at <= self.input@.len(),
        ensures
            match decoded_each(*shape, count as nat, self.input@.skip(at as int)) {
                Ok((ts, rest)) => r matches Ok((vs, end)) && terms(vs@) == ts && at <= end
                    <= self.input@.len() && rest == self.input@.skip(end as int),
                Err(e) => r == Err::<(Vec<Value>, usize), Error>(e),
            },
        decreases shape, count + 1,
    {
        let ghost whole = decoded_each(*shape, count as nat, self.input@.skip(at as int));
        let mut values: Vec<Value> = Vec::new();
        let mut position = at;
        let mut i: usize = 0;
        proof {
            lemma_after_nothing(whole);
        }
        while i < count
            invariant
                i <= count,
                at <= position <= self.input@.len(),
                whole == decoded_each(*shape, count as nat, self.input@.skip(at as int)),
                whole == after(
                    terms(values@),
                    decoded_each(*shape, (count - i) as nat, self.input@.skip(position as int)),
                ),
            decreases count - i,
        {
            match self.value_at(shape, position) {
                Ok((v, end)) => {
                    proof {
                        lemma_after_one(
                            terms(values@),
                            v@,
                            decoded_each(
                                *shape,
                                (count - i - 1) as nat,
                                self.input@.skip(end as int),
                            ),
                        );
                        assert(values@.push(v).drop_last() =~= values@);
                    }
                    values.push(v);
                    position = end;
                },
                Err(e) => {
                    return Err(e);
                },
            }
            i += 1;
        }
        proof {
            assert(terms(values@) + Seq::<Term>::empty() =~= terms(values@));
        }
        Ok((values, position))
    }

    /// Reads a value of the shape `shape`.
    ///
    /// Numbers, truth values and strings are read as by the reads of their
    /// own; of a tuple or a struct the size that frames it is passed over and
    /// the elements are read in order; of a sequence that size is passed
    /// over, the number of elements is read, and so many elements are read.
    /// On a failure nothing is read.
    pub fn read_value(&mut self, shape: &Shape) -> (r: Result<Value, Error>)
        ensures
            match decoded(*shape, old(self)@) {
                Ok((t, rest)) => r matches Ok(v) && v@ == t && final(self)@ == rest,
                Err(e) => r == Err::<Value, Error>(e) && final(self)@ == old(self)@,
            },
    {
        proof {
            use_type_invariant(&*self);
        }
        let (v, end) = self.value_at(shape, self.position)?;
        self.position = end;
        Ok(v)
    }
}

/// A string that was laid out in front of `rest` is found there again,
/// unless it is too long for its size to be written in four bytes.
pub proof fn lemma_string_read_back(text: Seq<char>, rest: Seq<u8>)
    requires
        encode_utf8(text).len() < 0x1_0000_0000,
    ensures
        string_at(framed(encode_utf8(text)) + rest) == Ok::<Seq<u8>, Error>(encode_utf8(text)),
        (framed(encode_utf8(text)) + rest).skip(4 + encode_utf8(text).len() as int) == rest,
{
    let bytes = encode_utf8(text);
    let all = framed(bytes) + rest;
    lemma_radix();
    lemma_framed(bytes);
    lemma_read_back(bytes.len(), 4, bytes + rest);
    encode_utf8_valid_utf8(text);
    assert(all =~= le_bytes(bytes.len(), 4) + (bytes + rest));
    assert(all.subrange(4, 4 + bytes.len() as int) =~= bytes);
    assert(all.skip(4 + bytes.len() as int) =~= rest);
}

/// The number that one byte holds is the byte.
proof fn lemma_one_byte(bytes: Seq<u8>)
    requires
        bytes.len() == 1,
    ensures
        le_value(bytes) == bytes[0],
{
    reveal_with_fuel(le_value, 2);
    assert(bytes.skip(1).len() == 0);
}

/// Putting nothing in front changes nothing.
proof fn lemma_after_nothing(rest: Result<(Seq<Term>, Seq<u8>), Error>)
    ensures
        after(terms(Seq::<Value>::empty()), rest) == rest,
{
    if rest is Ok {
        assert(Seq::<Term>::empty() + rest->Ok_0.0 =~= rest->Ok_0.0);
    }
}

/// Putting `done` in front of what has `next` in front is putting `done`
/// with `next` in front.
proof fn lemma_after_one(
    done: Seq<Term>,
    next: Term,
    rest: Result<(Seq<Term>, Seq<u8>), Error>,
)
    ensures
        after(done, after(seq![next], rest)) == after(done.push(next), rest),
{
    if rest is Ok {
        assert(done + (seq![next] + rest->Ok_0.0) =~= done.push(next) + rest->Ok_0.0);
    }
}

/// A value that was laid out is read back by its shape: reading a supported
/// value of the shape `shape` from its encoding, with `rest` behind it,
/// gives the value and leaves `rest`.
///
/// A reader goes by the length that a string announces and by the number of
/// elements that a sequence announces, so both have to fit in the four bytes
/// that announce them.
pub proof fn lemma_round_trip(t: Term, shape: Shape, rest: Seq<u8>)
    requires
        supported(t),
        shaped(t, shape),
        fits(t),
    ensures
        decoded(shape, encoding(t) + rest) == Ok::<(Term, Seq<u8>), Error>((t, rest)),
    decreases t, 1nat,
{
    match t {
        Term::U64(_) | Term::U32(_) | Term::U16(_) | Term::F32(_) | Term::F64(_) => {
            lemma_unsigned_round_trip(t, shape, rest);
        },
        Term::I64(_) | Term::I32(_) | Term::I16(_) | Term::I8(_) => {
            lemma_signed_round_trip(t, shape, rest);
        },
        Term::U8(_) | Term::Bool(_) => {
            lemma_byte_round_trip(t, shape, rest);
        },
        Term::Str(text) => {
            lemma_string_read_back(text, rest);
            encode_utf8_decode_utf8(text);
        },
        Term::Tuple(_) | Term::Struct(_) => {
            lemma_frame_round_trip(t, shape, rest);
        },
        Term::Sequence(_) => {
            lemma_sequence_round_trip(t, shape, rest);
        },
        _ => {},
    }
}

/// An unsigned number or the bits of a floating-point number are read back.
proof fn lemma_unsigned_round_trip(t: Term, shape: Shape, rest: Seq<u8>)
    requires
        t is U64 || t is U32 || t is U16 || t is F32 || t is F64,
        shaped(t, shape),
    ensures
        decoded(shape, encoding(t) + rest) == Ok::<(Term, Seq<u8>), Error>((t, rest)),
{
    lemma_radix();
    match t {
        Term::U64(x) => lemma_read_back(x as nat, 8, rest),
        Term::U32(x) => lemma_read_back(x as nat, 4, rest),
        Term::U16(x) => lemma_read_back(x as nat, 2, rest),
        Term::F32(bits) => lemma_read_back(bits as nat, 4, rest),
        Term::F64(bits) => lemma_read_back(bits as nat, 8, rest),
        _ => {},
    }
}

/// A signed number is read back.
proof fn lemma_signed_round_trip(t: Term, shape: Shape, rest: Seq<u8>)
    requires
        t is I64 || t is I32 || t is I16 || t is I8,
        shaped(t, shape),
    ensures
        decoded(shape, encoding(t) + rest) == Ok::<(Term, Seq<u8>), Error>((t, rest)),
{
    lemma_radix();
    match t {
        Term::I64(x) => lemma_signed_read_back(x as int, 8, rest),
        Term::I32(x) => lemma_signed_read_back(x as int, 4, rest),
        Term::I16(x) => lemma_signed_read_back(x as int, 2, rest),
        Term::I8(x) => lemma_signed_read_back(x as int, 1, rest),
        _ => {},
    }
}

/// A byte or a truth value is read back.
proof fn lemma_byte_round_trip(t: Term, shape: Shape, rest: Seq<u8>)
    requires
        t is U8 || t is Bool,
        shaped(t, shape),
    ensures
        decoded(shape, encoding(t) + rest) == Ok::<(Term, Seq<u8>), Error>((t, rest)),
{
    let bytes = encoding(t) + rest;
    lemma_one_byte(bytes.take(1));
    assert(bytes.skip(1) =~= rest);
}

/// A tuple or a struct is read back.
proof fn lemma_frame_round_trip(t: Term, shape: Shape, rest: Seq<u8>)
    requires
        t is Tuple || t is Struct,
        supported(t),
        shaped(t, shape),
        fits(t),
    ensures
        decoded(shape, encoding(t) + rest) == Ok::<(Term, Seq<u8>), Error>((t, rest)),
    decreases t, 0nat,
{
    let bytes = encoding(t) + rest;
    match t {
        Term::Tuple(elements) => {
            let shapes = shape->Tuple_0;
            lemma_framed(joined(elements));
            assert(bytes.skip(4) =~= joined(elements) + rest);
            assert(elements.skip(0) =~= elements);
            assert(shapes@.skip(0) =~= shapes@);
            lemma_all_round_trip(elements, shapes@, 0, rest);
        },
        Term::Struct(fields) => {
            let shapes = shape->Struct_0;
            lemma_framed(joined(fields));
            assert(bytes.skip(4) =~= joined(fields) + rest);
            assert(fields.skip(0) =~= fields);
            assert(shapes@.skip(0) =~= shapes@);
            lemma_all_round_trip(fields, shapes@, 0, rest);
        },
        _ => {},
    }
}

/// A sequence is read back.
proof fn lemma_sequence_round_trip(t: Term, shape: Shape, rest: Seq<u8>)
    requires
        t is Sequence,
        supported(t),
        shaped(t, shape),
        fits(t),
    ensures
        decoded(shape, encoding(t) + rest) == Ok::<(Term, Seq<u8>), Error>((t, rest)),
    decreases t, 0nat,
{
    let bytes = encoding(t) + rest;
    let elements = t->Sequence_0;
    let each = *shape->Sequence_0;
    let count = le_bytes(elements.len(), 4);
    let body = count + joined(elements);
    lemma_radix();
    lemma_framed(body);
    lemma_read_back(elements.len(), 4, joined(elements) + rest);
    assert(bytes.skip(4) =~= count + (joined(elements) + rest));
    assert(bytes.subrange(4, 8) =~= bytes.skip(4).take(4));
    assert(bytes.skip(8) =~= bytes.skip(4).skip(4));
    assert(elements.skip(0) =~= elements);
    lemma_each_round_trip(elements, each, 0, rest);
}

/// The elements of a tuple or a struct from the `k`th on are read back by
/// their shapes.
proof fn lemma_all_round_trip(elements: Seq<Term>, shapes: Seq<Shape>, k: int, rest: Seq<u8>)
    requires
        0 <= k <= elements.len(),
        shapes.len() == elements.len(),
        all_supported(elements),
        forall|i: int| 0 <= i < elements.len() ==> shaped(#[trigger] elements[i], shapes[i]),
        forall|i: int| 0 <= i < elements.len() ==> fits(#[trigger] elements[i]),
    ensures
        decoded_all(shapes.skip(k), joined(elements.skip(k)) + rest) == Ok::<
            (Seq<Term>, Seq<u8>),
            Error,
        >((elements.skip(k), rest)),
    decreases elements, elements.len() - k + 1,
{
    let left = elements.skip(k);
    if k == elements.len() {
        assert(left =~= Seq::<Term>::empty());
        assert(joined(left) + rest =~= rest);
    } else {
        let tail = joined(elements.skip(k + 1)) + rest;
        lemma_joined_front(left);
        assert(left.drop_first() =~= elements.skip(k + 1));
        assert(shapes.skip(k).drop_first() =~= shapes.skip(k + 1));
        assert(joined(left) + rest =~= encoding(elements[k]) + tail);
        lemma_each_supported(elements, k);
        lemma_round_trip(elements[k], shapes[k], tail);
        lemma_all_round_trip(elements, shapes, k + 1, rest);
        assert(seq![elements[k]] + elements.skip(k + 1) =~= left);
    }
}

/// The elements of a sequence from the `k`th on are read back by the shape
/// that they share.
proof fn lemma_each_round_trip(elements: Seq<Term>, each: Shape, k: int, rest: Seq<u8>)
    requires
        0 <= k <= elements.len(),
        all_supported(elements),
        forall|i: int| 0 <= i < elements.len() ==> shaped(#[trigger] elements[i], each),
        forall|i: int| 0 <= i < elements.len() ==> fits(#[trigger] elements[i]),
    ensures
        decoded_each(each, (elements.len() - k) as nat, joined(elements.skip(k)) + rest) == Ok::<
            (Seq<Term>, Seq<u8>),
            Error,
        >((elements.skip(k), rest)),
    decreases elements, elements.len() - k + 1,
{
    let left = elements.skip(k);
    if k == elements.len() {
        assert(left =~= Seq::<Term>::empty());
        assert(joined(left) + rest =~= rest);
    } else {
        let tail = joined(elements.skip(k + 1)) + rest;
        lemma_joined_front(left);
        assert(left.drop_first() =~= elements.skip(k + 1));
        assert(joined(left) + rest =~= encoding(elements[k]) + tail);
        lemma_each_supported(elements, k);
        lemma_round_trip(elements[k], each, tail);
        lemma_each_round_trip(elements, each, k + 1, rest);
        assert(seq![elements[k]] + elements.skip(k + 1) =~= left);
    }
}

} // verus!
