//! Streaming encoder for the TCPROS binary layout.
//!
//! Every multi-byte integer is little-endian. Strings, tuples, structs and
//! sequences are framed: four bytes announce how many bytes follow. A frame's
//! size is known only once its content has been written, so the encoder
//! reserves the four bytes first and fills them in afterwards.

use crate::error::Error;
use crate::wire::{
    le_bytes, lemma_le_bytes_len, radix, unsigned, write_i16, write_i32, write_i64, write_u16,
    write_u32, write_u64,
};
use vstd::prelude::*;
use vstd::slice::slice_to_vec;
use vstd::utf8::encode_utf8;

verus! {

/// The four bytes that announce `count` following bytes. The wire has room
/// for 32 bits: a larger count is cut to its low 32 bits.
pub open spec fn size_prefix(count: nat) -> Seq<u8> {
    le_bytes(count % 0x1_0000_0000, 4)
}

/// Four bytes set aside for a size that is not known yet.
pub open spec fn reserved_slot() -> Seq<u8> {
    seq![0u8, 0u8, 0u8, 0u8]
}

/// `bytes` with the four bytes at `position` replaced by `prefix`.
pub open spec fn with_prefix(bytes: Seq<u8>, position: int, prefix: Seq<u8>) -> Seq<u8> {
    bytes.subrange(0, position) + prefix + bytes.skip(position + 4)
}

/// `bytes` with the slot at `position` filled in: it announces everything
/// that follows it.
pub open spec fn backfilled(bytes: Seq<u8>, position: int) -> Seq<u8> {
    with_prefix(bytes, position, size_prefix((bytes.len() - position - 4) as nat))
}

/// `body` behind the four bytes that announce its length.
pub open spec fn framed(body: Seq<u8>) -> Seq<u8> {
    size_prefix(body.len()) + body
}

/// Whether `end` begins with all of `start`.
pub open spec fn extends(start: Seq<u8>, end: Seq<u8>) -> bool {
    start.len() <= end.len() && end.subrange(0, start.len() as int) =~= start
}

/// Whether the four bytes at `position` announce exactly the bytes that
/// follow them.
pub open spec fn framed_at(bytes: Seq<u8>, position: int) -> bool {
    &&& 0 <= position
    &&& position + 4 <= bytes.len()
    &&& bytes.subrange(position, position + 4) == size_prefix((bytes.len() - position - 4) as nat)
}

/// Filling in a slot changes the four bytes of the slot and nothing else,
/// and afterwards the slot announces what follows it.
pub proof fn lemma_backfilled(bytes: Seq<u8>, position: int)
    requires
        0 <= position,
        position + 4 <= bytes.len(),
    ensures
        backfilled(bytes, position).len() == bytes.len(),
        framed_at(backfilled(bytes, position), position),
        backfilled(bytes, position).subrange(0, position) == bytes.subrange(0, position),
        backfilled(bytes, position).skip(position + 4) == bytes.skip(position + 4),
{
    let prefix = size_prefix((bytes.len() - position - 4) as nat);
    lemma_le_bytes_len(((bytes.len() - position - 4) as nat) % 0x1_0000_0000, 4);
    let filled = backfilled(bytes, position);
    assert(filled.subrange(position, position + 4) =~= prefix);
    assert(filled.subrange(0, position) =~= bytes.subrange(0, position));
    assert(filled.skip(position + 4) =~= bytes.skip(position + 4));
}

/// A frame is four bytes longer than its body and begins with the body's
/// announced length.
pub proof fn lemma_framed(body: Seq<u8>)
    ensures
        framed(body).len() == body.len() + 4,
        framed(body).subrange(0, 4) == size_prefix(body.len()),
        framed(body).skip(4) == body,
{
    lemma_le_bytes_len(body.len() % 0x1_0000_0000, 4);
    assert(framed(body).subrange(0, 4) =~= size_prefix(body.len()));
    assert(framed(body).skip(4) =~= body);
}

/// Reserving a slot after `before`, writing `body` and filling the slot in
/// leaves `before` followed by the framed `body`.
pub proof fn lemma_frame(before: Seq<u8>, body: Seq<u8>)
    ensures
        backfilled(before + reserved_slot() + body, before.len() as int) == before + framed(body),
{
    lemma_le_bytes_len(body.len() % 0x1_0000_0000, 4);
    assert(backfilled(before + reserved_slot() + body, before.len() as int) =~= before + framed(
        body,
    ));
}

/// What has been encoded so far, as one run of bytes. Its view is the
/// sequence of bytes that `write_to` hands out.
#[derive(Debug)]
pub struct Encoder {
    output: Vec<u8>,
}

impl View for Encoder {
    type V = Seq<u8>;

    closed spec fn view(&self) -> Seq<u8> {
        self.output@
    }
}

/// `width` bytes to be written over.
fn blank(width: usize) -> (buffer: Vec<u8>)
    ensures
        buffer@.len() == width,
{
    vec![0u8; width]
}

/// The low 32 bits of a size.
fn low_bits(v: usize) -> (low: u32)
    ensures
        low as nat == (v as nat) % 0x1_0000_0000,
{
    let wide: u64 = v as u64;
    (wide % 0x1_0000_0000) as u32
}

impl Encoder {
    /// An encoder that holds no bytes.
    pub fn new() -> (encoder: Encoder)
        ensures
            encoder@ == Seq::<u8>::empty(),
    {
        Encoder { output: Vec::new() }
    }

    /// The number of bytes encoded so far.
    pub fn len(&self) -> (n: usize)
        ensures
            n == self@.len(),
    {
        self.output.len()
    }

    /// Appends everything encoded so far to `output`.
    pub fn write_to(&self, output: &mut Vec<u8>) -> (r: Result<(), std::io::Error>)
        ensures
            r is Ok,
            final(output)@ == old(output)@ + self@,
    {
        output.extend_from_slice(self.output.as_slice());
        Ok(())
    }

    /// Appends a size as four little-endian bytes.
    pub fn write_size(&mut self, v: usize) -> (r: Result<(), Error>)
        ensures
            r is Ok,
            final(self)@ == old(self)@ + size_prefix(v as nat),
    {
        let mut buffer = blank(4);
        write_u32(&mut buffer, low_bits(v));
        assert(buffer@ =~= size_prefix(v as nat));
        self.write_variable(buffer)
    }

    /// Appends `buffer` as it is.
    pub fn write_variable(&mut self, buffer: Vec<u8>) -> (r: Result<(), Error>)
        ensures
            r is Ok,
            final(self)@ == old(self)@ + buffer@,
    {
        let mut buffer = buffer;
        self.output.append(&mut buffer);
        Ok(())
    }

    /// Overwrites the four bytes at `position` with a size. The four bytes
    /// must be there.
    pub fn write_size_in_middle(&mut self, position: usize, v: usize) -> (r: Result<(), Error>)
        requires
            position + 4 <= old(self)@.len(),
        ensures
            r is Ok,
            final(self)@ == with_prefix(old(self)@, position as int, size_prefix(v as nat)),
    {
        let mut buffer = blank(4);
        write_u32(&mut buffer, low_bits(v));
        proof {
            lemma_le_bytes_len((v as nat) % 0x1_0000_0000, 4);
            assert(buffer@ =~= size_prefix(v as nat));
        }
        let total: usize = self.output.len();
        let mut i: usize = 0;
        while i < 4
            invariant
                i <= 4,
                position + 4 <= total,
                buffer@.len() == 4,
                self.output@.len() == total,
                total == old(self)@.len(),
                forall|k: int|
                    0 <= k < total ==> self.output@[k] == if position <= k < position + i {
                        buffer@[k - position]
                    } else {
                        old(self)@[k]
                    },
            decreases 4 - i,
        {
            self.output.set(position + i, buffer[i]);
            i += 1;
        }
        assert(self.output@ =~= with_prefix(old(self)@, position as int, buffer@));
        Ok(())
    }

    /// Appends four bytes that a later `write_size_in_middle` overwrites.
    fn reserve_slot(&mut self)
        ensures
            final(self)@ == old(self)@ + reserved_slot(),
    {
        self.output.push(0);
        self.output.push(0);
        self.output.push(0);
        self.output.push(0);
        assert(self.output@ =~= old(self)@ + reserved_slot());
    }

    /// `write_size_in_middle`, with its result spelled out.
    fn fill_slot(&mut self, position: usize, v: usize) -> (r: Result<(), Error>)
        requires
            position + 4 <= old(self)@.len(),
        ensures
            r == Ok::<(), Error>(()),
            final(self)@ == with_prefix(old(self)@, position as int, size_prefix(v as nat)),
    {
        let r = self.write_size_in_middle(position, v);
        assert(r->Ok_0 == ());
        r
    }

    /// The unit value has no layout.
    pub fn emit_nil(&mut self) -> (r: Result<(), Error>)
        ensures
            r matches Err(Error::UnsupportedData),
            final(self)@ == old(self)@,
    {
        Err(Error::UnsupportedData)
    }

    /// An integer of the platform's width has no layout: its width differs
    /// between peers.
    pub fn emit_usize(&mut self, _v: usize) -> (r: Result<(), Error>)
        ensures
            r matches Err(Error::UnsupportedData),
            final(self)@ == old(self)@,
    {
        Err(Error::UnsupportedData)
    }

    /// Eight bytes, least significant first.
    pub fn emit_u64(&mut self, v: u64) -> (r: Result<(), Error>)
        ensures
            r is Ok,
            final(self)@ == old(self)@ + le_bytes(v as nat, 8),
    {
        let mut buffer = blank(8);
        write_u64(&mut buffer, v);
        assert(buffer@ =~= le_bytes(v as nat, 8));
        self.write_variable(buffer)
    }

    /// Four bytes, least significant first.
    pub fn emit_u32(&mut self, v: u32) -> (r: Result<(), Error>)
        ensures
            r is Ok,
            final(self)@ == old(self)@ + le_bytes(v as nat, 4),
    {
        let mut buffer = blank(4);
        write_u32(&mut buffer, v);
        assert(buffer@ =~= le_bytes(v as nat, 4));
        self.write_variable(buffer)
    }

    /// Two bytes, least significant first.
    pub fn emit_u16(&mut self, v: u16) -> (r: Result<(), Error>)
        ensures
            r is Ok,
            final(self)@ == old(self)@ + le_bytes(v as nat, 2),
    {
        let mut buffer = blank(2);
        write_u16(&mut buffer, v);
        assert(buffer@ =~= le_bytes(v as nat, 2));
        self.write_variable(buffer)
    }

    /// One byte.
    pub fn emit_u8(&mut self, v: u8) -> (r: Result<(), Error>)
        ensures
            r is Ok,
            final(self)@ == old(self)@ + seq![v],
    {
        let mut buffer: Vec<u8> = Vec::new();
        buffer.push(v);
        self.write_variable(buffer)
    }

    /// A signed integer of the platform's width has no layout.
    pub fn emit_isize(&mut self, _v: isize) -> (r: Result<(), Error>)
        ensures
            r matches Err(Error::UnsupportedData),
            final(self)@ == old(self)@,
    {
        Err(Error::UnsupportedData)
    }

    /// Eight bytes of two's complement, least significant first.
    pub fn emit_i64(&mut self, v: i64) -> (r: Result<(), Error>)
        ensures
            r is Ok,
            final(self)@ == old(self)@ + le_bytes(unsigned(v as int, 8), 8),
    {
        let mut buffer = blank(8);
        write_i64(&mut buffer, v);
        assert(buffer@ =~= le_bytes(unsigned(v as int, 8), 8));
        self.write_variable(buffer)
    }

    /// Four bytes of two's complement, least significant first.
    pub fn emit_i32(&mut self, v: i32) -> (r: Result<(), Error>)
        ensures
            r is Ok,
            final(self)@ == old(self)@ + le_bytes(unsigned(v as int, 4), 4),
    {
        let mut buffer = blank(4);
        write_i32(&mut buffer, v);
        assert(buffer@ =~= le_bytes(unsigned(v as int, 4), 4));
        self.write_variable(buffer)
    }

    /// Two bytes of two's complement, least significant first.
    pub fn emit_i16(&mut self, v: i16) -> (r: Result<(), Error>)
        ensures
            r is Ok,
            final(self)@ == old(self)@ + le_bytes(unsigned(v as int, 2), 2),
    {
        let mut buffer = blank(2);
        write_i16(&mut buffer, v);
        assert(buffer@ =~= le_bytes(unsigned(v as int, 2), 2));
        self.write_variable(buffer)
    }

    /// One byte of two's complement.
    pub fn emit_i8(&mut self, v: i8) -> (r: Result<(), Error>)
        ensures
            r is Ok,
            final(self)@ == old(self)@ + le_bytes(unsigned(v as int, 1), 1),
    {
        let byte = v as u8;
        assert(byte as int == if v < 0 {
            v + 0x100
        } else {
            v as int
        }) by (bit_vector)
            requires
                byte == v as u8,
        ;
        let mut buffer: Vec<u8> = Vec::new();
        buffer.push(byte);
        proof {
            reveal_with_fuel(le_bytes, 2);
            reveal_with_fuel(radix, 2);
            assert(buffer@ =~= le_bytes(unsigned(v as int, 1), 1));
        }
        self.write_variable(buffer)
    }

    /// One byte: 1 for `true`, 0 for `false`.
    pub fn emit_bool(&mut self, v: bool) -> (r: Result<(), Error>)
        ensures
            r is Ok,
            final(self)@ == old(self)@ + seq![if v { 1u8 } else { 0u8 }],
    {
        let mut buffer: Vec<u8> = Vec::new();
        buffer.push(if v { 1u8 } else { 0u8 });
        self.write_variable(buffer)
    }

    /// A single character has no layout: send it as a string or as a `u32`.
    pub fn emit_char(&mut self, _v: char) -> (r: Result<(), Error>)
        ensures
            r matches Err(Error::UnsupportedData),
            final(self)@ == old(self)@,
    {
        Err(Error::UnsupportedData)
    }

    /// The length of the UTF-8 bytes as a size, then the bytes.
    pub fn emit_str(&mut self, v: &str) -> (r: Result<(), Error>)
        ensures
            r is Ok,
            final(self)@ == old(self)@ + framed(encode_utf8(v@)),
    {
        let data = slice_to_vec(v.as_bytes());
        self.write_size(data.len())?;
        self.write_variable(data)
    }

    /// An enumeration has no layout.
    pub fn emit_enum<F>(&mut self, _name: &str, _f: F) -> (r: Result<(), Error>) where
        F: FnOnce(&mut Encoder) -> Result<(), Error>,

        ensures
            r matches Err(Error::UnsupportedData),
            final(self)@ == old(self)@,
    {
        Err(Error::UnsupportedData)
    }

    /// A variant of an enumeration has no layout.
    pub fn emit_enum_variant<F>(
        &mut self,
        _name: &str,
        _id: usize,
        _len: usize,
        _f: F,
    ) -> (r: Result<(), Error>) where
        F: FnOnce(&mut Encoder) -> Result<(), Error>,

        ensures
            r matches Err(Error::UnsupportedData),
            final(self)@ == old(self)@,
    {
        Err(Error::UnsupportedData)
    }

    /// A field of a variant has no layout.
    pub fn emit_enum_variant_arg<F>(&mut self, _idx: usize, _f: F) -> (r: Result<(), Error>) where
        F: FnOnce(&mut Encoder) -> Result<(), Error>,

        ensures
            r matches Err(Error::UnsupportedData),
            final(self)@ == old(self)@,
    {
        Err(Error::UnsupportedData)
    }

    /// A variant with named fields has no layout.
    pub fn emit_enum_struct_variant<F>(
        &mut self,
        _name: &str,
        _id: usize,
        _len: usize,
        _f: F,
    ) -> (r: Result<(), Error>) where
        F: FnOnce(&mut Encoder) -> Result<(), Error>,

        ensures
            r matches Err(Error::UnsupportedData),
            final(self)@ == old(self)@,
    {
        Err(Error::UnsupportedData)
    }

    /// A named field of a variant has no layout.
    pub fn emit_enum_struct_variant_field<F>(
        &mut self,
        _name: &str,
        _idx: usize,
        _f: F,
    ) -> (r: Result<(), Error>) where
        F: FnOnce(&mut Encoder) -> Result<(), Error>,

        ensures
            r matches Err(Error::UnsupportedData),
            final(self)@ == old(self)@,
    {
        Err(Error::UnsupportedData)
    }

    /// A struct is laid out as the tuple of its fields in the order of their
    /// declaration: neither its name nor theirs is written. What holds of
    /// `emit_tuple` holds of this.
    pub fn emit_struct<F>(&mut self, _name: &str, len: usize, f: F) -> (r: Result<(), Error>) where
        F: FnOnce(&mut Encoder) -> Result<(), Error>,

        requires
            forall|e: &mut Encoder|
                e@ == old(self)@ + reserved_slot() ==> #[trigger] call_requires(f, (e,)),
            forall|e: &mut Encoder, out: Result<(), Error>|
                e@ == old(self)@ + reserved_slot() && #[trigger] call_ensures(f, (e,), out)
                    ==> e@.len() <= final(e)@.len(),
        ensures
            exists|e: &mut Encoder|
                e@ == old(self)@ + reserved_slot() && #[trigger] call_ensures(f, (e,), r)
                    && final(self)@ == if r is Ok {
                    backfilled(final(e)@, old(self)@.len() as int)
                } else {
                    final(e)@
                },
            r is Ok ==> framed_at(final(self)@, old(self)@.len() as int),
    {
        self.emit_tuple(len, f)
    }

    /// A field of a struct is laid out as `f` writes it.
    pub fn emit_struct_field<F>(
        &mut self,
        _name: &str,
        _idx: usize,
        f: F,
    ) -> (r: Result<(), Error>) where
        F: FnOnce(&mut Encoder) -> Result<(), Error>,

        requires
            forall|e: &mut Encoder| e@ == old(self)@ ==> #[trigger] call_requires(f, (e,)),
        ensures
            exists|e: &mut Encoder|
                e@ == old(self)@ && final(e)@ == final(self)@ && #[trigger] call_ensures(
                    f,
                    (e,),
                    r,
                ),
    {
        f(self)
    }

    /// A frame around what `f` writes: a slot of four bytes is reserved, `f`
    /// writes the elements, and the slot is filled in with the number of bytes
    /// that follow it.
    ///
    /// `f` is run on the encoder as it is once the slot is reserved, and must
    /// not leave it with fewer bytes than it found there. If `f` fails, its
    /// error is returned and the slot stays as it was reserved.
    pub fn emit_tuple<F>(&mut self, _len: usize, f: F) -> (r: Result<(), Error>) where
        F: FnOnce(&mut Encoder) -> Result<(), Error>,

        requires
            forall|e: &mut Encoder|
                e@ == old(self)@ + reserved_slot() ==> #[trigger] call_requires(f, (e,)),
            forall|e: &mut Encoder, out: Result<(), Error>|
                e@ == old(self)@ + reserved_slot() && #[trigger] call_ensures(f, (e,), out)
                    ==> e@.len() <= final(e)@.len(),
        ensures
            exists|e: &mut Encoder|
                e@ == old(self)@ + reserved_slot() && #[trigger] call_ensures(f, (e,), r)
                    && final(self)@ == if r is Ok {
                    backfilled(final(e)@, old(self)@.len() as int)
                } else {
                    final(e)@
                },
            r is Ok ==> framed_at(final(self)@, old(self)@.len() as int),
    {
        let position = self.output.len();
        self.reserve_slot();
        let out = f(self);
        match out {
            Ok(done) => {
                proof {
                    lemma_backfilled(self@, position as int);
                    assert(done == ());
                }
                let length = self.output.len() - position - 4;
                self.fill_slot(position, length)
            },
            Err(e) => Err(e),
        }
    }

    /// An element of a tuple is laid out as `f` writes it.
    pub fn emit_tuple_arg<F>(&mut self, _idx: usize, f: F) -> (r: Result<(), Error>) where
        F: FnOnce(&mut Encoder) -> Result<(), Error>,

        requires
            forall|e: &mut Encoder| e@ == old(self)@ ==> #[trigger] call_requires(f, (e,)),
        ensures
            exists|e: &mut Encoder|
                e@ == old(self)@ && final(e)@ == final(self)@ && #[trigger] call_ensures(
                    f,
                    (e,),
                    r,
                ),
    {
        f(self)
    }

    /// A struct with unnamed fields has no layout.
    pub fn emit_tuple_struct<F>(
        &mut self,
        _name: &str,
        _len: usize,
        _f: F,
    ) -> (r: Result<(), Error>) where
        F: FnOnce(&mut Encoder) -> Result<(), Error>,

        ensures
            r matches Err(Error::UnsupportedData),
            final(self)@ == old(self)@,
    {
        Err(Error::UnsupportedData)
    }

    /// A field of a struct with unnamed fields has no layout.
    pub fn emit_tuple_struct_arg<F>(&mut self, _idx: usize, _f: F) -> (r: Result<(), Error>) where
        F: FnOnce(&mut Encoder) -> Result<(), Error>,

        ensures
            r matches Err(Error::UnsupportedData),
            final(self)@ == old(self)@,
    {
        Err(Error::UnsupportedData)
    }

    /// An optional value has no layout.
    pub fn emit_option<F>(&mut self, _f: F) -> (r: Result<(), Error>) where
        F: FnOnce(&mut Encoder) -> Result<(), Error>,

        ensures
            r matches Err(Error::UnsupportedData),
            final(self)@ == old(self)@,
    {
        Err(Error::UnsupportedData)
    }

    /// An absent value has no layout.
    pub fn emit_option_none(&mut self) -> (r: Result<(), Error>)
        ensures
            r matches Err(Error::UnsupportedData),
            final(self)@ == old(self)@,
    {
        Err(Error::UnsupportedData)
    }

    /// A present optional value has no layout.
    pub fn emit_option_some<F>(&mut self, _f: F) -> (r: Result<(), Error>) where
        F: FnOnce(&mut Encoder) -> Result<(), Error>,

        ensures
            r matches Err(Error::UnsupportedData),
            final(self)@ == old(self)@,
    {
        Err(Error::UnsupportedData)
    }

    /// A frame around a sequence of `len` elements: a slot of four bytes is
    /// reserved, `len` is written as a size, `f` writes the elements, and the
    /// slot is filled in with the number of bytes that follow it, the four
    /// bytes of `len` among them.
    ///
    /// `f` is run on the encoder as it is once `len` is written, and must not
    /// leave it with fewer bytes than it found there. If `f` fails, its error
    /// is returned and the slot stays as it was reserved.
    pub fn emit_seq<F>(&mut self, len: usize, f: F) -> (r: Result<(), Error>) where
        F: FnOnce(&mut Encoder) -> Result<(), Error>,

        requires
            forall|e: &mut Encoder|
                e@ == old(self)@ + reserved_slot() + size_prefix(len as nat)
                    ==> #[trigger] call_requires(f, (e,)),
            forall|e: &mut Encoder, out: Result<(), Error>|
                e@ == old(self)@ + reserved_slot() + size_prefix(len as nat)
                    && #[trigger] call_ensures(f, (e,), out) ==> e@.len() <= final(e)@.len(),
        ensures
            exists|e: &mut Encoder|
                e@ == old(self)@ + reserved_slot() + size_prefix(len as nat)
                    && #[trigger] call_ensures(f, (e,), r) && final(self)@ == if r is Ok {
                    backfilled(final(e)@, old(self)@.len() as int)
                } else {
                    final(e)@
                },
            r is Ok ==> framed_at(final(self)@, old(self)@.len() as int),
    {
        let position = self.output.len();
        self.reserve_slot();
        self.write_size(len)?;
        proof {
            lemma_le_bytes_len((len as nat) % 0x1_0000_0000, 4);
        }
        let out = f(self);
        match out {
            Ok(done) => {
                proof {
                    lemma_backfilled(self@, position as int);
                    assert(done == ());
                }
                let length = self.output.len() - position - 4;
                self.fill_slot(position, length)
            },
            Err(e) => Err(e),
        }
    }

    /// An element of a sequence is laid out as `f` writes it.
    pub fn emit_seq_elt<F>(&mut self, _idx: usize, f: F) -> (r: Result<(), Error>) where
        F: FnOnce(&mut Encoder) -> Result<(), Error>,

        requires
            forall|e: &mut Encoder| e@ == old(self)@ ==> #[trigger] call_requires(f, (e,)),
        ensures
            exists|e: &mut Encoder|
                e@ == old(self)@ && final(e)@ == final(self)@ && #[trigger] call_ensures(
                    f,
                    (e,),
                    r,
                ),
    {
        f(self)
    }

    /// A keyed collection has no layout.
    pub fn emit_map<F>(&mut self, _len: usize, _f: F) -> (r: Result<(), Error>) where
        F: FnOnce(&mut Encoder) -> Result<(), Error>,

        ensures
            r matches Err(Error::UnsupportedData),
            final(self)@ == old(self)@,
    {
        Err(Error::UnsupportedData)
    }

    /// A key of a keyed collection has no layout.
    pub fn emit_map_elt_key<F>(&mut self, _idx: usize, _f: F) -> (r: Result<(), Error>) where
        F: FnOnce(&mut Encoder) -> Result<(), Error>,

        ensures
            r matches Err(Error::UnsupportedData),
            final(self)@ == old(self)@,
    {
        Err(Error::UnsupportedData)
    }

    /// A value of a keyed collection has no layout.
    pub fn emit_map_elt_val<F>(&mut self, _idx: usize, _f: F) -> (r: Result<(), Error>) where
        F: FnOnce(&mut Encoder) -> Result<(), Error>,

        ensures
            r matches Err(Error::UnsupportedData),
            final(self)@ == old(self)@,
    {
        Err(Error::UnsupportedData)
    }
}

} // verus!
