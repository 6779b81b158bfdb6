//! The connection header that both sides send before a call.
//!
//! On the wire a header is a frame around its entries. Each entry is a frame
//! around the bytes `key=value`; nothing is escaped, and the first `=` ends
//! the key.

use crate::encoder::{framed, lemma_frame, lemma_framed, Encoder};
use crate::error::Error;
use crate::wire::{le_value, lemma_radix, lemma_read_back, read_u32};
use vstd::prelude::*;
use vstd::slice::{slice_subrange, slice_to_vec};

verus! {

/// The byte `=`, which parts a key from its value.
pub const SEPARATOR: u8 = 0x3D;

/// One field of a header.
#[derive(Debug)]
pub struct Field {
    pub key: Vec<u8>,
    pub value: Vec<u8>,
}

impl View for Field {
    type V = (Seq<u8>, Seq<u8>);

    open spec fn view(&self) -> (Seq<u8>, Seq<u8>) {
        (self.key@, self.value@)
    }
}

/// The fields of a header as keys with their values, in order.
pub type Fields = Seq<(Seq<u8>, Seq<u8>)>;

/// Whether no key occurs twice among `fields`.
pub open spec fn distinct_keys(fields: Fields) -> bool {
    forall|i: int, j: int| 0 <= i < j < fields.len() ==> fields[i].0 != fields[j].0
}

/// Whether `fields[i]` is a field with the key `key`.
pub open spec fn key_at(fields: Fields, key: Seq<u8>, i: int) -> bool {
    0 <= i < fields.len() && fields[i].0 == key
}

/// Whether one of `fields` has the key `key`.
pub open spec fn has_key(fields: Fields, key: Seq<u8>) -> bool {
    exists|i: int| key_at(fields, key, i)
}

/// The value that `fields` give to `key`, if they hold it.
pub open spec fn value_of(fields: Fields, key: Seq<u8>) -> Option<Seq<u8>> {
    if has_key(fields, key) {
        Some(fields[choose|i: int| key_at(fields, key, i)].1)
    } else {
        None
    }
}

/// `fields` after `key` was given `value`: a key that is there keeps its
/// place and gets the new value, a new key goes to the end.
pub open spec fn inserted(fields: Fields, key: Seq<u8>, value: Seq<u8>) -> Fields {
    if has_key(fields, key) {
        fields.update(choose|i: int| key_at(fields, key, i), (key, value))
    } else {
        fields.push((key, value))
    }
}

/// The fields that remain when `pairs` are inserted in order, so that of two
/// pairs with one key the later one decides the value.
pub open spec fn collected(pairs: Fields) -> Fields
    decreases pairs.len(),
{
    if pairs.len() == 0 {
        Seq::empty()
    } else {
        inserted(collected(pairs.drop_last()), pairs.last().0, pairs.last().1)
    }
}

/// The bytes of one entry before it is framed.
pub open spec fn entry(field: (Seq<u8>, Seq<u8>)) -> Seq<u8> {
    field.0 + seq![SEPARATOR] + field.1
}

/// The framed entries of `fields`, one after the other.
pub open spec fn entries(fields: Fields) -> Seq<u8>
    decreases fields.len(),
{
    if fields.len() == 0 {
        Seq::empty()
    } else {
        entries(fields.drop_last()) + framed(entry(fields.last()))
    }
}

/// The position of the first `=` in `bytes`, or their length if there is
/// none.
pub open spec fn separator(bytes: Seq<u8>) -> int
    decreases bytes.len(),
{
    if bytes.len() == 0 || bytes[0] == SEPARATOR {
        0
    } else {
        1 + separator(bytes.skip(1))
    }
}

/// `rest` with `done` put in front, where `rest` is no failure.
pub open spec fn prepended(done: Fields, rest: Result<Fields, Error>) -> Result<Fields, Error> {
    match rest {
        Ok(pairs) => Ok(done + pairs),
        Err(e) => Err(e),
    }
}

/// The pairs that the entries in `block` hold, in their order, or the
/// failure of the first entry that is cut short (`EndOfBuffer`) or has no
/// `=` (`MalformedHeader`).
pub open spec fn parsed(block: Seq<u8>) -> Result<Fields, Error>
    decreases block.len(),
{
    if block.len() == 0 {
        Ok(Seq::empty())
    } else if block.len() < 4 {
        Err(Error::EndOfBuffer)
    } else {
        let length = le_value(block.subrange(0, 4)) as int;
        if block.len() - 4 < length {
            Err(Error::EndOfBuffer)
        } else {
            let bytes = block.subrange(4, 4 + length);
            let at = separator(bytes);
            if at == bytes.len() {
                Err(Error::MalformedHeader)
            } else {
                prepended(
                    seq![(bytes.take(at), bytes.skip(at + 1))],
                    parsed(block.skip(4 + length)),
                )
            }
        }
    }
}

/// Where the first `=` is, if nothing before `at` is one and `at` is one or
/// the end.
proof fn lemma_separator(bytes: Seq<u8>, at: int)
    requires
        0 <= at <= bytes.len(),
        forall|k: int| 0 <= k < at ==> bytes[k] != SEPARATOR,
        at == bytes.len() || bytes[at] == SEPARATOR,
    ensures
        separator(bytes) == at,
    decreases at,
{
    if at > 0 {
        lemma_separator(bytes.skip(1), at - 1);
    }
}

/// Whether two slices hold the same bytes.
pub fn same_bytes(a: &[u8], b: &[u8]) -> (same: bool)
    ensures
        same == (a@ == b@),
{
    if a.len() != b.len() {
        return false;
    }
    let mut i: usize = 0;
    while i < a.len()
        invariant
            i <= a.len(),
            a@.len() == b@.len(),
            forall|k: int| 0 <= k < i ==> a@[k] == b@[k],
        decreases a.len() - i,
    {
        if a[i] != b[i] {
            return false;
        }
        i += 1;
    }
    assert(a@ =~= b@);
    true
}

/// The position of the first `=` in `bytes`.
pub fn find_separator(bytes: &[u8]) -> (at: Option<usize>)
    ensures
        match at {
            Some(i) => i < bytes@.len() && separator(bytes@) == i,
            None => separator(bytes@) == bytes@.len(),
        },
{
    let mut i: usize = 0;
    while i < bytes.len()
        invariant
            i <= bytes.len(),
            forall|k: int| 0 <= k < i ==> bytes@[k] != SEPARATOR,
        decreases bytes.len() - i,
    {
        if bytes[i] == SEPARATOR {
            proof {
                lemma_separator(bytes@, i as int);
            }
            return Some(i);
        }
        i += 1;
    }
    proof {
        lemma_separator(bytes@, i as int);
    }
    None
}

/// The fields of a header, in the order in which their keys first came.
///
/// A header is meant to hold each key once: `new` and `decode` give such a
/// header and `insert` keeps it so.
#[derive(Debug)]
pub struct Header {
    fields: Vec<Field>,
}

impl View for Header {
    type V = Fields;

    closed spec fn view(&self) -> Fields {
        self.fields@.map_values(|f: Field| f@)
    }
}

impl Header {
    /// A header without fields.
    pub fn new() -> (header: Header)
        ensures
            header@ == Fields::empty(),
    {
        let header = Header { fields: Vec::new() };
        assert(header@ =~= Fields::empty());
        header
    }

    /// The number of fields.
    pub fn len(&self) -> (n: usize)
        ensures
            n == self@.len(),
    {
        self.fields.len()
    }

    /// Where `key` is among the fields.
    fn position(&self, key: &[u8]) -> (at: Option<usize>)
        ensures
            match at {
                Some(i) => key_at(self@, key@, i as int),
                None => !has_key(self@, key@),
            },
    {
        let mut i: usize = 0;
        while i < self.fields.len()
            invariant
                i <= self.fields.len(),
                forall|k: int| 0 <= k < i ==> !key_at(self@, key@, k),
            decreases self.fields.len() - i,
        {
            if same_bytes(self.fields[i].key.as_slice(), key) {
                return Some(i);
            }
            i += 1;
        }
        None
    }

    /// Whether the header holds `key`.
    pub fn contains_key(&self, key: &[u8]) -> (found: bool)
        ensures
            found == has_key(self@, key@),
    {
        self.position(key).is_some()
    }

    /// The value of `key`.
    pub fn get(&self, key: &[u8]) -> (value: Option<&Vec<u8>>)
        requires
            distinct_keys(self@),
        ensures
            match value {
                Some(v) => value_of(self@, key@) == Some(v@),
                None => value_of(self@, key@) is None,
            },
    {
        match self.position(key) {
            Some(i) => {
                proof {
                    lemma_only_position(self@, key@, i as int);
                }
                Some(&self.fields[i].value)
            },
            None => None,
        }
    }

    /// Gives `key` the value `value`, whether or not the key was there.
    pub fn insert(&mut self, key: Vec<u8>, value: Vec<u8>)
        requires
            distinct_keys(old(self)@),
        ensures
            final(self)@ == inserted(old(self)@, key@, value@),
            distinct_keys(final(self)@),
    {
        proof {
            lemma_inserted_distinct(self@, key@, value@);
        }
        let found = self.position(key.as_slice());
        let ghost before = self@;
        match found {
            Some(i) => {
                proof {
                    lemma_only_position(before, key@, i as int);
                }
                self.fields.set(i, Field { key, value });
                assert(self@ =~= before.update(i as int, (key@, value@)));
            },
            None => {
                self.fields.push(Field { key, value });
                assert(self@ =~= before.push((key@, value@)));
            },
        }
    }
}

/// With distinct keys, a key is at one position only.
proof fn lemma_only_position(fields: Fields, key: Seq<u8>, i: int)
    requires
        distinct_keys(fields),
        key_at(fields, key, i),
    ensures
        has_key(fields, key),
        (choose|k: int| key_at(fields, key, k)) == i,
{
    let k = choose|k: int| key_at(fields, key, k);
    if k < i {
        assert(fields[k].0 != fields[i].0);
    } else if i < k {
        assert(fields[i].0 != fields[k].0);
    }
}

/// Inserting keeps the keys distinct.
pub proof fn lemma_inserted_distinct(fields: Fields, key: Seq<u8>, value: Seq<u8>)
    requires
        distinct_keys(fields),
    ensures
        distinct_keys(inserted(fields, key, value)),
        value_of(inserted(fields, key, value), key) == Some(value),
{
    let after = inserted(fields, key, value);
    if has_key(fields, key) {
        let at = choose|i: int| key_at(fields, key, i);
        assert(key_at(after, key, at));
        lemma_only_position(after, key, at);
    } else {
        assert forall|i: int, j: int| 0 <= i < j < after.len() implies after[i].0 != after[j].0 by {
            if j == fields.len() {
                assert(!key_at(fields, key, i));
            }
        }
        assert(key_at(after, key, fields.len() as int));
        lemma_only_position(after, key, fields.len() as int);
    }
}

/// Appends the framed entries of `fields` to `encoder`.
fn encode_entries(fields: &Vec<Field>, encoder: &mut Encoder) -> (r: Result<(), Error>)
    ensures
        r is Ok,
        final(encoder)@ == old(encoder)@ + entries(fields@.map_values(|f: Field| f@)),
{
    let ghost all = fields@.map_values(|f: Field| f@);
    let mut i: usize = 0;
    while i < fields.len()
        invariant
            i <= fields.len(),
            all == fields@.map_values(|f: Field| f@),
            encoder@ == old(encoder)@ + entries(all.take(i as int)),
        decreases fields.len() - i,
    {
        let field = &fields[i];
        let mut line: Vec<u8> = Vec::new();
        line.extend_from_slice(field.key.as_slice());
        line.push(SEPARATOR);
        line.extend_from_slice(field.value.as_slice());
        assert(line@ =~= entry(all[i as int]));
        assert(all.take(i + 1).drop_last() =~= all.take(i as int));
        let ghost so_far = encoder@;
        encoder.write_size(line.len())?;
        encoder.write_variable(line)?;
        assert(encoder@ =~= so_far + framed(entry(all[i as int])));
        i += 1;
    }
    assert(all.take(i as int) =~= all);
    Ok(())
}

/// Appends `header` as it goes over the wire: the size of all entries, then
/// each field as the size of `key=value` and those bytes.
pub fn encode(header: &Header, encoder: &mut Encoder) -> (r: Result<(), Error>)
    ensures
        r is Ok,
        final(encoder)@ == old(encoder)@ + framed(entries(header@)),
{
    let ghost start = encoder@;
    let write = |e: &mut Encoder| -> (out: Result<(), Error>)
        ensures
            out is Ok,
            final(e)@ == old(e)@ + entries(header@),
        {
            encode_entries(&header.fields, e)
        };
    let r = encoder.emit_tuple(header.fields.len(), write);
    proof {
        lemma_frame(start, entries(header@));
    }
    r
}

/// Reads a header from the entries in `block`, which is what follows the
/// size that frames them. Of two entries with one key the later one decides
/// the value.
///
/// The first entry that is cut short ends the decoding with `EndOfBuffer`,
/// the first without `=` with `MalformedHeader`.
pub fn decode(block: &[u8]) -> (r: Result<Header, Error>)
    ensures
        match parsed(block@) {
            Ok(pairs) => r matches Ok(header) && header@ == collected(pairs) && distinct_keys(
                header@,
            ),
            Err(Error::MalformedHeader) => r matches Err(Error::MalformedHeader),
            Err(_) => r matches Err(Error::EndOfBuffer),
        },
{
    let mut header = Header::new();
    let mut position: usize = 0;
    let ghost mut done: Fields = Seq::empty();
    assert(block@.skip(0) =~= block@);
    assert(done + parsed(block@)->Ok_0 =~= parsed(block@)->Ok_0);
    while position < block.len()
        invariant
            position <= block.len(),
            header@ == collected(done),
            distinct_keys(header@),
            parsed(block@) == prepended(done, parsed(block@.skip(position as int))),
        decreases block.len() - position,
    {
        let ghost rest = block@.skip(position as int);
        if block.len() - position < 4 {
            return Err(Error::EndOfBuffer);
        }
        let length = read_u32(slice_subrange(block, position, block.len())) as usize;
        assert(rest.subrange(0, 4) =~= block@.subrange(
            position as int,
            block@.len() as int,
        ).subrange(0, 4));
        if block.len() - position - 4 < length {
            return Err(Error::EndOfBuffer);
        }
        let bytes = slice_subrange(block, position + 4, position + 4 + length);
        assert(bytes@ =~= rest.subrange(4, 4 + length));
        match find_separator(bytes) {
            None => {
                return Err(Error::MalformedHeader);
            },
            Some(at) => {
                let key = slice_to_vec(slice_subrange(bytes, 0, at));
                let value = slice_to_vec(slice_subrange(bytes, at + 1, length));
                proof {
                    let pair = (key@, value@);
                    assert(key@ =~= bytes@.take(at as int));
                    assert(value@ =~= bytes@.skip(at + 1));
                    assert(rest.skip(4 + length) =~= block@.skip(position + 4 + length));
                    let tail = parsed(block@.skip(position + 4 + length));
                    if tail is Ok {
                        assert(done + (seq![pair] + tail->Ok_0) =~= done.push(pair) + tail->Ok_0);
                    }
                    assert(done.push(pair).drop_last() =~= done);
                    done = done.push(pair);
                }
                header.insert(key, value);
                position = position + 4 + length;
            },
        }
    }
    assert(done + Fields::empty() =~= done);
    Ok(header)
}

/// Whether `field` can be told apart again once it is on the wire: its key
/// holds no `=`, and its entry is short enough for four bytes to hold its
/// size.
pub open spec fn plain(field: (Seq<u8>, Seq<u8>)) -> bool {
    &&& forall|k: int| 0 <= k < field.0.len() ==> field.0[k] != SEPARATOR
    &&& entry(field).len() < 0x1_0000_0000
}

/// The entries in `first` followed by those in `second` hold the pairs of
/// the one followed by the pairs of the other.
pub proof fn lemma_parsed_concat(first: Seq<u8>, second: Seq<u8>)
    requires
        parsed(first) is Ok,
    ensures
        parsed(first + second) == prepended(parsed(first)->Ok_0, parsed(second)),
    decreases first.len(),
{
    let nothing = Fields::empty();
    if first.len() == 0 {
        assert(first + second =~= second);
        if parsed(second) is Ok {
            assert(nothing + parsed(second)->Ok_0 =~= parsed(second)->Ok_0);
        }
    } else {
        let all = first + second;
        let length = le_value(first.subrange(0, 4)) as int;
        assert(all.subrange(0, 4) =~= first.subrange(0, 4));
        assert(all.subrange(4, 4 + length) =~= first.subrange(4, 4 + length));
        assert(all.skip(4 + length) =~= first.skip(4 + length) + second);
        lemma_parsed_concat(first.skip(4 + length), second);
        let bytes = first.subrange(4, 4 + length);
        let pair = seq![(bytes.take(separator(bytes)), bytes.skip(separator(bytes) + 1))];
        let rest = parsed(first.skip(4 + length))->Ok_0;
        if parsed(second) is Ok {
            assert(pair + (rest + parsed(second)->Ok_0) =~= (pair + rest) + parsed(second)->Ok_0);
        }
    }
}

/// One framed entry of a plain field holds that field.
pub proof fn lemma_parsed_entry(field: (Seq<u8>, Seq<u8>))
    requires
        plain(field),
    ensures
        parsed(framed(entry(field))) == Ok::<Fields, Error>(seq![field]),
{
    let bytes = entry(field);
    let block = framed(bytes);
    reveal_with_fuel(parsed, 2);
    lemma_radix();
    lemma_framed(bytes);
    lemma_read_back(bytes.len(), 4, bytes);
    assert(block.subrange(0, 4) =~= block.take(4));
    assert(block.subrange(4, 4 + bytes.len() as int) =~= bytes);
    assert(block.skip(4 + bytes.len() as int) =~= Seq::<u8>::empty());
    lemma_separator(bytes, field.0.len() as int);
    assert(bytes.take(field.0.len() as int) =~= field.0);
    assert(bytes.skip(field.0.len() as int + 1) =~= field.1);
    assert(seq![field] + Fields::empty() =~= seq![field]);
}

/// Fields with distinct keys stay as they are when they are collected.
pub proof fn lemma_collected_distinct(fields: Fields)
    requires
        distinct_keys(fields),
    ensures
        collected(fields) == fields,
    decreases fields.len(),
{
    if fields.len() > 0 {
        let front = fields.drop_last();
        lemma_collected_distinct(front);
        assert forall|i: int| !key_at(front, fields.last().0, i) by {
            if 0 <= i < front.len() {
                assert(fields[i].0 != fields[fields.len() - 1].0);
            }
        }
        assert(front.push(fields.last()) =~= fields);
    } else {
        assert(collected(fields) =~= fields);
    }
}

/// A header that was encoded is decoded to itself: the entries of plain
/// fields with distinct keys hold these fields, in their order, and
/// collecting them changes nothing.
pub proof fn lemma_round_trip(fields: Fields)
    requires
        distinct_keys(fields),
        forall|i: int| 0 <= i < fields.len() ==> plain(#[trigger] fields[i]),
    ensures
        parsed(entries(fields)) == Ok::<Fields, Error>(fields),
        collected(fields) == fields,
    decreases fields.len(),
{
    lemma_collected_distinct(fields);
    if fields.len() > 0 {
        let front = fields.drop_last();
        lemma_round_trip(front);
        lemma_parsed_entry(fields.last());
        lemma_parsed_concat(entries(front), framed(entry(fields.last())));
        assert(front + seq![fields.last()] =~= fields);
    }
}

} // verus!
