use byteorder::{LittleEndian, WriteBytesExt};
use rustc_serialize::Encodable;
use tcpros::encoder::Encoder;
use tcpros::error::Error;

/// The encoder behind the interface that `rustc_serialize` drives.
struct Wire(Encoder);

impl Wire {
    fn new() -> Wire {
        Wire(Encoder::new())
    }

    fn len(&self) -> usize {
        self.0.len()
    }
}

/// Runs `f`, which expects the interface, on the bare encoder. The encoder
/// relies on `f` to leave no fewer bytes than it found.
fn through<F>(inner: &mut Encoder, f: F) -> Result<(), Error>
where
    F: FnOnce(&mut Wire) -> Result<(), Error>,
{
    let found = inner.len();
    let mut outer = Wire(std::mem::replace(inner, Encoder::new()));
    let r = f(&mut outer);
    assert!(found <= outer.0.len());
    *inner = outer.0;
    r
}

impl rustc_serialize::Encoder for Wire {
    type Error = Error;

    fn emit_nil(&mut self) -> Result<(), Error> {
        self.0.emit_nil()
    }

    fn emit_usize(&mut self, v: usize) -> Result<(), Error> {
        self.0.emit_usize(v)
    }

    fn emit_u64(&mut self, v: u64) -> Result<(), Error> {
        self.0.emit_u64(v)
    }

    fn emit_u32(&mut self, v: u32) -> Result<(), Error> {
        self.0.emit_u32(v)
    }

    fn emit_u16(&mut self, v: u16) -> Result<(), Error> {
        self.0.emit_u16(v)
    }

    fn emit_u8(&mut self, v: u8) -> Result<(), Error> {
        self.0.emit_u8(v)
    }

    fn emit_isize(&mut self, v: isize) -> Result<(), Error> {
        self.0.emit_isize(v)
    }

    fn emit_i64(&mut self, v: i64) -> Result<(), Error> {
        self.0.emit_i64(v)
    }

    fn emit_i32(&mut self, v: i32) -> Result<(), Error> {
        self.0.emit_i32(v)
    }

    fn emit_i16(&mut self, v: i16) -> Result<(), Error> {
        self.0.emit_i16(v)
    }

    fn emit_i8(&mut self, v: i8) -> Result<(), Error> {
        self.0.emit_i8(v)
    }

    fn emit_bool(&mut self, v: bool) -> Result<(), Error> {
        self.0.emit_bool(v)
    }

    fn emit_f64(&mut self, v: f64) -> Result<(), Error> {
        let mut buffer = vec![];
        buffer.write_f64::<LittleEndian>(v).map_err(Error::Io)?;
        self.0.write_variable(buffer)
    }

    fn emit_f32(&mut self, v: f32) -> Result<(), Error> {
        let mut buffer = vec![];
        buffer.write_f32::<LittleEndian>(v).map_err(Error::Io)?;
        self.0.write_variable(buffer)
    }

    fn emit_char(&mut self, v: char) -> Result<(), Error> {
        self.0.emit_char(v)
    }

    fn emit_str(&mut self, v: &str) -> Result<(), Error> {
        self.0.emit_str(v)
    }

    fn emit_enum<F>(&mut self, name: &str, f: F) -> Result<(), Error>
    where
        F: FnOnce(&mut Self) -> Result<(), Error>,
    {
        self.0.emit_enum(name, |inner: &mut Encoder| through(inner, f))
    }

    fn emit_enum_variant<F>(&mut self, name: &str, id: usize, len: usize, f: F) -> Result<(), Error>
    where
        F: FnOnce(&mut Self) -> Result<(), Error>,
    {
        self.0.emit_enum_variant(name, id, len, |inner: &mut Encoder| through(inner, f))
    }

    fn emit_enum_variant_arg<F>(&mut self, idx: usize, f: F) -> Result<(), Error>
    where
        F: FnOnce(&mut Self) -> Result<(), Error>,
    {
        self.0.emit_enum_variant_arg(idx, |inner: &mut Encoder| through(inner, f))
    }

    fn emit_enum_struct_variant<F>(
        &mut self,
        name: &str,
        id: usize,
        len: usize,
        f: F,
    ) -> Result<(), Error>
    where
        F: FnOnce(&mut Self) -> Result<(), Error>,
    {
        self.0.emit_enum_struct_variant(name, id, len, |inner: &mut Encoder| through(inner, f))
    }

    fn emit_enum_struct_variant_field<F>(
        &mut self,
        name: &str,
        idx: usize,
        f: F,
    ) -> Result<(), Error>
    where
        F: FnOnce(&mut Self) -> Result<(), Error>,
    {
        self.0.emit_enum_struct_variant_field(name, idx, |inner: &mut Encoder| through(inner, f))
    }

    fn emit_struct<F>(&mut self, name: &str, len: usize, f: F) -> Result<(), Error>
    where
        F: FnOnce(&mut Self) -> Result<(), Error>,
    {
        self.0.emit_struct(name, len, |inner: &mut Encoder| through(inner, f))
    }

    fn emit_struct_field<F>(&mut self, name: &str, idx: usize, f: F) -> Result<(), Error>
    where
        F: FnOnce(&mut Self) -> Result<(), Error>,
    {
        self.0.emit_struct_field(name, idx, |inner: &mut Encoder| through(inner, f))
    }

    fn emit_tuple<F>(&mut self, len: usize, f: F) -> Result<(), Error>
    where
        F: FnOnce(&mut Self) -> Result<(), Error>,
    {
        self.0.emit_tuple(len, |inner: &mut Encoder| through(inner, f))
    }

    fn emit_tuple_arg<F>(&mut self, idx: usize, f: F) -> Result<(), Error>
    where
        F: FnOnce(&mut Self) -> Result<(), Error>,
    {
        self.0.emit_tuple_arg(idx, |inner: &mut Encoder| through(inner, f))
    }

    fn emit_tuple_struct<F>(&mut self, name: &str, len: usize, f: F) -> Result<(), Error>
    where
        F: FnOnce(&mut Self) -> Result<(), Error>,
    {
        self.0.emit_tuple_struct(name, len, |inner: &mut Encoder| through(inner, f))
    }

    fn emit_tuple_struct_arg<F>(&mut self, idx: usize, f: F) -> Result<(), Error>
    where
        F: FnOnce(&mut Self) -> Result<(), Error>,
    {
        self.0.emit_tuple_struct_arg(idx, |inner: &mut Encoder| through(inner, f))
    }

    fn emit_option<F>(&mut self, f: F) -> Result<(), Error>
    where
        F: FnOnce(&mut Self) -> Result<(), Error>,
    {
        self.0.emit_option(|inner: &mut Encoder| through(inner, f))
    }

    fn emit_option_none(&mut self) -> Result<(), Error> {
        self.0.emit_option_none()
    }

    fn emit_option_some<F>(&mut self, f: F) -> Result<(), Error>
    where
        F: FnOnce(&mut Self) -> Result<(), Error>,
    {
        self.0.emit_option_some(|inner: &mut Encoder| through(inner, f))
    }

    fn emit_seq<F>(&mut self, len: usize, f: F) -> Result<(), Error>
    where
        F: FnOnce(&mut Self) -> Result<(), Error>,
    {
        self.0.emit_seq(len, |inner: &mut Encoder| through(inner, f))
    }

    fn emit_seq_elt<F>(&mut self, idx: usize, f: F) -> Result<(), Error>
    where
        F: FnOnce(&mut Self) -> Result<(), Error>,
    {
        self.0.emit_seq_elt(idx, |inner: &mut Encoder| through(inner, f))
    }

    fn emit_map<F>(&mut self, len: usize, f: F) -> Result<(), Error>
    where
        F: FnOnce(&mut Self) -> Result<(), Error>,
    {
        self.0.emit_map(len, |inner: &mut Encoder| through(inner, f))
    }

    fn emit_map_elt_key<F>(&mut self, idx: usize, f: F) -> Result<(), Error>
    where
        F: FnOnce(&mut Self) -> Result<(), Error>,
    {
        self.0.emit_map_elt_key(idx, |inner: &mut Encoder| through(inner, f))
    }

    fn emit_map_elt_val<F>(&mut self, idx: usize, f: F) -> Result<(), Error>
    where
        F: FnOnce(&mut Self) -> Result<(), Error>,
    {
        self.0.emit_map_elt_val(idx, |inner: &mut Encoder| through(inner, f))
    }
}

fn pull_data(encoder: &Wire) -> Vec<u8> {
    let mut output = Vec::new();
    encoder.0.write_to(&mut output).unwrap();
    output
}

#[test]
fn starts_empty() {
    assert_eq!(0, Encoder::new().len());
}

#[test]
fn writes_u8() {
    let mut encoder = Wire::new();
    150u8.encode(&mut encoder).unwrap();
    assert_eq!(vec![150], pull_data(&encoder));
}

#[test]
fn writes_u16() {
    let mut encoder = Wire::new();
    0xA234u16.encode(&mut encoder).unwrap();
    assert_eq!(vec![0x34, 0xA2], pull_data(&encoder));
}

#[test]
fn writes_u32() {
    let mut encoder = Wire::new();
    0xCD012345u32.encode(&mut encoder).unwrap();
    assert_eq!(vec![0x45, 0x23, 1, 0xCD], pull_data(&encoder));
}

#[test]
fn writes_u64() {
    let mut encoder = Wire::new();
    0xAB9876543210AABBu64.encode(&mut encoder).unwrap();
    assert_eq!(
        vec![0xBB, 0xAA, 0x10, 0x32, 0x54, 0x76, 0x98, 0xAB],
        pull_data(&encoder)
    );
}

#[test]
fn writes_i8() {
    let mut encoder = Wire::new();
    (-100i8).encode(&mut encoder).unwrap();
    assert_eq!(vec![156], pull_data(&encoder));
}

#[test]
fn writes_i16() {
    let mut encoder = Wire::new();
    (-30000i16).encode(&mut encoder).unwrap();
    assert_eq!(vec![0xD0, 0x8A], pull_data(&encoder));
}

#[test]
fn writes_i32() {
    let mut encoder = Wire::new();
    (-2000000000i32).encode(&mut encoder).unwrap();
    assert_eq!(vec![0x00, 0x6C, 0xCA, 0x88], pull_data(&encoder));
}

#[test]
fn writes_i64() {
    let mut encoder = Wire::new();
    (-9000000000000000000i64).encode(&mut encoder).unwrap();
    assert_eq!(
        vec![0x00, 0x00, 0x7c, 0x1d, 0xaf, 0x93, 0x19, 0x83],
        pull_data(&encoder)
    );
}

#[test]
fn writes_f32() {
    let mut encoder = Wire::new();
    (1005.75f32).encode(&mut encoder).unwrap();
    assert_eq!(vec![0x00, 0x70, 0x7b, 0x44], pull_data(&encoder));
}

#[test]
fn writes_f64() {
    let mut encoder = Wire::new();
    (1005.75f64).encode(&mut encoder).unwrap();
    assert_eq!(
        vec![0x00, 0x00, 0x00, 0x00, 0x00, 0x6e, 0x8f, 0x40],
        pull_data(&encoder)
    );
}

#[test]
fn writes_bool() {
    let mut encoder = Wire::new();
    true.encode(&mut encoder).unwrap();
    assert_eq!(vec![1], pull_data(&encoder));
    let mut encoder = Wire::new();
    false.encode(&mut encoder).unwrap();
    assert_eq!(vec![0], pull_data(&encoder));
}

#[test]
fn writes_string() {
    let mut encoder = Wire::new();
    "".encode(&mut encoder).unwrap();
    assert_eq!(vec![0, 0, 0, 0], pull_data(&encoder));
    let mut encoder = Wire::new();
    "Hello, World!".encode(&mut encoder).unwrap();
    assert_eq!(
        vec![13, 0, 0, 0, 72, 101, 108, 108, 111, 44, 32, 87, 111, 114, 108, 100, 33],
        pull_data(&encoder)
    );
}

#[test]
fn writes_array() {
    let mut encoder = Wire::new();
    [7i16, 1025, 33, 57].encode(&mut encoder).unwrap();
    assert_eq!(
        vec![12, 0, 0, 0, 4, 0, 0, 0, 7, 0, 1, 4, 33, 0, 57, 0],
        pull_data(&encoder)
    );
}

#[test]
fn writes_tuple() {
    let mut encoder = Wire::new();
    (2050i16, true, 7u8, "ABC012", vec![true, false, false, true])
        .encode(&mut encoder)
        .unwrap();
    assert_eq!(
        vec![
            26, 0, 0, 0, 2, 8, 1, 7, 6, 0, 0, 0, 65, 66, 67, 48, 49, 50, 8, 0, 0, 0, 4, 0, 0, 0,
            1, 0, 0, 1
        ],
        pull_data(&encoder)
    );
}

struct TestStructOne {
    a: i16,
    b: bool,
    c: u8,
    d: String,
    e: Vec<bool>,
}

impl Encodable for TestStructOne {
    fn encode<S: rustc_serialize::Encoder>(&self, s: &mut S) -> Result<(), S::Error> {
        s.emit_struct("TestStructOne", 5, |s| {
            s.emit_struct_field("a", 0, |s| self.a.encode(s))?;
            s.emit_struct_field("b", 1, |s| self.b.encode(s))?;
            s.emit_struct_field("c", 2, |s| self.c.encode(s))?;
            s.emit_struct_field("d", 3, |s| self.d.encode(s))?;
            s.emit_struct_field("e", 4, |s| self.e.encode(s))?;
            Ok(())
        })
    }
}

#[test]
fn writes_simple_struct() {
    let mut encoder = Wire::new();
    TestStructOne {
        a: 2050i16,
        b: true,
        c: 7u8,
        d: String::from("ABC012"),
        e: vec![true, false, false, true],
    }
    .encode(&mut encoder)
    .unwrap();
    assert_eq!(
        vec![
            26, 0, 0, 0, 2, 8, 1, 7, 6, 0, 0, 0, 65, 66, 67, 48, 49, 50, 8, 0, 0, 0, 4, 0, 0, 0,
            1, 0, 0, 1
        ],
        pull_data(&encoder)
    );
}

struct TestStructPart {
    a: String,
    b: bool,
}

impl Encodable for TestStructPart {
    fn encode<S: rustc_serialize::Encoder>(&self, s: &mut S) -> Result<(), S::Error> {
        s.emit_struct("TestStructPart", 2, |s| {
            s.emit_struct_field("a", 0, |s| self.a.encode(s))?;
            s.emit_struct_field("b", 1, |s| self.b.encode(s))?;
            Ok(())
        })
    }
}

struct TestStructBig {
    a: Vec<TestStructPart>,
    b: String,
}

impl Encodable for TestStructBig {
    fn encode<S: rustc_serialize::Encoder>(&self, s: &mut S) -> Result<(), S::Error> {
        s.emit_struct("TestStructBig", 2, |s| {
            s.emit_struct_field("a", 0, |s| self.a.encode(s))?;
            s.emit_struct_field("b", 1, |s| self.b.encode(s))?;
            Ok(())
        })
    }
}

#[test]
fn writes_complex_struct() {
    let mut encoder = Wire::new();
    let mut parts = Vec::new();
    parts.push(TestStructPart {
        a: String::from("ABC"),
        b: true,
    });
    parts.push(TestStructPart {
        a: String::from("1!!!!"),
        b: true,
    });
    parts.push(TestStructPart {
        a: String::from("234b"),
        b: false,
    });
    TestStructBig {
        a: parts,
        b: String::from("EEe"),
    }
    .encode(&mut encoder)
    .unwrap();
    assert_eq!(
        vec![
            54, 0, 0, 0, 43, 0, 0, 0, 3, 0, 0, 0, 8, 0, 0, 0, 3, 0, 0, 0, 65, 66, 67, 1, 10, 0, 0,
            0, 5, 0, 0, 0, 49, 33, 33, 33, 33, 1, 9, 0, 0, 0, 4, 0, 0, 0, 50, 51, 52, 98, 0, 3, 0,
            0, 0, 69, 69, 101
        ],
        pull_data(&encoder)
    );
    assert_eq!(58, encoder.len());
}
