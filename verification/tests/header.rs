use tcpros::encoder::Encoder;
use tcpros::error::Error;
use tcpros::header::{decode, encode, find_separator, same_bytes, Header};

fn wire(header: &Header) -> Vec<u8> {
    let mut encoder = Encoder::new();
    encode(header, &mut encoder).unwrap();
    let mut bytes = Vec::new();
    encoder.write_to(&mut bytes).unwrap();
    bytes
}

#[test]
fn empty_header_is_an_empty_frame() {
    let header = Header::new();
    assert_eq!(0, header.len());
    assert_eq!(vec![0, 0, 0, 0], wire(&header));
}

#[test]
fn header_with_one_field() {
    let mut header = Header::new();
    header.insert(b"a".to_vec(), b"bc".to_vec());
    assert_eq!(vec![8, 0, 0, 0, 4, 0, 0, 0, b'a', b'=', b'b', b'c'], wire(&header));
}

#[test]
fn header_fields_go_out_in_the_order_of_insertion() {
    let mut header = Header::new();
    header.insert(b"k2".to_vec(), b"".to_vec());
    header.insert(b"k1".to_vec(), b"v".to_vec());
    assert_eq!(
        vec![
            15, 0, 0, 0, 3, 0, 0, 0, b'k', b'2', b'=', 4, 0, 0, 0, b'k', b'1', b'=', b'v'
        ],
        wire(&header)
    );
}

#[test]
fn header_appends_to_the_encoder() {
    let mut header = Header::new();
    header.insert(b"a".to_vec(), b"b".to_vec());
    let mut encoder = Encoder::new();
    encoder.emit_u8(9).unwrap();
    encode(&header, &mut encoder).unwrap();
    let mut bytes = Vec::new();
    encoder.write_to(&mut bytes).unwrap();
    assert_eq!(vec![9, 7, 0, 0, 0, 3, 0, 0, 0, b'a', b'=', b'b'], bytes);
}

#[test]
fn insert_replaces_the_value_of_a_key_that_is_there() {
    let mut header = Header::new();
    header.insert(b"a".to_vec(), b"1".to_vec());
    header.insert(b"b".to_vec(), b"2".to_vec());
    header.insert(b"a".to_vec(), b"3".to_vec());
    assert_eq!(2, header.len());
    assert_eq!(b"3".to_vec(), *header.get(b"a").unwrap());
    assert_eq!(b"2".to_vec(), *header.get(b"b").unwrap());
    assert_eq!(
        vec![14, 0, 0, 0, 3, 0, 0, 0, b'a', b'=', b'3', 3, 0, 0, 0, b'b', b'=', b'2'],
        wire(&header)
    );
}

#[test]
fn get_and_contains_key() {
    let mut header = Header::new();
    assert!(!header.contains_key(b"a"));
    assert!(header.get(b"a").is_none());
    header.insert(b"a".to_vec(), b"1".to_vec());
    assert!(header.contains_key(b"a"));
    assert!(!header.contains_key(b"A"));
    assert!(!header.contains_key(b"ab"));
    assert!(!header.contains_key(b""));
    assert!(header.get(b"b").is_none());
}

#[test]
fn decode_reads_what_encode_wrote() {
    let mut header = Header::new();
    header.insert(b"callerid".to_vec(), b"/node".to_vec());
    header.insert(b"md5sum".to_vec(), b"*".to_vec());
    header.insert(b"empty".to_vec(), b"".to_vec());
    let bytes = wire(&header);
    let decoded = decode(&bytes[4..]).unwrap();
    assert_eq!(3, decoded.len());
    assert_eq!(b"/node".to_vec(), *decoded.get(b"callerid").unwrap());
    assert_eq!(b"*".to_vec(), *decoded.get(b"md5sum").unwrap());
    assert_eq!(b"".to_vec(), *decoded.get(b"empty").unwrap());
    assert_eq!(bytes, wire(&decoded));
}

#[test]
fn decode_of_nothing_is_an_empty_header() {
    assert_eq!(0, decode(&[]).unwrap().len());
}

#[test]
fn decode_splits_at_the_first_separator() {
    let decoded = decode(&[5, 0, 0, 0, b'a', b'=', b'b', b'=', b'c']).unwrap();
    assert_eq!(b"b=c".to_vec(), *decoded.get(b"a").unwrap());
    let decoded = decode(&[2, 0, 0, 0, b'=', b'x']).unwrap();
    assert_eq!(b"x".to_vec(), *decoded.get(b"").unwrap());
}

#[test]
fn decode_keeps_the_later_of_two_values() {
    let block = [
        3, 0, 0, 0, b'a', b'=', b'1', 3, 0, 0, 0, b'b', b'=', b'2', 3, 0, 0, 0, b'a', b'=', b'3',
    ];
    let decoded = decode(&block).unwrap();
    assert_eq!(2, decoded.len());
    assert_eq!(b"3".to_vec(), *decoded.get(b"a").unwrap());
    assert_eq!(b"2".to_vec(), *decoded.get(b"b").unwrap());
}

#[test]
fn decode_values_need_not_be_text() {
    let decoded = decode(&[4, 0, 0, 0, b'k', b'=', 0xFF, 0x00]).unwrap();
    assert_eq!(vec![0xFF, 0x00], *decoded.get(b"k").unwrap());
}

#[test]
fn decode_rejects_an_entry_without_separator() {
    assert!(matches!(
        decode(&[3, 0, 0, 0, b'a', b'b', b'c']),
        Err(Error::MalformedHeader)
    ));
    assert!(matches!(decode(&[0, 0, 0, 0]), Err(Error::MalformedHeader)));
}

#[test]
fn decode_rejects_an_entry_that_is_cut_short() {
    assert!(matches!(decode(&[3, 0, 0]), Err(Error::EndOfBuffer)));
    assert!(matches!(
        decode(&[3, 0, 0, 0, b'a', b'=']),
        Err(Error::EndOfBuffer)
    ));
    assert!(matches!(
        decode(&[3, 0, 0, 0, b'a', b'=', b'1', 1]),
        Err(Error::EndOfBuffer)
    ));
}

#[test]
fn decode_reports_the_first_failure() {
    // The first entry has no separator, the second is cut short.
    assert!(matches!(
        decode(&[1, 0, 0, 0, b'a', 9, 0, 0, 0]),
        Err(Error::MalformedHeader)
    ));
    // The other way round.
    assert!(matches!(
        decode(&[2, 0, 0, 0, b'a', b'=', 9, 0, 0, 0, b'x']),
        Err(Error::EndOfBuffer)
    ));
}

#[test]
fn entry_size_is_read_least_significant_byte_first() {
    let mut block = vec![0x02, 0x01, 0, 0, b'k', b'='];
    block.extend(std::iter::repeat(b'v').take(256));
    let decoded = decode(&block).unwrap();
    assert_eq!(256, decoded.get(b"k").unwrap().len());
}

#[test]
fn same_bytes_compares_content() {
    assert!(same_bytes(b"", b""));
    assert!(same_bytes(b"abc", b"abc"));
    assert!(!same_bytes(b"abc", b"abd"));
    assert!(!same_bytes(b"abc", b"ab"));
    assert!(!same_bytes(b"", b"a"));
}

#[test]
fn find_separator_finds_the_first() {
    assert_eq!(None, find_separator(b""));
    assert_eq!(None, find_separator(b"abc"));
    assert_eq!(Some(0), find_separator(b"=abc"));
    assert_eq!(Some(1), find_separator(b"a=b=c"));
    assert_eq!(Some(3), find_separator(b"abc="));
}
