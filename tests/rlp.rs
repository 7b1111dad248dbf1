use merkle_patricia::rlp::{RlpDecodable, RlpEncodable, RlpError};

fn s(text: &str) -> RlpEncodable {
    RlpEncodable::Binary(text.as_bytes().to_vec())
}

fn l(items: Vec<RlpEncodable>) -> RlpEncodable {
    RlpEncodable::List(items)
}

fn generate_pairs() -> Vec<(RlpEncodable, RlpDecodable)> {
    let lorem = "Lorem ipsum dolor sit amet, consectetur adipisicing elit";
    let mut lorem_bytes = vec![0xb8, 0x38];
    lorem_bytes.extend_from_slice(lorem.as_bytes());
    let pairs: Vec<(RlpEncodable, Vec<u8>)> = vec![
        (s(""), vec![0x80]),
        (s("\x0f"), vec![0x0f]),
        (s("\x04\x00"), vec![0x82, 0x04, 0x00]),
        (s("dog"), vec![0x83, 0x64, 0x6f, 0x67]),
        (l(vec![]), vec![0xc0]),
        (
            l(vec![s("cat"), s("dog")]),
            vec![0xc8, 0x83, 0x63, 0x61, 0x74, 0x83, 0x64, 0x6f, 0x67],
        ),
        (s(lorem), lorem_bytes),
        (
            l(vec![l(vec![]), l(vec![l(vec![])]), l(vec![l(vec![]), l(vec![l(vec![])])])]),
            vec![0xc7, 0xc0, 0xc1, 0xc0, 0xc3, 0xc0, 0xc1, 0xc0],
        ),
    ];
    pairs.into_iter().map(|(v, b)| (v, RlpDecodable::new(b))).collect()
}

#[test]
fn rlp_encodage() {
    for (a, b) in generate_pairs() {
        assert!(a.encode() == b);
    }
}

#[test]
fn rlp_decodage() {
    for (b, a) in generate_pairs() {
        assert!(a.decode() == Ok(b));
    }
}

#[test]
fn single_byte_below_0x80_is_its_own_encoding() {
    assert_eq!(RlpEncodable::Binary(vec![0x7f]).encode().to_vec(), vec![0x7f]);
    assert_eq!(RlpEncodable::Binary(vec![0x00]).encode().to_vec(), vec![0x00]);
    assert_eq!(RlpEncodable::Binary(vec![0x80]).encode().to_vec(), vec![0x81, 0x80]);
}

#[test]
fn length_55_is_short_and_56_is_long() {
    let short = RlpEncodable::Binary(vec![7u8; 55]).encode().to_vec();
    assert_eq!(short[0], 0xb7);
    assert_eq!(short.len(), 56);
    let long = RlpEncodable::Binary(vec![7u8; 56]).encode().to_vec();
    assert_eq!(&long[..2], &[0xb8, 0x38]);
    assert_eq!(long.len(), 58);
    let list55 = l(vec![RlpEncodable::Binary(vec![7u8; 54])]).encode().to_vec();
    assert_eq!(list55[0], 0xf7);
    let list56 = l(vec![RlpEncodable::Binary(vec![7u8; 55])]).encode().to_vec();
    assert_eq!(&list56[..2], &[0xf8, 0x38]);
}

#[test]
fn long_length_takes_two_bytes() {
    let enc = RlpEncodable::Binary(vec![1u8; 1024]).encode().to_vec();
    assert_eq!(&enc[..3], &[0xb9, 0x04, 0x00]);
    let back = RlpDecodable::new(enc).decode();
    assert_eq!(back, Ok(RlpEncodable::Binary(vec![1u8; 1024])));
}

#[test]
fn round_trip_of_nested_values() {
    let v = l(vec![s(""), l(vec![]), l(vec![s("a"), l(vec![s(&"x".repeat(70))])]), s("\u{7f}")]);
    let copy = l(vec![s(""), l(vec![]), l(vec![s("a"), l(vec![s(&"x".repeat(70))])]), s("\u{7f}")]);
    let back = v.encode().decode();
    assert_eq!(back, Ok(copy));
}

#[test]
fn decode_errors() {
    assert_eq!(RlpDecodable::new(vec![]).decode().err(), Some(RlpError::TrailingOrTruncatedInput));
    assert_eq!(RlpDecodable::new(vec![0x83, 0x64]).decode().err(), Some(RlpError::MalformedLength));
    assert_eq!(RlpDecodable::new(vec![0xb9, 0x01]).decode().err(), Some(RlpError::MalformedLength));
    assert_eq!(RlpDecodable::new(vec![0xc2, 0x83, 0x64]).decode().err(), Some(RlpError::MalformedLength));
    assert_eq!(
        RlpDecodable::new(vec![0x64, 0x65]).decode().err(),
        Some(RlpError::TrailingOrTruncatedInput)
    );
}
