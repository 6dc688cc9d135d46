use kademlia_dht::bencode::{Bencode, Decoder, DecoderError, Dict};

#[test]
fn test_parse_int() {
    assert_eq!(123, Decoder::new(b"123").parse_int().unwrap());
    assert_eq!(123, Decoder::new(b"+123").parse_int().unwrap());
    assert_eq!(-123, Decoder::new(b"-123").parse_int().unwrap());
    assert_eq!(
        DecoderError::ExpectedInteger,
        Decoder::new(b"-a").parse_int().unwrap_err()
    );
    assert_eq!(
        DecoderError::EndOfStream,
        Decoder::new(b"").parse_int().unwrap_err()
    );
    assert_eq!(
        DecoderError::OversizedInteger,
        Decoder::new(b"-100000000000000000000")
            .parse_int()
            .unwrap_err()
    );
}

#[test]
fn test_decode_int() {
    assert_eq!(
        Bencode::Integer(-123),
        Decoder::new(b"i-123e").decode_int().unwrap()
    )
}

#[test]
fn test_decode_bytestring() {
    assert_eq!(
        Bencode::Bytes(b"abc".to_vec()),
        Decoder::new(b"3:abcxyz").decode_bytestring().unwrap()
    )
}

#[test]
fn test_decode_list() {
    assert_eq!(
        Bencode::List(vec![Bencode::Integer(4), Bencode::Bytes(b"qwe".to_vec())]),
        Decoder::new(b"li4e3:qwee").decode_list().unwrap()
    )
}

#[test]
fn test_decode_dict() {
    let mut map = Dict::new();
    map.insert(b"one".to_vec(), Bencode::Bytes(b"hello".to_vec()));
    map.insert(b"two".to_vec(), Bencode::Integer(123));

    assert_eq!(
        Bencode::Dict(map),
        Decoder::new(b"d3:one5:hello3:twoi123ee")
            .decode_dict()
            .unwrap()
    )
}

#[test]
fn decode_integer_values() {
    assert_eq!(Ok(Bencode::Integer(-123)), Bencode::decode(b"i-123e"));
    assert_eq!(Ok(Bencode::Integer(0)), Bencode::decode(b"i0e"));
    assert_eq!(
        Err(DecoderError::OversizedInteger),
        Bencode::decode(b"i-100000000000000000000e")
    );
}

#[test]
fn decode_integer_extremes() {
    assert_eq!(Ok(Bencode::Integer(i64::MAX)), Bencode::decode(b"i9223372036854775807e"));
    assert_eq!(Ok(Bencode::Integer(i64::MIN)), Bencode::decode(b"i-9223372036854775808e"));
    assert_eq!(
        Err(DecoderError::OversizedInteger),
        Bencode::decode(b"i9223372036854775808e")
    );
    assert_eq!(
        Err(DecoderError::OversizedInteger),
        Bencode::decode(b"i-9223372036854775809e")
    );
}

#[test]
fn decode_rejects_leading_zero_and_negative_zero() {
    assert_eq!(Err(DecoderError::ExpectedInteger), Bencode::decode(b"i03e"));
    assert_eq!(Err(DecoderError::ExpectedInteger), Bencode::decode(b"i-0e"));
    assert_eq!(Err(DecoderError::ExpectedInteger), Bencode::decode(b"03:abc"));
}

#[test]
fn decode_bytestring_leaves_rest() {
    let mut decoder = Decoder::new(b"3:abcxyz");
    assert_eq!(Bencode::Bytes(b"abc".to_vec()), decoder.decode_bytestring().unwrap());
    assert_eq!(3, decoder.remaining());
}

#[test]
fn decode_empty_values() {
    assert_eq!(Ok(Bencode::Bytes(vec![])), Bencode::decode(b"0:"));
    assert_eq!(Ok(Bencode::List(vec![])), Bencode::decode(b"le"));
    assert_eq!(Ok(Bencode::Dict(Dict::new())), Bencode::decode(b"de"));
}

#[test]
fn decode_errors() {
    assert_eq!(Err(DecoderError::EndOfStream), Bencode::decode(b""));
    assert_eq!(Err(DecoderError::UnexpectedStartOfValue), Bencode::decode(b"x"));
    assert_eq!(Err(DecoderError::ExpectedIntegerEnd), Bencode::decode(b"i12x"));
    assert_eq!(Err(DecoderError::EndOfStream), Bencode::decode(b"i12"));
    assert_eq!(Err(DecoderError::ExpectedInteger), Bencode::decode(b"i-e"));
    assert_eq!(Err(DecoderError::ExpectedStringStart), Bencode::decode(b"3abc"));
    assert_eq!(Err(DecoderError::InvalidStringSize), Bencode::decode(b"5:abc"));
    assert_eq!(Err(DecoderError::EndOfStream), Bencode::decode(b"li1e"));
    assert_eq!(Err(DecoderError::ExpectedStringKey), Bencode::decode(b"di1ei2ee"));
    assert_eq!(
        Err(DecoderError::ExpectedIntegerStart),
        Decoder::new(b"3:abc").decode_int()
    );
    assert_eq!(
        Err(DecoderError::ExpectedListStart),
        Decoder::new(b"i1e").decode_list()
    );
    assert_eq!(
        Err(DecoderError::ExpectedDictStart),
        Decoder::new(b"i1e").decode_dict()
    );
}

#[test]
fn decode_negative_string_length() {
    assert_eq!(
        Err(DecoderError::InvalidStringSize),
        Decoder::new(b"-3:abc").decode_bytestring()
    );
}

#[test]
fn dict_round_trip() {
    let input = b"d3:one5:hello3:twoi123ee";
    let decoded = Bencode::decode(input).unwrap();
    let mut map = Dict::new();
    map.insert(b"one".to_vec(), Bencode::Bytes(b"hello".to_vec()));
    map.insert(b"two".to_vec(), Bencode::Integer(123));
    assert_eq!(Bencode::Dict(map), Bencode::decode(input).unwrap());
    assert_eq!(input.to_vec(), decoded.encode());
}

#[test]
fn dict_keys_are_sorted_and_replaced() {
    let decoded = Bencode::decode(b"d1:bi2e1:ai1e1:bi3ee").unwrap();
    assert_eq!(b"d1:ai1e1:bi3ee".to_vec(), decoded.encode());
}

#[test]
fn dict_insert_get_remove() {
    let mut map = Dict::new();
    map.insert(b"zz".to_vec(), Bencode::Integer(1));
    map.insert(b"a".to_vec(), Bencode::Integer(2));
    map.insert(b"zz".to_vec(), Bencode::Integer(3));
    assert_eq!(2, map.len());
    assert_eq!(Some(&Bencode::Integer(3)), map.get(b"zz"));
    assert!(map.contains_key(b"a"));
    assert_eq!(Some(Bencode::Integer(2)), map.remove(b"a"));
    assert_eq!(None, map.remove(b"a"));
    assert_eq!(1, map.len());
}

#[test]
fn encode_values() {
    assert_eq!(b"i0e".to_vec(), Bencode::Integer(0).encode());
    assert_eq!(b"i-42e".to_vec(), Bencode::Integer(-42).encode());
    assert_eq!(
        b"i-9223372036854775808e".to_vec(),
        Bencode::Integer(i64::MIN).encode()
    );
    assert_eq!(b"4:spam".to_vec(), Bencode::Bytes(b"spam".to_vec()).encode());
    assert_eq!(b"0:".to_vec(), Bencode::Bytes(vec![]).encode());
    assert_eq!(
        b"l4:spami42ee".to_vec(),
        Bencode::List(vec![Bencode::Bytes(b"spam".to_vec()), Bencode::Integer(42)]).encode()
    );
    let mut map = Dict::new();
    map.insert(b"spam".to_vec(), Bencode::List(vec![]));
    map.insert(b"cow".to_vec(), Bencode::Bytes(b"moo".to_vec()));
    assert_eq!(b"d3:cow3:moo4:spamlee".to_vec(), Bencode::Dict(map).encode());
}

#[test]
fn encode_then_decode() {
    let mut inner = Dict::new();
    inner.insert(b"k".to_vec(), Bencode::Integer(-7));
    let value = Bencode::List(vec![
        Bencode::Bytes(b"ten bytes!".to_vec()),
        Bencode::Dict(inner),
        Bencode::List(vec![]),
    ]);
    let mut inner2 = Dict::new();
    inner2.insert(b"k".to_vec(), Bencode::Integer(-7));
    let expected = Bencode::List(vec![
        Bencode::Bytes(b"ten bytes!".to_vec()),
        Bencode::Dict(inner2),
        Bencode::List(vec![]),
    ]);
    let bytes = value.encode();
    assert_eq!(Ok(expected), Bencode::decode(&bytes));
}

#[test]
fn decoded_prefix_reencodes() {
    let input = b"li1e2:abe trailing";
    let decoded = Bencode::decode(input).unwrap();
    let bytes = decoded.encode();
    assert_eq!(&input[..bytes.len()], &bytes[..]);
}
