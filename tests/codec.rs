use dag_cbor_codec::dict::{dict_from, dict_insert};
use dag_cbor_codec::decode::{read_key, read_str, read_u8, ByteReader};
use dag_cbor_codec::encode::{encode_f64, encode_int, write_u64};
use dag_cbor_codec::error::CodecError;
use dag_cbor_codec::typed::{read_typed, TryReadCbor};
use dag_cbor_codec::value::Ipld;
use dag_cbor_codec::RawCborCodec;
use libipld_core::cid::Cid;
use libipld_core::multihash::{Code, MultihashCode};

fn cid_bytes(data: &[u8]) -> Vec<u8> {
    Cid::new_v1(0, Code::Blake3_256.digest(data)).to_bytes()
}

fn s(x: &str) -> String {
    x.to_string()
}

fn head_bytes(major: u8, n: u64) -> Vec<u8> {
    let mut w = Vec::new();
    write_u64(&mut w, major, n);
    w
}

#[test]
fn test_encode_decode_cbor() {
    let cid = cid_bytes(b"cid");
    let ipld = Ipld::Dict(vec![
        (s("bytes"), Ipld::Bytes(vec![0, 1, 2, 3])),
        (s("link"), Ipld::Link(cid)),
        (s("list"), Ipld::List(vec![Ipld::Bool(true), Ipld::Null, Ipld::Bool(false)])),
        (
            s("map"),
            Ipld::Dict(vec![
                (s("float"), Ipld::Float(0.0f64.to_bits())),
                (s("string"), Ipld::String(s("hello"))),
            ]),
        ),
        (s("number"), Ipld::Integer(1)),
    ]);
    let bytes = RawCborCodec.encode(&ipld).unwrap();
    let ipld2 = RawCborCodec.decode(&bytes).unwrap();
    assert_eq!(ipld, ipld2);
}

#[test]
fn test_references() {
    let cid = cid_bytes(b"0");
    let ipld = Ipld::Dict(vec![(s("list"), Ipld::List(vec![Ipld::Bool(true), Ipld::Link(cid.clone())]))]);
    let bytes = RawCborCodec.encode(&ipld).unwrap();
    let set = RawCborCodec.references(&bytes).unwrap();
    assert!(set.contains(&cid));
}

#[test]
fn codec_code_is_raw_cbor() {
    assert_eq!(RawCborCodec.code(), 0x51);
}

#[test]
fn heads_take_the_shortest_width() {
    assert_eq!(head_bytes(0, 0), vec![0x00]);
    assert_eq!(head_bytes(0, 23), vec![0x17]);
    assert_eq!(head_bytes(0, 24), vec![0x18, 24]);
    assert_eq!(head_bytes(0, 255), vec![0x18, 0xff]);
    assert_eq!(head_bytes(0, 256), vec![0x19, 0x01, 0x00]);
    assert_eq!(head_bytes(0, 65535), vec![0x19, 0xff, 0xff]);
    assert_eq!(head_bytes(0, 65536), vec![0x1a, 0x00, 0x01, 0x00, 0x00]);
    assert_eq!(head_bytes(0, 0xffff_ffff), vec![0x1a, 0xff, 0xff, 0xff, 0xff]);
    assert_eq!(head_bytes(0, 0x1_0000_0000), vec![0x1b, 0, 0, 0, 1, 0, 0, 0, 0]);
    assert_eq!(head_bytes(4, u64::MAX), vec![0x9b, 0xff, 0xff, 0xff, 0xff, 0xff, 0xff, 0xff, 0xff]);
}

#[test]
fn non_minimal_input_is_reencoded_minimally() {
    let wide = vec![0x1b, 0, 0, 0, 0, 0, 0, 0, 5];
    let v = RawCborCodec.decode(&wide).unwrap();
    assert_eq!(v, Ipld::Integer(5));
    assert_eq!(RawCborCodec.encode(&v).unwrap(), vec![0x05]);
    let wide_text = vec![0x79, 0x00, 0x01, b'a'];
    let t = RawCborCodec.decode(&wide_text).unwrap();
    assert_eq!(RawCborCodec.encode(&t).unwrap(), vec![0x61, b'a']);
}

#[test]
fn integers_at_the_edges() {
    assert_eq!(RawCborCodec.encode(&Ipld::Integer(-1)).unwrap(), vec![0x20]);
    assert_eq!(RawCborCodec.encode(&Ipld::Integer(-25)).unwrap(), vec![0x38, 24]);
    let min = -(1i128 << 64);
    let max = (1i128 << 64) - 1;
    assert_eq!(RawCborCodec.encode(&Ipld::Integer(min)).unwrap(), vec![0x3b, 0xff, 0xff, 0xff, 0xff, 0xff, 0xff, 0xff, 0xff]);
    assert_eq!(RawCborCodec.encode(&Ipld::Integer(max)).unwrap(), vec![0x1b, 0xff, 0xff, 0xff, 0xff, 0xff, 0xff, 0xff, 0xff]);
    for i in [min, max, -1, 0, 1000] {
        let b = RawCborCodec.encode(&Ipld::Integer(i)).unwrap();
        assert_eq!(RawCborCodec.decode(&b).unwrap(), Ipld::Integer(i));
    }
}

#[test]
fn integers_out_of_range_are_refused() {
    let mut w = Vec::new();
    assert_eq!(encode_int(&mut w, 1i128 << 64), Err(CodecError::NumberOutOfRange));
    assert_eq!(encode_int(&mut w, -(1i128 << 64) - 1), Err(CodecError::NumberOutOfRange));
    let nested = Ipld::List(vec![Ipld::Integer(i128::MAX)]);
    assert_eq!(RawCborCodec.encode(&nested), Err(CodecError::NumberOutOfRange));
}

#[test]
fn map_keys_come_out_sorted() {
    let mut wire = vec![0xa2];
    wire.extend_from_slice(&[0x61, b'b', 0x01]);
    wire.extend_from_slice(&[0x61, b'a', 0x02]);
    let v = RawCborCodec.decode(&wire).unwrap();
    assert_eq!(v, Ipld::Dict(vec![(s("a"), Ipld::Integer(2)), (s("b"), Ipld::Integer(1))]));
    let out = RawCborCodec.encode(&v).unwrap();
    assert_eq!(out, vec![0xa2, 0x61, b'a', 0x02, 0x61, b'b', 0x01]);
}

#[test]
fn map_keys_order_by_bytes() {
    let wire = vec![0xa3, 0x62, b'a', b'a', 0x01, 0x61, b'b', 0x02, 0x61, b'a', 0x03];
    let v = RawCborCodec.decode(&wire).unwrap();
    assert_eq!(
        v,
        Ipld::Dict(vec![(s("a"), Ipld::Integer(3)), (s("aa"), Ipld::Integer(1)), (s("b"), Ipld::Integer(2))])
    );
}

#[test]
fn duplicate_key_keeps_the_later_value() {
    let wire = vec![0xa2, 0x61, b'k', 0x01, 0x61, b'k', 0x02];
    let v = RawCborCodec.decode(&wire).unwrap();
    assert_eq!(v, Ipld::Dict(vec![(s("k"), Ipld::Integer(2))]));
}

#[test]
fn map_key_must_be_text() {
    let wire = vec![0xa1, 0x01, 0x02];
    assert_eq!(RawCborCodec.decode(&wire), Err(CodecError::UnexpectedCode));
}

#[test]
fn link_round_trip() {
    let cid = cid_bytes(b"link");
    assert!(cid.len() + 1 >= 24);
    let v = Ipld::Link(cid.clone());
    let b = RawCborCodec.encode(&v).unwrap();
    assert_eq!(&b[..4], &[0xd8, 42, 0x58, (cid.len() + 1) as u8]);
    assert_eq!(b[4], 0);
    assert_eq!(&b[5..], &cid[..]);
    assert_eq!(RawCborCodec.decode(&b).unwrap(), v);
}

#[test]
fn short_link_is_not_read_back() {
    let id = vec![0x01, 0x55, 0x00, 0x02, 0xab, 0xcd];
    let b = RawCborCodec.encode(&Ipld::Link(id.clone())).unwrap();
    assert_eq!(b[2], 0x40 + id.len() as u8 + 1);
    assert_eq!(RawCborCodec.decode(&b), Err(CodecError::UnknownTag));
}

#[test]
fn link_errors() {
    assert_eq!(RawCborCodec.decode(&[0xd8, 41]), Err(CodecError::UnknownTag));
    assert_eq!(RawCborCodec.decode(&[0xd8, 42, 0x58, 0x00]), Err(CodecError::LengthOutOfRange));
    assert_eq!(RawCborCodec.decode(&[0xd8, 42, 0x58, 0x02, 0x07, 0x01]), Err(CodecError::InvalidCidPrefix(7)));
    assert_eq!(RawCborCodec.decode(&[0xd8, 42, 0x58, 0x03, 0x00, 0x07]), Err(CodecError::Io));
    let mut bad = vec![0xd8, 42, 0x58, 25, 0x00];
    bad.extend_from_slice(&[0xff; 24]);
    assert_eq!(RawCborCodec.decode(&bad), Err(CodecError::InvalidCid));
}

#[test]
fn non_finite_floats_use_half_precision_and_do_not_decode() {
    let cases = [
        (f64::INFINITY, vec![0xf9, 0x7c, 0x00]),
        (f64::NEG_INFINITY, vec![0xf9, 0xfc, 0x00]),
        (f64::NAN, vec![0xf9, 0x7e, 0x00]),
    ];
    for (f, expected) in cases {
        let b = RawCborCodec.encode(&Ipld::Float(f.to_bits())).unwrap();
        assert_eq!(b, expected);
        assert_eq!(RawCborCodec.decode(&b), Err(CodecError::UnexpectedCode));
    }
}

#[test]
fn floats_take_the_narrowest_exact_width() {
    let mut w = Vec::new();
    encode_f64(&mut w, 1.5f64.to_bits());
    assert_eq!(w, vec![0xfa, 0x3f, 0xc0, 0x00, 0x00]);
    let mut w = Vec::new();
    encode_f64(&mut w, 0.1f64.to_bits());
    let mut expected = vec![0xfb];
    expected.extend_from_slice(&0.1f64.to_bits().to_be_bytes());
    assert_eq!(w, expected);
    let tiny = f32::from_bits(1) as f64;
    let mut w = Vec::new();
    encode_f64(&mut w, tiny.to_bits());
    assert_eq!(w, vec![0xfa, 0, 0, 0, 1]);
    let mut w = Vec::new();
    encode_f64(&mut w, (-0.0f64).to_bits());
    assert_eq!(w, vec![0xfa, 0x80, 0, 0, 0]);
}

#[test]
fn floats_round_trip() {
    for f in [0.0f64, -0.0, 1.5, 0.1, 1e300, -2.5e-40, f32::MAX as f64, f32::from_bits(0x0040_0000) as f64, f64::MIN_POSITIVE] {
        let v = Ipld::Float(f.to_bits());
        let b = RawCborCodec.encode(&v).unwrap();
        assert_eq!(RawCborCodec.decode(&b).unwrap(), v);
    }
}

#[test]
fn single_precision_input_widens() {
    let v = RawCborCodec.decode(&[0xfa, 0x3f, 0xc0, 0x00, 0x00]).unwrap();
    assert_eq!(v, Ipld::Float(1.5f64.to_bits()));
    let v = RawCborCodec.decode(&[0xfa, 0x00, 0x00, 0x00, 0x03]).unwrap();
    assert_eq!(v, Ipld::Float((f32::from_bits(3) as f64).to_bits()));
}

#[test]
fn reserved_codes_are_rejected() {
    for lead in [0x1c, 0x1d, 0x1e, 0x3c, 0x5d, 0x7e, 0x9f, 0xbc, 0xf9, 0xf8, 0xff] {
        assert_eq!(RawCborCodec.decode(&[lead, 0, 0, 0, 0, 0, 0, 0, 0]), Err(CodecError::UnexpectedCode));
    }
}

#[test]
fn other_tags_are_unknown() {
    for lead in [0xc0, 0xc2, 0xd7, 0xd9, 0xda, 0xdb, 0xdc, 0xdf] {
        assert_eq!(RawCborCodec.decode(&[lead, 42, 0x58, 1, 0]), Err(CodecError::UnknownTag));
    }
}

#[test]
fn truncated_input_is_an_io_error() {
    assert_eq!(RawCborCodec.decode(&[0x63, b'a', b'b']), Err(CodecError::Io));
    assert_eq!(RawCborCodec.decode(&[0x44, 1, 2]), Err(CodecError::Io));
    assert_eq!(RawCborCodec.decode(&[0x19, 1]), Err(CodecError::Io));
    assert_eq!(RawCborCodec.decode(&[]), Err(CodecError::Io));
    assert_eq!(RawCborCodec.decode(&[0x82, 0x01]), Err(CodecError::Io));
    assert_eq!(RawCborCodec.decode(&[0x5b, 0xff, 0xff, 0xff, 0xff, 0xff, 0xff, 0xff, 0xff]), Err(CodecError::Io));
}

#[test]
fn invalid_text_is_refused() {
    assert_eq!(RawCborCodec.decode(&[0x62, 0xc3, 0x28]), Err(CodecError::Utf8));
}

#[test]
fn simple_values() {
    assert_eq!(RawCborCodec.decode(&[0xf4]).unwrap(), Ipld::Bool(false));
    assert_eq!(RawCborCodec.decode(&[0xf5]).unwrap(), Ipld::Bool(true));
    assert_eq!(RawCborCodec.decode(&[0xf6]).unwrap(), Ipld::Null);
    assert_eq!(RawCborCodec.decode(&[0xf7]).unwrap(), Ipld::Null);
    assert_eq!(RawCborCodec.encode(&Ipld::Null).unwrap(), vec![0xf6]);
    assert_eq!(RawCborCodec.encode(&Ipld::Bool(true)).unwrap(), vec![0xf5]);
}

#[test]
fn text_and_bytes_round_trip() {
    let v = Ipld::List(vec![Ipld::String(s("héllo wörld, a longer string of text")), Ipld::Bytes(vec![7; 300])]);
    let b = RawCborCodec.encode(&v).unwrap();
    assert_eq!(&b[..3], &[0x82, 0x78, 38]);
    assert_eq!(RawCborCodec.decode(&b).unwrap(), v);
}

#[test]
fn primitive_reads() {
    let mut r = ByteReader::new(vec![0x07, b'o', b'k', 0x63, b'k', b'e', b'y', 0x61, b'x']);
    assert_eq!(read_u8(&mut r), Ok(7));
    assert_eq!(read_str(&mut r, 2), Ok(s("ok")));
    assert_eq!(read_key(&mut r, "key"), Ok(()));
    assert_eq!(read_key(&mut r, "y"), Err(CodecError::UnexpectedKey));
    assert_eq!(read_u8(&mut r), Err(CodecError::Io));
}

#[test]
fn typed_reads_claim_their_codes() {
    let mut r = ByteReader::new(vec![0x18, 200, 0x19, 0x01, 0x00, 0xf5, 0x38, 0x05, 0x3b, 0, 0, 0, 0, 0, 0, 0, 9]);
    assert_eq!(read_typed::<u8>(&mut r), Ok(200));
    assert_eq!(read_typed::<u16>(&mut r), Ok(256));
    assert_eq!(read_typed::<bool>(&mut r), Ok(true));
    assert_eq!(read_typed::<i8>(&mut r), Ok(-6));
    assert_eq!(read_typed::<i64>(&mut r), Ok(-10));
    assert_eq!(read_typed::<u8>(&mut r), Err(CodecError::Io));
}

#[test]
fn typed_reads_decline_other_codes() {
    let mut r = ByteReader::new(vec![0x19, 0x01, 0x00]);
    assert_eq!(read_typed::<u8>(&mut r), Err(CodecError::UnexpectedCode));
    let mut r = ByteReader::new(vec![0x01]);
    assert_eq!(read_typed::<bool>(&mut r), Err(CodecError::UnexpectedCode));
    let mut r = ByteReader::new(vec![0x1a, 0, 0]);
    assert_eq!(read_typed::<u32>(&mut r), Err(CodecError::Io));
    let mut r = ByteReader::new(vec![0x05]);
    assert_eq!(read_typed::<i32>(&mut r), Err(CodecError::UnexpectedCode));
    let mut r = ByteReader::new(vec![0x39, 0x01, 0x00]);
    assert_eq!(read_typed::<i16>(&mut r), Ok(-257));
}

#[test]
fn map_encoding_puts_keys_in_order() {
    let m = dict_from(vec![(s("b"), Ipld::Integer(1)), (s("a"), Ipld::Integer(2))]);
    let out = RawCborCodec.encode(&Ipld::Dict(m)).unwrap();
    assert_eq!(out, vec![0xa2, 0x61, b'a', 0x02, 0x61, b'b', 0x01]);
}

#[test]
fn map_insert_replaces_and_orders() {
    let mut m = Vec::new();
    dict_insert(&mut m, s("z"), Ipld::Null);
    dict_insert(&mut m, s("m"), Ipld::Bool(true));
    dict_insert(&mut m, s("z"), Ipld::Integer(4));
    assert_eq!(m, vec![(s("m"), Ipld::Bool(true)), (s("z"), Ipld::Integer(4))]);
}

#[test]
fn optional_reads_take_null() {
    let mut r = ByteReader::new(vec![0xf6, 0x05, 0xf7, 0xf5]);
    assert_eq!(read_typed::<Option<u8>>(&mut r), Ok(None));
    assert_eq!(read_typed::<Option<u8>>(&mut r), Ok(Some(5)));
    assert_eq!(read_typed::<Option<bool>>(&mut r), Ok(None));
    assert_eq!(read_typed::<Option<u8>>(&mut r), Err(CodecError::UnexpectedCode));
}

#[test]
fn read_key_checks_the_whole_text_string() {
    let mut r = ByteReader::new(vec![0x00, b'k']);
    assert_eq!(read_key(&mut r, "k"), Err(CodecError::UnexpectedCode));
    let long = "a key of more than twenty-three bytes";
    let mut bytes = vec![0x78, long.len() as u8];
    bytes.extend_from_slice(long.as_bytes());
    bytes.push(0x62);
    bytes.extend_from_slice(b"ab");
    let mut r = ByteReader::new(bytes);
    assert_eq!(read_key(&mut r, long), Ok(()));
    assert_eq!(read_key(&mut r, "abc"), Err(CodecError::UnexpectedKey));
}

#[test]
fn signed_reads_refuse_values_out_of_range() {
    let mut r = ByteReader::new(vec![0x3b, 0xff, 0xff, 0xff, 0xff, 0xff, 0xff, 0xff, 0xff]);
    assert_eq!(read_typed::<i64>(&mut r), Err(CodecError::NumberOutOfRange));
    let mut r = ByteReader::new(vec![0x38, 0xc8]);
    assert_eq!(read_typed::<i8>(&mut r), Err(CodecError::NumberOutOfRange));
    let mut r = ByteReader::new(vec![0x38, 0x7f, 0x3b, 0x7f, 0xff, 0xff, 0xff, 0xff, 0xff, 0xff, 0xff]);
    assert_eq!(read_typed::<i8>(&mut r), Ok(-128));
    assert_eq!(read_typed::<i64>(&mut r), Ok(i64::MIN));
}

#[test]
fn typed_strings_lists_and_values() {
    let mut r = ByteReader::new(vec![0x62, b'h', b'i', 0x05, 0x83, 0x01, 0x02, 0x18, 30, 0x82, 0xf6, 0x61, b'x', 0x81, 0xf5]);
    assert_eq!(read_typed::<String>(&mut r), Ok(s("hi")));
    assert_eq!(read_typed::<Option<String>>(&mut r), Err(CodecError::UnexpectedCode));
    assert_eq!(read_typed::<Vec<u64>>(&mut r), Ok(vec![1, 2, 30]));
    assert_eq!(read_typed::<Vec<Option<String>>>(&mut r), Ok(vec![None, Some(s("x"))]));
    assert_eq!(read_typed::<Ipld>(&mut r), Ok(Ipld::List(vec![Ipld::Bool(true)])));
}

#[test]
fn typed_reads_decline_without_consuming() {
    let mut r = ByteReader::new(vec![0x01]);
    assert_eq!(String::try_read_cbor(&mut r, 0x83), Ok(None));
    assert_eq!(Vec::<u8>::try_read_cbor(&mut r, 0x61), Ok(None));
    assert_eq!(Ipld::try_read_cbor(&mut r, 0x1c), Ok(None));
    assert_eq!(Ipld::try_read_cbor(&mut r, 0xf9), Ok(None));
    assert_eq!(read_u8(&mut r), Ok(1));
    let mut r = ByteReader::new(vec![0x82, 0x01]);
    assert_eq!(read_typed::<Vec<u8>>(&mut r), Err(CodecError::Io));
    let mut r = ByteReader::new(vec![0x81, 0x61, b'a']);
    assert_eq!(read_typed::<Vec<u8>>(&mut r), Err(CodecError::UnexpectedCode));
}

#[test]
fn typed_maps_sort_and_replace() {
    let mut r = ByteReader::new(vec![0xa3, 0x61, b'b', 0x01, 0x61, b'a', 0x02, 0x61, b'b', 0x03]);
    assert_eq!(read_typed::<Vec<(String, u8)>>(&mut r), Ok(vec![(s("a"), 2), (s("b"), 3)]));
    let mut r = ByteReader::new(vec![0xa1, 0x01, 0x02]);
    assert_eq!(read_typed::<Vec<(String, u8)>>(&mut r), Err(CodecError::UnexpectedCode));
    let mut r = ByteReader::new(vec![0xa1, 0x61, b'k', 0xf5]);
    assert_eq!(read_typed::<Vec<(String, u8)>>(&mut r), Err(CodecError::UnexpectedCode));
    let mut r = ByteReader::new(vec![0xa1, 0x61, b'k', 0xf5]);
    assert_eq!(read_typed::<Vec<(String, bool)>>(&mut r), Ok(vec![(s("k"), true)]));
    let mut r = ByteReader::new(vec![0x80]);
    assert_eq!(Vec::<(String, u8)>::try_read_cbor(&mut r, 0x80), Ok(None));
}
