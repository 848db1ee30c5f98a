use parquet_decode::thrift::{write_struct, write_struct_into, TReader, TVal, T_BINARY, T_STOP};
use parquet_decode::varint;
use parquet_decode::wire::ThriftError;

fn read(bytes: &[u8]) -> Result<Vec<(i16, TVal)>, ThriftError> {
    TReader::new(bytes).read_struct()
}

#[test]
fn struct_round_trip() {
    let fields = vec![
        (1i16, TVal::I32(-7)),
        (2, TVal::str("x")),
        (3, TVal::Bool(true)),
        (4, TVal::Bool(false)),
        (20, TVal::Byte(-1)),
        (19, TVal::I64(i64::MIN)),
        (-5, TVal::Double(1.5f64.to_bits())),
        (300, TVal::List(vec![TVal::Bool(true), TVal::Bool(false)])),
        (301, TVal::List(Vec::new())),
        (302, TVal::List((0..20).map(TVal::I32).collect())),
        (303, TVal::Struct(vec![(1, TVal::Struct(Vec::new())), (1, TVal::I64(i64::MAX))])),
        (304, TVal::Binary((0..200).map(|i| i as u8).collect())),
    ];
    let bytes = write_struct(&fields);
    let mut reader = TReader::new(&bytes);
    assert_eq!(reader.read_struct().unwrap(), fields);
    assert_eq!(reader.pos, bytes.len());
    assert_eq!(reader.remaining(), 0);
}

#[test]
fn struct_is_read_in_the_middle_of_a_buffer() {
    let fields = vec![(1i16, TVal::I32(1))];
    let mut bytes = vec![0xaau8];
    write_struct_into(&fields, &mut bytes);
    bytes.push(0x55);
    let mut reader = TReader::new(&bytes);
    assert_eq!(reader.byte(), Ok(0xaa));
    assert_eq!(reader.read_struct().unwrap(), fields);
    assert_eq!(reader.remaining(), 1);
}

#[test]
fn written_bytes() {
    assert_eq!(
        write_struct(&[(1, TVal::I32(7)), (2, TVal::str("x"))]),
        vec![0x15, 0x0e, 0x18, 0x01, 0x78, 0x00]
    );
    assert_eq!(
        write_struct(&[(1, TVal::Bool(true)), (16, TVal::Bool(false)), (32, TVal::Byte(-1))]),
        vec![0x11, 0xf2, 0x03, 0x40, 0xff, 0x00]
    );
    assert_eq!(
        write_struct(&[(100, TVal::I64(-1))]),
        vec![0x06, 0xc8, 0x01, 0x01, 0x00]
    );
    assert_eq!(
        write_struct(&[(1, TVal::List(vec![TVal::Byte(9); 15]))])[..4],
        [0x19, 0xf3, 0x0f, 0x09]
    );
    assert_eq!(write_struct(&[(1, TVal::List(Vec::new()))]), vec![0x19, 0x00, 0x00]);
    assert_eq!(
        write_struct(&[(1, TVal::Double(1.0f64.to_bits()))]),
        vec![0x17, 0, 0, 0, 0, 0, 0, 0xf0, 0x3f, 0x00]
    );
    assert_eq!(write_struct(&[]), vec![T_STOP]);
}

#[test]
fn map_becomes_list_of_pairs() {
    let got = read(&[0x1b, 0x01, 0x58, 0x02, 0x01, 0x61, 0x00]).unwrap();
    let pair = TVal::List(vec![TVal::I32(1), TVal::str("a")]);
    assert_eq!(got, vec![(1, TVal::List(vec![pair]))]);
    assert_eq!(read(&[0x1b, 0x00, 0x00]).unwrap(), vec![(1, TVal::List(Vec::new()))]);
}

#[test]
fn set_becomes_list_and_i16_becomes_i32() {
    assert_eq!(
        read(&[0x1a, 0x14, 0x05, 0x00]).unwrap(),
        vec![(1, TVal::List(vec![TVal::I32(-3)]))]
    );
}

#[test]
fn collection_booleans_have_a_payload() {
    assert_eq!(
        read(&[0x19, 0x31, 0x01, 0x02, 0x00, 0x00]).unwrap(),
        vec![(1, TVal::List(vec![TVal::Bool(true), TVal::Bool(false), TVal::Bool(false)]))]
    );
}

#[test]
fn field_ids_wrap() {
    assert_eq!(
        read(&[0x03, 0xfe, 0xff, 0x03, 0x07, 0x13, 0x08, 0x00]).unwrap(),
        vec![(i16::MAX, TVal::Byte(7)), (i16::MIN, TVal::Byte(8))]
    );
}

#[test]
fn wide_integers_keep_their_low_bits() {
    // zigzag of 2^32 + 1 in a 32-bit field
    assert_eq!(
        read(&[0x15, 0x82, 0x80, 0x80, 0x80, 0x20, 0x00]).unwrap(),
        vec![(1, TVal::I32(1))]
    );
}

#[test]
fn thrift_errors() {
    let big = [0x81u8, 0x80, 0x80, 0x08];
    let cases: Vec<(Vec<u8>, ThriftError, &str)> = vec![
        (
            Vec::new(),
            ThriftError::UnexpectedEnd { pos: 0 },
            "thrift: unexpected end of input at 0",
        ),
        (
            vec![0x15],
            ThriftError::UnexpectedEnd { pos: 1 },
            "thrift: unexpected end of input at 1",
        ),
        (
            vec![0x18, 0x05, 0x61],
            ThriftError::NeedBytes { need: 5, have: 1 },
            "thrift: need 5 bytes, have 1",
        ),
        (
            [vec![0x16u8], vec![0xff; 10]].concat(),
            ThriftError::VarintTooLong,
            "thrift: varint too long",
        ),
        (
            [vec![0x19u8, 0xf5], big.to_vec()].concat(),
            ThriftError::ListTooLarge { size: 16777217 },
            "thrift: list size 16777217 too large",
        ),
        (
            [vec![0x1bu8], big.to_vec()].concat(),
            ThriftError::MapTooLarge { size: 16777217 },
            "thrift: map size 16777217 too large",
        ),
        (vec![0x1d], ThriftError::UnknownType { typ: 13 }, "thrift: unknown type 13"),
    ];
    for (bytes, error, message) in cases {
        assert_eq!(read(&bytes), Err(error));
        assert_eq!(error.message(), message);
    }
}

#[test]
fn reader_primitives() {
    let bytes = [0x96u8, 0x01, 0x03, 0xaa, 0xbb];
    let mut reader = TReader::new(&bytes);
    assert_eq!(reader.remaining(), 5);
    assert_eq!(reader.varint(), Ok(150));
    assert_eq!(reader.zigzag(), Ok(-2));
    assert_eq!(reader.take(3), Err(ThriftError::NeedBytes { need: 3, have: 2 }));
    assert_eq!(reader.take(2), Ok(&[0xaau8, 0xbb][..]));
    assert_eq!(reader.take(0), Ok(&[][..]));
    assert_eq!(reader.byte(), Err(ThriftError::UnexpectedEnd { pos: 5 }));
    assert_eq!(reader.pos, 5);
}

#[test]
fn accessors() {
    let fields = vec![(1i16, TVal::I32(5)), (1, TVal::I32(6)), (2, TVal::Byte(-3))];
    assert_eq!(TVal::get(&fields, 1), Some(&TVal::I32(5)));
    assert_eq!(TVal::get(&fields, 3), None);
    assert_eq!(fields[2].1.as_i64(), Some(-3));
    assert_eq!(TVal::I64(i64::MIN).as_i64(), Some(i64::MIN));
    assert_eq!(TVal::Bool(true).as_i64(), None);
    assert_eq!(TVal::Bool(true).as_bool(), Some(true));
    assert_eq!(TVal::I32(1).as_bool(), None);
    assert_eq!(TVal::str("ab").as_bin(), Some(&b"ab"[..]));
    assert_eq!(TVal::I32(1).as_bin(), None);
    assert_eq!(TVal::List(vec![TVal::I32(1)]).as_list(), Some(&[TVal::I32(1)][..]));
    assert_eq!(TVal::I32(1).as_list(), None);
    assert_eq!(TVal::Struct(fields.clone()).as_struct(), Some(&fields[..]));
    assert_eq!(TVal::I32(1).as_struct(), None);
    assert_eq!(T_BINARY, 8);
}

#[test]
fn text_round_trip_and_lossy_decoding() {
    assert_eq!(TVal::str("gr\u{fc}n \u{1f600}").as_str().unwrap(), "gr\u{fc}n \u{1f600}");
    assert_eq!(TVal::Binary(vec![0x61, 0xff, 0x62]).as_str().unwrap(), "a\u{fffd}b");
    assert_eq!(TVal::I32(1).as_str(), None);
}

#[test]
fn varint_and_zigzag_round_trips() {
    for v in [0u64, 1, 127, 128, 16384, u64::MAX] {
        let mut out = Vec::new();
        varint::varint_into(v, &mut out);
        let mut pos = 0;
        assert_eq!(varint::read(&out, &mut pos), Ok(v));
        assert_eq!(pos, out.len());
    }
    for v in [0i64, -1, 1, -64, 64, i64::MIN, i64::MAX] {
        let mut out = Vec::new();
        varint::zigzag_into(v, &mut out);
        assert_eq!(TReader::new(&out).zigzag(), Ok(v));
    }
    let mut out = Vec::new();
    varint::varint_into(300, &mut out);
    assert_eq!(out, vec![0xac, 0x02]);
    assert_eq!(varint::unzigzag_u64(3), -2);
}
