use parquet_decode::decode::{decode_plain, decompress, from_snappy, DecodeError};
use parquet_decode::model::{Issue, Prim, Span};

fn plain(
    typ: i32,
    type_length: i32,
    data: &[u8],
    count: usize,
) -> (Vec<Prim>, Vec<(u64, u64)>, Vec<Issue>) {
    let mut issues = Vec::new();
    let out = decode_plain(typ, type_length, data, 1000, count, "col", 2, &mut issues);
    for i in &issues {
        assert_eq!((i.severity.as_str(), i.kind.as_str()), ("error", "ValueDecode"));
        assert_eq!(i.column.as_deref(), Some("col"));
        assert_eq!(i.page, Some(2));
    }
    for (_, s) in &out {
        assert_eq!((s.kind.as_str(), s.page), ("values", Some(2)));
    }
    let spans = out.iter().map(|(_, s): &(Prim, Span)| (s.start, s.end)).collect();
    (out.into_iter().map(|(p, _)| p).collect(), spans, issues)
}

#[test]
fn integers() {
    let (values, spans, issues) = plain(1, 0, &[1, 0, 0, 0, 0xfe, 0xff, 0xff, 0xff], 2);
    assert_eq!(values, vec![Prim::I32(1), Prim::I32(-2)]);
    assert_eq!(spans, vec![(1000, 1004), (1004, 1008)]);
    assert!(issues.is_empty());
    let (values, spans, _) = plain(2, 0, &[0, 0, 0, 0, 0, 0, 0, 0x80], 1);
    assert_eq!(values, vec![Prim::I64(i64::MIN)]);
    assert_eq!(spans, vec![(1000, 1008)]);
    let (values, _, _) = plain(3, 0, &[1, 2, 3, 4, 5, 6, 7, 8, 9, 10, 11, 12], 1);
    assert_eq!(values, vec![Prim::I96([1, 2, 3, 4, 5, 6, 7, 8, 9, 10, 11, 12])]);
}

#[test]
fn floats_are_bit_patterns() {
    let mut data = (-0.0f32).to_le_bytes().to_vec();
    data.extend_from_slice(&1.5f32.to_le_bytes());
    let (values, _, _) = plain(4, 0, &data, 2);
    assert_eq!(values.len(), 2);
    assert!(matches!(values[0], Prim::F32(0x8000_0000)));
    assert!(matches!(values[1], Prim::F32(0x3fc0_0000)));
    let (values, _, _) = plain(5, 0, &f64::NAN.to_le_bytes(), 1);
    assert_eq!(values.len(), 1);
    assert!(matches!(values[0], Prim::F64(b) if b == f64::NAN.to_bits()));
}

#[test]
fn byte_arrays() {
    let data = [2, 0, 0, 0, b'h', b'i', 0, 0, 0, 0, 1, 0, 0, 0, 0xff];
    let (values, spans, issues) = plain(6, 0, &data, 3);
    assert_eq!(
        values,
        vec![Prim::Bytes(b"hi".to_vec()), Prim::Bytes(Vec::new()), Prim::Bytes(vec![0xff])]
    );
    assert_eq!(spans, vec![(1000, 1006), (1006, 1010), (1010, 1015)]);
    assert!(issues.is_empty());
    let (values, spans, _) = plain(7, 3, b"abcdef", 2);
    assert_eq!(values, vec![Prim::Fixed(b"abc".to_vec()), Prim::Fixed(b"def".to_vec())]);
    assert_eq!(spans, vec![(1000, 1003), (1003, 1006)]);
    let (values, spans, issues) = plain(7, -4, b"", 2);
    assert_eq!(values, vec![Prim::Fixed(Vec::new()), Prim::Fixed(Vec::new())]);
    assert_eq!(spans, vec![(1000, 1000), (1000, 1000)]);
    assert!(issues.is_empty());
}

#[test]
fn booleans() {
    let (values, spans, issues) = plain(0, 0, &[0b1000_0101, 0b1], 9);
    let want = [true, false, true, false, false, false, false, true, true];
    assert_eq!(values, want.map(Prim::Bool).to_vec());
    assert_eq!(spans[7], (1000, 1001));
    assert_eq!(spans[8], (1001, 1002));
    assert!(issues.is_empty());
}

#[test]
fn truncated_booleans() {
    let (values, spans, issues) = plain(0, 0, &[0x05], 9);
    let want = [true, false, true, false, false, false, false, false];
    assert_eq!(values, want.map(Prim::Bool).to_vec());
    assert_eq!(spans, vec![(1000, 1001); 8]);
    assert_eq!(issues.len(), 1);
    assert_eq!(issues[0].message, "boolean stream truncated");
    let (values, _, issues) = plain(0, 0, &[], 1);
    assert!(values.is_empty());
    assert_eq!(issues.len(), 1);
}

#[test]
fn truncated_values() {
    let (values, _, issues) = plain(1, 0, &[1, 0, 0, 0, 2, 0], 3);
    assert_eq!(values, vec![Prim::I32(1)]);
    assert_eq!(
        issues[0].message,
        "PLAIN data truncated at value 1 of 3 (need 4 bytes, have 2)"
    );
    let (_, _, issues) = plain(6, 0, &[5, 0, 0, 0, b'x'], 1);
    assert_eq!(
        issues[0].message,
        "PLAIN data truncated at value 0 of 1 (need 5 bytes, have 1)"
    );
    let (_, _, issues) = plain(6, 0, &[5, 0], 1);
    assert_eq!(
        issues[0].message,
        "PLAIN data truncated at value 0 of 1 (need 4 bytes, have 2)"
    );
    for (typ, width) in [(2, 8), (3, 12), (4, 4), (5, 8), (7, 6)] {
        let (values, _, issues) = plain(typ, 6, &[0; 3], 1);
        assert!(values.is_empty());
        assert_eq!(issues.len(), 1);
        assert_eq!(
            issues[0].message,
            format!("PLAIN data truncated at value 0 of 1 (need {} bytes, have 3)", width)
        );
    }
}

#[test]
fn unknown_type_and_nothing_asked() {
    let (values, _, issues) = plain(-8, 0, &[1, 2, 3, 4], 1);
    assert!(values.is_empty());
    assert_eq!(issues[0].message, "unknown physical type -8");
    for typ in [0, 1, 9] {
        let (values, _, issues) = plain(typ, 0, &[], 0);
        assert!(values.is_empty() && issues.is_empty());
    }
}

#[test]
fn span_offsets_wrap() {
    let mut issues = Vec::new();
    let out = decode_plain(1, 0, &[0; 4], u64::MAX - 1, 1, "c", 0, &mut issues);
    assert_eq!((out[0].1.start, out[0].1.end), (u64::MAX - 1, 2));
}

#[test]
fn uncompressed_page() {
    assert_eq!(decompress(0, &[1, 2, 3], 3).unwrap(), vec![1, 2, 3]);
    // The size is not held against the result.
    assert_eq!(decompress(0, &[1, 2, 3], 99).unwrap(), vec![1, 2, 3]);
}

#[test]
fn snappy_page() {
    let page: Vec<u8> = (0..1000).map(|i| (i % 7) as u8).collect();
    let packed = snap::raw::Encoder::new().compress_vec(&page).unwrap();
    assert_ne!(packed, page);
    assert_eq!(decompress(1, &packed, page.len()).unwrap(), page);
    assert_eq!(decompress(1, &packed, 0).unwrap(), page);
}

#[test]
fn snappy_errors() {
    match decompress(1, &[], 0) {
        Err(DecodeError::Snappy(e)) => {
            assert_eq!(DecodeError::Snappy(e.clone()).message(), e.to_string());
            assert_eq!(e, snap::Error::Empty);
        }
        _ => panic!("an empty page is no Snappy data"),
    }
    assert!(matches!(
        decompress(1, &[5, 0xff, 0xff], 5),
        Err(DecodeError::Snappy(_))
    ));
    assert_eq!(from_snappy(Ok(vec![4])).unwrap(), vec![4]);
    assert!(matches!(
        from_snappy(Err(snap::Error::Empty)),
        Err(DecodeError::Snappy(snap::Error::Empty))
    ));
}

#[test]
fn unsupported_codec() {
    for codec in [2, -1] {
        let e = decompress(codec, &[], 0).unwrap_err();
        assert!(matches!(e, DecodeError::UnsupportedCodec { codec: c } if c == codec));
        assert_eq!(
            e.message(),
            format!("unsupported codec {} (only UNCOMPRESSED and SNAPPY)", codec)
        );
    }
}

#[test]
fn truncation_keeps_the_complete_values() {
    let data = [2, 0, 0, 0, b'h', b'i', 0, 0, 0, 0, 1, 0, 0, 0, 0xff];
    let (whole, spans, _) = plain(6, 0, &data, 3);
    for n in 0..data.len() {
        let (part, part_spans, issues) = plain(6, 0, &data[..n], 3);
        let complete = spans.iter().filter(|(_, end)| *end <= 1000 + n as u64).count();
        assert_eq!(part, whole[..complete]);
        assert_eq!(part_spans, spans[..complete]);
        assert_eq!(issues.len(), 1);
    }
}
