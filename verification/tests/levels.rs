use parquet_decode::levels::{bit_width_for, decode_dict_indices, decode_hybrid, read_varint};
use parquet_decode::model::{Issue, Span};
use parquet_decode::thrift::TReader;

fn hybrid(data: &[u8], bit_width: u32, expected: usize) -> (Vec<(u16, Span)>, Vec<Issue>) {
    let mut issues = Vec::new();
    let out = decode_hybrid(data, 100, bit_width, expected, "def_levels", "col", 3, &mut issues);
    (out, issues)
}

fn values(out: &[(u16, Span)]) -> Vec<u16> {
    out.iter().map(|(v, _)| *v).collect()
}

fn messages(issues: &[Issue]) -> Vec<String> {
    for i in issues {
        assert_eq!(i.severity, "error");
        assert_eq!(i.column.as_deref(), Some("col"));
        assert_eq!(i.page, Some(3));
    }
    issues.iter().map(|i| format!("{}: {}", i.kind, i.message)).collect()
}

fn short(decoded: usize, expected: usize) -> String {
    format!(
        "LevelDecode: def_levels stream truncated: decoded {} of {} expected values",
        decoded, expected
    )
}

#[test]
fn bit_widths() {
    let cases =
        [(0, 0), (1, 1), (2, 2), (3, 2), (4, 3), (255, 8), (256, 9), (32767, 15), (65535, 16)];
    for (level, width) in cases {
        assert_eq!(bit_width_for(level), width);
    }
}

#[test]
fn rle_run() {
    let (out, issues) = hybrid(&[0x08, 0x01], 1, 4);
    assert_eq!(values(&out), vec![1, 1, 1, 1]);
    assert!(issues.is_empty());
    for (_, s) in &out {
        assert_eq!((s.kind.as_str(), s.start, s.end, s.page), ("def_levels", 100, 102, Some(3)));
    }
}

#[test]
fn bit_packed_run() {
    let (out, issues) = hybrid(&[0x03, 0x88, 0xc6, 0xfa], 3, 8);
    assert_eq!(values(&out), vec![0, 1, 2, 3, 4, 5, 6, 7]);
    assert!(issues.is_empty());
    assert_eq!((out[0].1.start, out[7].1.end, out[0].1.page), (100, 104, None));
}

#[test]
fn several_runs() {
    // three twos, eight packed two-bit values, one three
    let (out, issues) = hybrid(&[0x06, 0x02, 0x03, 0xe4, 0x1b, 0x02, 0x03], 2, 12);
    assert_eq!(values(&out), vec![2, 2, 2, 0, 1, 2, 3, 3, 2, 1, 0, 3]);
    assert!(issues.is_empty());
    assert_eq!((out[3].1.start, out[3].1.end), (102, 105));
    assert_eq!((out[11].1.start, out[11].1.end), (105, 107));
}

#[test]
fn decoding_stops_at_the_expected_number() {
    let (out, issues) = hybrid(&[0x08, 0x01], 1, 3);
    assert_eq!(values(&out), vec![1; 3]);
    assert!(issues.is_empty());
    let (out, issues) = hybrid(&[0x03, 0x88, 0xc6, 0xfa, 0x80], 3, 5);
    assert_eq!(values(&out), vec![0, 1, 2, 3, 4]);
    assert_eq!((out[4].1.start, out[4].1.end), (100, 104));
    assert!(issues.is_empty());
    let (out, issues) = hybrid(&[0x10, 0x01], 1, 0);
    assert!(out.is_empty() && issues.is_empty());
}

#[test]
fn zero_bits() {
    let (out, issues) = hybrid(&[0x08], 0, 4);
    assert_eq!(values(&out), vec![0; 4]);
    assert!(issues.is_empty());
    let (out, issues) = hybrid(&[0x03, 0x02], 0, 1);
    assert_eq!(values(&out), vec![0]);
    assert!(issues.is_empty());
}

#[test]
fn truncated_run_header() {
    let (out, issues) = hybrid(&[0x80], 1, 4);
    assert!(out.is_empty());
    assert_eq!(
        messages(&issues),
        vec!["LevelDecode: truncated run header".to_string(), short(0, 4)]
    );
}

#[test]
fn truncated_packed_run_keeps_whole_groups() {
    let (out, issues) = hybrid(&[0x05, 0xaa], 1, 16);
    assert_eq!(values(&out), vec![0, 1, 0, 1, 0, 1, 0, 1]);
    assert_eq!((out[0].1.start, out[0].1.end), (100, 102));
    assert_eq!(
        messages(&issues),
        vec![
            "LevelDecode: bit-packed run of 2 groups needs 2 bytes, only 1 left".to_string(),
            short(8, 16),
        ]
    );
}

#[test]
fn enormous_group_count_is_an_issue() {
    let mut data = vec![0xff; 9];
    data.push(0x01);
    data.push(0xaa);
    let (out, issues) = hybrid(&data, 2, 1);
    assert!(out.is_empty());
    assert_eq!(
        messages(&issues)[0],
        "LevelDecode: bit-packed run of 9223372036854775807 groups needs 18446744073709551614 \
         bytes, only 1 left"
    );
}

#[test]
fn implausible_run_length() {
    let (out, issues) = hybrid(&[0x82, 0x10, 0x01], 1, 4);
    assert!(out.is_empty());
    assert_eq!(
        messages(&issues),
        vec!["LevelDecode: implausible RLE run length 1025".to_string(), short(0, 4)]
    );
}

#[test]
fn long_runs_up_to_the_cap_are_cut() {
    // 1000 ones, then 4000 zeros of which 25 are wanted
    let (out, issues) = hybrid(&[0xd0, 0x0f, 0x01, 0xc0, 0x3e, 0x00], 1, 1025);
    assert_eq!(out.len(), 1025);
    assert_eq!(out[999].0, 1);
    assert_eq!(out[1000].0, 0);
    assert!(issues.is_empty());
}

#[test]
fn spans_of_runs_come_in_order() {
    let (out, _) = hybrid(&[0x06, 0x02, 0x03, 0xe4, 0x1b, 0x02, 0x03], 2, 12);
    for pair in out.windows(2) {
        let (a, b) = (&pair[0].1, &pair[1].1);
        assert!((a.start, a.end) == (b.start, b.end) || a.end <= b.start);
    }
}

#[test]
fn truncated_rle_value() {
    let (out, issues) = hybrid(&[0x02, 0x01, 0x08], 9, 4);
    assert_eq!(values(&out), vec![0x0801]);
    assert_eq!(messages(&issues), vec![short(1, 4)]);
    let (out, issues) = hybrid(&[0x08], 1, 4);
    assert!(out.is_empty());
    assert_eq!(
        messages(&issues),
        vec!["LevelDecode: truncated RLE run value".to_string(), short(0, 4)]
    );
}

#[test]
fn invalid_bit_width() {
    let (out, issues) = hybrid(&[0x08, 0x01], 33, 4);
    assert!(out.is_empty());
    assert_eq!(messages(&issues), vec!["LevelDecode: invalid bit width 33 (> 32)".to_string()]);
}

#[test]
fn levels_keep_sixteen_bits() {
    let (out, _) = hybrid(&[0x02, 0x01, 0x00, 0x01], 17, 1);
    assert_eq!(values(&out), vec![1]);
}

#[test]
fn offsets_wrap() {
    let mut issues = Vec::new();
    let out = decode_hybrid(&[0x02, 0x01], u64::MAX, 1, 1, "k", "c", 0, &mut issues);
    assert_eq!((out[0].1.start, out[0].1.end), (u64::MAX, 1));
}

#[test]
fn dictionary_indices() {
    let mut issues = Vec::new();
    let out = decode_dict_indices(&[17, 0x02, 0x01, 0x00, 0x01], 10, 1, "col", 3, &mut issues);
    assert_eq!(out.len(), 1);
    assert_eq!(out[0].0, 65537);
    let s = &out[0].1;
    assert_eq!((s.kind.as_str(), s.start, s.end, s.page), ("dict_indices", 11, 15, Some(3)));
    assert!(issues.is_empty());

    // two twos, of which one is wanted
    let out = decode_dict_indices(&[2, 0x04, 0x02], 10, 1, "col", 3, &mut issues);
    assert_eq!(out.iter().map(|(v, _)| *v).collect::<Vec<u32>>(), vec![2]);
    assert!(issues.is_empty());

    assert!(decode_dict_indices(&[], 0, 1, "col", 3, &mut issues).is_empty());
    assert!(decode_dict_indices(&[33], 0, 1, "col", 3, &mut issues).is_empty());
    assert_eq!(
        messages(&issues),
        vec![
            "DictDecode: empty dictionary index stream".to_string(),
            "DictDecode: invalid dictionary bit width 33".to_string(),
        ]
    );
}

#[test]
fn partial_data_survives() {
    let data = [0x06, 0x02, 0x05, 0xe4, 0x1b, 0xff, 0x00, 0x02, 0x03];
    let (whole, issues) = hybrid(&data, 2, 20);
    assert_eq!(whole.len(), 20);
    assert!(issues.is_empty());
    let want = values(&whole);
    let kept: Vec<usize> = (0..data.len())
        .map(|n| {
            let (part, issues) = hybrid(&data[..n], 2, 20);
            assert_eq!(values(&part), want[..part.len()]);
            for (i, (_, s)) in part.iter().enumerate() {
                assert_eq!(s.start, whole[i].1.start);
            }
            assert!(!issues.is_empty());
            part.len()
        })
        .collect();
    assert_eq!(kept, vec![0, 0, 3, 3, 3, 11, 11, 19, 19]);
}

#[test]
fn both_varint_readers_agree() {
    let inputs: Vec<Vec<u8>> = vec![
        Vec::new(),
        vec![0x05],
        vec![0xac, 0x02, 0x07],
        vec![0x80, 0x80],
        vec![0xff; 9],
        vec![0xff; 12],
        [vec![0xff; 9], vec![0x7f]].concat(),
    ];
    for data in inputs {
        for start in 0..=data.len() {
            let mut pos = start;
            let mut reader = TReader::new(&data);
            reader.pos = start;
            assert_eq!(read_varint(&data, &mut pos), reader.varint().ok());
            assert_eq!(pos, reader.pos);
            assert!(pos <= data.len());
        }
    }
}
