use parquet_decode::meta::{
    codec_name, encoding_name, page_type_name, parse_column_index, parse_file_metadata,
    parse_offset_index, parse_page_header, phys_type_name, ColumnIndex, MetaError, Statistics,
};
use parquet_decode::thrift::{write_struct, TReader, TVal};

fn element(name: &str, children: i32) -> TVal {
    TVal::Struct(vec![(4, TVal::str(name)), (5, TVal::I32(children))])
}

#[test]
fn names() {
    let phys: Vec<&str> = (-1..9).map(phys_type_name).collect();
    assert_eq!(
        phys,
        vec![
            "UNKNOWN",
            "BOOLEAN",
            "INT32",
            "INT64",
            "INT96",
            "FLOAT",
            "DOUBLE",
            "BYTE_ARRAY",
            "FIXED_LEN_BYTE_ARRAY",
            "UNKNOWN",
        ]
    );
    let encodings: Vec<&str> = (0..11).map(encoding_name).collect();
    assert_eq!(
        encodings,
        vec![
            "PLAIN",
            "UNKNOWN",
            "PLAIN_DICTIONARY",
            "RLE",
            "BIT_PACKED",
            "DELTA_BINARY_PACKED",
            "DELTA_LENGTH_BYTE_ARRAY",
            "DELTA_BYTE_ARRAY",
            "RLE_DICTIONARY",
            "BYTE_STREAM_SPLIT",
            "UNKNOWN",
        ]
    );
    let codecs: Vec<&str> = (0..9).map(codec_name).collect();
    assert_eq!(
        codecs,
        vec![
            "UNCOMPRESSED",
            "SNAPPY",
            "GZIP",
            "LZO",
            "BROTLI",
            "LZ4",
            "ZSTD",
            "LZ4_RAW",
            "UNKNOWN",
        ]
    );
    let pages: Vec<&str> = (0..5).map(page_type_name).collect();
    assert_eq!(
        pages,
        vec!["DATA_PAGE", "INDEX_PAGE", "DICTIONARY_PAGE", "DATA_PAGE_V2", "UNKNOWN"]
    );
}

#[test]
fn file_metadata_from_bytes() {
    let stats = TVal::Struct(vec![
        (1, TVal::str("old max")),
        (2, TVal::str("old min")),
        (3, TVal::I64(4)),
        (6, TVal::str("new max")),
    ]);
    let column = TVal::Struct(vec![
        (1, TVal::I32(6)),
        (2, TVal::List(vec![TVal::I32(0), TVal::I32(8)])),
        (3, TVal::List(vec![TVal::str("a"), TVal::str("b")])),
        (4, TVal::I32(1)),
        (5, TVal::I64(100)),
        (6, TVal::I64(2000)),
        (7, TVal::I64(1000)),
        (9, TVal::I64(4)),
        (11, TVal::I64(3)),
        (12, stats),
    ]);
    let chunk = TVal::Struct(vec![
        (3, column),
        (4, TVal::I64(9)),
        (5, TVal::I32(10)),
        (6, TVal::I64(11)),
        (7, TVal::I32(12)),
    ]);
    let bare = TVal::Struct(vec![(2, TVal::I64(1))]);
    let group = TVal::Struct(vec![
        (1, TVal::List(vec![chunk, bare])),
        (2, TVal::I64(5000)),
        (3, TVal::I64(50)),
    ]);
    let leaf = TVal::Struct(vec![
        (1, TVal::I32(7)),
        (2, TVal::I32(16)),
        (3, TVal::I32(2)),
        (4, TVal::str("b")),
        (6, TVal::I32(5)),
    ]);
    let fields = vec![
        (1, TVal::I32(2)),
        (2, TVal::List(vec![element("root", 1), leaf])),
        (3, TVal::I64(50)),
        (4, TVal::List(vec![group])),
        (6, TVal::str("writer")),
    ];
    let bytes = write_struct(&fields);
    let meta = parse_file_metadata(&TReader::new(&bytes).read_struct().unwrap()).unwrap();
    assert_eq!(meta.version, 2);
    assert_eq!(meta.num_rows, 50);
    assert_eq!(meta.created_by.as_deref(), Some("writer"));
    assert_eq!(meta.schema.len(), 2);
    assert_eq!(meta.schema[0].name, "root");
    assert_eq!(meta.schema[0].num_children, 1);
    assert_eq!(meta.schema[0].repetition, 0);
    assert_eq!(meta.schema[0].typ, None);
    assert_eq!(meta.schema[1].typ, Some(7));
    assert_eq!(meta.schema[1].type_length, Some(16));
    assert_eq!(meta.schema[1].repetition, 2);
    assert_eq!(meta.schema[1].num_children, 0);
    assert_eq!(meta.schema[1].converted_type, Some(5));
    assert_eq!(meta.row_groups.len(), 1);
    assert_eq!(meta.row_groups[0].total_byte_size, 5000);
    assert_eq!(meta.row_groups[0].num_rows, 50);
    let c = &meta.row_groups[0].columns[0];
    assert_eq!(c.meta.typ, 6);
    assert_eq!(c.meta.encodings, vec![0, 8]);
    assert_eq!(c.meta.path, vec!["a".to_string(), "b".to_string()]);
    assert_eq!(c.meta.codec, 1);
    assert_eq!(c.meta.num_values, 100);
    assert_eq!(c.meta.total_uncompressed_size, 2000);
    assert_eq!(c.meta.total_compressed_size, 1000);
    assert_eq!(c.meta.data_page_offset, 4);
    assert_eq!(c.meta.dictionary_page_offset, Some(3));
    assert_eq!(c.column_index_offset, Some(9));
    assert_eq!(c.column_index_length, Some(10));
    assert_eq!(c.offset_index_offset, Some(11));
    assert_eq!(c.offset_index_length, Some(12));
    let s = c.meta.statistics.as_ref().unwrap();
    assert_eq!(s.min.as_deref(), Some(&b"old min"[..]));
    assert_eq!(s.max.as_deref(), Some(&b"new max"[..]));
    assert_eq!(s.null_count, Some(4));
}

#[test]
fn missing_column_metadata() {
    let group = TVal::Struct(vec![(1, TVal::List(vec![TVal::Struct(Vec::new())]))]);
    let fields = vec![
        (2, TVal::List(vec![element("root", 0)])),
        (4, TVal::List(vec![group, TVal::I32(1)])),
    ];
    let meta = parse_file_metadata(&fields).unwrap();
    assert_eq!(meta.version, 1);
    assert_eq!(meta.num_rows, 0);
    assert_eq!(meta.created_by, None);
    assert_eq!(meta.row_groups.len(), 1);
    let c = &meta.row_groups[0].columns[0];
    assert_eq!(c.meta.typ, -1);
    assert!(c.meta.encodings.is_empty());
    assert!(c.meta.path.is_empty());
    assert_eq!(c.meta.codec, 0);
    assert_eq!(c.meta.num_values, 0);
    assert_eq!(c.meta.dictionary_page_offset, None);
    assert!(c.meta.statistics.is_none());
    assert_eq!(c.column_index_offset, None);
}

#[test]
fn elements_of_another_type_are_left_out() {
    let column = TVal::Struct(vec![
        (2, TVal::List(vec![TVal::I32(3), TVal::str("x"), TVal::I64(4_294_967_297)])),
        (3, TVal::List(vec![TVal::I32(3), TVal::Binary(vec![0xff])])),
    ]);
    let group = TVal::Struct(vec![(1, TVal::List(vec![TVal::Struct(vec![(3, column)])]))]);
    let fields = vec![
        (2, TVal::List(vec![TVal::I32(0), element("root", 0)])),
        (4, TVal::List(vec![group])),
    ];
    let meta = parse_file_metadata(&fields).unwrap();
    assert_eq!(meta.schema.len(), 1);
    let c = &meta.row_groups[0].columns[0].meta;
    assert_eq!(c.encodings, vec![3, 1]);
    assert_eq!(c.path, vec!["\u{fffd}".to_string()]);
}

#[test]
fn no_schema() {
    for fields in [
        Vec::new(),
        vec![(2, TVal::I32(1))],
        vec![(2, TVal::List(vec![TVal::I32(1)]))],
    ] {
        let e = parse_file_metadata(&fields).unwrap_err();
        assert_eq!(e, MetaError::NoSchema);
        assert_eq!(e.message(), "parquet: file metadata has no schema");
    }
}

#[test]
fn page_headers() {
    let h = parse_page_header(&[]);
    assert_eq!((h.typ, h.uncompressed_page_size, h.compressed_page_size), (0, 0, 0));
    assert_eq!(h.crc, None);
    assert!(h.data_v1.is_none() && h.data_v2.is_none() && h.dict.is_none());

    let h = parse_page_header(&[
        (1, TVal::I32(3)),
        (2, TVal::I32(20)),
        (3, TVal::I32(10)),
        (4, TVal::I32(-9)),
        (5, TVal::Struct(vec![(1, TVal::I32(7))])),
        (7, TVal::Struct(vec![(1, TVal::I32(8)), (2, TVal::I32(2))])),
        (8, TVal::Struct(vec![(1, TVal::I32(9)), (5, TVal::I32(4)), (6, TVal::I32(5))])),
    ]);
    assert_eq!((h.typ, h.uncompressed_page_size, h.compressed_page_size), (3, 20, 10));
    assert_eq!(h.crc, Some(-9));
    let v1 = h.data_v1.unwrap();
    assert_eq!((v1.num_values, v1.encoding, v1.def_encoding, v1.rep_encoding), (7, 0, 3, 3));
    let dict = h.dict.unwrap();
    assert_eq!((dict.num_values, dict.encoding), (8, 2));
    let v2 = h.data_v2.unwrap();
    assert_eq!((v2.num_values, v2.num_nulls, v2.num_rows, v2.encoding), (9, 0, 0, 0));
    assert_eq!((v2.def_levels_byte_length, v2.rep_levels_byte_length), (4, 5));
    assert!(v2.is_compressed);
    assert!(v2.statistics.is_none());

    let flags = TVal::Struct(vec![(7, TVal::Bool(false)), (8, TVal::Struct(Vec::new()))]);
    let v2 = parse_page_header(&[(8, flags)]).data_v2.unwrap();
    assert!(!v2.is_compressed);
    assert!(v2.statistics.unwrap().min.is_none());
}

#[test]
fn page_indexes() {
    let page = TVal::Struct(vec![(1, TVal::I64(4)), (2, TVal::I32(5)), (3, TVal::I64(6))]);
    let pages = parse_offset_index(&[(1, TVal::List(vec![page, TVal::Struct(Vec::new())]))]);
    assert_eq!(pages.len(), 2);
    assert_eq!(
        (pages[0].offset, pages[0].compressed_page_size, pages[0].first_row_index),
        (4, 5, 6)
    );
    assert_eq!(
        (pages[1].offset, pages[1].compressed_page_size, pages[1].first_row_index),
        (0, 0, 0)
    );
    assert!(parse_offset_index(&[(1, TVal::I32(1))]).is_empty());

    let index = parse_column_index(&[
        (1, TVal::List(vec![TVal::Bool(true), TVal::Bool(false)])),
        (2, TVal::List(vec![TVal::str("a"), TVal::I32(1)])),
        (3, TVal::List(vec![TVal::str("z")])),
        (5, TVal::List(vec![TVal::I64(1), TVal::I64(2)])),
    ]);
    assert_eq!(index.null_pages, vec![true, false]);
    assert_eq!(index.min_values, vec![b"a".to_vec()]);
    assert_eq!(index.max_values, vec![b"z".to_vec()]);
    assert_eq!(index.null_counts, vec![1, 2]);
    let none = parse_column_index(&[]);
    assert!(none.null_pages.is_empty() && none.min_values.is_empty());
}

#[test]
fn defaults_are_empty() {
    let s = Statistics::default();
    assert!(s.min.is_none() && s.max.is_none() && s.null_count.is_none());
    let c = ColumnIndex::default();
    assert!(c.null_pages.is_empty() && c.null_counts.is_empty());
}
