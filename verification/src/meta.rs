//! Parquet metadata structures interpreted from generic Thrift values.
use vstd::prelude::*;
use vstd::string::*;

use crate::thrift;
use crate::thrift::TVal;
use crate::wire;
use crate::wire::TTree;

verus! {

/// The name of a physical type.
pub open spec fn phys_type_text(c: i32) -> Seq<char> {
    if c == 0 {
        "BOOLEAN"@
    } else if c == 1 {
        "INT32"@
    } else if c == 2 {
        "INT64"@
    } else if c == 3 {
        "INT96"@
    } else if c == 4 {
        "FLOAT"@
    } else if c == 5 {
        "DOUBLE"@
    } else if c == 6 {
        "BYTE_ARRAY"@
    } else if c == 7 {
        "FIXED_LEN_BYTE_ARRAY"@
    } else {
        "UNKNOWN"@
    }
}

/// The name of a physical type.
pub fn phys_type_name(c: i32) -> (s: &'static str)
    ensures
        s@ == phys_type_text(c),
{
    match c {
        0 => "BOOLEAN",
        1 => "INT32",
        2 => "INT64",
        3 => "INT96",
        4 => "FLOAT",
        5 => "DOUBLE",
        6 => "BYTE_ARRAY",
        7 => "FIXED_LEN_BYTE_ARRAY",
        _ => "UNKNOWN",
    }
}

/// The name of an encoding.
pub open spec fn encoding_text(c: i32) -> Seq<char> {
    if c == 0 {
        "PLAIN"@
    } else if c == 2 {
        "PLAIN_DICTIONARY"@
    } else if c == 3 {
        "RLE"@
    } else if c == 4 {
        "BIT_PACKED"@
    } else if c == 5 {
        "DELTA_BINARY_PACKED"@
    } else if c == 6 {
        "DELTA_LENGTH_BYTE_ARRAY"@
    } else if c == 7 {
        "DELTA_BYTE_ARRAY"@
    } else if c == 8 {
        "RLE_DICTIONARY"@
    } else if c == 9 {
        "BYTE_STREAM_SPLIT"@
    } else {
        "UNKNOWN"@
    }
}

/// The name of an encoding.
pub fn encoding_name(c: i32) -> (s: &'static str)
    ensures
        s@ == encoding_text(c),
{
    match c {
        0 => "PLAIN",
        2 => "PLAIN_DICTIONARY",
        3 => "RLE",
        4 => "BIT_PACKED",
        5 => "DELTA_BINARY_PACKED",
        6 => "DELTA_LENGTH_BYTE_ARRAY",
        7 => "DELTA_BYTE_ARRAY",
        8 => "RLE_DICTIONARY",
        9 => "BYTE_STREAM_SPLIT",
        _ => "UNKNOWN",
    }
}

/// The name of a compression codec.
pub open spec fn codec_text(c: i32) -> Seq<char> {
    if c == 0 {
        "UNCOMPRESSED"@
    } else if c == 1 {
        "SNAPPY"@
    } else if c == 2 {
        "GZIP"@
    } else if c == 3 {
        "LZO"@
    } else if c == 4 {
        "BROTLI"@
    } else if c == 5 {
        "LZ4"@
    } else if c == 6 {
        "ZSTD"@
    } else if c == 7 {
        "LZ4_RAW"@
    } else {
        "UNKNOWN"@
    }
}

/// The name of a compression codec.
pub fn codec_name(c: i32) -> (s: &'static str)
    ensures
        s@ == codec_text(c),
{
    match c {
        0 => "UNCOMPRESSED",
        1 => "SNAPPY",
        2 => "GZIP",
        3 => "LZO",
        4 => "BROTLI",
        5 => "LZ4",
        6 => "ZSTD",
        7 => "LZ4_RAW",
        _ => "UNKNOWN",
    }
}

/// The name of a page type.
pub open spec fn page_type_text(c: i32) -> Seq<char> {
    if c == 0 {
        "DATA_PAGE"@
    } else if c == 1 {
        "INDEX_PAGE"@
    } else if c == 2 {
        "DICTIONARY_PAGE"@
    } else if c == 3 {
        "DATA_PAGE_V2"@
    } else {
        "UNKNOWN"@
    }
}

/// The name of a page type.
pub fn page_type_name(c: i32) -> (s: &'static str)
    ensures
        s@ == page_type_text(c),
{
    match c {
        0 => "DATA_PAGE",
        1 => "INDEX_PAGE",
        2 => "DICTIONARY_PAGE",
        3 => "DATA_PAGE_V2",
        _ => "UNKNOWN",
    }
}

#[derive(Debug, Clone)]
pub struct SchemaElement {
    pub typ: Option<i32>,
    pub type_length: Option<i32>,
    /// 0 required, 1 optional, 2 repeated; root defaults to 0
    pub repetition: i32,
    pub name: String,
    pub num_children: i32,
    pub converted_type: Option<i32>,
}

#[derive(Debug, Clone)]
pub struct Statistics {
    pub min: Option<Vec<u8>>,
    pub max: Option<Vec<u8>>,
    pub null_count: Option<i64>,
}

#[derive(Debug, Clone)]
pub struct ColumnMetaData {
    pub typ: i32,
    pub encodings: Vec<i32>,
    pub path: Vec<String>,
    pub codec: i32,
    pub num_values: i64,
    pub total_uncompressed_size: i64,
    pub total_compressed_size: i64,
    pub data_page_offset: i64,
    pub dictionary_page_offset: Option<i64>,
    pub statistics: Option<Statistics>,
}

#[derive(Debug, Clone)]
pub struct ColumnChunk {
    pub meta: ColumnMetaData,
    pub column_index_offset: Option<i64>,
    pub column_index_length: Option<i32>,
    pub offset_index_offset: Option<i64>,
    pub offset_index_length: Option<i32>,
}

#[derive(Debug, Clone)]
pub struct RowGroupMeta {
    pub columns: Vec<ColumnChunk>,
    pub total_byte_size: i64,
    pub num_rows: i64,
}

#[derive(Debug, Clone)]
pub struct FileMeta {
    pub version: i32,
    pub schema: Vec<SchemaElement>,
    pub num_rows: i64,
    pub row_groups: Vec<RowGroupMeta>,
    pub created_by: Option<String>,
}

#[derive(Debug, Clone)]
pub struct DataPageV1 {
    pub num_values: i32,
    pub encoding: i32,
    pub def_encoding: i32,
    pub rep_encoding: i32,
}

#[derive(Debug, Clone)]
pub struct DataPageV2 {
    pub num_values: i32,
    pub num_nulls: i32,
    pub num_rows: i32,
    pub encoding: i32,
    pub def_levels_byte_length: i32,
    pub rep_levels_byte_length: i32,
    pub is_compressed: bool,
    pub statistics: Option<Statistics>,
}

#[derive(Debug, Clone)]
pub struct DictPageHeader {
    pub num_values: i32,
    pub encoding: i32,
}

#[derive(Debug, Clone)]
pub struct PageHeader {
    pub typ: i32,
    pub uncompressed_page_size: i32,
    pub compressed_page_size: i32,
    pub crc: Option<i32>,
    pub data_v1: Option<DataPageV1>,
    pub data_v2: Option<DataPageV2>,
    pub dict: Option<DictPageHeader>,
}

#[derive(Debug, Clone)]
pub struct PageLocation {
    pub offset: i64,
    pub compressed_page_size: i32,
    pub first_row_index: i64,
}

#[derive(Debug, Clone)]
pub struct ColumnIndex {
    pub null_pages: Vec<bool>,
    pub min_values: Vec<Vec<u8>>,
    pub max_values: Vec<Vec<u8>>,
    pub null_counts: Vec<i64>,
}

/// Why metadata could not be interpreted.
#[derive(Debug, Clone, Copy, PartialEq, Eq, Structural)]
pub enum MetaError {
    /// The schema list is missing or holds no element.
    NoSchema,
}

impl MetaError {
    pub open spec fn text(self) -> Seq<char> {
        "parquet: file metadata has no schema"@
    }

    /// The text of the error.
    pub fn message(&self) -> (m: String)
        ensures
            m@ == self.text(),
    {
        "parquet: file metadata has no schema".to_string()
    }
}

impl Default for Statistics {
    fn default() -> (r: Statistics)
        ensures
            r.min is None,
            r.max is None,
            r.null_count is None,
    {
        Statistics { min: None, max: None, null_count: None }
    }
}

impl Default for ColumnIndex {
    fn default() -> (r: ColumnIndex)
        ensures
            r.null_pages@.len() == 0,
            r.min_values@.len() == 0,
            r.max_values@.len() == 0,
            r.null_counts@.len() == 0,
    {
        ColumnIndex {
            null_pages: Vec::new(),
            min_values: Vec::new(),
            max_values: Vec::new(),
            null_counts: Vec::new(),
        }
    }
}

/// The fields of a Thrift struct.
pub type Fields = Seq<(i16, TTree)>;

/// The integer in field `id`.
pub open spec fn int_field(f: Fields, id: i16) -> Option<i64> {
    match wire::field(f, id) {
        Some(v) => v.as_i64(),
        None => None,
    }
}

/// The integer in field `id`, or `other` if there is none.
pub open spec fn int_or(f: Fields, id: i16, other: i64) -> i64 {
    match int_field(f, id) {
        Some(v) => v,
        None => other,
    }
}

/// The low 32 bits of the integer in field `id`.
pub open spec fn i32_field(f: Fields, id: i16) -> Option<i32> {
    match int_field(f, id) {
        Some(v) => Some(v as i32),
        None => None,
    }
}

pub open spec fn bool_field(f: Fields, id: i16) -> Option<bool> {
    match wire::field(f, id) {
        Some(v) => v.as_bool(),
        None => None,
    }
}

pub open spec fn bin_field(f: Fields, id: i16) -> Option<Seq<u8>> {
    match wire::field(f, id) {
        Some(v) => v.as_bin(),
        None => None,
    }
}

pub open spec fn str_field(f: Fields, id: i16) -> Option<Seq<char>> {
    match wire::field(f, id) {
        Some(v) => v.as_str(),
        None => None,
    }
}

pub open spec fn struct_field(f: Fields, id: i16) -> Option<Fields> {
    match wire::field(f, id) {
        Some(v) => v.as_struct(),
        None => None,
    }
}

/// The elements of the list in field `id`; none if there is no list.
pub open spec fn list_field(f: Fields, id: i16) -> Seq<TTree> {
    match wire::field(f, id) {
        Some(v) => match v.as_list() {
            Some(l) => l,
            None => seq![],
        },
        None => seq![],
    }
}

/// What `pick` finds in the elements, in order; elements in which it finds
/// nothing are left out.
pub open spec fn picked<A>(items: Seq<TTree>, pick: spec_fn(TTree) -> Option<A>) -> Seq<A>
    decreases items.len(),
{
    if items.len() == 0 {
        seq![]
    } else {
        match pick(items.last()) {
            Some(a) => picked(items.drop_last(), pick).push(a),
            None => picked(items.drop_last(), pick),
        }
    }
}

/// The elements that are structs.
pub open spec fn structs_of(items: Seq<TTree>) -> Seq<Fields> {
    picked(items, |t: TTree| t.as_struct())
}

/// The elements that are integers.
pub open spec fn ints_of(items: Seq<TTree>) -> Seq<i64> {
    picked(items, |t: TTree| t.as_i64())
}

/// The elements that are booleans.
pub open spec fn bools_of(items: Seq<TTree>) -> Seq<bool> {
    picked(items, |t: TTree| t.as_bool())
}

/// The elements that are binary.
pub open spec fn bins_of(items: Seq<TTree>) -> Seq<Seq<u8>> {
    picked(items, |t: TTree| t.as_bin())
}

/// The text of the elements that are binary.
pub open spec fn strs_of(items: Seq<TTree>) -> Seq<Seq<char>> {
    picked(items, |t: TTree| t.as_str())
}

/// The low 32 bits of each integer.
pub open spec fn narrowed(s: Seq<i64>) -> Seq<i32> {
    Seq::new(s.len(), |i: int| s[i] as i32)
}

/// The bytes in an optional vector.
pub open spec fn opt_bytes(o: Option<Vec<u8>>) -> Option<Seq<u8>> {
    match o {
        Some(v) => Some(v@),
        None => None,
    }
}

/// The bytes of each vector.
pub open spec fn byte_seqs(s: Seq<Vec<u8>>) -> Seq<Seq<u8>> {
    Seq::new(s.len(), |i: int| s[i]@)
}

/// The text of each string.
pub open spec fn texts(s: Seq<String>) -> Seq<Seq<char>> {
    Seq::new(s.len(), |i: int| s[i]@)
}

impl SchemaElement {
    /// The element is what the struct `f` describes.
    pub open spec fn read_from(self, f: Fields) -> bool {
        &&& self.typ == i32_field(f, 1)
        &&& self.type_length == i32_field(f, 2)
        &&& self.repetition == int_or(f, 3, 0) as i32
        &&& self.name@ == (match str_field(f, 4) {
            Some(s) => s,
            None => seq![],
        })
        &&& self.num_children == int_or(f, 5, 0) as i32
        &&& self.converted_type == i32_field(f, 6)
    }
}

impl Statistics {
    /// The statistics are what the struct `f` describes: minimum and maximum
    /// come from fields 5 and 6, or else from the older fields 2 and 1.
    pub open spec fn read_from(self, f: Fields) -> bool {
        &&& opt_bytes(self.min) == (match bin_field(f, 5) {
            Some(b) => Some(b),
            None => bin_field(f, 2),
        })
        &&& opt_bytes(self.max) == (match bin_field(f, 6) {
            Some(b) => Some(b),
            None => bin_field(f, 1),
        })
        &&& self.null_count == int_field(f, 3)
    }

    /// The optional statistics are what the optional struct `f` describes.
    pub open spec fn opt_read_from(o: Option<Statistics>, f: Option<Fields>) -> bool {
        match f {
            Some(s) => o matches Some(st) && st.read_from(s),
            None => o is None,
        }
    }
}

impl ColumnMetaData {
    /// The column metadata is what the struct `f` describes.
    pub open spec fn read_from(self, f: Fields) -> bool {
        &&& self.typ == int_or(f, 1, (-1) as i64) as i32
        &&& self.encodings@ == narrowed(ints_of(list_field(f, 2)))
        &&& texts(self.path@) == strs_of(list_field(f, 3))
        &&& self.codec == int_or(f, 4, 0) as i32
        &&& self.num_values == int_or(f, 5, 0)
        &&& self.total_uncompressed_size == int_or(f, 6, 0)
        &&& self.total_compressed_size == int_or(f, 7, 0)
        &&& self.data_page_offset == int_or(f, 9, 0)
        &&& self.dictionary_page_offset == int_field(f, 11)
        &&& Statistics::opt_read_from(self.statistics, struct_field(f, 12))
    }
}

impl ColumnChunk {
    /// The chunk is what the struct `f` describes; missing column metadata
    /// counts as an empty struct.
    pub open spec fn read_from(self, f: Fields) -> bool {
        &&& self.meta.read_from(
            match struct_field(f, 3) {
                Some(s) => s,
                None => seq![],
            },
        )
        &&& self.column_index_offset == int_field(f, 4)
        &&& self.column_index_length == i32_field(f, 5)
        &&& self.offset_index_offset == int_field(f, 6)
        &&& self.offset_index_length == i32_field(f, 7)
    }
}

impl RowGroupMeta {
    /// The row group is what the struct `f` describes.
    pub open spec fn read_from(self, f: Fields) -> bool {
        let chunks = structs_of(list_field(f, 1));
        &&& self.columns@.len() == chunks.len()
        &&& forall|i: int|
            0 <= i < chunks.len() ==> (#[trigger] self.columns@[i]).read_from(chunks[i])
        &&& self.total_byte_size == int_or(f, 2, 0)
        &&& self.num_rows == int_or(f, 3, 0)
    }
}

/// Every element is what the corresponding struct describes.
pub open spec fn schema_read_from(schema: Seq<SchemaElement>, structs: Seq<Fields>) -> bool {
    &&& schema.len() == structs.len()
    &&& forall|i: int| 0 <= i < structs.len() ==> (#[trigger] schema[i]).read_from(structs[i])
}

impl FileMeta {
    /// The file metadata is what the struct `f` describes.
    pub open spec fn read_from(self, f: Fields) -> bool {
        let groups = structs_of(list_field(f, 4));
        &&& self.version == int_or(f, 1, 1) as i32
        &&& schema_read_from(self.schema@, structs_of(list_field(f, 2)))
        &&& self.num_rows == int_or(f, 3, 0)
        &&& self.row_groups@.len() == groups.len()
        &&& forall|i: int|
            0 <= i < groups.len() ==> (#[trigger] self.row_groups@[i]).read_from(groups[i])
        &&& crate::model::opt_text(self.created_by) == str_field(f, 6)
    }
}

impl DataPageV1 {
    pub open spec fn read_from(self, f: Fields) -> bool {
        &&& self.num_values == int_or(f, 1, 0) as i32
        &&& self.encoding == int_or(f, 2, 0) as i32
        &&& self.def_encoding == int_or(f, 3, 3) as i32
        &&& self.rep_encoding == int_or(f, 4, 3) as i32
    }
}

impl DataPageV2 {
    pub open spec fn read_from(self, f: Fields) -> bool {
        &&& self.num_values == int_or(f, 1, 0) as i32
        &&& self.num_nulls == int_or(f, 2, 0) as i32
        &&& self.num_rows == int_or(f, 3, 0) as i32
        &&& self.encoding == int_or(f, 4, 0) as i32
        &&& self.def_levels_byte_length == int_or(f, 5, 0) as i32
        &&& self.rep_levels_byte_length == int_or(f, 6, 0) as i32
        &&& self.is_compressed == (match bool_field(f, 7) {
            Some(b) => b,
            None => true,
        })
        &&& Statistics::opt_read_from(self.statistics, struct_field(f, 8))
    }
}

impl DictPageHeader {
    pub open spec fn read_from(self, f: Fields) -> bool {
        &&& self.num_values == int_or(f, 1, 0) as i32
        &&& self.encoding == int_or(f, 2, 0) as i32
    }
}

impl PageHeader {
    /// The page header is what the struct `f` describes.
    pub open spec fn read_from(self, f: Fields) -> bool {
        &&& self.typ == int_or(f, 1, 0) as i32
        &&& self.uncompressed_page_size == int_or(f, 2, 0) as i32
        &&& self.compressed_page_size == int_or(f, 3, 0) as i32
        &&& self.crc == i32_field(f, 4)
        &&& match struct_field(f, 5) {
            Some(s) => self.data_v1 matches Some(h) && h.read_from(s),
            None => self.data_v1 is None,
        }
        &&& match struct_field(f, 8) {
            Some(s) => self.data_v2 matches Some(h) && h.read_from(s),
            None => self.data_v2 is None,
        }
        &&& match struct_field(f, 7) {
            Some(s) => self.dict matches Some(h) && h.read_from(s),
            None => self.dict is None,
        }
    }
}

impl PageLocation {
    pub open spec fn read_from(self, f: Fields) -> bool {
        &&& self.offset == int_or(f, 1, 0)
        &&& self.compressed_page_size == int_or(f, 2, 0) as i32
        &&& self.first_row_index == int_or(f, 3, 0)
    }
}

fn get_i64(fields: &[(i16, TVal)], id: i16) -> (r: Option<i64>)
    ensures
        r == int_field(thrift::fields_tree(fields@), id),
{
    match TVal::get(fields, id) {
        Some(v) => v.as_i64(),
        None => None,
    }
}

fn get_i64_or(fields: &[(i16, TVal)], id: i16, other: i64) -> (r: i64)
    ensures
        r == int_or(thrift::fields_tree(fields@), id, other),
{
    match get_i64(fields, id) {
        Some(v) => v,
        None => other,
    }
}

fn get_i32(fields: &[(i16, TVal)], id: i16) -> (r: Option<i32>)
    ensures
        r == i32_field(thrift::fields_tree(fields@), id),
{
    match get_i64(fields, id) {
        Some(v) => Some(v as i32),
        None => None,
    }
}

fn get_bin(fields: &[(i16, TVal)], id: i16) -> (r: Option<Vec<u8>>)
    ensures
        opt_bytes(r) == bin_field(thrift::fields_tree(fields@), id),
{
    match TVal::get(fields, id) {
        Some(v) => match v.as_bin() {
            Some(b) => Some(vstd::slice::slice_to_vec(b)),
            None => None,
        },
        None => None,
    }
}

fn get_str(fields: &[(i16, TVal)], id: i16) -> (r: Option<String>)
    ensures
        crate::model::opt_text(r) == str_field(thrift::fields_tree(fields@), id),
{
    match TVal::get(fields, id) {
        Some(v) => v.as_str(),
        None => None,
    }
}

fn get_struct<'a>(fields: &'a [(i16, TVal)], id: i16) -> (r: Option<&'a [(i16, TVal)]>)
    ensures
        match struct_field(thrift::fields_tree(fields@), id) {
            Some(s) => r matches Some(x) && thrift::fields_tree(x@) == s,
            None => r is None,
        },
{
    match TVal::get(fields, id) {
        Some(v) => v.as_struct(),
        None => None,
    }
}

/// The elements of the list in field `id`, or `None` if there is no list.
fn get_list<'a>(fields: &'a [(i16, TVal)], id: i16) -> (r: Option<&'a [TVal]>)
    ensures
        match r {
            Some(l) => thrift::items_tree(l@) == list_field(thrift::fields_tree(fields@), id),
            None => list_field(thrift::fields_tree(fields@), id).len() == 0,
        },
{
    match TVal::get(fields, id) {
        Some(v) => v.as_list(),
        None => None,
    }
}

proof fn lemma_picked_step<A>(items: Seq<TTree>, pick: spec_fn(TTree) -> Option<A>, i: int)
    requires
        0 <= i < items.len(),
    ensures
        picked(items.take(i + 1), pick) == (match pick(items[i]) {
            Some(a) => picked(items.take(i), pick).push(a),
            None => picked(items.take(i), pick),
        }),
{
    assert(items.take(i + 1).drop_last() =~= items.take(i));
}

/// The structs among the elements of the list in field `id`.
fn get_structs<'a>(fields: &'a [(i16, TVal)], id: i16) -> (out: Vec<&'a [(i16, TVal)]>)
    ensures
        out@.len() == structs_of(list_field(thrift::fields_tree(fields@), id)).len(),
        forall|i: int|
            0 <= i < out@.len() ==> thrift::fields_tree((#[trigger] out@[i])@) == structs_of(
                list_field(thrift::fields_tree(fields@), id),
            )[i],
{
    let mut out: Vec<&'a [(i16, TVal)]> = Vec::new();
    if let Some(l) = get_list(fields, id) {
        let ghost all = thrift::items_tree(l@);
        let mut i: usize = 0;
        while i < l.len()
            invariant
                i <= l@.len(),
                all == thrift::items_tree(l@),
                out@.len() == structs_of(all.take(i as int)).len(),
                forall|k: int|
                    0 <= k < out@.len() ==> thrift::fields_tree((#[trigger] out@[k])@)
                        == structs_of(all.take(i as int))[k],
            decreases l@.len() - i,
        {
            proof {
                lemma_picked_step(all, |t: TTree| t.as_struct(), i as int);
            }
            if let Some(s) = l[i].as_struct() {
                out.push(s);
            }
            i += 1;
        }
        assert(all.take(l@.len() as int) =~= all);
    }
    out
}

/// The integers among the elements of the list in field `id`.
fn get_i64s(fields: &[(i16, TVal)], id: i16) -> (out: Vec<i64>)
    ensures
        out@ == ints_of(list_field(thrift::fields_tree(fields@), id)),
{
    let mut out: Vec<i64> = Vec::new();
    assert(out@ =~= seq![]);
    if let Some(l) = get_list(fields, id) {
        let ghost all = thrift::items_tree(l@);
        let mut i: usize = 0;
        while i < l.len()
            invariant
                i <= l@.len(),
                all == thrift::items_tree(l@),
                out@ == ints_of(all.take(i as int)),
            decreases l@.len() - i,
        {
            proof {
                lemma_picked_step(all, |t: TTree| t.as_i64(), i as int);
            }
            let ghost before = out@;
            if let Some(x) = l[i].as_i64() {
                let ghost seen = x;
                out.push(x);
                assert(out@ =~= before.push(seen));
            }
            i += 1;
        }
        assert(all.take(l@.len() as int) =~= all);
    }
    out
}

/// The booleans among the elements of the list in field `id`.
fn get_bools(fields: &[(i16, TVal)], id: i16) -> (out: Vec<bool>)
    ensures
        out@ == bools_of(list_field(thrift::fields_tree(fields@), id)),
{
    let mut out: Vec<bool> = Vec::new();
    assert(out@ =~= seq![]);
    if let Some(l) = get_list(fields, id) {
        let ghost all = thrift::items_tree(l@);
        let mut i: usize = 0;
        while i < l.len()
            invariant
                i <= l@.len(),
                all == thrift::items_tree(l@),
                out@ == bools_of(all.take(i as int)),
            decreases l@.len() - i,
        {
            proof {
                lemma_picked_step(all, |t: TTree| t.as_bool(), i as int);
            }
            let ghost before = out@;
            if let Some(x) = l[i].as_bool() {
                let ghost seen = x;
                out.push(x);
                assert(out@ =~= before.push(seen));
            }
            i += 1;
        }
        assert(all.take(l@.len() as int) =~= all);
    }
    out
}

/// The binary elements of the list in field `id`.
fn get_bins(fields: &[(i16, TVal)], id: i16) -> (out: Vec<Vec<u8>>)
    ensures
        byte_seqs(out@) == bins_of(list_field(thrift::fields_tree(fields@), id)),
{
    let mut out: Vec<Vec<u8>> = Vec::new();
    assert(byte_seqs(out@) =~= seq![]);
    if let Some(l) = get_list(fields, id) {
        let ghost all = thrift::items_tree(l@);
        let mut i: usize = 0;
        while i < l.len()
            invariant
                i <= l@.len(),
                all == thrift::items_tree(l@),
                byte_seqs(out@) == bins_of(all.take(i as int)),
            decreases l@.len() - i,
        {
            proof {
                lemma_picked_step(all, |t: TTree| t.as_bin(), i as int);
            }
            let ghost before = byte_seqs(out@);
            if let Some(x) = l[i].as_bin() {
                let ghost seen = x@;
                out.push(vstd::slice::slice_to_vec(x));
                assert(byte_seqs(out@) =~= before.push(seen));
            }
            i += 1;
        }
        assert(all.take(l@.len() as int) =~= all);
    }
    out
}

/// The texts among the elements of the list in field `id`.
fn get_strs(fields: &[(i16, TVal)], id: i16) -> (out: Vec<String>)
    ensures
        texts(out@) == strs_of(list_field(thrift::fields_tree(fields@), id)),
{
    let mut out: Vec<String> = Vec::new();
    assert(texts(out@) =~= seq![]);
    if let Some(l) = get_list(fields, id) {
        let ghost all = thrift::items_tree(l@);
        let mut i: usize = 0;
        while i < l.len()
            invariant
                i <= l@.len(),
                all == thrift::items_tree(l@),
                texts(out@) == strs_of(all.take(i as int)),
            decreases l@.len() - i,
        {
            proof {
                lemma_picked_step(all, |t: TTree| t.as_str(), i as int);
            }
            let ghost before = texts(out@);
            if let Some(x) = l[i].as_str() {
                let ghost seen = x@;
                out.push(x);
                assert(texts(out@) =~= before.push(seen));
            }
            i += 1;
        }
        assert(all.take(l@.len() as int) =~= all);
    }
    out
}

fn parse_statistics(fields: &[(i16, TVal)]) -> (r: Statistics)
    ensures
        r.read_from(thrift::fields_tree(fields@)),
{
    let min: Option<Vec<u8>> = match get_bin(fields, 5) {
        Some(b) => Some(b),
        None => get_bin(fields, 2),
    };
    let max: Option<Vec<u8>> = match get_bin(fields, 6) {
        Some(b) => Some(b),
        None => get_bin(fields, 1),
    };
    Statistics { min, max, null_count: get_i64(fields, 3) }
}

fn get_statistics(fields: &[(i16, TVal)], id: i16) -> (r: Option<Statistics>)
    ensures
        Statistics::opt_read_from(r, struct_field(thrift::fields_tree(fields@), id)),
{
    match get_struct(fields, id) {
        Some(s) => Some(parse_statistics(s)),
        None => None,
    }
}

fn parse_column_metadata(fields: &[(i16, TVal)]) -> (r: ColumnMetaData)
    ensures
        r.read_from(thrift::fields_tree(fields@)),
{
    let wide: Vec<i64> = get_i64s(fields, 2);
    let mut encodings: Vec<i32> = Vec::new();
    let mut i: usize = 0;
    while i < wide.len()
        invariant
            i <= wide@.len(),
            encodings@.len() == i,
            forall|k: int| 0 <= k < i ==> #[trigger] encodings@[k] == wide@[k] as i32,
        decreases wide@.len() - i,
    {
        encodings.push(wide[i] as i32);
        i += 1;
    }
    assert(encodings@ =~= narrowed(wide@));
    ColumnMetaData {
        typ: get_i64_or(fields, 1, -1) as i32,
        encodings,
        path: get_strs(fields, 3),
        codec: get_i64_or(fields, 4, 0) as i32,
        num_values: get_i64_or(fields, 5, 0),
        total_uncompressed_size: get_i64_or(fields, 6, 0),
        total_compressed_size: get_i64_or(fields, 7, 0),
        data_page_offset: get_i64_or(fields, 9, 0),
        dictionary_page_offset: get_i64(fields, 11),
        statistics: get_statistics(fields, 12),
    }
}

fn parse_column_chunk(fields: &[(i16, TVal)]) -> (r: ColumnChunk)
    ensures
        r.read_from(thrift::fields_tree(fields@)),
{
    let none: Vec<(i16, TVal)> = Vec::new();
    assert(thrift::fields_tree(none@) =~= seq![]);
    let inner: &[(i16, TVal)] = match get_struct(fields, 3) {
        Some(s) => s,
        None => none.as_slice(),
    };
    ColumnChunk {
        meta: parse_column_metadata(inner),
        column_index_offset: get_i64(fields, 4),
        column_index_length: get_i32(fields, 5),
        offset_index_offset: get_i64(fields, 6),
        offset_index_length: get_i32(fields, 7),
    }
}

fn parse_schema_element(fields: &[(i16, TVal)]) -> (r: SchemaElement)
    ensures
        r.read_from(thrift::fields_tree(fields@)),
{
    let name: String = match get_str(fields, 4) {
        Some(s) => s,
        None => String::new(),
    };
    SchemaElement {
        typ: get_i32(fields, 1),
        type_length: get_i32(fields, 2),
        repetition: get_i64_or(fields, 3, 0) as i32,
        name,
        num_children: get_i64_or(fields, 5, 0) as i32,
        converted_type: get_i32(fields, 6),
    }
}

fn parse_row_group(fields: &[(i16, TVal)]) -> (r: RowGroupMeta)
    ensures
        r.read_from(thrift::fields_tree(fields@)),
{
    let chunks: Vec<&[(i16, TVal)]> = get_structs(fields, 1);
    let mut columns: Vec<ColumnChunk> = Vec::new();
    let mut i: usize = 0;
    while i < chunks.len()
        invariant
            i <= chunks@.len(),
            columns@.len() == i,
            forall|k: int|
                0 <= k < i ==> (#[trigger] columns@[k]).read_from(
                    thrift::fields_tree(chunks@[k]@),
                ),
        decreases chunks@.len() - i,
    {
        columns.push(parse_column_chunk(chunks[i]));
        i += 1;
    }
    RowGroupMeta {
        columns,
        total_byte_size: get_i64_or(fields, 2, 0),
        num_rows: get_i64_or(fields, 3, 0),
    }
}

/// Interprets the file metadata struct. Without a schema element there is no
/// result.
pub fn parse_file_metadata(fields: &[(i16, TVal)]) -> (r: Result<FileMeta, MetaError>)
    ensures
        match r {
            Ok(m) => m.read_from(thrift::fields_tree(fields@)) && m.schema@.len() > 0,
            Err(e) => e == MetaError::NoSchema,
        },
        r is Err <==> structs_of(list_field(thrift::fields_tree(fields@), 2)).len() == 0,
{
    let elements: Vec<&[(i16, TVal)]> = get_structs(fields, 2);
    let mut schema: Vec<SchemaElement> = Vec::new();
    let mut i: usize = 0;
    while i < elements.len()
        invariant
            i <= elements@.len(),
            schema@.len() == i,
            forall|k: int|
                0 <= k < i ==> (#[trigger] schema@[k]).read_from(
                    thrift::fields_tree(elements@[k]@),
                ),
        decreases elements@.len() - i,
    {
        schema.push(parse_schema_element(elements[i]));
        i += 1;
    }
    let groups: Vec<&[(i16, TVal)]> = get_structs(fields, 4);
    let mut row_groups: Vec<RowGroupMeta> = Vec::new();
    let mut j: usize = 0;
    while j < groups.len()
        invariant
            j <= groups@.len(),
            row_groups@.len() == j,
            forall|k: int|
                0 <= k < j ==> (#[trigger] row_groups@[k]).read_from(
                    thrift::fields_tree(groups@[k]@),
                ),
        decreases groups@.len() - j,
    {
        row_groups.push(parse_row_group(groups[j]));
        j += 1;
    }
    if schema.len() == 0 {
        return Err(MetaError::NoSchema);
    }
    Ok(
        FileMeta {
            version: get_i64_or(fields, 1, 1) as i32,
            schema,
            num_rows: get_i64_or(fields, 3, 0),
            row_groups,
            created_by: get_str(fields, 6),
        },
    )
}

/// Interprets a page header struct.
pub fn parse_page_header(fields: &[(i16, TVal)]) -> (r: PageHeader)
    ensures
        r.read_from(thrift::fields_tree(fields@)),
{
    let data_v1: Option<DataPageV1> = match get_struct(fields, 5) {
        Some(s) => Some(
            DataPageV1 {
                num_values: get_i64_or(s, 1, 0) as i32,
                encoding: get_i64_or(s, 2, 0) as i32,
                def_encoding: get_i64_or(s, 3, 3) as i32,
                rep_encoding: get_i64_or(s, 4, 3) as i32,
            },
        ),
        None => None,
    };
    let data_v2: Option<DataPageV2> = match get_struct(fields, 8) {
        Some(s) => {
            let is_compressed: bool = match TVal::get(s, 7) {
                Some(v) => match v.as_bool() {
                    Some(b) => b,
                    None => true,
                },
                None => true,
            };
            Some(
                DataPageV2 {
                    num_values: get_i64_or(s, 1, 0) as i32,
                    num_nulls: get_i64_or(s, 2, 0) as i32,
                    num_rows: get_i64_or(s, 3, 0) as i32,
                    encoding: get_i64_or(s, 4, 0) as i32,
                    def_levels_byte_length: get_i64_or(s, 5, 0) as i32,
                    rep_levels_byte_length: get_i64_or(s, 6, 0) as i32,
                    is_compressed,
                    statistics: get_statistics(s, 8),
                },
            )
        },
        None => None,
    };
    let dict: Option<DictPageHeader> = match get_struct(fields, 7) {
        Some(s) => Some(
            DictPageHeader {
                num_values: get_i64_or(s, 1, 0) as i32,
                encoding: get_i64_or(s, 2, 0) as i32,
            },
        ),
        None => None,
    };
    PageHeader {
        typ: get_i64_or(fields, 1, 0) as i32,
        uncompressed_page_size: get_i64_or(fields, 2, 0) as i32,
        compressed_page_size: get_i64_or(fields, 3, 0) as i32,
        crc: get_i32(fields, 4),
        data_v1,
        data_v2,
        dict,
    }
}

/// Interprets an offset index struct.
pub fn parse_offset_index(fields: &[(i16, TVal)]) -> (out: Vec<PageLocation>)
    ensures
        ({
            let pages = structs_of(list_field(thrift::fields_tree(fields@), 1));
            &&& out@.len() == pages.len()
            &&& forall|i: int|
                0 <= i < pages.len() ==> (#[trigger] out@[i]).read_from(pages[i])
        }),
{
    let pages: Vec<&[(i16, TVal)]> = get_structs(fields, 1);
    let mut out: Vec<PageLocation> = Vec::new();
    let mut i: usize = 0;
    while i < pages.len()
        invariant
            i <= pages@.len(),
            out@.len() == i,
            forall|k: int|
                0 <= k < i ==> (#[trigger] out@[k]).read_from(thrift::fields_tree(pages@[k]@)),
        decreases pages@.len() - i,
    {
        let s: &[(i16, TVal)] = pages[i];
        out.push(
            PageLocation {
                offset: get_i64_or(s, 1, 0),
                compressed_page_size: get_i64_or(s, 2, 0) as i32,
                first_row_index: get_i64_or(s, 3, 0),
            },
        );
        i += 1;
    }
    out
}

/// Interprets a column index struct.
pub fn parse_column_index(fields: &[(i16, TVal)]) -> (r: ColumnIndex)
    ensures
        r.null_pages@ == bools_of(list_field(thrift::fields_tree(fields@), 1)),
        byte_seqs(r.min_values@) == bins_of(list_field(thrift::fields_tree(fields@), 2)),
        byte_seqs(r.max_values@) == bins_of(list_field(thrift::fields_tree(fields@), 3)),
        r.null_counts@ == ints_of(list_field(thrift::fields_tree(fields@), 5)),
{
    ColumnIndex {
        null_pages: get_bools(fields, 1),
        min_values: get_bins(fields, 2),
        max_values: get_bins(fields, 3),
        null_counts: get_i64s(fields, 5),
    }
}

/// A column chunk without column metadata has unknown type, no encodings, an
/// empty path, no compression, no sizes and no statistics.
pub proof fn lemma_missing_column_metadata(c: ColumnChunk, f: Fields)
    requires
        c.read_from(f),
        struct_field(f, 3) is None,
    ensures
        c.meta.typ == -1,
        c.meta.encodings@.len() == 0,
        c.meta.path@.len() == 0,
        c.meta.codec == 0,
        c.meta.num_values == 0,
        c.meta.total_uncompressed_size == 0,
        c.meta.total_compressed_size == 0,
        c.meta.data_page_offset == 0,
        c.meta.dictionary_page_offset is None,
        c.meta.statistics is None,
{
    let none: Fields = seq![];
    assert(forall|id: i16| wire::field(none, id) is None);
    assert(list_field(none, 2).len() == 0);
    assert(list_field(none, 3).len() == 0);
    assert(texts(c.meta.path@).len() == 0);
    assert(((-1) as i64) as i32 == -1i32);
}

/// Field `i` is the first with identifier `id`.
pub open spec fn first_of(f: Fields, id: i16, i: int) -> bool {
    &&& 0 <= i < f.len()
    &&& f[i].0 == id
    &&& forall|j: int| 0 <= j < i ==> (#[trigger] f[j]).0 != id
}

/// The first field `id` holds the number `v`, of whatever width.
pub open spec fn says(f: Fields, id: i16, v: int) -> bool {
    exists|i: int| #[trigger]
        first_of(f, id, i) && match f[i].1 {
            TTree::Byte(x) => x == v,
            TTree::I32(x) => x == v,
            TTree::I64(x) => x == v,
            _ => false,
        }
}

/// There is no field `id`, or the first holds no number.
pub open spec fn says_nothing(f: Fields, id: i16) -> bool {
    forall|i: int| #[trigger]
        first_of(f, id, i) ==> !(f[i].1 is Byte) && !(f[i].1 is I32) && !(f[i].1 is I64)
}

/// The first field `id` is `t`.
pub open spec fn is_field(f: Fields, id: i16, t: TTree) -> bool {
    exists|i: int| #[trigger] first_of(f, id, i) && f[i].1 == t
}

/// `x` is the number in the first field `id`, in 32-bit arithmetic, or else `other`.
pub open spec fn number32(x: i32, f: Fields, id: i16, other: int) -> bool {
    &&& forall|v: int| #[trigger] says(f, id, v) ==> (v - x) % 0x1_0000_0000 == 0
    &&& says_nothing(f, id) ==> x == other
}

/// `x` is the number in the first field `id`, or else `other`.
pub open spec fn number64(x: i64, f: Fields, id: i16, other: int) -> bool {
    &&& forall|v: int| #[trigger] says(f, id, v) ==> x == v
    &&& says_nothing(f, id) ==> x == other
}

/// `x` is the number in the first field `id`, in 32-bit arithmetic, if there is one.
pub open spec fn maybe_number32(x: Option<i32>, f: Fields, id: i16) -> bool {
    &&& forall|v: int| #[trigger]
        says(f, id, v) ==> x is Some && (v - x->Some_0) % 0x1_0000_0000 == 0
    &&& says_nothing(f, id) ==> x is None
}

/// `x` is the number in the first field `id`, if there is one.
pub open spec fn maybe_number64(x: Option<i64>, f: Fields, id: i16) -> bool {
    &&& forall|v: int| #[trigger] says(f, id, v) ==> x is Some && x->Some_0 == v
    &&& says_nothing(f, id) ==> x is None
}

/// `x` is the byte string in the first field `id`, if there is one.
pub open spec fn maybe_bytes(x: Option<Seq<u8>>, f: Fields, id: i16) -> bool {
    &&& forall|b: Seq<u8>| #[trigger] is_field(f, id, TTree::Binary(b)) ==> x == Some(b)
    &&& (forall|b: Seq<u8>| !#[trigger] is_field(f, id, TTree::Binary(b))) ==> x is None
}

/// `x` is the struct in the first field `id`, if there is one.
pub open spec fn maybe_struct(x: Option<Fields>, f: Fields, id: i16) -> bool {
    &&& forall|g: Fields| #[trigger] is_field(f, id, TTree::Struct(g)) ==> x == Some(g)
    &&& (forall|g: Fields| !#[trigger] is_field(f, id, TTree::Struct(g))) ==> x is None
}

/// `x` is the list in the first field `id`, or empty if there is none.
pub open spec fn list_or_empty(x: Seq<TTree>, f: Fields, id: i16) -> bool {
    &&& forall|l: Seq<TTree>| #[trigger] is_field(f, id, TTree::List(l)) ==> x == l
    &&& (forall|l: Seq<TTree>| !#[trigger] is_field(f, id, TTree::List(l))) ==> x.len() == 0
}

proof fn lemma_first_unique(f: Fields, id: i16, i: int, j: int)
    requires
        first_of(f, id, i),
        first_of(f, id, j),
    ensures
        i == j,
{
    if i < j {
        assert(f[i].0 != id);
    } else if j < i {
        assert(f[j].0 != id);
    }
}

proof fn lemma_field_first(f: Fields, id: i16)
    ensures
        wire::field(f, id) matches Some(t) ==> is_field(f, id, t),
        wire::field(f, id) is None ==> forall|i: int| !#[trigger] first_of(f, id, i),
        forall|i: int| #[trigger] first_of(f, id, i) ==> wire::field(f, id) == Some(f[i].1),
{
    wire::lemma_field_is_first(f, id);
    if let Some(t) = wire::field(f, id) {
        let k = choose|i: int|
            0 <= i < f.len() && #[trigger] f[i] == (id, t) && forall|j: int|
                0 <= j < i ==> (#[trigger] f[j]).0 != id;
        assert(first_of(f, id, k));
        assert forall|i: int| #[trigger] first_of(f, id, i) implies wire::field(f, id) == Some(
            f[i].1,
        ) by {
            lemma_first_unique(f, id, i, k);
        }
    }
}

/// What a field tells: its number, byte string, struct or list, if it holds one.
pub proof fn lemma_field_parts(f: Fields, id: i16)
    ensures
        maybe_number64(int_field(f, id), f, id),
        maybe_number32(i32_field(f, id), f, id),
        maybe_bytes(bin_field(f, id), f, id),
        maybe_struct(struct_field(f, id), f, id),
        list_or_empty(list_field(f, id), f, id),
        forall|b: bool| is_field(f, id, TTree::Bool(b)) ==> bool_field(f, id) == Some(b),
        (forall|b: bool| !is_field(f, id, TTree::Bool(b))) ==> bool_field(f, id) is None,
        forall|b: Seq<u8>| #[trigger]
            is_field(f, id, TTree::Binary(b)) ==> str_field(f, id) == Some(
                crate::text::utf8_lossy(b),
            ),
        (forall|b: Seq<u8>| !#[trigger] is_field(f, id, TTree::Binary(b))) ==> str_field(
            f,
            id,
        ) is None,
{
    lemma_field_first(f, id);
    if let Some(b) = bool_field(f, id) {
        assert(is_field(f, id, TTree::Bool(b)));
    }
    if let Some(v) = int_field(f, id) {
        assert((v - (v as i32)) % 0x1_0000_0000 == 0) by (bit_vector);
    }
}

proof fn lemma_number_or(f: Fields, id: i16, other: i32)
    ensures
        number32(int_or(f, id, other as i64) as i32, f, id, other as int),
        number64(int_or(f, id, other as i64), f, id, other as int),
{
    lemma_field_parts(f, id);
    let v = int_or(f, id, other as i64);
    assert((v - (v as i32)) % 0x1_0000_0000 == 0) by (bit_vector);
    assert((other as i64) as i32 == other);
}

/// What statistics are read from: the minimum from field 5, and only without it from
/// field 2; the maximum from field 6, and only without it from field 1; the number of
/// nulls from field 3.
pub proof fn lemma_statistics_fields(s: Statistics, f: Fields)
    requires
        s.read_from(f),
    ensures
        ({
            let min = if s.min is Some {
                Some(s.min->Some_0@)
            } else {
                None
            };
            let max = if s.max is Some {
                Some(s.max->Some_0@)
            } else {
                None
            };
            &&& (exists|b: Seq<u8>| #[trigger] is_field(f, 5, TTree::Binary(b)))
                ==> maybe_bytes(min, f, 5)
            &&& !(exists|b: Seq<u8>| #[trigger] is_field(f, 5, TTree::Binary(b)))
                ==> maybe_bytes(min, f, 2)
            &&& (exists|b: Seq<u8>| #[trigger] is_field(f, 6, TTree::Binary(b)))
                ==> maybe_bytes(max, f, 6)
            &&& !(exists|b: Seq<u8>| #[trigger] is_field(f, 6, TTree::Binary(b)))
                ==> maybe_bytes(max, f, 1)
        }),
        maybe_number64(s.null_count, f, 3),
{
    lemma_field_parts(f, 1);
    lemma_field_parts(f, 2);
    lemma_field_parts(f, 3);
    lemma_field_parts(f, 5);
    lemma_field_parts(f, 6);
}

/// What a page header is read from, by the numbers of its fields: type, sizes and
/// checksum, and the headers of a data page, of one of version 2 and of a dictionary
/// page, each if its struct is there. Missing level encodings are RLE, and a page of
/// version 2 that does not say otherwise is compressed.
pub proof fn lemma_page_header_fields(h: PageHeader, f: Fields)
    requires
        h.read_from(f),
    ensures
        number32(h.typ, f, 1, 0),
        number32(h.uncompressed_page_size, f, 2, 0),
        number32(h.compressed_page_size, f, 3, 0),
        maybe_number32(h.crc, f, 4),
        forall|g: Fields| #[trigger]
            is_field(f, 5, TTree::Struct(g)) ==> {
                &&& h.data_v1 is Some
                &&& number32(h.data_v1->Some_0.num_values, g, 1, 0)
                &&& number32(h.data_v1->Some_0.encoding, g, 2, 0)
                &&& number32(h.data_v1->Some_0.def_encoding, g, 3, 3)
                &&& number32(h.data_v1->Some_0.rep_encoding, g, 4, 3)
            },
        (forall|g: Fields| !#[trigger] is_field(f, 5, TTree::Struct(g))) ==> h.data_v1 is None,
        forall|g: Fields| #[trigger]
            is_field(f, 7, TTree::Struct(g)) ==> {
                &&& h.dict is Some
                &&& number32(h.dict->Some_0.num_values, g, 1, 0)
                &&& number32(h.dict->Some_0.encoding, g, 2, 0)
            },
        (forall|g: Fields| !#[trigger] is_field(f, 7, TTree::Struct(g))) ==> h.dict is None,
        forall|g: Fields| #[trigger]
            is_field(f, 8, TTree::Struct(g)) ==> {
                let d = h.data_v2->Some_0;
                &&& h.data_v2 is Some
                &&& number32(d.num_values, g, 1, 0)
                &&& number32(d.num_nulls, g, 2, 0)
                &&& number32(d.num_rows, g, 3, 0)
                &&& number32(d.encoding, g, 4, 0)
                &&& number32(d.def_levels_byte_length, g, 5, 0)
                &&& number32(d.rep_levels_byte_length, g, 6, 0)
                &&& d.is_compressed <==> !is_field(g, 7, TTree::Bool(false))
                &&& forall|k: Fields| #[trigger]
                    is_field(g, 8, TTree::Struct(k)) ==> d.statistics is Some
                        && d.statistics->Some_0.read_from(k)
                &&& (forall|k: Fields| !#[trigger] is_field(g, 8, TTree::Struct(k)))
                    ==> d.statistics is None
            },
        (forall|g: Fields| !#[trigger] is_field(f, 8, TTree::Struct(g))) ==> h.data_v2 is None,
{
    lemma_number_or(f, 1, 0);
    lemma_number_or(f, 2, 0);
    lemma_number_or(f, 3, 0);
    lemma_field_parts(f, 4);
    lemma_field_parts(f, 5);
    lemma_field_parts(f, 7);
    lemma_field_parts(f, 8);
    if let Some(g) = struct_field(f, 5) {
        lemma_number_or(g, 1, 0);
        lemma_number_or(g, 2, 0);
        lemma_number_or(g, 3, 3);
        lemma_number_or(g, 4, 3);
    }
    if let Some(g) = struct_field(f, 7) {
        lemma_number_or(g, 1, 0);
        lemma_number_or(g, 2, 0);
    }
    if let Some(g) = struct_field(f, 8) {
        lemma_number_or(g, 1, 0);
        lemma_number_or(g, 2, 0);
        lemma_number_or(g, 3, 0);
        lemma_number_or(g, 4, 0);
        lemma_number_or(g, 5, 0);
        lemma_number_or(g, 6, 0);
        lemma_field_first(g, 7);
        lemma_field_parts(g, 7);
        lemma_field_parts(g, 8);
    }
}

/// What is taken from a list: of each element in turn the struct, the number, the
/// boolean, the byte string or the text that it is; other elements are passed over.
pub proof fn lemma_list_parts(l: Seq<TTree>, t: TTree)
    ensures
        structs_of(seq![]).len() == 0,
        ints_of(seq![]).len() == 0,
        bools_of(seq![]).len() == 0,
        bins_of(seq![]).len() == 0,
        strs_of(seq![]).len() == 0,
        structs_of(l.push(t)) == (if t is Struct {
            structs_of(l).push(t->Struct_0)
        } else {
            structs_of(l)
        }),
        ints_of(l.push(t)) == (match t {
            TTree::Byte(v) => ints_of(l).push(v as i64),
            TTree::I32(v) => ints_of(l).push(v as i64),
            TTree::I64(v) => ints_of(l).push(v),
            _ => ints_of(l),
        }),
        bools_of(l.push(t)) == (if t is Bool {
            bools_of(l).push(t->Bool_0)
        } else {
            bools_of(l)
        }),
        bins_of(l.push(t)) == (if t is Binary {
            bins_of(l).push(t->Binary_0)
        } else {
            bins_of(l)
        }),
        strs_of(l.push(t)) == (if t is Binary {
            strs_of(l).push(crate::text::utf8_lossy(t->Binary_0))
        } else {
            strs_of(l)
        }),
{
    assert(l.push(t).drop_last() =~= l);
}

/// What a schema element is read from: physical type, length, repetition, name, number
/// of children and converted type, in this order from field 1 on.
pub proof fn lemma_schema_element_fields(e: SchemaElement, f: Fields)
    requires
        e.read_from(f),
    ensures
        maybe_number32(e.typ, f, 1),
        maybe_number32(e.type_length, f, 2),
        number32(e.repetition, f, 3, 0),
        forall|b: Seq<u8>| #[trigger]
            is_field(f, 4, TTree::Binary(b)) ==> e.name@ == crate::text::utf8_lossy(b),
        (forall|b: Seq<u8>| !#[trigger] is_field(f, 4, TTree::Binary(b))) ==> e.name@.len() == 0,
        number32(e.num_children, f, 5, 0),
        maybe_number32(e.converted_type, f, 6),
{
    lemma_field_parts(f, 1);
    lemma_field_parts(f, 2);
    lemma_number_or(f, 3, 0);
    lemma_field_parts(f, 4);
    lemma_number_or(f, 5, 0);
    lemma_field_parts(f, 6);
}

/// What column metadata is read from, by the numbers of its fields. Without a type it is
/// -1, and without a number that must be there 0.
pub proof fn lemma_column_metadata_fields(m: ColumnMetaData, f: Fields, l: Seq<TTree>, k: int)
    requires
        m.read_from(f),
    ensures
        number32(m.typ, f, 1, -1),
        list_or_empty(l, f, 2) ==> {
            &&& m.encodings@.len() == ints_of(l).len()
            &&& 0 <= k < m.encodings@.len() ==> (ints_of(l)[k] - m.encodings@[k]) % 0x1_0000_0000
                == 0
        },
        list_or_empty(l, f, 3) ==> {
            &&& m.path@.len() == strs_of(l).len()
            &&& 0 <= k < m.path@.len() ==> m.path@[k]@ == strs_of(l)[k]
        },
        number32(m.codec, f, 4, 0),
        number64(m.num_values, f, 5, 0),
        number64(m.total_uncompressed_size, f, 6, 0),
        number64(m.total_compressed_size, f, 7, 0),
        number64(m.data_page_offset, f, 9, 0),
        maybe_number64(m.dictionary_page_offset, f, 11),
        forall|g: Fields| #[trigger]
            is_field(f, 12, TTree::Struct(g)) ==> m.statistics is Some
                && m.statistics->Some_0.read_from(g),
        (forall|g: Fields| !#[trigger] is_field(f, 12, TTree::Struct(g))) ==> m.statistics is None,
{
    lemma_number_or(f, 1, (-1) as i32);
    lemma_list_field(f, 2, l);
    lemma_list_field(f, 3, l);
    lemma_number_or(f, 4, 0);
    lemma_number_or(f, 5, 0);
    lemma_number_or(f, 6, 0);
    lemma_number_or(f, 7, 0);
    lemma_number_or(f, 9, 0);
    lemma_field_parts(f, 11);
    lemma_field_parts(f, 12);
    if list_or_empty(l, f, 2) && 0 <= k < m.encodings@.len() {
        let v = ints_of(l)[k];
        assert((v - (v as i32)) % 0x1_0000_0000 == 0) by (bit_vector);
        assert(m.encodings@[k] == v as i32);
    }
    if list_or_empty(l, f, 3) && 0 <= k < m.path@.len() {
        assert(texts(m.path@)[k] == m.path@[k]@);
    }
    assert(texts(m.path@).len() == m.path@.len());
}

proof fn lemma_list_field(f: Fields, id: i16, l: Seq<TTree>)
    ensures
        list_or_empty(l, f, id) ==> l == list_field(f, id),
{
    lemma_field_parts(f, id);
    lemma_field_first(f, id);
    if list_or_empty(l, f, id) {
        if exists|x: Seq<TTree>| #[trigger] is_field(f, id, TTree::List(x)) {
            let x = choose|x: Seq<TTree>| #[trigger] is_field(f, id, TTree::List(x));
            assert(l == x && list_field(f, id) == x);
        } else {
            assert(l =~= list_field(f, id));
        }
    }
}

/// What a column chunk is read from: its metadata from field 3, or from nothing, and
/// where its indexes lie and how long they are from fields 4 to 7.
pub proof fn lemma_column_chunk_fields(c: ColumnChunk, f: Fields)
    requires
        c.read_from(f),
    ensures
        forall|g: Fields| #[trigger] is_field(f, 3, TTree::Struct(g)) ==> c.meta.read_from(g),
        (forall|g: Fields| !#[trigger] is_field(f, 3, TTree::Struct(g))) ==> c.meta.read_from(
            seq![],
        ),
        maybe_number64(c.column_index_offset, f, 4),
        maybe_number32(c.column_index_length, f, 5),
        maybe_number64(c.offset_index_offset, f, 6),
        maybe_number32(c.offset_index_length, f, 7),
{
    lemma_field_parts(f, 3);
    lemma_field_parts(f, 4);
    lemma_field_parts(f, 5);
    lemma_field_parts(f, 6);
    lemma_field_parts(f, 7);
}

/// What a row group is read from: one column chunk for each struct in the list in field
/// 1, in order, its size from field 2 and its number of rows from field 3.
pub proof fn lemma_row_group_fields(g: RowGroupMeta, f: Fields, l: Seq<TTree>, k: int)
    requires
        g.read_from(f),
    ensures
        list_or_empty(l, f, 1) ==> {
            &&& g.columns@.len() == structs_of(l).len()
            &&& 0 <= k < g.columns@.len() ==> g.columns@[k].read_from(structs_of(l)[k])
        },
        number64(g.total_byte_size, f, 2, 0),
        number64(g.num_rows, f, 3, 0),
{
    lemma_list_field(f, 1, l);
    lemma_number_or(f, 2, 0);
    lemma_number_or(f, 3, 0);
    if 0 <= k < g.columns@.len() {
        assert(g.columns@[k].read_from(structs_of(list_field(f, 1))[k]));
    }
}

/// What file metadata is read from: the version from field 1, 1 if it is not said; one
/// schema element for each struct in the list in field 2 and one row group for each in
/// that in field 4, in order; the number of rows from field 3, and the writer from 6.
pub proof fn lemma_file_metadata_fields(m: FileMeta, f: Fields, l: Seq<TTree>, k: int)
    requires
        m.read_from(f),
    ensures
        number32(m.version, f, 1, 1),
        list_or_empty(l, f, 2) ==> {
            &&& m.schema@.len() == structs_of(l).len()
            &&& 0 <= k < m.schema@.len() ==> m.schema@[k].read_from(structs_of(l)[k])
        },
        number64(m.num_rows, f, 3, 0),
        list_or_empty(l, f, 4) ==> {
            &&& m.row_groups@.len() == structs_of(l).len()
            &&& 0 <= k < m.row_groups@.len() ==> m.row_groups@[k].read_from(structs_of(l)[k])
        },
        forall|b: Seq<u8>| #[trigger]
            is_field(f, 6, TTree::Binary(b)) ==> m.created_by is Some && m.created_by->Some_0@
                == crate::text::utf8_lossy(b),
        (forall|b: Seq<u8>| !#[trigger] is_field(f, 6, TTree::Binary(b))) ==> m.created_by is None,
{
    lemma_number_or(f, 1, 1);
    lemma_list_field(f, 2, l);
    lemma_number_or(f, 3, 0);
    lemma_list_field(f, 4, l);
    lemma_field_parts(f, 6);
    if 0 <= k < m.schema@.len() {
        assert(m.schema@[k].read_from(structs_of(list_field(f, 2))[k]));
    }
    if 0 <= k < m.row_groups@.len() {
        assert(m.row_groups@[k].read_from(structs_of(list_field(f, 4))[k]));
    }
}

/// What a page location is read from: offset, size and first row, in fields 1 to 3.
pub proof fn lemma_page_location_fields(p: PageLocation, f: Fields)
    requires
        p.read_from(f),
    ensures
        number64(p.offset, f, 1, 0),
        number32(p.compressed_page_size, f, 2, 0),
        number64(p.first_row_index, f, 3, 0),
{
    lemma_number_or(f, 1, 0);
    lemma_number_or(f, 2, 0);
    lemma_number_or(f, 3, 0);
}

/// Known codes have names of their own, and all other codes share one.
pub proof fn lemma_names_distinct(a: i32, b: i32)
    ensures
        phys_type_text(a) == "UNKNOWN"@ <==> !(0 <= a <= 7),
        encoding_text(a) == "UNKNOWN"@ <==> !(0 <= a <= 9) || a == 1,
        codec_text(a) == "UNKNOWN"@ <==> !(0 <= a <= 7),
        page_type_text(a) == "UNKNOWN"@ <==> !(0 <= a <= 3),
        a != b && phys_type_text(a) == phys_type_text(b) ==> phys_type_text(a) == "UNKNOWN"@,
        a != b && encoding_text(a) == encoding_text(b) ==> encoding_text(a) == "UNKNOWN"@,
        a != b && codec_text(a) == codec_text(b) ==> codec_text(a) == "UNKNOWN"@,
        a != b && page_type_text(a) == page_type_text(b) ==> page_type_text(a) == "UNKNOWN"@,
{
    reveal_strlit("UNKNOWN");
    reveal_strlit("BOOLEAN");
    reveal_strlit("INT32");
    reveal_strlit("INT64");
    reveal_strlit("INT96");
    reveal_strlit("FLOAT");
    reveal_strlit("DOUBLE");
    reveal_strlit("BYTE_ARRAY");
    reveal_strlit("FIXED_LEN_BYTE_ARRAY");
    reveal_strlit("PLAIN");
    reveal_strlit("PLAIN_DICTIONARY");
    reveal_strlit("RLE");
    reveal_strlit("BIT_PACKED");
    reveal_strlit("DELTA_BINARY_PACKED");
    reveal_strlit("DELTA_LENGTH_BYTE_ARRAY");
    reveal_strlit("DELTA_BYTE_ARRAY");
    reveal_strlit("RLE_DICTIONARY");
    reveal_strlit("BYTE_STREAM_SPLIT");
    reveal_strlit("UNCOMPRESSED");
    reveal_strlit("SNAPPY");
    reveal_strlit("GZIP");
    reveal_strlit("LZO");
    reveal_strlit("BROTLI");
    reveal_strlit("LZ4");
    reveal_strlit("ZSTD");
    reveal_strlit("LZ4_RAW");
    reveal_strlit("DATA_PAGE");
    reveal_strlit("INDEX_PAGE");
    reveal_strlit("DICTIONARY_PAGE");
    reveal_strlit("DATA_PAGE_V2");
    assert("INT32"@[3] != "INT64"@[3] && "INT32"@[3] != "INT96"@[3] && "INT64"@[3]
        != "INT96"@[3]);
    assert("INT32"@[0] != "FLOAT"@[0] && "INT64"@[0] != "FLOAT"@[0] && "INT96"@[0]
        != "FLOAT"@[0]);
    assert("BOOLEAN"@[0] != "UNKNOWN"@[0]);
    assert("PLAIN"@[0] != "UNKNOWN"@[0]);
    assert("BIT_PACKED"@[0] != "UNKNOWN"@[0]);
    assert("LZO"@[2] != "LZ4"@[2]);
    assert("BROTLI"@[0] != "SNAPPY"@[0]);
    assert("GZIP"@[0] != "ZSTD"@[0]);
    assert("LZ4_RAW"@[0] != "UNKNOWN"@[0]);
    assert("LZ4_RAW"@ != "UNKNOWN"@);
    assert("UNCOMPRESSED"@.len() == 12 && "SNAPPY"@.len() == 6 && "GZIP"@.len() == 4);
    assert("LZO"@.len() == 3 && "BROTLI"@.len() == 6 && "LZ4"@.len() == 3 && "ZSTD"@.len() == 4);
    assert("RLE_DICTIONARY"@[0] != "DELTA_BYTE_ARRAY"@[0]);
    assert("PLAIN_DICTIONARY"@[0] != "DELTA_BYTE_ARRAY"@[0]);
    assert("DATA_PAGE_V2"@[0] != "INDEX_PAGE"@[0]);
}

/// What lists of numbers, byte strings and texts are taken to hold: what their elements
/// hold, one for one.
pub proof fn lemma_list_contents(
    n: Seq<i64>,
    b: Seq<Vec<u8>>,
    t: Seq<String>,
    o: Option<Vec<u8>>,
    k: int,
)
    ensures
        narrowed(n).len() == n.len(),
        0 <= k < n.len() ==> (n[k] - narrowed(n)[k]) % 0x1_0000_0000 == 0,
        byte_seqs(b).len() == b.len(),
        0 <= k < b.len() ==> byte_seqs(b)[k] == b[k]@,
        texts(t).len() == t.len(),
        0 <= k < t.len() ==> texts(t)[k] == t[k]@,
        o is None ==> opt_bytes(o) is None,
        o is Some ==> opt_bytes(o) == Some(o->Some_0@),
{
    if 0 <= k < n.len() {
        let v = n[k];
        assert((v - (v as i32)) % 0x1_0000_0000 == 0) by (bit_vector);
    }
}

/// What optional statistics are read from: a struct, exactly if there is one.
pub proof fn lemma_optional_statistics(o: Option<Statistics>, f: Option<Fields>)
    requires
        Statistics::opt_read_from(o, f),
    ensures
        o is Some <==> f is Some,
        o is Some ==> o->Some_0.read_from(f->Some_0),
{
}

} // verus!
