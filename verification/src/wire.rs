//! The Thrift compact wire format as mathematical functions: what a byte
//! sequence means, which bytes a value is written as, and the proof that the
//! two agree.
use vstd::prelude::*;

use crate::le;
use crate::text;
use crate::varint;
use crate::varint::VarintFault;

verus! {

pub const T_STOP: u8 = 0;

pub const T_TRUE: u8 = 1;

pub const T_FALSE: u8 = 2;

pub const T_BYTE: u8 = 3;

pub const T_I16: u8 = 4;

pub const T_I32: u8 = 5;

pub const T_I64: u8 = 6;

pub const T_DOUBLE: u8 = 7;

pub const T_BINARY: u8 = 8;

pub const T_LIST: u8 = 9;

pub const T_SET: u8 = 10;

pub const T_MAP: u8 = 11;

pub const T_STRUCT: u8 = 12;

/// The largest list or map that is read.
pub const MAX_SIZE: u64 = 0x100_0000;

/// The mathematical value of a [`crate::thrift::TVal`].
pub enum TTree {
    Bool(bool),
    Byte(i8),
    I32(i32),
    I64(i64),
    Double(u64),
    Binary(Seq<u8>),
    List(Seq<TTree>),
    Struct(Seq<(i16, TTree)>),
}

/// Why a value could not be read.
#[derive(Debug, Clone, Copy, PartialEq, Eq, Structural)]
pub enum ThriftError {
    /// A byte was needed at `pos`, which is not inside the input.
    UnexpectedEnd { pos: usize },
    /// `need` bytes were needed and `have` were left.
    NeedBytes { need: u64, have: usize },
    VarintTooLong,
    ListTooLarge { size: u64 },
    MapTooLarge { size: u64 },
    UnknownType { typ: u8 },
}

/// The value of the first field with identifier `id`.
pub open spec fn field(fields: Seq<(i16, TTree)>, id: i16) -> Option<TTree>
    decreases fields.len(),
{
    if fields.len() == 0 {
        None
    } else if fields[0].0 == id {
        Some(fields[0].1)
    } else {
        field(fields.drop_first(), id)
    }
}

impl TTree {
    /// The integer that a byte, a 32-bit or a 64-bit integer holds.
    pub open spec fn as_i64(self) -> Option<i64> {
        match self {
            TTree::I32(v) => Some(v as i64),
            TTree::I64(v) => Some(v),
            TTree::Byte(v) => Some(v as i64),
            _ => None,
        }
    }

    pub open spec fn as_bool(self) -> Option<bool> {
        match self {
            TTree::Bool(b) => Some(b),
            _ => None,
        }
    }

    pub open spec fn as_bin(self) -> Option<Seq<u8>> {
        match self {
            TTree::Binary(b) => Some(b),
            _ => None,
        }
    }

    /// The lossy UTF-8 reading of a binary value.
    pub open spec fn as_str(self) -> Option<Seq<char>> {
        match self {
            TTree::Binary(b) => Some(text::utf8_lossy(b)),
            _ => None,
        }
    }

    pub open spec fn as_list(self) -> Option<Seq<TTree>> {
        match self {
            TTree::List(l) => Some(l),
            _ => None,
        }
    }

    pub open spec fn as_struct(self) -> Option<Seq<(i16, TTree)>> {
        match self {
            TTree::Struct(s) => Some(s),
            _ => None,
        }
    }
}

/// The byte at `pos`, and the position after it.
pub open spec fn byte_at(s: Seq<u8>, pos: int) -> (Result<u8, ThriftError>, int) {
    if 0 <= pos < s.len() {
        (Ok(s[pos]), pos + 1)
    } else {
        (Err(ThriftError::UnexpectedEnd { pos: pos as usize }), pos)
    }
}

/// The `n` bytes at `pos`, and the position after them.
pub open spec fn take_at(s: Seq<u8>, pos: int, n: nat) -> (Result<Seq<u8>, ThriftError>, int) {
    if pos + n <= s.len() {
        (Ok(s.subrange(pos, pos + n)), pos + n)
    } else {
        (Err(ThriftError::NeedBytes { need: n as u64, have: (s.len() - pos) as usize }), pos)
    }
}

/// The unsigned integer at `pos`, and the position after it.
pub open spec fn uint_at(s: Seq<u8>, pos: int) -> (Result<u64, ThriftError>, int) {
    match varint::varint_at(s, pos) {
        (Ok(v), p) => (Ok(v), p),
        (Err(VarintFault::End), p) => (Err(ThriftError::UnexpectedEnd { pos: p as usize }), p),
        (Err(VarintFault::TooLong), p) => (Err(ThriftError::VarintTooLong), p),
    }
}

/// The zigzag-coded signed integer at `pos`, and the position after it.
pub open spec fn int_at(s: Seq<u8>, pos: int) -> (Result<i64, ThriftError>, int) {
    match uint_at(s, pos) {
        (Ok(v), p) => (Ok(varint::unzigzag(v as nat) as i64), p),
        (Err(e), p) => (Err(e), p),
    }
}

/// The field identifier `delta` after `last`, in 16-bit arithmetic.
pub open spec fn next_id(last: i16, delta: int) -> i16 {
    if last + delta > i16::MAX {
        (last + delta - 0x1_0000) as i16
    } else {
        (last + delta) as i16
    }
}

/// The distance from `last` to `id`, in 16-bit arithmetic.
pub open spec fn id_delta(last: i16, id: i16) -> int {
    if id - last > i16::MAX {
        id - last - 0x1_0000
    } else if id - last < i16::MIN {
        id - last + 0x1_0000
    } else {
        id - last
    }
}

/// The number of elements that a list header `h` announces, and the position
/// after it; `pos` is the position behind `h`.
pub open spec fn list_size_at(s: Seq<u8>, pos: int, h: u8) -> (Result<u64, ThriftError>, int) {
    if h / 16 == 15 {
        uint_at(s, pos)
    } else {
        (Ok((h / 16) as u64), pos)
    }
}

/// The value of type `t` at `pos`, and the position after it or at which
/// reading failed. Outside of collections a boolean is its type.
pub open spec fn value_at(s: Seq<u8>, pos: int, t: u8, in_collection: bool) -> (
    Result<TTree, ThriftError>,
    int,
)
    decreases s.len() - pos, 1nat, 0nat,
{
    if t == T_TRUE || t == T_FALSE {
        if in_collection {
            match byte_at(s, pos) {
                (Ok(b), p) => (Ok(TTree::Bool(b == T_TRUE)), p),
                (Err(e), p) => (Err(e), p),
            }
        } else {
            (Ok(TTree::Bool(t == T_TRUE)), pos)
        }
    } else if t == T_BYTE {
        match byte_at(s, pos) {
            (Ok(b), p) => (Ok(TTree::Byte(b as i8)), p),
            (Err(e), p) => (Err(e), p),
        }
    } else if t == T_I16 || t == T_I32 {
        match int_at(s, pos) {
            (Ok(v), p) => (Ok(TTree::I32(v as i32)), p),
            (Err(e), p) => (Err(e), p),
        }
    } else if t == T_I64 {
        match int_at(s, pos) {
            (Ok(v), p) => (Ok(TTree::I64(v)), p),
            (Err(e), p) => (Err(e), p),
        }
    } else if t == T_DOUBLE {
        match take_at(s, pos, 8) {
            (Ok(b), p) => (Ok(TTree::Double(le::le_nat(b) as u64)), p),
            (Err(e), p) => (Err(e), p),
        }
    } else if t == T_BINARY {
        match uint_at(s, pos) {
            (Ok(n), p) => match take_at(s, p, n as nat) {
                (Ok(b), q) => (Ok(TTree::Binary(b)), q),
                (Err(e), q) => (Err(e), q),
            },
            (Err(e), p) => (Err(e), p),
        }
    } else if t == T_LIST || t == T_SET {
        match byte_at(s, pos) {
            (Ok(h), p) => match list_size_at(s, p, h) {
                (Ok(n), q) => if n > MAX_SIZE {
                    (Err(ThriftError::ListTooLarge { size: n }), q)
                } else {
                    match items_at(s, q, h % 16, n as nat) {
                        (Ok(items), r) => (Ok(TTree::List(items)), r),
                        (Err(e), r) => (Err(e), r),
                    }
                },
                (Err(e), q) => (Err(e), q),
            },
            (Err(e), p) => (Err(e), p),
        }
    } else if t == T_MAP {
        match uint_at(s, pos) {
            (Ok(n), p) => if n > MAX_SIZE {
                (Err(ThriftError::MapTooLarge { size: n }), p)
            } else if n == 0 {
                (Ok(TTree::List(seq![])), p)
            } else {
                match byte_at(s, p) {
                    (Ok(kv), q) => match pairs_at(s, q, kv / 16, kv % 16, n as nat) {
                        (Ok(items), r) => (Ok(TTree::List(items)), r),
                        (Err(e), r) => (Err(e), r),
                    },
                    (Err(e), q) => (Err(e), q),
                }
            },
            (Err(e), p) => (Err(e), p),
        }
    } else if t == T_STRUCT {
        match fields_at(s, pos, 0) {
            (Ok(fields), p) => (Ok(TTree::Struct(fields)), p),
            (Err(e), p) => (Err(e), p),
        }
    } else {
        (Err(ThriftError::UnknownType { typ: t }), pos)
    }
}

/// The `n` collection elements of type `t` at `pos`.
pub open spec fn items_at(s: Seq<u8>, pos: int, t: u8, n: nat) -> (
    Result<Seq<TTree>, ThriftError>,
    int,
)
    decreases s.len() - pos, 2nat, n,
{
    if n == 0 {
        (Ok(seq![]), pos)
    } else {
        match value_at(s, pos, t, true) {
            (Ok(v), p) => if pos < p <= s.len() {
                after_item(v, items_at(s, p, t, (n - 1) as nat))
            } else {
                (Ok(seq![v]), p)
            },
            (Err(e), p) => (Err(e), p),
        }
    }
}

/// An element followed by the outcome for the rest.
pub open spec fn after_item<T>(v: T, rest: (Result<Seq<T>, ThriftError>, int)) -> (
    Result<Seq<T>, ThriftError>,
    int,
) {
    match rest {
        (Ok(vs), p) => (Ok(seq![v] + vs), p),
        (Err(e), p) => (Err(e), p),
    }
}

/// The `n` map entries at `pos`, each as a two-element list.
pub open spec fn pairs_at(s: Seq<u8>, pos: int, kt: u8, vt: u8, n: nat) -> (
    Result<Seq<TTree>, ThriftError>,
    int,
)
    decreases s.len() - pos, 2nat, n,
{
    if n == 0 {
        (Ok(seq![]), pos)
    } else {
        match value_at(s, pos, kt, true) {
            (Ok(k), p) => if pos < p <= s.len() {
                match value_at(s, p, vt, true) {
                    (Ok(v), q) => if p < q <= s.len() {
                        after_item(
                            TTree::List(seq![k, v]),
                            pairs_at(s, q, kt, vt, (n - 1) as nat),
                        )
                    } else {
                        (Ok(seq![TTree::List(seq![k, v])]), q)
                    },
                    (Err(e), q) => (Err(e), q),
                }
            } else {
                (Ok(seq![]), p)
            },
            (Err(e), p) => (Err(e), p),
        }
    }
}

/// The identifier of the field whose header `b` precedes `pos`, and the
/// position after it.
pub open spec fn id_at(s: Seq<u8>, pos: int, b: u8, last: i16) -> (Result<i16, ThriftError>, int) {
    if b / 16 == 0 {
        match int_at(s, pos) {
            (Ok(v), p) => (Ok(v as i16), p),
            (Err(e), p) => (Err(e), p),
        }
    } else {
        (Ok(next_id(last, (b / 16) as int)), pos)
    }
}

/// The struct fields at `pos` up to the stop byte, after a field `last`.
pub open spec fn fields_at(s: Seq<u8>, pos: int, last: i16) -> (
    Result<Seq<(i16, TTree)>, ThriftError>,
    int,
)
    decreases s.len() - pos, 0nat, 0nat,
{
    match byte_at(s, pos) {
        (Ok(b), p) => if b == T_STOP {
            (Ok(seq![]), p)
        } else {
            match id_at(s, p, b, last) {
                (Ok(id), q) => match value_at(s, q, b % 16, false) {
                    (Ok(v), r) => if q <= r <= s.len() {
                        after_item((id, v), fields_at(s, r, id))
                    } else {
                        (Ok(seq![(id, v)]), r)
                    },
                    (Err(e), r) => (Err(e), r),
                },
                (Err(e), q) => (Err(e), q),
            }
        },
        (Err(e), p) => (Err(e), p),
    }
}

/// Reading a value never moves backwards nor past the end, and a collection
/// element takes at least one byte.
pub proof fn lemma_value_progress(s: Seq<u8>, pos: int, t: u8, in_collection: bool)
    requires
        0 <= pos <= s.len(),
    ensures
        pos <= value_at(s, pos, t, in_collection).1 <= s.len(),
        in_collection && value_at(s, pos, t, in_collection).0 is Ok ==> pos < value_at(
            s,
            pos,
            t,
            in_collection,
        ).1,
    decreases s.len() - pos, 1nat, 0nat,
{
    varint::lemma_varint_progress(s, pos);
    if t == T_LIST || t == T_SET {
        if let (Ok(h), p) = byte_at(s, pos) {
            varint::lemma_varint_progress(s, p);
            if let (Ok(n), q) = list_size_at(s, p, h) {
                if n <= MAX_SIZE {
                    lemma_items_progress(s, q, h % 16, n as nat);
                }
            }
        }
    } else if t == T_MAP {
        if let (Ok(n), p) = uint_at(s, pos) {
            if let (Ok(kv), q) = byte_at(s, p) {
                lemma_pairs_progress(s, q, kv / 16, kv % 16, n as nat);
            }
        }
    } else if t == T_STRUCT {
        lemma_fields_progress(s, pos, 0);
    }
}

/// Reading elements never moves backwards nor past the end.
pub proof fn lemma_items_progress(s: Seq<u8>, pos: int, t: u8, n: nat)
    requires
        0 <= pos <= s.len(),
    ensures
        pos <= items_at(s, pos, t, n).1 <= s.len(),
    decreases s.len() - pos, 2nat, n,
{
    if n > 0 {
        lemma_value_progress(s, pos, t, true);
        if let (Ok(v), p) = value_at(s, pos, t, true) {
            lemma_items_progress(s, p, t, (n - 1) as nat);
        }
    }
}

/// Reading map entries never moves backwards nor past the end.
pub proof fn lemma_pairs_progress(s: Seq<u8>, pos: int, kt: u8, vt: u8, n: nat)
    requires
        0 <= pos <= s.len(),
    ensures
        pos <= pairs_at(s, pos, kt, vt, n).1 <= s.len(),
    decreases s.len() - pos, 2nat, n,
{
    if n > 0 {
        lemma_value_progress(s, pos, kt, true);
        if let (Ok(k), p) = value_at(s, pos, kt, true) {
            lemma_value_progress(s, p, vt, true);
            if let (Ok(v), q) = value_at(s, p, vt, true) {
                lemma_pairs_progress(s, q, kt, vt, (n - 1) as nat);
            }
        }
    }
}

/// Reading struct fields never moves backwards nor past the end, and takes at
/// least the stop byte.
pub proof fn lemma_fields_progress(s: Seq<u8>, pos: int, last: i16)
    requires
        0 <= pos <= s.len(),
    ensures
        pos <= fields_at(s, pos, last).1 <= s.len(),
        fields_at(s, pos, last).0 is Ok ==> pos < fields_at(s, pos, last).1,
    decreases s.len() - pos, 0nat, 0nat,
{
    if let (Ok(b), p) = byte_at(s, pos) {
        if b != T_STOP {
            varint::lemma_varint_progress(s, p);
            if let (Ok(id), q) = id_at(s, p, b, last) {
                lemma_value_progress(s, q, b % 16, false);
                if let (Ok(v), r) = value_at(s, q, b % 16, false) {
                    lemma_fields_progress(s, r, id);
                }
            }
        }
    }
}

/// The type code of a value inside a collection.
pub open spec fn type_code(t: TTree) -> u8 {
    match t {
        TTree::Bool(_) => T_TRUE,
        TTree::Byte(_) => T_BYTE,
        TTree::I32(_) => T_I32,
        TTree::I64(_) => T_I64,
        TTree::Double(_) => T_DOUBLE,
        TTree::Binary(_) => T_BINARY,
        TTree::List(_) => T_LIST,
        TTree::Struct(_) => T_STRUCT,
    }
}

/// The type code of a struct field; it carries the value of a boolean.
pub open spec fn field_code(t: TTree) -> u8 {
    match t {
        TTree::Bool(b) => if b {
            T_TRUE
        } else {
            T_FALSE
        },
        _ => type_code(t),
    }
}

/// The type code of the elements of a list.
pub open spec fn element_code(items: Seq<TTree>) -> u8 {
    if items.len() == 0 {
        T_STOP
    } else {
        type_code(items[0])
    }
}

/// The header of a list: size and element type.
pub open spec fn list_header(items: Seq<TTree>) -> Seq<u8> {
    let et = element_code(items);
    if items.len() < 15 {
        seq![(items.len() * 16 + et) as u8]
    } else {
        seq![(0xf0 + et) as u8] + varint::varint_bytes(items.len())
    }
}

/// The header of a field `id` with type code `t` that follows a field `last`:
/// in one byte where the identifier is at most 15 further on.
pub open spec fn field_header(last: i16, id: i16, t: u8) -> Seq<u8> {
    let d = id_delta(last, id);
    if 0 < d <= 15 {
        seq![(d * 16 + t) as u8]
    } else {
        seq![t] + varint::varint_bytes(varint::zigzag_of(id as int))
    }
}

/// The bytes of a value.
pub open spec fn value_bytes(t: TTree, in_collection: bool) -> Seq<u8>
    decreases t,
{
    match t {
        TTree::Bool(b) => if in_collection {
            seq![if b { T_TRUE } else { T_FALSE }]
        } else {
            seq![]
        },
        TTree::Byte(b) => seq![b as u8],
        TTree::I32(v) => varint::varint_bytes(varint::zigzag_of(v as int)),
        TTree::I64(v) => varint::varint_bytes(varint::zigzag_of(v as int)),
        TTree::Double(d) => le::le_bytes(d as nat, 8),
        TTree::Binary(b) => varint::varint_bytes(b.len()) + b,
        TTree::List(items) => list_header(items) + items_bytes(items),
        TTree::Struct(fields) => fields_bytes(fields, 0),
    }
}

/// The bytes of the elements of a list.
pub open spec fn items_bytes(items: Seq<TTree>) -> Seq<u8>
    decreases items,
{
    if items.len() == 0 {
        seq![]
    } else {
        value_bytes(items[0], true) + items_bytes(items.drop_first())
    }
}

/// The bytes of struct fields that follow a field `last`, with the stop byte.
pub open spec fn fields_bytes(fields: Seq<(i16, TTree)>, last: i16) -> Seq<u8>
    decreases fields,
{
    if fields.len() == 0 {
        seq![T_STOP]
    } else {
        field_header(last, fields[0].0, field_code(fields[0].1)) + value_bytes(fields[0].1, false)
            + fields_bytes(fields.drop_first(), fields[0].0)
    }
}

/// The format can express the value: every list in it holds elements of one
/// type and is not larger than a reader admits.
pub open spec fn expressible(t: TTree) -> bool
    decreases t,
{
    match t {
        TTree::Binary(b) => b.len() <= u64::MAX,
        TTree::List(items) => {
            &&& items.len() <= MAX_SIZE
            &&& forall|i: int|
                0 <= i < items.len() ==> type_code(#[trigger] items[i]) == element_code(items)
                    && expressible(items[i])
        },
        TTree::Struct(fields) => forall|i: int|
            0 <= i < fields.len() ==> expressible((#[trigger] fields[i]).1),
        _ => true,
    }
}

/// The format can express each field.
pub open spec fn expressible_fields(fields: Seq<(i16, TTree)>) -> bool {
    expressible(TTree::Struct(fields))
}

/// `s` holds the bytes `e` at `pos`.
pub open spec fn holds(s: Seq<u8>, pos: int, e: Seq<u8>) -> bool {
    &&& 0 <= pos
    &&& pos + e.len() <= s.len()
    &&& s.subrange(pos, pos + e.len()) == e
}

proof fn lemma_holds_split(s: Seq<u8>, pos: int, a: Seq<u8>, b: Seq<u8>)
    requires
        holds(s, pos, a + b),
    ensures
        holds(s, pos, a),
        holds(s, pos + a.len(), b),
{
    let whole = s.subrange(pos, pos + (a + b).len());
    assert(whole == a + b);
    assert forall|i: int| 0 <= i < a.len() implies s[pos + i] == a[i] by {
        assert(whole[i] == (a + b)[i]);
    }
    assert forall|i: int| 0 <= i < b.len() implies s[pos + a.len() + i] == b[i] by {
        assert(whole[a.len() + i] == (a + b)[a.len() + i]);
    }
    assert(s.subrange(pos, pos + a.len()) =~= a);
    assert(s.subrange(pos + a.len(), pos + a.len() + b.len()) =~= b);
}

proof fn lemma_holds_first(s: Seq<u8>, pos: int, e: Seq<u8>)
    requires
        holds(s, pos, e),
        e.len() > 0,
    ensures
        s[pos] == e[0],
{
    assert(s.subrange(pos, pos + e.len())[0] == e[0]);
}

proof fn lemma_int_round_trip(s: Seq<u8>, pos: int, v: i64)
    requires
        holds(s, pos, varint::varint_bytes(varint::zigzag_of(v as int))),
    ensures
        int_at(s, pos) == (
            Ok::<i64, ThriftError>(v),
            pos + varint::varint_bytes(varint::zigzag_of(v as int)).len(),
        ),
{
    varint::lemma_zigzag_round_trip(v, 0);
    varint::lemma_varint_round_trip(s, pos, varint::zigzag_of(v as int) as u64);
}

proof fn lemma_value_round_trip(s: Seq<u8>, pos: int, t: TTree, in_collection: bool)
    requires
        expressible(t),
        holds(s, pos, value_bytes(t, in_collection)),
    ensures
        value_at(
            s,
            pos,
            if in_collection {
                type_code(t)
            } else {
                field_code(t)
            },
            in_collection,
        ) == (Ok::<TTree, ThriftError>(t), pos + value_bytes(t, in_collection).len()),
    decreases t,
{
    let e = value_bytes(t, in_collection);
    match t {
        TTree::Bool(b) => {
            if in_collection {
                lemma_holds_first(s, pos, e);
            }
        },
        TTree::Byte(b) => {
            lemma_holds_first(s, pos, e);
            assert((b as u8) as i8 == b) by (bit_vector);
        },
        TTree::I32(v) => {
            lemma_int_round_trip(s, pos, v as i64);
        },
        TTree::I64(v) => {
            lemma_int_round_trip(s, pos, v);
        },
        TTree::Double(d) => {
            le::lemma_pow256();
            le::lemma_le_round_trip(d as nat, 8);
        },
        TTree::Binary(b) => {
            let h = varint::varint_bytes(b.len());
            lemma_holds_split(s, pos, h, b);
            varint::lemma_varint_round_trip(s, pos, b.len() as u64);
        },
        TTree::List(items) => {
            let h = list_header(items);
            let et = element_code(items);
            lemma_holds_split(s, pos, h, items_bytes(items));
            lemma_holds_first(s, pos, h);
            if items.len() >= 15 {
                let n = varint::varint_bytes(items.len());
                lemma_holds_split(s, pos, seq![(0xf0 + et) as u8], n);
                varint::lemma_varint_round_trip(s, pos + 1, items.len() as u64);
            }
            lemma_items_round_trip(s, pos + h.len(), items, et);
        },
        TTree::Struct(fields) => {
            lemma_fields_round_trip(s, pos, fields, 0);
        },
    }
}

proof fn lemma_items_round_trip(s: Seq<u8>, pos: int, items: Seq<TTree>, et: u8)
    requires
        forall|i: int|
            0 <= i < items.len() ==> type_code(#[trigger] items[i]) == et && expressible(items[i]),
        holds(s, pos, items_bytes(items)),
    ensures
        items_at(s, pos, et, items.len()) == (
            Ok::<Seq<TTree>, ThriftError>(items),
            pos + items_bytes(items).len(),
        ),
    decreases items,
{
    if items.len() == 0 {
        assert(items =~= seq![]);
    } else {
        let first = value_bytes(items[0], true);
        let rest = items.drop_first();
        lemma_holds_split(s, pos, first, items_bytes(rest));
        lemma_value_round_trip(s, pos, items[0], true);
        lemma_value_progress(s, pos, et, true);
        assert forall|i: int| 0 <= i < rest.len() implies type_code(#[trigger] rest[i]) == et
            && expressible(rest[i]) by {
            assert(rest[i] == items[i + 1]);
        }
        lemma_items_round_trip(s, pos + first.len(), rest, et);
        assert(seq![items[0]] + rest =~= items);
    }
}

/// A reader gives back the fields that a writer wrote and stops right behind
/// them, whatever follows.
///
/// Lists whose elements differ in type, or that are larger than a reader
/// admits, are left out: a list has one element type on the wire.
pub proof fn lemma_fields_round_trip(s: Seq<u8>, pos: int, fields: Seq<(i16, TTree)>, last: i16)
    requires
        expressible_fields(fields),
        holds(s, pos, fields_bytes(fields, last)),
    ensures
        fields_at(s, pos, last) == (
            Ok::<Seq<(i16, TTree)>, ThriftError>(fields),
            pos + fields_bytes(fields, last).len(),
        ),
    decreases fields,
{
    if fields.len() == 0 {
        lemma_holds_first(s, pos, fields_bytes(fields, last));
        assert(fields =~= seq![]);
    } else {
        assert(TTree::Struct(fields)->Struct_0 == fields);
        let (id, v) = fields[0];
        let rest = fields.drop_first();
        let t = field_code(v);
        let h = field_header(last, id, t);
        let e = value_bytes(v, false);
        lemma_holds_split(s, pos, h + e, fields_bytes(rest, id));
        lemma_holds_split(s, pos, h, e);
        lemma_holds_first(s, pos, h);
        let d = id_delta(last, id);
        if !(0 < d <= 15) {
            let z = varint::varint_bytes(varint::zigzag_of(id as int));
            lemma_holds_split(s, pos, seq![t], z);
            lemma_int_round_trip(s, pos + 1, id as i64);
        }
        let b = h[0];
        assert(b / 16 == (if 0 < d <= 15 { d } else { 0 }) && b % 16 == t && b != T_STOP);
        assert(id_at(s, pos + 1, b, last) == (Ok::<i16, ThriftError>(id), pos + h.len()));
        assert(expressible(v));
        lemma_value_round_trip(s, pos + h.len(), v, false);
        assert forall|i: int| 0 <= i < rest.len() implies expressible((#[trigger] rest[i]).1) by {
            assert(rest[i] == fields[i + 1]);
        }
        lemma_fields_round_trip(s, pos + h.len() + e.len(), rest, id);
        assert(seq![(id, v)] + rest =~= fields);
    }
}

/// The field that is found is the first with its identifier, and one is found if there
/// is any.
pub proof fn lemma_field_is_first(fields: Seq<(i16, TTree)>, id: i16)
    ensures
        match field(fields, id) {
            Some(t) => exists|i: int|
                0 <= i < fields.len() && #[trigger] fields[i] == (id, t) && forall|j: int|
                    0 <= j < i ==> (#[trigger] fields[j]).0 != id,
            None => forall|i: int| 0 <= i < fields.len() ==> (#[trigger] fields[i]).0 != id,
        },
    decreases fields.len(),
{
    if fields.len() > 0 {
        if fields[0].0 == id {
            assert(fields[0] == (id, field(fields, id)->Some_0));
        } else {
            let rest = fields.drop_first();
            lemma_field_is_first(rest, id);
            match field(rest, id) {
                Some(t) => {
                    let i = choose|i: int|
                        0 <= i < rest.len() && #[trigger] rest[i] == (id, t) && forall|j: int|
                            0 <= j < i ==> (#[trigger] rest[j]).0 != id;
                    assert(fields[i + 1] == (id, t));
                    assert forall|j: int| 0 <= j < i + 1 implies (#[trigger] fields[j]).0 != id by {
                        if j > 0 {
                            assert(rest[j - 1] == fields[j]);
                        }
                    }
                },
                None => {
                    assert forall|i: int| 0 <= i < fields.len() implies (#[trigger] fields[i]).0
                        != id by {
                        if i > 0 {
                            assert(rest[i - 1] == fields[i]);
                        }
                    }
                },
            }
        }
    }
}

/// What a value can be taken as: a number of any width as an integer, and everything
/// else as what it is and nothing else.
pub proof fn lemma_taken_as(t: TTree)
    ensures
        match t {
            TTree::Byte(v) => t.as_i64() == Some(v as i64),
            TTree::I32(v) => t.as_i64() == Some(v as i64),
            TTree::I64(v) => t.as_i64() == Some(v),
            _ => t.as_i64() is None,
        },
        match t {
            TTree::Bool(b) => t.as_bool() == Some(b),
            _ => t.as_bool() is None,
        },
        match t {
            TTree::Binary(b) => t.as_bin() == Some(b) && t.as_str() == Some(text::utf8_lossy(b)),
            _ => t.as_bin() is None && t.as_str() is None,
        },
        match t {
            TTree::List(l) => t.as_list() == Some(l),
            _ => t.as_list() is None,
        },
        match t {
            TTree::Struct(f) => t.as_struct() == Some(f),
            _ => t.as_struct() is None,
        },
{
}

/// The bytes of a value: numbers in zigzag order, seven bits to a byte; doubles and byte
/// strings as they stand, the latter behind their length; a boolean only inside a
/// collection.
pub proof fn lemma_written_value(t: TTree, in_collection: bool)
    ensures
        match t {
            TTree::Bool(b) => value_bytes(t, in_collection) == (if !in_collection {
                seq![]
            } else if b {
                seq![1u8]
            } else {
                seq![2u8]
            }),
            TTree::Byte(v) => value_bytes(t, in_collection).len() == 1 && value_bytes(
                t,
                in_collection,
            )[0] == (if v < 0 {
                v + 256
            } else {
                v as int
            }),
            TTree::I32(v) => value_bytes(t, in_collection) == varint::varint_bytes(
                (if v < 0 {
                    -2 * v - 1
                } else {
                    2 * v
                }) as nat,
            ),
            TTree::I64(v) => value_bytes(t, in_collection) == varint::varint_bytes(
                (if v < 0 {
                    -2 * v - 1
                } else {
                    2 * v
                }) as nat,
            ),
            TTree::Double(d) => value_bytes(t, in_collection).len() == 8 && le::le_nat(
                value_bytes(t, in_collection),
            ) == d,
            TTree::Binary(b) => value_bytes(t, in_collection) == varint::varint_bytes(b.len()) + b,
            TTree::List(_) => true,
            TTree::Struct(f) => value_bytes(t, in_collection) == fields_bytes(f, 0),
        },
{
    match t {
        TTree::Byte(v) => {
            assert(v as u8 == (if v < 0 {
                v + 256
            } else {
                v as int
            })) by (bit_vector);
        },
        TTree::Double(d) => {
            le::lemma_pow256();
            le::lemma_le_round_trip(d as nat, 8);
        },
        _ => {},
    }
}

/// The number that stands for the type of a value.
pub open spec fn number_of_type(t: TTree, in_collection: bool) -> int {
    match t {
        TTree::Bool(b) => if in_collection || b {
            1
        } else {
            2
        },
        TTree::Byte(_) => 3,
        TTree::I32(_) => 5,
        TTree::I64(_) => 6,
        TTree::Double(_) => 7,
        TTree::Binary(_) => 8,
        TTree::List(_) => 9,
        TTree::Struct(_) => 12,
    }
}

/// The bytes of a list: one with up to 14 elements has its size and the type of the
/// first in one byte, a longer one 15 and the type, and then its size. The elements
/// follow in order.
pub proof fn lemma_written_list(items: Seq<TTree>, in_collection: bool)
    ensures
        ({
            let b = value_bytes(TTree::List(items), in_collection);
            let code = if items.len() == 0 {
                0
            } else {
                number_of_type(items[0], true)
            };
            let size = varint::varint_bytes(items.len());
            &&& b.len() > 0
            &&& items.len() < 15 ==> b[0] == 16 * items.len() + code && b.drop_first()
                == items_bytes(items)
            &&& items.len() >= 15 ==> b[0] == 240 + code && b.drop_first() == size + items_bytes(
                items,
            )
        }),
        items.len() == 0 ==> items_bytes(items).len() == 0,
        items.len() > 0 ==> items_bytes(items) == value_bytes(items[0], true) + items_bytes(
            items.drop_first(),
        ),
{
    let b = value_bytes(TTree::List(items), in_collection);
    assert(b == list_header(items) + items_bytes(items));
    if items.len() < 15 {
        assert(b.drop_first() =~= items_bytes(items));
    } else {
        assert(b.drop_first() =~= varint::varint_bytes(items.len()) + items_bytes(items));
    }
}

/// The bytes of a struct: a byte for the type of each field, with the distance from the
/// identifier before it in the same byte if that is at most 15 and the identifier behind
/// it if not; then the value. A zero ends the struct.
pub proof fn lemma_written_fields(fields: Seq<(i16, TTree)>, last: i16)
    ensures
        fields.len() == 0 ==> fields_bytes(fields, last) == seq![0u8],
        fields.len() > 0 ==> {
            let (id, t) = fields[0];
            let rest = value_bytes(t, false) + fields_bytes(fields.drop_first(), id);
            let b = fields_bytes(fields, last);
            let far = (id - last) % 0x1_0000;
            &&& b.len() > 0
            &&& 1 <= far <= 15 ==> b[0] == 16 * far + number_of_type(t, false) && b.drop_first()
                == rest
            &&& !(1 <= far <= 15) ==> b[0] == number_of_type(t, false) && b.drop_first()
                == varint::varint_bytes(
                (if id < 0 {
                    -2 * id - 1
                } else {
                    2 * id
                }) as nat,
            ) + rest
        },
{
    if fields.len() > 0 {
        let (id, t) = fields[0];
        let rest = value_bytes(t, false) + fields_bytes(fields.drop_first(), id);
        let b = fields_bytes(fields, last);
        let h = field_header(last, id, field_code(t));
        assert(b =~= h + rest);
        let far = (id - last) % 0x1_0000;
        if 1 <= far <= 15 {
            assert(b.drop_first() =~= rest);
        } else {
            assert(b.drop_first() =~= h.drop_first() + rest);
            assert(h.drop_first() =~= varint::varint_bytes(varint::zigzag_of(id as int)));
        }
    }
}

/// How bytes, byte strings and integers are read: a byte where there is one, as many
/// bytes as asked for if they are there, and integers as in [`varint::varint_at`], signed
/// ones in zigzag order. What is missing is reported with where the input ends.
pub proof fn lemma_read_parts(s: Seq<u8>, pos: int, n: nat)
    requires
        0 <= pos <= s.len() <= usize::MAX,
        n <= u64::MAX,
    ensures
        pos < s.len() ==> byte_at(s, pos) == (Ok::<u8, ThriftError>(s[pos]), pos + 1),
        pos == s.len() ==> byte_at(s, pos) == (
            Err::<u8, ThriftError>(ThriftError::UnexpectedEnd { pos: pos as usize }),
            pos,
        ),
        match take_at(s, pos, n) {
            (Ok(b), p) => p == pos + n && p <= s.len() && b.len() == n && forall|i: int|
                0 <= i < n ==> #[trigger] b[i] == s[pos + i],
            (Err(e), p) => {
                &&& p == pos
                &&& pos + n > s.len()
                &&& e == ThriftError::NeedBytes { need: n as u64, have: (s.len() - pos) as usize }
            },
        },
        uint_at(s, pos).1 == varint::varint_at(s, pos).1,
        match varint::varint_at(s, pos).0 {
            Ok(v) => uint_at(s, pos).0 == Ok::<u64, ThriftError>(v),
            Err(VarintFault::End) => uint_at(s, pos).0 == Err::<u64, ThriftError>(
                ThriftError::UnexpectedEnd { pos: s.len() as usize },
            ),
            Err(VarintFault::TooLong) => uint_at(s, pos).0 == Err::<u64, ThriftError>(
                ThriftError::VarintTooLong,
            ),
        },
        int_at(s, pos).1 == varint::varint_at(s, pos).1,
        match int_at(s, pos).0 {
            Ok(v) => varint::varint_at(s, pos).0 == Ok::<u64, VarintFault>(
                (if v < 0 {
                    -2 * v - 1
                } else {
                    2 * v
                }) as u64,
            ),
            Err(e) => uint_at(s, pos).0 == Err::<u64, ThriftError>(e),
        },
{
    varint::lemma_varint_faults(s, pos);
    if let Ok(v) = varint::varint_at(s, pos).0 {
        varint::lemma_zigzag_round_trip(0, v);
    }
}

/// How values without parts are read, by the number of their type: 1 and 2 are the
/// booleans, which inside a collection are a byte; 3 is a byte; 4 and 5 are alike, the
/// low 32 bits of what 6 reads; 7 is eight bytes, 8 a length and as many bytes.
pub proof fn lemma_read_scalar(s: Seq<u8>, pos: int, c: bool)
    requires
        0 <= pos <= s.len(),
    ensures
        value_at(s, pos, 1, false) == (Ok::<TTree, ThriftError>(TTree::Bool(true)), pos),
        value_at(s, pos, 2, false) == (Ok::<TTree, ThriftError>(TTree::Bool(false)), pos),
        value_at(s, pos, 1, true) == value_at(s, pos, 2, true),
        value_at(s, pos, 1, true).1 == byte_at(s, pos).1,
        value_at(s, pos, 3, c).1 == byte_at(s, pos).1,
        match byte_at(s, pos).0 {
            Ok(b) => {
                &&& value_at(s, pos, 1, true).0 == Ok::<TTree, ThriftError>(TTree::Bool(b == 1))
                &&& value_at(s, pos, 3, c).0 matches Ok(t) && t is Byte && t->Byte_0
                    == (if b < 128 {
                    b as int
                } else {
                    b - 256
                })
            },
            Err(e) => value_at(s, pos, 1, true).0 == Err::<TTree, ThriftError>(e) && value_at(
                s,
                pos,
                3,
                c,
            ).0 == Err::<TTree, ThriftError>(e),
        },
        value_at(s, pos, 4, c) == value_at(s, pos, 5, c),
        value_at(s, pos, 5, c).1 == int_at(s, pos).1,
        value_at(s, pos, 6, c).1 == int_at(s, pos).1,
        match int_at(s, pos).0 {
            Ok(v) => {
                &&& value_at(s, pos, 6, c).0 == Ok::<TTree, ThriftError>(TTree::I64(v))
                &&& value_at(s, pos, 5, c).0 matches Ok(t) && t is I32 && (v
                    - t->I32_0) % 0x1_0000_0000 == 0
            },
            Err(e) => value_at(s, pos, 5, c).0 == Err::<TTree, ThriftError>(e) && value_at(
                s,
                pos,
                6,
                c,
            ).0 == Err::<TTree, ThriftError>(e),
        },
        value_at(s, pos, 7, c).1 == take_at(s, pos, 8).1,
        match take_at(s, pos, 8).0 {
            Ok(b) => value_at(s, pos, 7, c).0 matches Ok(t) && t is Double && t->Double_0
                == le::le_nat(b),
            Err(e) => value_at(s, pos, 7, c).0 == Err::<TTree, ThriftError>(e),
        },
        match uint_at(s, pos) {
            (Ok(n), p) => {
                &&& value_at(s, pos, 8, c).1 == take_at(s, p, n as nat).1
                &&& match take_at(s, p, n as nat).0 {
                    Ok(b) => value_at(s, pos, 8, c).0 == Ok::<TTree, ThriftError>(
                        TTree::Binary(b),
                    ),
                    Err(e) => value_at(s, pos, 8, c).0 == Err::<TTree, ThriftError>(e),
                }
            },
            (Err(e), p) => value_at(s, pos, 8, c) == (Err::<TTree, ThriftError>(e), p),
        },
{
    if let Ok(b) = byte_at(s, pos).0 {
        assert(b as i8 == (if b < 128 {
            b as int
        } else {
            b - 256
        })) by (bit_vector);
    }
    if let Ok(v) = int_at(s, pos).0 {
        let x = v as i32;
        assert((v - (v as i32)) % 0x1_0000_0000 == 0) by (bit_vector);
    }
    if let Ok(b) = take_at(s, pos, 8).0 {
        le::lemma_le_bound(b);
        le::lemma_pow256();
    }
}

/// How collections and structs are read: 9 and 10 are alike, a list; 11 is a map, as a
/// list of pairs; 12 is a struct. More than 2^24 elements are refused, and so is every
/// other type, by its number.
pub proof fn lemma_read_compound(s: Seq<u8>, pos: int, c: bool, t: u8)
    requires
        0 <= pos <= s.len(),
    ensures
        value_at(s, pos, 9, c) == value_at(s, pos, 10, c),
        pos == s.len() ==> value_at(s, pos, 9, c) == (
            Err::<TTree, ThriftError>(ThriftError::UnexpectedEnd { pos: pos as usize }),
            pos,
        ),
        pos < s.len() ==> {
            let h = s[pos];
            let (n, q) = if h < 240 {
                (Ok::<u64, ThriftError>((h / 16) as u64), pos + 1)
            } else {
                uint_at(s, pos + 1)
            };
            match n {
                Ok(n) => if n > 16777216 {
                    value_at(s, pos, 9, c) == (
                        Err::<TTree, ThriftError>(ThriftError::ListTooLarge { size: n }),
                        q,
                    )
                } else {
                    &&& value_at(s, pos, 9, c).1 == items_at(s, q, h % 16, n as nat).1
                    &&& match items_at(s, q, h % 16, n as nat).0 {
                        Ok(l) => value_at(s, pos, 9, c).0 == Ok::<TTree, ThriftError>(
                            TTree::List(l),
                        ),
                        Err(e) => value_at(s, pos, 9, c).0 == Err::<TTree, ThriftError>(e),
                    }
                },
                Err(e) => value_at(s, pos, 9, c) == (Err::<TTree, ThriftError>(e), q),
            }
        },
        match uint_at(s, pos) {
            (Ok(n), p) => if n > 16777216 {
                value_at(s, pos, 11, c) == (
                    Err::<TTree, ThriftError>(ThriftError::MapTooLarge { size: n }),
                    p,
                )
            } else if n == 0 {
                value_at(s, pos, 11, c) == (Ok::<TTree, ThriftError>(TTree::List(seq![])), p)
            } else if p < s.len() {
                &&& value_at(s, pos, 11, c).1 == pairs_at(
                    s,
                    p + 1,
                    s[p] / 16,
                    s[p] % 16,
                    n as nat,
                ).1
                &&& match pairs_at(s, p + 1, s[p] / 16, s[p] % 16, n as nat).0 {
                    Ok(l) => value_at(s, pos, 11, c).0 == Ok::<TTree, ThriftError>(
                        TTree::List(l),
                    ),
                    Err(e) => value_at(s, pos, 11, c).0 == Err::<TTree, ThriftError>(e),
                }
            } else {
                value_at(s, pos, 11, c) == (
                    Err::<TTree, ThriftError>(ThriftError::UnexpectedEnd { pos: p as usize }),
                    p,
                )
            },
            (Err(e), p) => value_at(s, pos, 11, c) == (Err::<TTree, ThriftError>(e), p),
        },
        value_at(s, pos, 12, c).1 == fields_at(s, pos, 0).1,
        match fields_at(s, pos, 0).0 {
            Ok(f) => value_at(s, pos, 12, c).0 == Ok::<TTree, ThriftError>(TTree::Struct(f)),
            Err(e) => value_at(s, pos, 12, c).0 == Err::<TTree, ThriftError>(e),
        },
        t == 0 || t > 12 ==> value_at(s, pos, t, c) == (
            Err::<TTree, ThriftError>(ThriftError::UnknownType { typ: t }),
            pos,
        ),
{
}

/// How the elements of a collection are read: one after the other, as many as are
/// announced, and nothing if one of them cannot be read.
pub proof fn lemma_read_items(s: Seq<u8>, pos: int, t: u8, u: u8, n: nat)
    requires
        0 <= pos <= s.len(),
    ensures
        items_at(s, pos, t, 0) == (Ok::<Seq<TTree>, ThriftError>(seq![]), pos),
        match value_at(s, pos, t, true) {
            (Ok(v), p) => {
                &&& items_at(s, pos, t, n + 1).1 == items_at(s, p, t, n).1
                &&& match items_at(s, p, t, n).0 {
                    Ok(l) => items_at(s, pos, t, n + 1).0 == Ok::<Seq<TTree>, ThriftError>(
                        seq![v] + l,
                    ),
                    Err(e) => items_at(s, pos, t, n + 1).0 == Err::<Seq<TTree>, ThriftError>(e),
                }
            },
            (Err(e), p) => items_at(s, pos, t, n + 1) == (Err::<Seq<TTree>, ThriftError>(e), p),
        },
        pairs_at(s, pos, t, u, 0) == (Ok::<Seq<TTree>, ThriftError>(seq![]), pos),
        match value_at(s, pos, t, true) {
            (Ok(k), p) => match value_at(s, p, u, true) {
                (Ok(v), q) => {
                    &&& pairs_at(s, pos, t, u, n + 1).1 == pairs_at(s, q, t, u, n).1
                    &&& match pairs_at(s, q, t, u, n).0 {
                        Ok(l) => pairs_at(s, pos, t, u, n + 1).0 == Ok::<
                            Seq<TTree>,
                            ThriftError,
                        >(seq![TTree::List(seq![k, v])] + l),
                        Err(e) => pairs_at(s, pos, t, u, n + 1).0 == Err::<
                            Seq<TTree>,
                            ThriftError,
                        >(e),
                    }
                },
                (Err(e), q) => pairs_at(s, pos, t, u, n + 1) == (
                    Err::<Seq<TTree>, ThriftError>(e),
                    q,
                ),
            },
            (Err(e), p) => pairs_at(s, pos, t, u, n + 1) == (
                Err::<Seq<TTree>, ThriftError>(e),
                p,
            ),
        },
{
    lemma_value_progress(s, pos, t, true);
    if let (Ok(k), p) = value_at(s, pos, t, true) {
        lemma_value_progress(s, p, u, true);
    }
}

/// How the fields of a struct are read: a zero byte ends them; else the lower half of
/// the byte is the type, and the upper half the distance from the identifier before, in
/// 16-bit arithmetic, or zero if the identifier follows, of which the low 16 bits count.
pub proof fn lemma_read_fields(s: Seq<u8>, pos: int, last: i16)
    requires
        0 <= pos <= s.len(),
    ensures
        pos == s.len() ==> fields_at(s, pos, last) == (
            Err::<Seq<(i16, TTree)>, ThriftError>(ThriftError::UnexpectedEnd { pos: pos as usize }),
            pos,
        ),
        pos < s.len() && s[pos] == 0 ==> fields_at(s, pos, last) == (
            Ok::<Seq<(i16, TTree)>, ThriftError>(seq![]),
            pos + 1,
        ),
        pos < s.len() && 0 < s[pos] < 16 && int_at(s, pos + 1).0 is Err ==> fields_at(s, pos, last)
            == (
            Err::<Seq<(i16, TTree)>, ThriftError>(int_at(s, pos + 1).0->Err_0),
            int_at(s, pos + 1).1,
        ),
        pos < s.len() && (s[pos] >= 16 || (s[pos] > 0 && int_at(s, pos + 1).0 is Ok)) ==> exists|
            id: i16,
            q: int,
        |
            {
                &&& s[pos] >= 16 ==> q == pos + 1 && (id - last - s[pos] / 16) % 0x1_0000 == 0
                &&& s[pos] < 16 ==> q == int_at(s, pos + 1).1 && (int_at(s, pos + 1).0->Ok_0 - id)
                    % 0x1_0000 == 0
                &&& #[trigger] field_then(s, pos, last, id, q)
            },
{
    let b = s[pos];
    if pos < s.len() && b > 0 {
        varint::lemma_varint_progress(s, pos + 1);
        if b >= 16 || int_at(s, pos + 1).0 is Ok {
            let (id, q) = (id_at(s, pos + 1, b, last).0->Ok_0, id_at(s, pos + 1, b, last).1);
            if b < 16 {
                let v = int_at(s, pos + 1).0->Ok_0;
                assert((v - (v as i16)) % 0x1_0000 == 0) by (bit_vector);
            }
            lemma_value_progress(s, q, b % 16, false);
            assert(field_then(s, pos, last, id, q));
        }
    }
}

/// The struct at `pos` starts with the field `id`, whose value stands at `q`; the other
/// fields follow that.
pub open spec fn field_then(s: Seq<u8>, pos: int, last: i16, id: i16, q: int) -> bool {
    match value_at(s, q, s[pos] % 16, false) {
        (Ok(v), r) => {
            &&& fields_at(s, pos, last).1 == fields_at(s, r, id).1
            &&& match fields_at(s, r, id).0 {
                Ok(f) => fields_at(s, pos, last).0 == Ok::<Seq<(i16, TTree)>, ThriftError>(
                    seq![(id, v)] + f,
                ),
                Err(e) => fields_at(s, pos, last).0 == Err::<Seq<(i16, TTree)>, ThriftError>(e),
            }
        },
        (Err(e), r) => fields_at(s, pos, last) == (
            Err::<Seq<(i16, TTree)>, ThriftError>(e),
            r,
        ),
    }
}

} // verus!
