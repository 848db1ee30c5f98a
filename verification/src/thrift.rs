//! Thrift compact protocol reader and writer for the subset used by Parquet
//! metadata.
use vstd::prelude::*;
use vstd::string::*;

use crate::equality;
use crate::le;
use crate::text;
use crate::varint;
use crate::varint::VarintFault;
use crate::wire;
use crate::wire::{ThriftError, TTree};

pub use crate::wire::{
    T_BINARY, T_BYTE, T_DOUBLE, T_FALSE, T_I16, T_I32, T_I64, T_LIST, T_MAP, T_SET, T_STOP,
    T_STRUCT, T_TRUE,
};

verus! {

/// A value of the protocol. A double is kept as its IEEE 754 bit pattern.
#[derive(Debug)]
pub enum TVal {
    Bool(bool),
    Byte(i8),
    I32(i32),
    I64(i64),
    Double(u64),
    Binary(Vec<u8>),
    List(Vec<TVal>),
    Struct(Vec<(i16, TVal)>),
}

/// The value of each element.
pub open spec fn items_tree(items: Seq<TVal>) -> Seq<TTree>
    decreases items,
{
    Seq::new(
        items.len(),
        |i: int|
            if 0 <= i < items.len() {
                items[i].tree()
            } else {
                arbitrary()
            },
    )
}

/// The identifier and value of each field.
pub open spec fn fields_tree(fields: Seq<(i16, TVal)>) -> Seq<(i16, TTree)>
    decreases fields,
{
    Seq::new(
        fields.len(),
        |i: int|
            if 0 <= i < fields.len() {
                (fields[i].0, fields[i].1.tree())
            } else {
                arbitrary()
            },
    )
}

impl View for TVal {
    type V = TTree;

    open spec fn view(&self) -> TTree {
        self.tree()
    }
}

/// The values are equal; doubles are compared as numbers.
pub open spec fn trees_equal(a: TTree, b: TTree) -> bool
    decreases a,
{
    match (a, b) {
        (TTree::Double(x), TTree::Double(y)) => equality::equal64(x, y),
        (TTree::List(x), TTree::List(y)) => x.len() == y.len() && forall|i: int|
            0 <= i < x.len() ==> trees_equal(#[trigger] x[i], y[i]),
        (TTree::Struct(x), TTree::Struct(y)) => x.len() == y.len() && forall|i: int|
            0 <= i < x.len() ==> (#[trigger] x[i]).0 == y[i].0 && trees_equal(x[i].1, y[i].1),
        _ => a == b,
    }
}

impl PartialEq for TVal {
    fn eq(&self, other: &TVal) -> (r: bool) {
        self.equals(other)
    }
}

impl vstd::std_specs::cmp::PartialEqSpecImpl for TVal {
    open spec fn obeys_eq_spec() -> bool {
        true
    }

    open spec fn eq_spec(&self, other: &TVal) -> bool {
        trees_equal(self@, other@)
    }
}

impl Clone for TVal {
    fn clone(&self) -> (r: TVal)
        ensures
            r@ == self@,
    {
        self.duplicate()
    }
}

impl TVal {
    pub open spec fn tree(self) -> TTree
        decreases self,
    {
        match self {
            TVal::Bool(b) => TTree::Bool(b),
            TVal::Byte(b) => TTree::Byte(b),
            TVal::I32(v) => TTree::I32(v),
            TVal::I64(v) => TTree::I64(v),
            TVal::Double(d) => TTree::Double(d),
            TVal::Binary(b) => TTree::Binary(b@),
            TVal::List(l) => TTree::List(items_tree(l@)),
            TVal::Struct(s) => TTree::Struct(fields_tree(s@)),
        }
    }

    /// A deep copy.
    fn duplicate(&self) -> (r: TVal)
        ensures
            r@ == self@,
        decreases self,
    {
        match self {
            TVal::Bool(b) => TVal::Bool(*b),
            TVal::Byte(b) => TVal::Byte(*b),
            TVal::I32(v) => TVal::I32(*v),
            TVal::I64(v) => TVal::I64(*v),
            TVal::Double(d) => TVal::Double(*d),
            TVal::Binary(b) => TVal::Binary(vstd::slice::slice_to_vec(b.as_slice())),
            TVal::List(l) => {
                let mut out: Vec<TVal> = Vec::new();
                let mut i: usize = 0;
                while i < l.len()
                    invariant
                        i <= l@.len(),
                        out@.len() == i,
                        *self == TVal::List(*l),
                        forall|k: int| 0 <= k < i ==> (#[trigger] out@[k])@ == l@[k]@,
                    decreases l@.len() - i,
                {
                    assert(decreases_to!(*self => self->List_0));
                    assert(decreases_to!(*l => l[i as int]));
                    out.push(l[i].duplicate());
                    i += 1;
                }
                assert(items_tree(out@) =~= items_tree(l@));
                TVal::List(out)
            },
            TVal::Struct(s) => {
                let mut out: Vec<(i16, TVal)> = Vec::new();
                let mut i: usize = 0;
                while i < s.len()
                    invariant
                        i <= s@.len(),
                        out@.len() == i,
                        *self == TVal::Struct(*s),
                        forall|k: int|
                            0 <= k < i ==> (#[trigger] out@[k]).0 == s@[k].0 && out@[k].1@
                                == s@[k].1@,
                    decreases s@.len() - i,
                {
                    let f: &(i16, TVal) = &s[i];
                    assert(decreases_to!(*self => self->Struct_0));
                    assert(decreases_to!(*s => s[i as int]));
                    assert(decreases_to!(*f => f.1));
                    out.push((f.0, f.1.duplicate()));
                    i += 1;
                }
                assert(fields_tree(out@) =~= fields_tree(s@));
                TVal::Struct(out)
            },
        }
    }

    /// Whether the values are equal.
    fn equals(&self, other: &TVal) -> (r: bool)
        ensures
            r == trees_equal(self@, other@),
        decreases self,
    {
        match (self, other) {
            (TVal::Bool(x), TVal::Bool(y)) => *x == *y,
            (TVal::Byte(x), TVal::Byte(y)) => *x == *y,
            (TVal::I32(x), TVal::I32(y)) => *x == *y,
            (TVal::I64(x), TVal::I64(y)) => *x == *y,
            (TVal::Double(x), TVal::Double(y)) => equality::same64(*x, *y),
            (TVal::Binary(x), TVal::Binary(y)) => equality::same_bytes(
                x.as_slice(),
                y.as_slice(),
            ),
            (TVal::List(x), TVal::List(y)) => {
                if x.len() != y.len() {
                    return false;
                }
                let mut i: usize = 0;
                while i < x.len()
                    invariant
                        i <= x@.len(),
                        x@.len() == y@.len(),
                        *self == TVal::List(*x),
                        *other == TVal::List(*y),
                        forall|k: int|
                            0 <= k < i ==> trees_equal(
                                #[trigger] items_tree(x@)[k],
                                items_tree(y@)[k],
                            ),
                    decreases x@.len() - i,
                {
                    assert(decreases_to!(*self => self->List_0));
                    assert(decreases_to!(*x => x[i as int]));
                    assert(items_tree(x@)[i as int] == x@[i as int]@);
                    assert(items_tree(y@)[i as int] == y@[i as int]@);
                    if !x[i].equals(&y[i]) {
                        return false;
                    }
                    i += 1;
                }
                proof {
                    let a = items_tree(x@);
                    let b = items_tree(y@);
                    assert(self@ == TTree::List(a) && other@ == TTree::List(b));
                    assert forall|k: int| 0 <= k < a.len() implies trees_equal(
                        #[trigger] a[k],
                        b[k],
                    ) by {}
                    assert(trees_equal(TTree::List(a), TTree::List(b)));
                }
                true
            },
            (TVal::Struct(x), TVal::Struct(y)) => {
                if x.len() != y.len() {
                    return false;
                }
                let mut i: usize = 0;
                while i < x.len()
                    invariant
                        i <= x@.len(),
                        x@.len() == y@.len(),
                        *self == TVal::Struct(*x),
                        *other == TVal::Struct(*y),
                        forall|k: int|
                            0 <= k < i ==> (#[trigger] fields_tree(x@)[k]).0 == fields_tree(
                                y@,
                            )[k].0 && trees_equal(fields_tree(x@)[k].1, fields_tree(y@)[k].1),
                    decreases x@.len() - i,
                {
                    let f: &(i16, TVal) = &x[i];
                    let g: &(i16, TVal) = &y[i];
                    assert(decreases_to!(*self => self->Struct_0));
                    assert(decreases_to!(*x => x[i as int]));
                    assert(decreases_to!(*f => f.1));
                    assert(fields_tree(x@)[i as int] == (f.0, f.1@));
                    assert(fields_tree(y@)[i as int] == (g.0, g.1@));
                    if f.0 != g.0 || !f.1.equals(&g.1) {
                        return false;
                    }
                    i += 1;
                }
                proof {
                    let a = fields_tree(x@);
                    let b = fields_tree(y@);
                    assert(self@ == TTree::Struct(a) && other@ == TTree::Struct(b));
                    assert forall|k: int| 0 <= k < a.len() implies (#[trigger] a[k]).0 == b[k].0
                        && trees_equal(a[k].1, b[k].1) by {}
                    assert(trees_equal(TTree::Struct(a), TTree::Struct(b)));
                }
                true
            },
            _ => false,
        }
    }

    /// The binary value that holds the UTF-8 bytes of `s`.
    pub fn str(s: &str) -> (v: TVal)
        ensures
            v@ == TTree::Binary(vstd::utf8::encode_utf8(s@)),
    {
        TVal::Binary(vstd::slice::slice_to_vec(s.as_bytes()))
    }

    /// The value of the first field with identifier `id`.
    pub fn get<'a>(fields: &'a [(i16, TVal)], id: i16) -> (r: Option<&'a TVal>)
        ensures
            match r {
                Some(v) => wire::field(fields_tree(fields@), id) == Some(v@),
                None => wire::field(fields_tree(fields@), id) is None,
            },
    {
        let ghost all = fields_tree(fields@);
        let mut i: usize = 0;
        assert(all.skip(0) =~= all);
        while i < fields.len()
            invariant
                i <= fields@.len(),
                all == fields_tree(fields@),
                wire::field(all, id) == wire::field(all.skip(i as int), id),
            decreases fields@.len() - i,
        {
            assert(all.skip(i as int).drop_first() =~= all.skip(i + 1));
            let f: &(i16, TVal) = &fields[i];
            if f.0 == id {
                return Some(&f.1);
            }
            i += 1;
        }
        None
    }

    pub fn as_i64(&self) -> (r: Option<i64>)
        ensures
            r == self@.as_i64(),
    {
        match self {
            TVal::I32(v) => Some(*v as i64),
            TVal::I64(v) => Some(*v),
            TVal::Byte(v) => Some(*v as i64),
            _ => None,
        }
    }

    pub fn as_bool(&self) -> (r: Option<bool>)
        ensures
            r == self@.as_bool(),
    {
        match self {
            TVal::Bool(b) => Some(*b),
            _ => None,
        }
    }

    pub fn as_bin(&self) -> (r: Option<&[u8]>)
        ensures
            match r {
                Some(b) => self@.as_bin() == Some(b@),
                None => self@.as_bin() is None,
            },
    {
        match self {
            TVal::Binary(b) => Some(b.as_slice()),
            _ => None,
        }
    }

    /// A binary value as text; ill-formed UTF-8 is replaced.
    pub fn as_str(&self) -> (r: Option<String>)
        ensures
            match r {
                Some(s) => self@.as_str() == Some(s@),
                None => self@.as_str() is None,
            },
            r matches Some(s) ==> (self@.as_bin() matches Some(b) && (vstd::utf8::valid_utf8(b)
                ==> s@ == vstd::utf8::decode_utf8(b))),
    {
        match self {
            TVal::Binary(b) => Some(text::from_utf8_lossy(b.as_slice())),
            _ => None,
        }
    }

    pub fn as_list(&self) -> (r: Option<&[TVal]>)
        ensures
            match r {
                Some(l) => self@.as_list() == Some(items_tree(l@)),
                None => self@.as_list() is None,
            },
    {
        match self {
            TVal::List(l) => Some(l.as_slice()),
            _ => None,
        }
    }

    pub fn as_struct(&self) -> (r: Option<&[(i16, TVal)]>)
        ensures
            match r {
                Some(s) => self@.as_struct() == Some(fields_tree(s@)),
                None => self@.as_struct() is None,
            },
    {
        match self {
            TVal::Struct(s) => Some(s.as_slice()),
            _ => None,
        }
    }
}

impl ThriftError {
    /// The text of the error.
    pub open spec fn text(self) -> Seq<char> {
        match self {
            ThriftError::UnexpectedEnd { pos } => "thrift: unexpected end of input at "@
                + text::dec(pos as nat),
            ThriftError::NeedBytes { need, have } => "thrift: need "@ + text::dec(need as nat)
                + " bytes, have "@ + text::dec(have as nat),
            ThriftError::VarintTooLong => "thrift: varint too long"@,
            ThriftError::ListTooLarge { size } => "thrift: list size "@ + text::dec(size as nat)
                + " too large"@,
            ThriftError::MapTooLarge { size } => "thrift: map size "@ + text::dec(size as nat)
                + " too large"@,
            ThriftError::UnknownType { typ } => "thrift: unknown type "@ + text::dec(typ as nat),
        }
    }

    /// The text of the error.
    pub fn message(&self) -> (m: String)
        ensures
            m@ == self.text(),
    {
        let mut m: String;
        match self {
            ThriftError::UnexpectedEnd { pos } => {
                m = "thrift: unexpected end of input at ".to_string();
                text::push_dec(&mut m, *pos as u128);
            },
            ThriftError::NeedBytes { need, have } => {
                m = "thrift: need ".to_string();
                text::push_dec(&mut m, *need as u128);
                m.append(" bytes, have ");
                text::push_dec(&mut m, *have as u128);
            },
            ThriftError::VarintTooLong => {
                m = "thrift: varint too long".to_string();
            },
            ThriftError::ListTooLarge { size } => {
                m = "thrift: list size ".to_string();
                text::push_dec(&mut m, *size as u128);
                m.append(" too large");
            },
            ThriftError::MapTooLarge { size } => {
                m = "thrift: map size ".to_string();
                text::push_dec(&mut m, *size as u128);
                m.append(" too large");
            },
            ThriftError::UnknownType { typ } => {
                m = "thrift: unknown type ".to_string();
                text::push_dec(&mut m, *typ as u128);
            },
        }
        m
    }
}

/// A reader over a byte buffer; `pos` is the position of the next byte.
pub struct TReader<'a> {
    pub buf: &'a [u8],
    pub pos: usize,
}

/// A value that was read agrees with its specification.
pub open spec fn read_as(r: Result<TVal, ThriftError>, spec: Result<TTree, ThriftError>) -> bool {
    match spec {
        Ok(v) => r matches Ok(x) && x@ == v,
        Err(e) => r matches Err(x) && x == e,
    }
}

/// Fields that were read agree with their specification.
pub open spec fn read_fields_as(
    r: Result<Vec<(i16, TVal)>, ThriftError>,
    spec: Result<Seq<(i16, TTree)>, ThriftError>,
) -> bool {
    match spec {
        Ok(v) => r matches Ok(x) && fields_tree(x@) == v,
        Err(e) => r matches Err(x) && x == e,
    }
}

/// Elements already read, followed by the outcome for the rest.
pub open spec fn continued<T>(done: Seq<T>, rest: (Result<Seq<T>, ThriftError>, int)) -> (
    Result<Seq<T>, ThriftError>,
    int,
) {
    match rest {
        (Ok(vs), p) => (Ok(done + vs), p),
        (Err(e), p) => (Err(e), p),
    }
}

proof fn lemma_continued_step<T>(done: Seq<T>, v: T, rest: (Result<Seq<T>, ThriftError>, int))
    ensures
        continued(done, wire::after_item(v, rest)) == continued(done.push(v), rest),
{
    if let (Ok(vs), p) = rest {
        assert(done + (seq![v] + vs) =~= done.push(v) + vs);
    }
}

impl<'a> TReader<'a> {
    /// The whole buffer.
    pub open spec fn bytes(&self) -> Seq<u8> {
        self.buf@
    }

    /// The position is inside the buffer or at its end.
    pub open spec fn wf(&self) -> bool {
        self.pos <= self.bytes().len()
    }

    pub fn new(buf: &'a [u8]) -> (r: Self)
        ensures
            r.bytes() == buf@,
            r.pos == 0,
            r.wf(),
    {
        TReader { buf, pos: 0 }
    }

    /// The number of bytes not read yet.
    pub fn remaining(&self) -> (n: usize)
        requires
            self.wf(),
        ensures
            n == self.bytes().len() - self.pos,
    {
        self.buf.len() - self.pos
    }

    pub fn byte(&mut self) -> (r: Result<u8, ThriftError>)
        ensures
            final(self).bytes() == old(self).bytes(),
            (r, final(self).pos as int) == wire::byte_at(old(self).bytes(), old(self).pos as int),
            old(self).wf() ==> final(self).wf(),
    {
        if self.pos >= self.buf.len() {
            return Err(ThriftError::UnexpectedEnd { pos: self.pos });
        }
        let b: u8 = self.buf[self.pos];
        self.pos = self.pos + 1;
        Ok(b)
    }

    /// The next `n` bytes.
    pub fn take(&mut self, n: usize) -> (r: Result<&'a [u8], ThriftError>)
        requires
            old(self).wf(),
        ensures
            final(self).bytes() == old(self).bytes(),
            match wire::take_at(old(self).bytes(), old(self).pos as int, n as nat) {
                (Ok(b), p) => r matches Ok(x) && x@ == b && final(self).pos == p,
                (Err(e), p) => r matches Err(x) && x == e && final(self).pos == p,
            },
            final(self).wf(),
    {
        if self.remaining() < n {
            return Err(ThriftError::NeedBytes { need: n as u64, have: self.remaining() });
        }
        assert(self.pos + n <= self.buf.len());
        let s: &'a [u8] = vstd::slice::slice_subrange(self.buf, self.pos, self.pos + n);
        self.pos = self.pos + n;
        Ok(s)
    }

    /// An unsigned variable-length integer.
    pub fn varint(&mut self) -> (r: Result<u64, ThriftError>)
        ensures
            final(self).bytes() == old(self).bytes(),
            (r, final(self).pos as int) == wire::uint_at(old(self).bytes(), old(self).pos as int),
            old(self).wf() ==> final(self).wf(),
    {
        proof {
            varint::lemma_varint_progress(self.bytes(), self.pos as int);
        }
        let mut p: usize = self.pos;
        let r = varint::read(self.buf, &mut p);
        self.pos = p;
        match r {
            Ok(v) => Ok(v),
            Err(VarintFault::End) => Err(ThriftError::UnexpectedEnd { pos: p }),
            Err(VarintFault::TooLong) => Err(ThriftError::VarintTooLong),
        }
    }

    /// A signed variable-length integer in zigzag order.
    pub fn zigzag(&mut self) -> (r: Result<i64, ThriftError>)
        ensures
            final(self).bytes() == old(self).bytes(),
            (r, final(self).pos as int) == wire::int_at(old(self).bytes(), old(self).pos as int),
            old(self).wf() ==> final(self).wf(),
    {
        match self.varint() {
            Ok(v) => Ok(varint::unzigzag_u64(v)),
            Err(e) => Err(e),
        }
    }

    /// The fields of a struct, up to and with its stop byte.
    pub fn read_struct(&mut self) -> (r: Result<Vec<(i16, TVal)>, ThriftError>)
        ensures
            final(self).bytes() == old(self).bytes(),
            read_fields_as(r, wire::fields_at(old(self).bytes(), old(self).pos as int, 0).0),
            final(self).pos == wire::fields_at(old(self).bytes(), old(self).pos as int, 0).1,
            old(self).wf() ==> final(self).wf(),
        decreases old(self).bytes().len() - old(self).pos, 0nat,
    {
        let ghost s = self.bytes();
        let ghost start = self.pos as int;
        let mut fields: Vec<(i16, TVal)> = Vec::new();
        let mut last_id: i16 = 0;
        assert(fields_tree(fields@) =~= seq![]);
        proof {
            let rest = wire::fields_at(s, start, 0);
            if let (Ok(vs), p) = rest {
                assert(fields_tree(fields@) + vs =~= vs);
            }
            if start <= s.len() {
                wire::lemma_fields_progress(s, start, 0);
            }
        }
        loop
            invariant
                self.bytes() == s,
                s == old(self).bytes(),
                start == old(self).pos,
                start <= self.pos,
                start < self.pos ==> self.pos <= s.len(),
                start <= s.len() ==> wire::fields_at(s, start, 0).1 <= s.len(),
                wire::fields_at(s, start, 0) == continued(
                    fields_tree(fields@),
                    wire::fields_at(s, self.pos as int, last_id),
                ),
            decreases s.len() - self.pos,
        {
            let ghost here = self.pos as int;
            let b: u8 = match self.byte() {
                Ok(b) => b,
                Err(e) => {
                    return Err(e);
                },
            };
            if b == T_STOP {
                assert(fields_tree(fields@) + seq![] =~= fields_tree(fields@));
                return Ok(fields);
            }
            let delta: u8 = b / 16;
            let t: u8 = b % 16;
            proof {
                varint::lemma_varint_progress(s, self.pos as int);
            }
            let id: i16 = if delta == 0 {
                match self.zigzag() {
                    Ok(v) => v as i16,
                    Err(e) => {
                        return Err(e);
                    },
                }
            } else {
                last_id.wrapping_add(delta as i16)
            };
            let ghost q = self.pos as int;
            assert(wire::id_at(s, here + 1, b, last_id) == (Ok::<i16, ThriftError>(id), q));
            proof {
                wire::lemma_value_progress(s, q, t, false);
            }
            let v: TVal = match self.read_value(t, false) {
                Ok(v) => v,
                Err(e) => {
                    return Err(e);
                },
            };
            let ghost before = fields_tree(fields@);
            proof {
                lemma_continued_step(
                    before,
                    (id, v@),
                    wire::fields_at(s, self.pos as int, id),
                );
            }
            fields.push((id, v));
            assert(fields_tree(fields@) =~= before.push((id, v@)));
            last_id = id;
        }
    }

    /// A value of type `t`.
    fn read_value(&mut self, t: u8, in_collection: bool) -> (r: Result<TVal, ThriftError>)
        requires
            old(self).wf(),
        ensures
            final(self).bytes() == old(self).bytes(),
            read_as(
                r,
                wire::value_at(old(self).bytes(), old(self).pos as int, t, in_collection).0,
            ),
            final(self).pos == wire::value_at(
                old(self).bytes(),
                old(self).pos as int,
                t,
                in_collection,
            ).1,
            final(self).wf(),
        decreases old(self).bytes().len() - old(self).pos, 1nat,
    {
        proof {
            wire::lemma_value_progress(self.bytes(), self.pos as int, t, in_collection);
            varint::lemma_varint_progress(self.bytes(), self.pos as int);
        }
        if t == T_TRUE || t == T_FALSE {
            if in_collection {
                match self.byte() {
                    Ok(b) => Ok(TVal::Bool(b == T_TRUE)),
                    Err(e) => Err(e),
                }
            } else {
                Ok(TVal::Bool(t == T_TRUE))
            }
        } else if t == T_BYTE {
            match self.byte() {
                Ok(b) => Ok(TVal::Byte(b as i8)),
                Err(e) => Err(e),
            }
        } else if t == T_I16 || t == T_I32 {
            match self.zigzag() {
                Ok(v) => Ok(TVal::I32(v as i32)),
                Err(e) => Err(e),
            }
        } else if t == T_I64 {
            match self.zigzag() {
                Ok(v) => Ok(TVal::I64(v)),
                Err(e) => Err(e),
            }
        } else if t == T_DOUBLE {
            match self.take(8) {
                Ok(b) => {
                    assert(b@.subrange(0, 8) =~= b@);
                    Ok(TVal::Double(le::read_le(b, 0, 8)))
                },
                Err(e) => Err(e),
            }
        } else if t == T_BINARY {
            let n: u64 = match self.varint() {
                Ok(n) => n,
                Err(e) => {
                    return Err(e);
                },
            };
            if n > self.remaining() as u64 {
                return Err(ThriftError::NeedBytes { need: n, have: self.remaining() });
            }
            match self.take(n as usize) {
                Ok(b) => Ok(TVal::Binary(vstd::slice::slice_to_vec(b))),
                Err(e) => Err(e),
            }
        } else if t == T_LIST || t == T_SET {
            self.read_list()
        } else if t == T_MAP {
            self.read_map()
        } else if t == T_STRUCT {
            match self.read_struct() {
                Ok(fields) => Ok(TVal::Struct(fields)),
                Err(e) => Err(e),
            }
        } else {
            Err(ThriftError::UnknownType { typ: t })
        }
    }

    /// A list or set: header, then its elements.
    fn read_list(&mut self) -> (r: Result<TVal, ThriftError>)
        requires
            old(self).wf(),
        ensures
            final(self).bytes() == old(self).bytes(),
            read_as(r, wire::value_at(old(self).bytes(), old(self).pos as int, T_LIST, true).0),
            final(self).pos == wire::value_at(
                old(self).bytes(),
                old(self).pos as int,
                T_LIST,
                true,
            ).1,
            final(self).wf(),
        decreases old(self).bytes().len() - old(self).pos, 0nat,
    {
        let ghost s = self.bytes();
        let ghost start = self.pos as int;
        proof {
            wire::lemma_value_progress(s, start, T_LIST, true);
        }
        let h: u8 = match self.byte() {
            Ok(h) => h,
            Err(e) => {
                return Err(e);
            },
        };
        let mut size: u64 = (h / 16) as u64;
        let et: u8 = h % 16;
        proof {
            varint::lemma_varint_progress(s, self.pos as int);
        }
        if size == 15 {
            size = match self.varint() {
                Ok(n) => n,
                Err(e) => {
                    return Err(e);
                },
            };
        }
        if size > wire::MAX_SIZE {
            return Err(ThriftError::ListTooLarge { size });
        }
        let ghost q = self.pos as int;
        let mut items: Vec<TVal> = Vec::new();
        assert(items_tree(items@) =~= seq![]);
        proof {
            let rest = wire::items_at(s, q, et, size as nat);
            if let (Ok(vs), p) = rest {
                assert(items_tree(items@) + vs =~= vs);
            }
        }
        let mut i: u64 = 0;
        while i < size
            invariant
                i <= size <= wire::MAX_SIZE,
                self.bytes() == s,
                s == old(self).bytes(),
                start == old(self).pos,
                start < q <= self.pos <= s.len(),
                wire::value_at(s, start, T_LIST, true) == (match wire::items_at(
                    s,
                    q,
                    et,
                    size as nat,
                ) {
                    (Ok(items), r) => (Ok::<TTree, ThriftError>(TTree::List(items)), r),
                    (Err(e), r) => (Err(e), r),
                }),
                wire::items_at(s, q, et, size as nat) == continued(
                    items_tree(items@),
                    wire::items_at(s, self.pos as int, et, (size - i) as nat),
                ),
            decreases size - i,
        {
            proof {
                wire::lemma_value_progress(s, self.pos as int, et, true);
            }
            let v: TVal = match self.read_value(et, true) {
                Ok(v) => v,
                Err(e) => {
                    return Err(e);
                },
            };
            let ghost before = items_tree(items@);
            proof {
                lemma_continued_step(
                    before,
                    v@,
                    wire::items_at(s, self.pos as int, et, (size - i - 1) as nat),
                );
            }
            items.push(v);
            assert(items_tree(items@) =~= before.push(v@));
            i += 1;
        }
        assert(items_tree(items@) + seq![] =~= items_tree(items@));
        Ok(TVal::List(items))
    }

    /// A map, as a list of two-element lists.
    fn read_map(&mut self) -> (r: Result<TVal, ThriftError>)
        requires
            old(self).wf(),
        ensures
            final(self).bytes() == old(self).bytes(),
            read_as(r, wire::value_at(old(self).bytes(), old(self).pos as int, T_MAP, true).0),
            final(self).pos == wire::value_at(
                old(self).bytes(),
                old(self).pos as int,
                T_MAP,
                true,
            ).1,
            final(self).wf(),
        decreases old(self).bytes().len() - old(self).pos, 0nat,
    {
        let ghost s = self.bytes();
        let ghost start = self.pos as int;
        proof {
            wire::lemma_value_progress(s, start, T_MAP, true);
            varint::lemma_varint_progress(s, start);
        }
        let size: u64 = match self.varint() {
            Ok(n) => n,
            Err(e) => {
                return Err(e);
            },
        };
        if size > wire::MAX_SIZE {
            return Err(ThriftError::MapTooLarge { size });
        }
        let mut items: Vec<TVal> = Vec::new();
        assert(items_tree(items@) =~= seq![]);
        if size == 0 {
            return Ok(TVal::List(items));
        }
        let kv: u8 = match self.byte() {
            Ok(b) => b,
            Err(e) => {
                return Err(e);
            },
        };
        let kt: u8 = kv / 16;
        let vt: u8 = kv % 16;
        let ghost q = self.pos as int;
        proof {
            let rest = wire::pairs_at(s, q, kt, vt, size as nat);
            if let (Ok(vs), p) = rest {
                assert(items_tree(items@) + vs =~= vs);
            }
        }
        let mut i: u64 = 0;
        while i < size
            invariant
                i <= size <= wire::MAX_SIZE,
                self.bytes() == s,
                s == old(self).bytes(),
                start == old(self).pos,
                start < q <= self.pos <= s.len(),
                wire::value_at(s, start, T_MAP, true) == (match wire::pairs_at(
                    s,
                    q,
                    kt,
                    vt,
                    size as nat,
                ) {
                    (Ok(items), r) => (Ok::<TTree, ThriftError>(TTree::List(items)), r),
                    (Err(e), r) => (Err(e), r),
                }),
                wire::pairs_at(s, q, kt, vt, size as nat) == continued(
                    items_tree(items@),
                    wire::pairs_at(s, self.pos as int, kt, vt, (size - i) as nat),
                ),
            decreases size - i,
        {
            proof {
                wire::lemma_value_progress(s, self.pos as int, kt, true);
            }
            let k: TVal = match self.read_value(kt, true) {
                Ok(k) => k,
                Err(e) => {
                    return Err(e);
                },
            };
            proof {
                wire::lemma_value_progress(s, self.pos as int, vt, true);
            }
            let v: TVal = match self.read_value(vt, true) {
                Ok(v) => v,
                Err(e) => {
                    return Err(e);
                },
            };
            let ghost before = items_tree(items@);
            let ghost entry = TTree::List(seq![k@, v@]);
            proof {
                lemma_continued_step(
                    before,
                    entry,
                    wire::pairs_at(s, self.pos as int, kt, vt, (size - i - 1) as nat),
                );
            }
            let ghost parts = seq![k@, v@];
            let mut pair: Vec<TVal> = Vec::new();
            pair.push(k);
            pair.push(v);
            assert(items_tree(pair@) =~= parts);
            items.push(TVal::List(pair));
            assert(items_tree(items@) =~= before.push(entry));
            i += 1;
        }
        assert(items_tree(items@) + seq![] =~= items_tree(items@));
        Ok(TVal::List(items))
    }
}

/// The type code of a value inside a collection.
fn tval_type(v: &TVal) -> (t: u8)
    ensures
        t == wire::type_code(v@),
{
    match v {
        TVal::Bool(_) => T_TRUE,
        TVal::Byte(_) => T_BYTE,
        TVal::I32(_) => T_I32,
        TVal::I64(_) => T_I64,
        TVal::Double(_) => T_DOUBLE,
        TVal::Binary(_) => T_BINARY,
        TVal::List(_) => T_LIST,
        TVal::Struct(_) => T_STRUCT,
    }
}

/// Appends the bytes of a slice.
fn push_bytes(b: &[u8], out: &mut Vec<u8>)
    ensures
        final(out)@ == old(out)@ + b@,
{
    let ghost start = out@;
    out.extend_from_slice(b);
    assert(out@ =~= start + b@);
}

/// Appends the bytes of a value.
fn write_value(v: &TVal, in_collection: bool, out: &mut Vec<u8>)
    ensures
        final(out)@ == old(out)@ + wire::value_bytes(v@, in_collection),
    decreases v,
{
    let ghost start = out@;
    match v {
        TVal::Bool(b) => {
            if in_collection {
                out.push(
                    if *b {
                        T_TRUE
                    } else {
                        T_FALSE
                    },
                );
            } else {
                assert(start + seq![] =~= start);
            }
        },
        TVal::Byte(b) => {
            out.push(*b as u8);
        },
        TVal::I32(i) => {
            varint::zigzag_into(*i as i64, out);
        },
        TVal::I64(i) => {
            varint::zigzag_into(*i, out);
        },
        TVal::Double(d) => {
            le::push_le(*d, 8, out);
        },
        TVal::Binary(b) => {
            varint::varint_into(b.len() as u64, out);
            push_bytes(b.as_slice(), out);
            assert(out@ =~= start + (varint::varint_bytes(b@.len()) + b@));
        },
        TVal::List(items) => {
            let ghost all = items_tree(items@);
            let et: u8 = if items.len() == 0 {
                T_STOP
            } else {
                tval_type(&items[0])
            };
            if items.len() < 15 {
                out.push(items.len() as u8 * 16 + et);
            } else {
                out.push(0xf0 + et);
                varint::varint_into(items.len() as u64, out);
            }
            let ghost head = wire::list_header(all);
            assert(out@ =~= start + head);
            assert(all.skip(0) =~= all);
            let mut i: usize = 0;
            while i < items.len()
                invariant
                    i <= items@.len(),
                    *v == TVal::List(*items),
                    all == items_tree(items@),
                    start + head + wire::items_bytes(all) == out@ + wire::items_bytes(
                        all.skip(i as int),
                    ),
                decreases items@.len() - i,
            {
                assert(decreases_to!(*v => v->List_0));
                assert(decreases_to!(*items => items[i as int]));
                let ghost before = out@;
                write_value(&items[i], true, out);
                proof {
                    let rest = all.skip(i as int);
                    assert(rest.drop_first() =~= all.skip(i + 1));
                    assert(before + (wire::value_bytes(rest[0], true) + wire::items_bytes(
                        rest.drop_first(),
                    )) =~= out@ + wire::items_bytes(all.skip(i + 1)));
                }
                i += 1;
            }
            assert(out@ + seq![] =~= out@);
            assert(start + head + wire::items_bytes(all) =~= start + (head + wire::items_bytes(
                all,
            )));
        },
        TVal::Struct(fields) => {
            assert(decreases_to!(*v => v->Struct_0));
            write_struct_into(fields.as_slice(), out);
        },
    }
}

/// Appends the bytes of the fields, with the stop byte.
pub fn write_struct_into(fields: &[(i16, TVal)], out: &mut Vec<u8>)
    ensures
        final(out)@ == old(out)@ + wire::fields_bytes(fields_tree(fields@), 0),
    decreases fields@,
{
    let ghost start = out@;
    let ghost all = fields_tree(fields@);
    let mut last: i16 = 0;
    let mut i: usize = 0;
    assert(all.skip(0) =~= all);
    while i < fields.len()
        invariant
            i <= fields@.len(),
            all == fields_tree(fields@),
            start + wire::fields_bytes(all, 0) == out@ + wire::fields_bytes(
                all.skip(i as int),
                last,
            ),
        decreases fields@.len() - i,
    {
        let f: &(i16, TVal) = &fields[i];
        let id: i16 = f.0;
        let ghost before = out@;
        let t: u8 = match &f.1 {
            TVal::Bool(b) => if *b {
                T_TRUE
            } else {
                T_FALSE
            },
            other => tval_type(other),
        };
        assert(t == wire::field_code(f.1@));
        let delta: i16 = id.wrapping_sub(last);
        assert(delta == wire::id_delta(last, id));
        if delta > 0 && delta <= 15 {
            out.push(delta as u8 * 16 + t);
        } else {
            out.push(t);
            varint::zigzag_into(id as i64, out);
        }
        let ghost head = wire::field_header(last, id, t);
        assert(out@ =~= before + head);
        assert(decreases_to!(fields@ => fields@[i as int]));
        assert(decreases_to!(*f => f.1));
        write_value(&f.1, false, out);
        proof {
            let rest = all.skip(i as int);
            assert(rest.drop_first() =~= all.skip(i + 1));
            assert(rest[0] == (id, f.1@));
            assert(before + (head + wire::value_bytes(f.1@, false) + wire::fields_bytes(
                rest.drop_first(),
                id,
            )) =~= out@ + wire::fields_bytes(all.skip(i + 1), id));
        }
        last = id;
        i += 1;
    }
    out.push(T_STOP);
}

/// The bytes of the fields, with the stop byte.
pub fn write_struct(fields: &[(i16, TVal)]) -> (out: Vec<u8>)
    ensures
        out@ == wire::fields_bytes(fields_tree(fields@), 0),
{
    let mut out: Vec<u8> = Vec::new();
    write_struct_into(fields, &mut out);
    assert(seq![] + wire::fields_bytes(fields_tree(fields@), 0) =~= wire::fields_bytes(
        fields_tree(fields@),
        0,
    ));
    out
}

/// Text put into a binary value is read back from it unchanged.
pub proof fn lemma_str_round_trip(s: &str, v: TVal, r: Option<String>)
    requires
        call_ensures(TVal::str, (s,), v),
        call_ensures(TVal::as_str, (&v,), r),
    ensures
        r matches Some(back) && back@ == s@,
{
    vstd::utf8::encode_utf8_valid_utf8(s@);
    vstd::utf8::encode_utf8_decode_utf8(s@);
}

/// What [`write_struct`] returns is read back by [`TReader::read_struct`]
/// unchanged and to its last byte, for fields that the format can express.
pub proof fn lemma_struct_round_trip(fields: Seq<(i16, TTree)>)
    requires
        wire::expressible_fields(fields),
    ensures
        wire::fields_at(wire::fields_bytes(fields, 0), 0, 0) == (
            Ok::<Seq<(i16, TTree)>, ThriftError>(fields),
            wire::fields_bytes(fields, 0).len() as int,
        ),
{
    let s = wire::fields_bytes(fields, 0);
    assert(s.subrange(0, s.len() as int) =~= s);
    wire::lemma_fields_round_trip(s, 0, fields, 0);
}

/// What a [`TVal`] is taken to hold: its variant, and what its parts hold, one for one.
pub proof fn lemma_tval_contents(v: TVal, f: Seq<(i16, TVal)>, k: int)
    ensures
        match v {
            TVal::Bool(b) => v@ == TTree::Bool(b),
            TVal::Byte(b) => v@ == TTree::Byte(b),
            TVal::I32(x) => v@ == TTree::I32(x),
            TVal::I64(x) => v@ == TTree::I64(x),
            TVal::Double(d) => v@ == TTree::Double(d),
            TVal::Binary(b) => v@ == TTree::Binary(b@),
            TVal::List(l) => v@ is List && v@->List_0.len() == l@.len() && (0 <= k < l@.len()
                ==> v@->List_0[k] == l@[k]@),
            TVal::Struct(s) => v@ is Struct && v@->Struct_0.len() == s@.len() && (0 <= k
                < s@.len() ==> v@->Struct_0[k] == (s@[k].0, s@[k].1@)),
        },
        fields_tree(f).len() == f.len(),
        0 <= k < f.len() ==> fields_tree(f)[k] == (f[k].0, f[k].1@),
{
}

/// The value holds no double.
pub open spec fn double_free(t: TTree) -> bool
    decreases t,
{
    match t {
        TTree::Double(_) => false,
        TTree::List(items) => forall|i: int|
            0 <= i < items.len() ==> double_free(#[trigger] items[i]),
        TTree::Struct(fields) => forall|i: int|
            0 <= i < fields.len() ==> double_free((#[trigger] fields[i]).1),
        _ => true,
    }
}

/// Values without doubles are equal exactly if they are the same.
pub proof fn lemma_tree_equality_is_identity(a: TTree, b: TTree)
    requires
        double_free(a),
    ensures
        trees_equal(a, b) <==> a == b,
    decreases a,
{
    match (a, b) {
        (TTree::List(x), TTree::List(y)) => {
            if x.len() == y.len() {
                assert forall|i: int| 0 <= i < x.len() implies (trees_equal(#[trigger] x[i], y[i])
                    <==> x[i] == y[i]) by {
                    lemma_tree_equality_is_identity(x[i], y[i]);
                }
                if trees_equal(a, b) {
                    assert(x =~= y);
                }
            }
        },
        (TTree::Struct(x), TTree::Struct(y)) => {
            if x.len() == y.len() {
                assert forall|i: int| 0 <= i < x.len() implies (trees_equal(
                    (#[trigger] x[i]).1,
                    y[i].1,
                ) <==> x[i].1 == y[i].1) by {
                    assert(decreases_to!(x => x[i]));
                    lemma_tree_equality_is_identity(x[i].1, y[i].1);
                }
                if trees_equal(a, b) {
                    assert forall|i: int| 0 <= i < x.len() implies x[i] == y[i] by {
                        assert(x[i].0 == y[i].0);
                    }
                    assert(x =~= y);
                }
            }
        },
        _ => {},
    }
}

/// Doubles are equal as numbers, never to a value of another type.
pub proof fn lemma_double_equality(a: u64, b: u64, t: TTree)
    ensures
        trees_equal(TTree::Double(a), TTree::Double(b)) == equality::equal64(a, b),
        !(t is Double) ==> !trees_equal(TTree::Double(a), t) && !trees_equal(t, TTree::Double(a)),
{
}

/// What a reading error says: what was wrong, with every number that belongs to it.
pub proof fn lemma_thrift_error_text(e: ThriftError)
    ensures
        match e {
            ThriftError::UnexpectedEnd { pos } => e.text() == "thrift: unexpected end of input at "@
                + text::dec(pos as nat),
            ThriftError::NeedBytes { need, have } => e.text() == "thrift: need "@ + text::dec(
                need as nat,
            ) + " bytes, have "@ + text::dec(have as nat),
            ThriftError::VarintTooLong => e.text() == "thrift: varint too long"@,
            ThriftError::ListTooLarge { size } => e.text() == "thrift: list size "@ + text::dec(
                size as nat,
            ) + " too large"@,
            ThriftError::MapTooLarge { size } => e.text() == "thrift: map size "@ + text::dec(
                size as nat,
            ) + " too large"@,
            ThriftError::UnknownType { typ } => e.text() == "thrift: unknown type "@ + text::dec(
                typ as nat,
            ),
        },
{
}

/// When what was read agrees with what should be: both are values and the same, or both
/// are the same error.
pub proof fn lemma_read_agrees(
    r: Result<TVal, ThriftError>,
    t: Result<TTree, ThriftError>,
    f: Result<Vec<(i16, TVal)>, ThriftError>,
    g: Result<Seq<(i16, TTree)>, ThriftError>,
)
    ensures
        read_as(r, t) <==> (r is Ok && t is Ok && r->Ok_0@ == t->Ok_0) || (r is Err && t is Err
            && r->Err_0 == t->Err_0),
        read_fields_as(f, g) <==> (f is Ok && g is Ok && fields_tree(f->Ok_0@) == g->Ok_0) || (f
            is Err && g is Err && f->Err_0 == g->Err_0),
{
}

/// Equality goes through every part: lists are equal exactly if they are as long and their
/// elements are equal, and structs if the identifiers are the same too, in the same order.
pub proof fn lemma_tree_equality_of_parts(
    x: Seq<TTree>,
    y: Seq<TTree>,
    f: Seq<(i16, TTree)>,
    g: Seq<(i16, TTree)>,
)
    ensures
        trees_equal(TTree::List(x), TTree::List(y)) <==> x.len() == y.len() && forall|i: int|
            0 <= i < x.len() ==> trees_equal(#[trigger] x[i], y[i]),
        trees_equal(TTree::Struct(f), TTree::Struct(g)) <==> f.len() == g.len() && forall|i: int|
            0 <= i < f.len() ==> (#[trigger] f[i]).0 == g[i].0 && trees_equal(f[i].1, g[i].1),
{
    assert(TTree::List(x)->List_0 == x && TTree::List(y)->List_0 == y);
    assert(TTree::Struct(f)->Struct_0 == f && TTree::Struct(g)->Struct_0 == g);
}

} // verus!
