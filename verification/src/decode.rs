//! PLAIN decoding for physical types, and page decompression.
use vstd::prelude::*;
use vstd::string::*;

use crate::bits;
use crate::le;
use crate::model::{
    issues_view, offset, prims_view, report, Issue, IssueView, Prim, PrimView, Span, SpanView,
};
use crate::text;

verus! {

/// Why a PLAIN value could not be read.
#[derive(Debug, Clone, Copy, PartialEq, Eq, Structural)]
pub enum PlainFault {
    /// It needs more bytes than are left.
    Short { need: usize, have: usize },
    UnknownType,
}

/// Values with their spans, and the issues found on the way.
pub struct Decoded {
    pub values: Seq<(PrimView, SpanView)>,
    pub issues: Seq<IssueView>,
}

/// A run of PLAIN-encoded values.
pub struct PlainPage {
    /// The physical type.
    pub typ: i32,
    /// The width of a value of type 7.
    pub type_length: i32,
    pub data: Seq<u8>,
    /// The file offset of the first byte.
    pub base: u64,
    /// The number of values.
    pub count: nat,
    pub column: Seq<char>,
    pub page: usize,
}

/// The number of bytes of a fixed-length value.
pub open spec fn fixed_width(type_length: i32) -> int {
    if type_length < 0 {
        0
    } else {
        type_length as int
    }
}

/// The `n` bytes at `pos`.
pub open spec fn bytes_at(data: Seq<u8>, pos: int, n: int) -> Result<Seq<u8>, PlainFault> {
    if pos + n > data.len() {
        Err(PlainFault::Short { need: n as usize, have: (data.len() - pos) as usize })
    } else {
        Ok(data.subrange(pos, pos + n))
    }
}

/// The value of physical type `typ` at `pos`, and the position behind it.
pub open spec fn value_at(typ: i32, type_length: i32, data: Seq<u8>, pos: int) -> Result<
    (PrimView, int),
    PlainFault,
> {
    if typ == 1 {
        match bytes_at(data, pos, 4) {
            Ok(b) => Ok((PrimView::I32(le::signed32(le::le_nat(b)) as i32), pos + 4)),
            Err(e) => Err(e),
        }
    } else if typ == 2 {
        match bytes_at(data, pos, 8) {
            Ok(b) => Ok((PrimView::I64(le::signed64(le::le_nat(b)) as i64), pos + 8)),
            Err(e) => Err(e),
        }
    } else if typ == 3 {
        match bytes_at(data, pos, 12) {
            Ok(b) => Ok((PrimView::I96(b), pos + 12)),
            Err(e) => Err(e),
        }
    } else if typ == 4 {
        match bytes_at(data, pos, 4) {
            Ok(b) => Ok((PrimView::F32(le::le_nat(b) as u32), pos + 4)),
            Err(e) => Err(e),
        }
    } else if typ == 5 {
        match bytes_at(data, pos, 8) {
            Ok(b) => Ok((PrimView::F64(le::le_nat(b) as u64), pos + 8)),
            Err(e) => Err(e),
        }
    } else if typ == 6 {
        match bytes_at(data, pos, 4) {
            Ok(h) => {
                let n = le::le_nat(h) as int;
                match bytes_at(data, pos + 4, n) {
                    Ok(b) => Ok((PrimView::Bytes(b), pos + 4 + n)),
                    Err(e) => Err(e),
                }
            },
            Err(e) => Err(e),
        }
    } else if typ == 7 {
        let n = fixed_width(type_length);
        match bytes_at(data, pos, n) {
            Ok(b) => Ok((PrimView::Fixed(b), pos + n)),
            Err(e) => Err(e),
        }
    } else {
        Err(PlainFault::UnknownType)
    }
}

/// The lineage of the bytes from `start` up to `end`.
pub open spec fn value_span(base: u64, page: usize, start: int, end: int) -> SpanView {
    SpanView {
        kind: "values"@,
        start: offset(base, start),
        end: offset(base, end),
        page: Some(page),
    }
}

/// Value `i` of a bit-packed boolean run, least significant bit first.
pub open spec fn boolean_at(data: Seq<u8>, base: u64, page: usize, i: int) -> (
    PrimView,
    SpanView,
) {
    (PrimView::Bool(bits::bit(data, i) == 1), value_span(base, page, i / 8, i / 8 + 1))
}

/// The first `count` values of a bit-packed boolean run.
pub open spec fn boolean_run(data: Seq<u8>, base: u64, count: nat, page: usize) -> Seq<
    (PrimView, SpanView),
> {
    Seq::new(count, |i: int| boolean_at(data, base, page, i))
}

/// The values of a boolean run, if it holds enough bits.
pub open spec fn booleans(data: Seq<u8>, base: u64, count: nat, page: usize) -> Option<
    Seq<(PrimView, SpanView)>,
> {
    if 8 * data.len() < count {
        None
    } else {
        Some(boolean_run(data, base, count, page))
    }
}

impl PlainPage {
    pub open spec fn error(self, message: Seq<char>) -> IssueView {
        IssueView::error("ValueDecode"@, message).for_column(self.column).for_page(self.page)
    }

    /// The message about value number `done`, which could not be read.
    pub open spec fn complaint(self, fault: PlainFault, done: nat) -> Seq<char> {
        match fault {
            PlainFault::Short { need, have } => "PLAIN data truncated at value "@ + text::dec(done)
                + " of "@ + text::dec(self.count) + " (need "@ + text::dec(need as nat)
                + " bytes, have "@ + text::dec(have as nat) + ")"@,
            PlainFault::UnknownType => "unknown physical type "@ + text::dec_int(self.typ as int),
        }
    }

    /// The values from number `done` on, the first of them at `pos`.
    pub open spec fn values_from(self, pos: int, done: nat) -> Decoded
        decreases self.count - done,
    {
        if done >= self.count {
            Decoded { values: seq![], issues: seq![] }
        } else {
            match value_at(self.typ, self.type_length, self.data, pos) {
                Ok((prim, next)) => {
                    let rest = self.values_from(next, done + 1);
                    let span = value_span(self.base, self.page, pos, next);
                    Decoded { values: seq![(prim, span)] + rest.values, issues: rest.issues }
                },
                Err(fault) => Decoded {
                    values: seq![],
                    issues: seq![self.error(self.complaint(fault, done))],
                },
            }
        }
    }

    /// The values of the run, up to the first that cannot be read.
    pub open spec fn decoded(self) -> Decoded {
        if self.typ == 0 && self.count > 0 {
            match booleans(self.data, self.base, self.count, self.page) {
                Some(values) => Decoded { values, issues: seq![] },
                None => Decoded {
                    values: boolean_run(self.data, self.base, 8 * self.data.len(), self.page),
                    issues: seq![self.error("boolean stream truncated"@)],
                },
            }
        } else {
            self.values_from(0, 0)
        }
    }
}

/// The lineage of the bytes from `start` up to `end`.
fn span_of(base_offset: u64, page: usize, start: usize, end: usize) -> (s: Span)
    ensures
        s@ == value_span(base_offset, page, start as int, end as int),
{
    Span {
        kind: "values".to_string(),
        start: base_offset.wrapping_add(start as u64),
        end: base_offset.wrapping_add(end as u64),
        page: Some(page),
    }
}

/// Fails where fewer than `n` bytes are left at `pos`.
fn need(data: &[u8], pos: usize, n: usize) -> (r: Result<(), PlainFault>)
    requires
        pos <= data@.len(),
    ensures
        match bytes_at(data@, pos as int, n as int) {
            Ok(_) => r is Ok,
            Err(e) => r == Err::<(), PlainFault>(e),
        },
{
    let have: usize = data.len() - pos;
    if n > have {
        Err(PlainFault::Short { need: n, have })
    } else {
        Ok(())
    }
}

/// A copy of the `n` bytes at `pos`.
fn copy_bytes(data: &[u8], pos: usize, n: usize) -> (r: Vec<u8>)
    requires
        pos + n <= data@.len(),
    ensures
        r@ == data@.subrange(pos as int, pos + n),
{
    assert(pos + n <= data.len());
    vstd::slice::slice_to_vec(vstd::slice::slice_subrange(data, pos, pos + n))
}

/// The value of physical type `typ` at `pos`, and the position behind it.
fn read_value(typ: i32, type_length: i32, data: &[u8], pos: usize) -> (r: Result<
    (Prim, usize),
    PlainFault,
>)
    requires
        pos <= data@.len(),
    ensures
        match value_at(typ, type_length, data@, pos as int) {
            Ok((p, next)) => r matches Ok(v) && v.0@ == p && v.1 == next && next <= data@.len(),
            Err(e) => r matches Err(f) && f == e,
        },
{
    proof {
        le::lemma_pow256();
        assert(data@.len() == data.len());
    }
    match typ {
        1 => {
            match need(data, pos, 4) {
                Ok(_) => {
                    proof {
                        le::lemma_le_bound(data@.subrange(pos as int, pos + 4));
                    }
                    let v: i32 = le::to_signed32(le::read_le(data, pos, 4) as u32);
                    Ok((Prim::I32(v), pos + 4))
                },
                Err(e) => Err(e),
            }
        },
        2 => {
            match need(data, pos, 8) {
                Ok(_) => {
                    let v: i64 = le::to_signed64(le::read_le(data, pos, 8));
                    Ok((Prim::I64(v), pos + 8))
                },
                Err(e) => Err(e),
            }
        },
        3 => {
            match need(data, pos, 12) {
                Ok(_) => {
                    let b: [u8; 12] = [
                        data[pos],
                        data[pos + 1],
                        data[pos + 2],
                        data[pos + 3],
                        data[pos + 4],
                        data[pos + 5],
                        data[pos + 6],
                        data[pos + 7],
                        data[pos + 8],
                        data[pos + 9],
                        data[pos + 10],
                        data[pos + 11],
                    ];
                    assert(b@ =~= data@.subrange(pos as int, pos + 12));
                    Ok((Prim::I96(b), pos + 12))
                },
                Err(e) => Err(e),
            }
        },
        4 => {
            match need(data, pos, 4) {
                Ok(_) => {
                    proof {
                        le::lemma_le_bound(data@.subrange(pos as int, pos + 4));
                    }
                    Ok((Prim::F32(le::read_le(data, pos, 4) as u32), pos + 4))
                },
                Err(e) => Err(e),
            }
        },
        5 => {
            match need(data, pos, 8) {
                Ok(_) => Ok((Prim::F64(le::read_le(data, pos, 8)), pos + 8)),
                Err(e) => Err(e),
            }
        },
        6 => {
            match need(data, pos, 4) {
                Ok(_) => {
                    proof {
                        le::lemma_le_bound(data@.subrange(pos as int, pos + 4));
                    }
                    let n: usize = le::read_le(data, pos, 4) as usize;
                    match need(data, pos + 4, n) {
                        Ok(_) => Ok((Prim::Bytes(copy_bytes(data, pos + 4, n)), pos + 4 + n)),
                        Err(e) => Err(e),
                    }
                },
                Err(e) => Err(e),
            }
        },
        7 => {
            let n: usize = if type_length < 0 {
                0
            } else {
                type_length as usize
            };
            match need(data, pos, n) {
                Ok(_) => Ok((Prim::Fixed(copy_bytes(data, pos, n)), pos + n)),
                Err(e) => Err(e),
            }
        },
        _ => Err(PlainFault::UnknownType),
    }
}

/// The values of a boolean run, if it holds enough bits.
fn decode_booleans(data: &[u8], base_offset: u64, count: usize, page: usize) -> (r: Option<
    Vec<(Prim, Span)>,
>)
    ensures
        match booleans(data@, base_offset, count as nat, page) {
            Some(values) => r matches Some(v) && prims_view(v@) == values,
            None => r is None,
        },
{
    let nbytes: usize = count / 8 + (if count % 8 != 0 {
        1
    } else {
        0
    });
    if data.len() < nbytes {
        return None;
    }
    let mut out: Vec<(Prim, Span)> = Vec::with_capacity(count);
    let mut i: usize = 0;
    while i < count
        invariant
            i <= count,
            count <= 8 * data@.len(),
            prims_view(out@) == boolean_run(data@, base_offset, i as nat, page),
        decreases count - i,
    {
        let b: u64 = bits::read_bits(data, i / 8, (i % 8) as u32, 1);
        proof {
            assert(8 * (i / 8) + i % 8 == i);
            assert(bits::bits(data@, i as int + 1, 0) == 0);
        }
        let ghost before = prims_view(out@);
        out.push((Prim::Bool(b == 1), span_of(base_offset, page, i / 8, i / 8 + 1)));
        assert(prims_view(out@) =~= before.push(boolean_at(data@, base_offset, page, i as int)));
        assert(prims_view(out@) =~= boolean_run(data@, base_offset, (i + 1) as nat, page));
        i += 1;
    }
    Some(out)
}

/// Decodes `count` PLAIN-encoded values of physical type `typ`.
/// Returns values with per-value byte spans (relative to `base_offset`).
/// Truncation produces a local issue and a partial result.
pub fn decode_plain(
    typ: i32,
    type_length: i32,
    data: &[u8],
    base_offset: u64,
    count: usize,
    column: &str,
    page: usize,
    issues: &mut Vec<Issue>,
) -> (out: Vec<(Prim, Span)>)
    ensures
        ({
            let run = PlainPage {
                typ,
                type_length,
                data: data@,
                base: base_offset,
                count: count as nat,
                column: column@,
                page,
            };
            &&& prims_view(out@) == run.decoded().values
            &&& issues_view(final(issues)@) == issues_view(old(issues)@) + run.decoded().issues
        }),
{
    let ghost run = PlainPage {
        typ,
        type_length,
        data: data@,
        base: base_offset,
        count: count as nat,
        column: column@,
        page,
    };
    let ghost had_issues = issues_view(issues@);
    let mut out: Vec<(Prim, Span)> = Vec::new();
    if typ == 0 && count > 0 {
        match decode_booleans(data, base_offset, count, page) {
            Some(v) => {
                assert(issues_view(issues@) =~= had_issues + Seq::<IssueView>::empty());
                return v;
            },
            None => {
                report(
                    issues,
                    Issue::error("ValueDecode", "boolean stream truncated").for_column(
                        column,
                    ).for_page(page),
                );
                // the booleans that are there
                let present: usize = 8 * data.len();
                return decode_booleans(data, base_offset, present, page).unwrap();
            },
        }
    }
    let ghost whole = run.values_from(0, 0);
    let mut pos: usize = 0;
    let mut done: usize = 0;
    assert(prims_view(out@) + whole.values =~= whole.values);
    while done < count
        invariant
            done <= count,
            done == out@.len(),
            pos <= data@.len(),
            run == (PlainPage {
                typ,
                type_length,
                data: data@,
                base: base_offset,
                count: count as nat,
                column: column@,
                page,
            }),
            whole == run.values_from(0, 0),
            whole == run.decoded(),
            whole.values == prims_view(out@) + run.values_from(pos as int, done as nat).values,
            whole.issues == run.values_from(pos as int, done as nat).issues,
            issues_view(issues@) == had_issues,
            had_issues == issues_view(old(issues)@),
        decreases count - done,
    {
        let ghost before = prims_view(out@);
        let ghost rest = run.values_from(pos as int, done as nat);
        match read_value(typ, type_length, data, pos) {
            Ok((prim, next)) => {
                let span = span_of(base_offset, page, pos, next);
                let ghost item = (prim@, span@);
                out.push((prim, span));
                proof {
                    assert(prims_view(out@) =~= before + seq![item]);
                    let tail = run.values_from(next as int, done as nat + 1);
                    assert(rest.values == seq![item] + tail.values);
                    assert(before + (seq![item] + tail.values) =~= before + seq![item]
                        + tail.values);
                }
                pos = next;
                done += 1;
            },
            Err(fault) => {
                let mut m = String::new();
                match fault {
                    PlainFault::Short { need, have } => {
                        m.append("PLAIN data truncated at value ");
                        text::push_dec(&mut m, out.len() as u128);
                        m.append(" of ");
                        text::push_dec(&mut m, count as u128);
                        m.append(" (need ");
                        text::push_dec(&mut m, need as u128);
                        m.append(" bytes, have ");
                        text::push_dec(&mut m, have as u128);
                        m.append(")");
                    },
                    PlainFault::UnknownType => {
                        m.append("unknown physical type ");
                        text::push_int(&mut m, typ as i64);
                    },
                }
                assert(m@ =~= run.complaint(fault, done as nat));
                report(issues, Issue::error("ValueDecode", m).for_column(column).for_page(page));
                assert(prims_view(out@) =~= whole.values);
                return out;
            },
        }
    }
    assert(prims_view(out@) =~= whole.values);
    assert(issues_view(issues@) =~= had_issues + Seq::<IssueView>::empty());
    out
}

impl PlainPage {
    /// Value `k` stands between the bytes `cuts[k]` and `cuts[k + 1]`, from byte
    /// `pos` on and within the data.
    pub open spec fn tiled(
        self,
        values: Seq<(PrimView, SpanView)>,
        pos: int,
        cuts: Seq<int>,
    ) -> bool {
        &&& cuts.len() == values.len() + 1
        &&& cuts[0] == pos
        &&& cuts.last() <= self.data.len()
        &&& forall|k: int|
            0 <= k < values.len() ==> cuts[k] <= cuts[k + 1] && (#[trigger] values[k]).1
                == value_span(self.base, self.page, cuts[k], cuts[k + 1])
    }
}

proof fn lemma_value_progress(typ: i32, type_length: i32, data: Seq<u8>, pos: int)
    requires
        0 <= pos <= data.len(),
    ensures
        value_at(typ, type_length, data, pos) matches Ok((_, next)) ==> pos <= next <= data.len(),
{
}

proof fn lemma_tiled_step(run: PlainPage, pos: int, done: nat, more: Seq<int>)
    requires
        0 <= pos <= run.data.len(),
        done < run.count,
        value_at(run.typ, run.type_length, run.data, pos) matches Ok((_, next)) && run.tiled(
            run.values_from(next, done + 1).values,
            next,
            more,
        ),
    ensures
        run.tiled(run.values_from(pos, done).values, pos, seq![pos] + more),
{
    lemma_value_progress(run.typ, run.type_length, run.data, pos);
    let (prim, next) = value_at(run.typ, run.type_length, run.data, pos)->Ok_0;
    let cuts = seq![pos] + more;
    let whole = run.values_from(pos, done).values;
    let rest = run.values_from(next, done + 1).values;
    assert forall|k: int| 0 <= k < whole.len() implies cuts[k] <= cuts[k + 1] && (
    #[trigger] whole[k]).1 == value_span(run.base, run.page, cuts[k], cuts[k + 1]) by {
        if k > 0 {
            assert(whole[k] == rest[k - 1]);
            assert(cuts[k] == more[k - 1]);
            assert(cuts[k + 1] == more[k - 1 + 1]);
        }
    }
}

proof fn lemma_values_from(run: PlainPage, pos: int, done: nat) -> (cuts: Seq<int>)
    requires
        0 <= pos <= run.data.len(),
        done <= run.count,
    ensures
        ({
            let d = run.values_from(pos, done);
            &&& run.tiled(d.values, pos, cuts)
            &&& d.values.len() <= run.count - done
            &&& d.issues.len() <= 1
            &&& d.issues.len() == 0 <==> d.values.len() == run.count - done
        }),
    decreases run.count - done,
{
    if done < run.count {
        lemma_value_progress(run.typ, run.type_length, run.data, pos);
        if let Ok((_, next)) = value_at(run.typ, run.type_length, run.data, pos) {
            let more = lemma_values_from(run, next, done + 1);
            lemma_tiled_step(run, pos, done, more);
            seq![pos] + more
        } else {
            seq![pos]
        }
    } else {
        seq![pos]
    }
}

/// All values are there, or one issue says why not; never both.
pub proof fn lemma_plain_complete_or_reported(run: PlainPage)
    ensures
        run.decoded().values.len() <= run.count,
        run.decoded().issues.len() <= 1,
        run.decoded().issues.len() == 0 <==> run.decoded().values.len() == run.count,
{
    if !(run.typ == 0 && run.count > 0) {
        let _ = lemma_values_from(run, 0, 0);
    }
}

/// The spans of values that are not bit-packed follow each other without a gap,
/// from the first byte on, and stay within the data.
pub proof fn lemma_plain_spans_tile(run: PlainPage) -> (cuts: Seq<int>)
    requires
        run.typ != 0,
    ensures
        run.tiled(run.decoded().values, 0, cuts),
{
    lemma_values_from(run, 0, 0)
}

impl PlainPage {
    /// The run with nothing behind its first `n` bytes.
    pub open spec fn cut(self, n: int) -> PlainPage {
        PlainPage { data: self.data.take(n), ..self }
    }
}

proof fn lemma_value_cut(typ: i32, type_length: i32, data: Seq<u8>, n: int, pos: int)
    requires
        0 <= pos <= n <= data.len(),
    ensures
        ({
            let whole = value_at(typ, type_length, data, pos);
            let part = value_at(typ, type_length, data.take(n), pos);
            match part {
                Ok(v) => whole == Ok::<(PrimView, int), PlainFault>(v),
                Err(_) => whole matches Ok((_, next)) ==> next > n,
            }
        }),
{
    let short = data.take(n);
    assert forall|a: int, b: int| 0 <= a <= b <= n implies short.subrange(a, b)
        == #[trigger] data.subrange(a, b) by {
        assert(short.subrange(a, b) =~= data.subrange(a, b));
    }
    if pos + 4 <= n {
        assert(short.subrange(pos, pos + 4) == data.subrange(pos, pos + 4));
    }
}

proof fn lemma_values_cut(run: PlainPage, n: int, pos: int, done: nat) -> (cuts: Seq<int>)
    requires
        0 <= pos <= n <= run.data.len(),
        done <= run.count,
    ensures
        ({
            let whole = run.values_from(pos, done).values;
            let part = run.cut(n).values_from(pos, done).values;
            &&& run.tiled(whole, pos, cuts)
            &&& part.len() <= whole.len()
            &&& part == whole.take(part.len() as int)
            &&& part.len() < whole.len() ==> cuts[part.len() as int + 1] > n
        }),
    decreases run.count - done,
{
    let whole = run.values_from(pos, done).values;
    let part = run.cut(n).values_from(pos, done).values;
    if done < run.count {
        lemma_value_cut(run.typ, run.type_length, run.data, n, pos);
        lemma_value_progress(run.typ, run.type_length, run.data, pos);
        lemma_value_progress(run.typ, run.type_length, run.data.take(n), pos);
        if let Ok((_, next)) = value_at(run.typ, run.type_length, run.data.take(n), pos) {
            let more = lemma_values_cut(run, n, next, done + 1);
            let cuts = seq![pos] + more;
            let rest = run.values_from(next, done + 1).values;
            let kept = run.cut(n).values_from(next, done + 1).values;
            lemma_tiled_step(run, pos, done, more);
            assert forall|k: int| 0 <= k < part.len() implies part[k] == whole[k] by {
                if k > 0 {
                    assert(kept[k - 1] == rest.take(kept.len() as int)[k - 1]);
                }
            }
            assert(part =~= whole.take(part.len() as int));
            if part.len() < whole.len() {
                assert(cuts[part.len() as int + 1] == more[kept.len() as int + 1]);
            }
            cuts
        } else if let Ok((_, next)) = value_at(run.typ, run.type_length, run.data, pos) {
            let more = lemma_values_from(run, next, done + 1);
            lemma_tiled_step(run, pos, done, more);
            assert(part =~= whole.take(0));
            seq![pos] + more
        } else {
            assert(part =~= whole.take(0));
            seq![pos]
        }
    } else {
        assert(part =~= whole.take(0));
        seq![pos]
    }
}

/// Truncation leaves a partial result: of values that are not bit-packed, the
/// first `n` bytes give exactly those whose bytes are all among them, with the
/// spans that they have in the whole run.
pub proof fn lemma_plain_truncation(run: PlainPage, n: int) -> (cuts: Seq<int>)
    requires
        run.typ != 0,
        0 <= n <= run.data.len(),
    ensures
        run.tiled(run.decoded().values, 0, cuts),
        run.cut(n).decoded().values.len() <= run.decoded().values.len(),
        run.cut(n).decoded().values == run.decoded().values.take(
            run.cut(n).decoded().values.len() as int,
        ),
        run.cut(n).decoded().values.len() < run.decoded().values.len()
            ==> cuts[run.cut(n).decoded().values.len() as int + 1] > n,
{
    lemma_values_cut(run, n, 0, 0)
}

/// Truncation leaves a partial result of booleans too: the first `n` bytes give
/// those whose bits are among them, eight for each byte, with the spans that
/// they have in the whole run.
pub proof fn lemma_boolean_truncation(run: PlainPage, n: int)
    requires
        run.typ == 0,
        0 <= n <= run.data.len(),
    ensures
        run.cut(n).decoded().values.len() == (if 8 * n < run.count {
            8 * n
        } else {
            run.count as int
        }),
        run.cut(n).decoded().values.len() <= run.decoded().values.len(),
        run.cut(n).decoded().values == run.decoded().values.take(
            run.cut(n).decoded().values.len() as int,
        ),
{
    let part = run.cut(n).decoded().values;
    assert forall|i: int| 0 <= i < part.len() implies part[i] == run.decoded().values[i] by {
        assert(0 <= i / 8 < n);
    }
    assert(part =~= run.decoded().values.take(part.len() as int));
}

/// The PLAIN encoding of a value that is no boolean.
pub open spec fn plain_bytes(p: PrimView) -> Seq<u8> {
    match p {
        PrimView::Bool(_) => seq![],
        PrimView::I32(v) => le::le_bytes(
            (if v < 0 {
                v + 0x1_0000_0000
            } else {
                v as int
            }) as nat,
            4,
        ),
        PrimView::I64(v) => le::le_bytes(
            (if v < 0 {
                v + 0x1_0000_0000_0000_0000
            } else {
                v as int
            }) as nat,
            8,
        ),
        PrimView::I96(b) => b,
        PrimView::F32(v) => le::le_bytes(v as nat, 4),
        PrimView::F64(v) => le::le_bytes(v as nat, 8),
        PrimView::Bytes(b) => le::le_bytes(b.len(), 4) + b,
        PrimView::Fixed(b) => b,
    }
}

/// `p` is a value of physical type `typ` and can be encoded.
pub open spec fn of_type(p: PrimView, typ: i32, type_length: i32) -> bool {
    match p {
        PrimView::Bool(_) => typ == 0,
        PrimView::I32(_) => typ == 1,
        PrimView::I64(_) => typ == 2,
        PrimView::I96(b) => typ == 3 && b.len() == 12,
        PrimView::F32(_) => typ == 4,
        PrimView::F64(_) => typ == 5,
        PrimView::Bytes(b) => typ == 6 && b.len() <= u32::MAX,
        PrimView::Fixed(b) => typ == 7 && (if type_length < 0 {
            b.len() == 0
        } else {
            b.len() == type_length
        }),
    }
}

/// Boolean `i` as a bit; 0 behind the last.
pub open spec fn boolean_bit(values: Seq<PrimView>, i: int) -> int {
    if 0 <= i < values.len() && values[i] == PrimView::Bool(true) {
        1
    } else {
        0
    }
}

/// The PLAIN encoding of booleans: eight to a byte, the first in the lowest bit.
pub open spec fn boolean_bytes(values: Seq<PrimView>) -> Seq<u8> {
    Seq::new(
        (values.len() + 7) / 8,
        |j: int|
            (boolean_bit(values, 8 * j) + 2 * boolean_bit(values, 8 * j + 1) + 4 * boolean_bit(
                values,
                8 * j + 2,
            ) + 8 * boolean_bit(values, 8 * j + 3) + 16 * boolean_bit(values, 8 * j + 4) + 32
                * boolean_bit(values, 8 * j + 5) + 64 * boolean_bit(values, 8 * j + 6) + 128
                * boolean_bit(values, 8 * j + 7)) as u8,
    )
}

proof fn lemma_boolean_bit(values: Seq<PrimView>, i: int)
    requires
        0 <= i < values.len(),
    ensures
        bits::bit(boolean_bytes(values), i) == boolean_bit(values, i),
{
    vstd::arithmetic::power2::lemma2_to64();
    let j = i / 8;
    assert(8 * j + i % 8 == i);
    assert(0 <= j < boolean_bytes(values).len());
    let b0 = boolean_bit(values, 8 * j);
    let b1 = boolean_bit(values, 8 * j + 1);
    let b2 = boolean_bit(values, 8 * j + 2);
    let b3 = boolean_bit(values, 8 * j + 3);
    let b4 = boolean_bit(values, 8 * j + 4);
    let b5 = boolean_bit(values, 8 * j + 5);
    let b6 = boolean_bit(values, 8 * j + 6);
    let b7 = boolean_bit(values, 8 * j + 7);
    let d = b0 + 2 * b1 + 4 * b2 + 8 * b3 + 16 * b4 + 32 * b5 + 64 * b6 + 128 * b7;
    assert(boolean_bytes(values)[j] == d);
    let r = i % 8;
    let scale = vstd::arithmetic::power2::pow2(r as nat);
    assert(bits::bit(boolean_bytes(values), i) == (d as nat / scale) % 2);
    if r == 0 {
        assert(scale == 1);
        assert(d / 1 == d && d % 2 == b0);
    } else if r == 1 {
        assert(scale == 2);
        assert((d / 2) % 2 == b1);
    } else if r == 2 {
        assert(scale == 4);
        assert((d / 4) % 2 == b2);
    } else if r == 3 {
        assert(scale == 8);
        assert((d / 8) % 2 == b3);
    } else if r == 4 {
        assert(scale == 16);
        assert((d / 16) % 2 == b4);
    } else if r == 5 {
        assert(scale == 32);
        assert((d / 32) % 2 == b5);
    } else if r == 6 {
        assert(scale == 64);
        assert((d / 64) % 2 == b6);
    } else {
        assert(scale == 128);
        assert((d / 128) % 2 == b7);
    }
}

/// The PLAIN encoding of values of physical type `typ`.
pub open spec fn plain_data(typ: i32, values: Seq<PrimView>) -> Seq<u8> {
    if typ == 0 {
        boolean_bytes(values)
    } else {
        plain_run(values, 0)
    }
}

/// The PLAIN encoding of the values from index `i` on.
pub open spec fn plain_run(values: Seq<PrimView>, i: int) -> Seq<u8>
    decreases values.len() - i,
{
    if 0 <= i < values.len() {
        plain_bytes(values[i]) + plain_run(values, i + 1)
    } else {
        seq![]
    }
}

proof fn lemma_value_round_trip(p: PrimView, typ: i32, type_length: i32, data: Seq<u8>, pos: int)
    requires
        typ != 0,
        of_type(p, typ, type_length),
        0 <= pos,
        pos + plain_bytes(p).len() <= data.len(),
        data.subrange(pos, pos + plain_bytes(p).len()) == plain_bytes(p),
    ensures
        value_at(typ, type_length, data, pos) == Ok::<(PrimView, int), PlainFault>(
            (p, pos + plain_bytes(p).len()),
        ),
{
    le::lemma_pow256();
    match p {
        PrimView::I32(v) => {
            le::lemma_le_round_trip(
                (if v < 0 {
                    v + 0x1_0000_0000
                } else {
                    v as int
                }) as nat,
                4,
            );
        },
        PrimView::I64(v) => {
            le::lemma_le_round_trip(
                (if v < 0 {
                    v + 0x1_0000_0000_0000_0000
                } else {
                    v as int
                }) as nat,
                8,
            );
        },
        PrimView::F32(v) => {
            le::lemma_le_round_trip(v as nat, 4);
        },
        PrimView::F64(v) => {
            le::lemma_le_round_trip(v as nat, 8);
        },
        PrimView::Bytes(b) => {
            le::lemma_le_round_trip(b.len(), 4);
            let h = le::le_bytes(b.len(), 4);
            let whole = data.subrange(pos, pos + plain_bytes(p).len());
            assert(data.subrange(pos, pos + 4) =~= whole.subrange(0, 4));
            assert(whole.subrange(0, 4) =~= h);
            assert(data.subrange(pos + 4, pos + 4 + b.len()) =~= whole.subrange(
                4,
                4 + b.len() as int,
            ));
            assert(whole.subrange(4, 4 + b.len() as int) =~= b);
        },
        _ => {},
    }
}

proof fn lemma_run_round_trip(run: PlainPage, values: Seq<PrimView>, pos: int, done: nat)
    requires
        run.typ != 0,
        forall|k: int|
            0 <= k < values.len() ==> of_type(#[trigger] values[k], run.typ, run.type_length),
        run.count == values.len(),
        done <= values.len(),
        0 <= pos <= run.data.len(),
        run.data.skip(pos) == plain_run(values, done as int),
    ensures
        ({
            let d = run.values_from(pos, done);
            &&& d.values.len() == values.len() - done
            &&& forall|k: int|
                0 <= k < d.values.len() ==> (#[trigger] d.values[k]).0 == values[done + k]
            &&& d.issues.len() == 0
        }),
    decreases values.len() - done,
{
    if done < values.len() {
        let p = values[done as int];
        let b = plain_bytes(p);
        let rest = plain_run(values, done as int + 1);
        assert(run.data.skip(pos) == b + rest);
        assert(run.data.skip(pos).len() == b.len() + rest.len());
        assert(run.data.subrange(pos, pos + b.len()) =~= run.data.skip(pos).subrange(
            0,
            b.len() as int,
        ));
        assert((b + rest).subrange(0, b.len() as int) =~= b);
        assert(run.data.skip(pos + b.len()) =~= run.data.skip(pos).skip(b.len() as int));
        assert((b + rest).skip(b.len() as int) =~= rest);
        assert(of_type(p, run.typ, run.type_length));
        lemma_value_round_trip(p, run.typ, run.type_length, run.data, pos);
        lemma_run_round_trip(run, values, pos + b.len(), done + 1);
        let d = run.values_from(pos, done);
        let tail = run.values_from(pos + b.len(), done + 1);
        assert forall|k: int| 0 <= k < d.values.len() implies (#[trigger] d.values[k]).0
            == values[done + k] by {
            if k > 0 {
                assert(d.values[k] == tail.values[k - 1]);
            }
        }
    }
}

/// Decoding inverts the PLAIN encoding: the values come back, all of them, and
/// no issue is reported.
pub proof fn lemma_plain_round_trip(run: PlainPage, values: Seq<PrimView>)
    requires
        forall|k: int|
            0 <= k < values.len() ==> of_type(#[trigger] values[k], run.typ, run.type_length),
        run.count == values.len(),
        run.data == plain_data(run.typ, values),
    ensures
        run.decoded().values.len() == values.len(),
        forall|k: int|
            0 <= k < values.len() ==> (#[trigger] run.decoded().values[k]).0 == values[k],
        run.decoded().issues.len() == 0,
{
    if run.typ == 0 {
        assert forall|k: int| 0 <= k < values.len() implies (#[trigger] run.decoded().values[k]).0
            == values[k] by {
            assert(of_type(values[k], run.typ, run.type_length));
            lemma_boolean_bit(values, k);
        }
    } else {
        assert(run.data.skip(0) =~= run.data);
        lemma_run_round_trip(run, values, 0, 0);
    }
}

/// `snap`'s error type.
#[verifier::external_type_specification]
#[verifier::external_body]
pub struct ExSnapError(snap::Error);

/// What Snappy decompression makes of `data`.
pub uninterp spec fn snappy(data: Seq<u8>) -> Result<Seq<u8>, snap::Error>;

/// Calls `snap::raw::Decoder::decompress_vec` on a new decoder. What comes back,
/// bytes or error, depends on `data` alone.
#[verifier::external_body]
fn snappy_decompress(data: &[u8]) -> (r: Result<Vec<u8>, snap::Error>)
    ensures
        match snappy(data@) {
            Ok(b) => r matches Ok(v) && v@ == b,
            Err(e) => r matches Err(x) && x == e,
        },
{
    snap::raw::Decoder::new().decompress_vec(data)
}

/// Why a page could not be decompressed.
#[derive(Debug)]
pub enum DecodeError {
    UnsupportedCodec { codec: i32 },
    Snappy(snap::Error),
}

/// The text of a `snap` error.
pub uninterp spec fn snappy_error_text(e: snap::Error) -> Seq<char>;

/// Calls `to_string` on a `snap::Error`. The text depends on the error alone.
#[verifier::external_body]
fn snappy_error_message(e: &snap::Error) -> (m: String)
    ensures
        m@ == snappy_error_text(*e),
{
    e.to_string()
}

impl DecodeError {
    pub open spec fn text(self) -> Seq<char> {
        match self {
            DecodeError::UnsupportedCodec { codec } => "unsupported codec "@ + text::dec_int(
                codec as int,
            ) + " (only UNCOMPRESSED and SNAPPY)"@,
            DecodeError::Snappy(e) => snappy_error_text(e),
        }
    }

    /// The text of the error.
    pub fn message(&self) -> (m: String)
        ensures
            m@ == self.text(),
    {
        match self {
            DecodeError::UnsupportedCodec { codec } => {
                let mut m = String::new();
                m.append("unsupported codec ");
                text::push_int(&mut m, *codec as i64);
                m.append(" (only UNCOMPRESSED and SNAPPY)");
                assert(m@ =~= self.text());
                m
            },
            DecodeError::Snappy(e) => snappy_error_message(e),
        }
    }
}

/// The bytes of a page with compression codec `codec`.
pub open spec fn page_bytes(codec: i32, data: Seq<u8>) -> Result<Seq<u8>, DecodeError> {
    if codec == 0 {
        Ok(data)
    } else if codec == 1 {
        match snappy(data) {
            Ok(b) => Ok(b),
            Err(e) => Err(DecodeError::Snappy(e)),
        }
    } else {
        Err(DecodeError::UnsupportedCodec { codec })
    }
}

/// What Snappy gave, as the outcome of the decompression of a page.
pub fn from_snappy(unpacked: Result<Vec<u8>, snap::Error>) -> (r: Result<Vec<u8>, DecodeError>)
    ensures
        match unpacked {
            Ok(v) => r == Ok::<Vec<u8>, DecodeError>(v),
            Err(e) => r == Err::<Vec<u8>, DecodeError>(DecodeError::Snappy(e)),
        },
{
    match unpacked {
        Ok(v) => Ok(v),
        Err(e) => Err(DecodeError::Snappy(e)),
    }
}

/// Decompresses a page: codec 0 is UNCOMPRESSED, codec 1 is SNAPPY. The result
/// is not held to `uncompressed_size`: the caller may still use it where the
/// size is another.
pub fn decompress(codec: i32, data: &[u8], uncompressed_size: usize) -> (r: Result<
    Vec<u8>,
    DecodeError,
>)
    ensures
        match page_bytes(codec, data@) {
            Ok(b) => r matches Ok(v) && v@ == b,
            Err(e) => r matches Err(x) && x == e,
        },
{
    match codec {
        0 => Ok(vstd::slice::slice_to_vec(data)),
        1 => from_snappy(snappy_decompress(data)),
        _ => Err(DecodeError::UnsupportedCodec { codec }),
    }
}

/// `start` and `end` are where the bytes from `from` up to `to` lie in the file,
/// behind `base` and in 64-bit arithmetic.
pub open spec fn lies(span: SpanView, base: u64, page: usize, from: int, to: int) -> bool {
    &&& span.kind == "values"@
    &&& span.page == Some(page)
    &&& span.start == (base + from) % 0x1_0000_0000_0000_0000
    &&& span.end == (base + to) % 0x1_0000_0000_0000_0000
}

proof fn lemma_lies(base: u64, page: usize, from: int, to: int)
    requires
        0 <= from <= to <= u64::MAX,
    ensures
        lies(value_span(base, page, from, to), base, page, from, to),
{
}

proof fn lemma_value_reencodes(typ: i32, type_length: i32, data: Seq<u8>, pos: int)
    requires
        0 <= pos <= data.len(),
    ensures
        value_at(typ, type_length, data, pos) matches Ok((p, next)) ==> {
            &&& of_type(p, typ, type_length)
            &&& data.subrange(pos, next) == plain_bytes(p)
        },
{
    le::lemma_pow256();
    if let Ok((p, next)) = value_at(typ, type_length, data, pos) {
        let b = data.subrange(pos, next);
        if typ == 1 || typ == 2 || typ == 4 || typ == 5 {
            le::lemma_le_bound(b);
            le::lemma_le_unique(b);
        } else if typ == 6 {
            let h = data.subrange(pos, pos + 4);
            le::lemma_le_bound(h);
            le::lemma_le_unique(h);
            let body = data.subrange(pos + 4, next);
            assert(b =~= h + body);
        }
    }
}

impl PlainPage {
    /// The bytes from `from` up to `to` are the PLAIN encoding of the value, which is
    /// of the type of the run, and its span names them.
    pub open spec fn encodes(self, v: (PrimView, SpanView), from: int, to: int) -> bool {
        &&& 0 <= from <= to <= self.data.len()
        &&& of_type(v.0, self.typ, self.type_length)
        &&& self.data.subrange(from, to) == plain_bytes(v.0)
        &&& lies(v.1, self.base, self.page, from, to)
    }
}

proof fn lemma_values_reencode(run: PlainPage, pos: int, done: nat) -> (cuts: Seq<int>)
    requires
        0 <= pos <= run.data.len() <= u64::MAX,
        done <= run.count,
    ensures
        ({
            let vs = run.values_from(pos, done).values;
            &&& run.tiled(vs, pos, cuts)
            &&& forall|k: int|
                0 <= k < vs.len() ==> run.encodes(#[trigger] vs[k], cuts[k], cuts[k + 1])
            &&& pos <= cuts.last() <= run.data.len()
            &&& vs.len() < run.count - done ==> value_at(
                run.typ,
                run.type_length,
                run.data,
                cuts.last(),
            ) is Err
            &&& vs.len() < run.count - done ==> run.values_from(pos, done).issues == seq![
                run.error(
                    run.complaint(
                        value_at(run.typ, run.type_length, run.data, cuts.last())->Err_0,
                        done + vs.len(),
                    ),
                ),
            ]
        }),
    decreases run.count - done,
{
    let vs = run.values_from(pos, done).values;
    if done < run.count {
        lemma_value_progress(run.typ, run.type_length, run.data, pos);
        lemma_value_reencodes(run.typ, run.type_length, run.data, pos);
        if let Ok((_, next)) = value_at(run.typ, run.type_length, run.data, pos) {
            let more = lemma_values_reencode(run, next, done + 1);
            lemma_tiled_step(run, pos, done, more);
            lemma_lies(run.base, run.page, pos, next);
            let cuts = seq![pos] + more;
            let rest = run.values_from(next, done + 1).values;
            assert forall|k: int| 0 <= k < vs.len() implies run.encodes(
                #[trigger] vs[k],
                cuts[k],
                cuts[k + 1],
            ) by {
                if k > 0 {
                    assert(vs[k] == rest[k - 1]);
                    assert(cuts[k] == more[k - 1]);
                    assert(cuts[k + 1] == more[k - 1 + 1]);
                }
            }
            assert(cuts.last() == more.last());
            assert(done + vs.len() == done + 1 + rest.len());
            cuts
        } else {
            assert(done + vs.len() == done);
            seq![pos]
        }
    } else {
        seq![pos]
    }
}

/// The message about a value that needs more bytes than there are.
pub open spec fn truncation(done: nat, count: nat, need: int, have: int) -> Seq<char> {
    "PLAIN data truncated at value "@ + text::dec(done) + " of "@ + text::dec(count) + " (need "@
        + text::dec(need as nat) + " bytes, have "@ + text::dec(have as nat) + ")"@
}

/// What decoded values are, whatever the data: each is of the physical type asked
/// for, its PLAIN encoding is the bytes that its span names, the first begins with
/// the data and each further one where the one before it ends. Decoding ends before
/// `count` values only where no value of that type follows. Then one error, for the
/// column and the page, says how many values there are of how many, and how many
/// bytes the next one, or the length of the next byte array, needs and has.
pub proof fn lemma_plain_values(run: PlainPage) -> (cuts: Seq<int>)
    requires
        run.typ != 0,
        run.data.len() <= usize::MAX,
    ensures
        ({
            let vs = run.decoded().values;
            &&& cuts.len() == vs.len() + 1
            &&& cuts[0] == 0
            &&& 0 <= cuts.last() <= run.data.len()
            &&& forall|k: int|
                0 <= k < vs.len() ==> run.encodes(#[trigger] vs[k], cuts[k], cuts[k + 1])
            &&& vs.len() <= run.count
            &&& vs.len() < run.count ==> forall|p: PrimView|
                of_type(p, run.typ, run.type_length) ==> !(#[trigger] plain_bytes(p)).is_prefix_of(
                    run.data.skip(cuts.last()),
                )
            &&& vs.len() < run.count ==> {
                let i = run.decoded().issues[0];
                let have = run.data.len() - cuts.last();
                let size = le::le_nat(run.data.skip(cuts.last()).take(4)) as int;
                &&& run.decoded().issues.len() == 1
                &&& i.severity == "error"@
                &&& i.kind == "ValueDecode"@
                &&& i.column == Some(run.column)
                &&& i.page == Some(run.page)
                &&& run.typ == 1 || run.typ == 4 || (run.typ == 6 && have < 4) ==> i.message
                    == truncation(vs.len(), run.count, 4, have)
                &&& run.typ == 2 || run.typ == 5 ==> i.message == truncation(
                    vs.len(),
                    run.count,
                    8,
                    have,
                )
                &&& run.typ == 3 ==> i.message == truncation(vs.len(), run.count, 12, have)
                &&& run.typ == 6 && have >= 4 ==> i.message == truncation(
                    vs.len(),
                    run.count,
                    size,
                    have - 4,
                )
                &&& run.typ == 7 ==> i.message == truncation(
                    vs.len(),
                    run.count,
                    run.type_length as int,
                    have,
                )
                &&& !(1 <= run.typ <= 7) ==> i.message == "unknown physical type "@
                    + text::dec_int(run.typ as int)
            }
            &&& vs.len() == run.count ==> run.decoded().issues.len() == 0
        }),
{
    let cuts = lemma_values_reencode(run, 0, 0);
    let _ = lemma_values_from(run, 0, 0);
    let vs = run.decoded().values;
    if vs.len() < run.count {
        let at = cuts.last();
        let left = run.data.skip(at);
        if run.typ == 6 && left.len() >= 4 {
            assert(left.take(4) =~= run.data.subrange(at, at + 4));
            le::lemma_pow256();
            le::lemma_le_bound(left.take(4));
        }
        assert forall|p: PrimView| of_type(p, run.typ, run.type_length) implies !(
        #[trigger] plain_bytes(p)).is_prefix_of(left) by {
            if plain_bytes(p).is_prefix_of(left) {
                let b = plain_bytes(p);
                assert(run.data.subrange(at, at + b.len()) =~= left.subrange(0, b.len() as int));
                assert(left.subrange(0, b.len() as int) =~= b);
                lemma_value_round_trip(p, run.typ, run.type_length, run.data, at);
            }
        }
    }
    cuts
}

/// What decoded booleans are, whatever the data: the bits of the bytes, lowest
/// first, as many as asked for or else all. The span of each is the byte that it
/// stands in. One error, for the column and the page, says if there are too few.
pub proof fn lemma_boolean_values(run: PlainPage, i: int)
    requires
        run.typ == 0,
        run.data.len() <= u64::MAX,
    ensures
        ({
            let vs = run.decoded().values;
            let issues = run.decoded().issues;
            &&& vs.len() == (if run.count <= 8 * run.data.len() {
                run.count
            } else {
                8 * run.data.len()
            })
            &&& 0 <= i < vs.len() ==> {
                &&& vs[i].0 == PrimView::Bool((run.data[i / 8] >> ((i % 8) as u8)) & 1 == 1)
                &&& lies(vs[i].1, run.base, run.page, i / 8, i / 8 + 1)
            }
            &&& run.count <= 8 * run.data.len() ==> issues.len() == 0
            &&& run.count > 8 * run.data.len() ==> {
                &&& issues.len() == 1
                &&& issues[0].severity == "error"@
                &&& issues[0].kind == "ValueDecode"@
                &&& issues[0].message == "boolean stream truncated"@
                &&& issues[0].column == Some(run.column)
                &&& issues[0].page == Some(run.page)
            }
        }),
{
    if 0 <= i < run.decoded().values.len() {
        let b = run.data[i / 8];
        let k = (i % 8) as u8;
        vstd::bits::lemma_u8_shr_is_div(b, k);
        let x = b >> k;
        assert(x & 1 == x % 2) by (bit_vector);
        lemma_lies(run.base, run.page, i / 8, i / 8 + 1);
    }
}

/// What decompression gives: an uncompressed page as it stands, a Snappy page as
/// Snappy unpacks it, or its error; every other codec is refused by its number.
pub proof fn lemma_page_bytes(codec: i32, data: Seq<u8>)
    ensures
        codec == 0 ==> page_bytes(codec, data) == Ok::<Seq<u8>, DecodeError>(data),
        codec == 1 ==> match page_bytes(codec, data) {
            Ok(b) => snappy(data) == Ok::<Seq<u8>, snap::Error>(b),
            Err(e) => e is Snappy && snappy(data) == Err::<Seq<u8>, snap::Error>(e->Snappy_0),
        },
        codec != 0 && codec != 1 ==> page_bytes(codec, data) == Err::<Seq<u8>, DecodeError>(
            DecodeError::UnsupportedCodec { codec },
        ),
        (DecodeError::UnsupportedCodec { codec }).text() == "unsupported codec "@
            + text::dec_int(codec as int) + " (only UNCOMPRESSED and SNAPPY)"@,
{
}

} // verus!
