//! RLE / bit-packed hybrid decoding (definition and repetition levels,
//! dictionary indices) with per-run byte lineage and local error capture.
use vstd::arithmetic::power2::pow2;
use vstd::prelude::*;
use vstd::string::*;

use crate::bits;
use crate::le;
use crate::model;
use crate::model::{Issue, IssueView, Span, SpanView};
use crate::text;
use crate::varint;
use crate::wire;

verus! {

/// The number of bits in which every level up to `max_level` fits.
pub fn bit_width_for(max_level: u16) -> (w: u32)
    ensures
        w <= 16,
        max_level < pow2(w as nat),
        w > 0 ==> pow2((w - 1) as nat) <= max_level,
{
    let x: u32 = max_level as u32;
    let z: u32 = x.leading_zeros();
    proof {
        broadcast use vstd::std_specs::bits::axiom_u32_leading_zeros;

        let w = (32 - z) as u32;
        assert(z <= 32);
        vstd::arithmetic::power2::lemma2_to64();
        if z == 0 {
            assert((x >> 31u32) & 1 == 0) by (bit_vector)
                requires
                    x <= 0xffff,
            ;
        }
        assert(x >> w == 0);
        vstd::bits::lemma_u32_shr_is_div(x, w);
        vstd::arithmetic::power2::lemma_pow2_pos(w as nat);
        if w > 0 {
            let v = (w - 1) as u32;
            assert((x >> v) & 1 != 0);
            assert((x >> v) & 1 != 0 ==> x >> v != 0) by (bit_vector);
            vstd::bits::lemma_u32_shr_is_div(x, v);
            vstd::arithmetic::power2::lemma_pow2_pos(v as nat);
            assert(pow2(v as nat) <= x) by (nonlinear_arith)
                requires
                    x as nat / pow2(v as nat) != 0,
                    pow2(v as nat) > 0,
            ;
            if v >= 16 {
                if v > 16 {
                    vstd::arithmetic::power2::lemma_pow2_strictly_increases(16, v as nat);
                }
            }
        }
        assert(x < pow2(w as nat)) by (nonlinear_arith)
            requires
                x as nat / pow2(w as nat) == 0,
                pow2(w as nat) > 0,
        ;
    }
    32 - z
}

/// The first `n` elements of `s`, or all if there are no more.
pub open spec fn first<A>(s: Seq<A>, n: nat) -> Seq<A> {
    if s.len() <= n {
        s
    } else {
        s.take(n as int)
    }
}

/// A hybrid stream and where it comes from.
pub struct HybridStream {
    pub data: Seq<u8>,
    /// The file offset of the first byte.
    pub base: u64,
    pub bit_width: u32,
    pub expected: nat,
    pub kind: Seq<char>,
    pub column: Seq<char>,
    pub page: usize,
}

impl HybridStream {
    /// The number of bytes of the value of an RLE run.
    pub open spec fn byte_width(self) -> int {
        (self.bit_width + 7) / 8
    }

    /// RLE runs stop at this many values.
    pub open spec fn hard_cap(self) -> int {
        let quadruple = if 4 * self.expected > usize::MAX {
            usize::MAX as int
        } else {
            4 * self.expected as int
        };
        if quadruple < 1024 {
            1024
        } else {
            quadruple
        }
    }

    pub open spec fn fault(self, message: Seq<char>) -> IssueView {
        IssueView::error("LevelDecode"@, message).for_column(self.column).for_page(self.page)
    }

    /// The values of `groups` groups of eight at `from`, read for a run that
    /// starts at `run_start`. There are none if values take no bits.
    pub open spec fn packed(self, run_start: int, from: int, groups: int) -> Seq<(u32, SpanView)> {
        let w = self.bit_width;
        let span = SpanView {
            kind: self.kind,
            start: model::offset(self.base, run_start),
            end: model::offset(self.base, from + groups * w),
            page: None,
        };
        if w == 0 {
            seq![]
        } else {
            Seq::new(
                (8 * groups) as nat,
                |i: int| (bits::bits(self.data, 8 * from + i * w, w as nat) as u32, span),
            )
        }
    }

    /// `n` copies of the value at `from`, for a run that starts at `run_start`.
    pub open spec fn repeated(self, run_start: int, from: int, n: int) -> Seq<(u32, SpanView)> {
        let to = from + self.byte_width();
        let span = SpanView {
            kind: self.kind,
            start: model::offset(self.base, run_start),
            end: model::offset(self.base, to),
            page: Some(self.page),
        };
        Seq::new(n as nat, |i: int| (le::le_nat(self.data.subrange(from, to)) as u32, span))
    }

    /// The values of the runs from `pos` on, after `n` values, and the issue
    /// that ended them, if any.
    pub open spec fn runs_from(self, pos: int, n: nat) -> (Seq<(u32, SpanView)>, Seq<IssueView>)
        decreases self.data.len() - pos,
    {
        if pos < 0 || pos >= self.data.len() || n >= self.expected {
            (seq![], seq![])
        } else {
            match varint::varint_at(self.data, pos) {
                (Ok(header), p) => {
                    let left = self.data.len() - p;
                    if header % 2 == 1 {
                        let groups = header as int / 2;
                        let need = groups * self.bit_width;
                        proof {
                            assert(need >= 0) by (nonlinear_arith)
                                requires
                                    need == groups * self.bit_width,
                                    groups >= 0,
                            ;
                        }
                        if need > left {
                            let whole = left / self.bit_width as int;
                            let some = if whole < groups {
                                whole
                            } else {
                                groups
                            };
                            (
                                self.packed(pos, p, some),
                                seq![
                                    self.fault(
                                        "bit-packed run of "@ + text::dec(groups as nat)
                                            + " groups needs "@ + text::dec(need as nat)
                                            + " bytes, only "@ + text::dec(left as nat)
                                            + " left"@,
                                    ),
                                ],
                            )
                        } else {
                            let vs = self.packed(pos, p, groups);
                            let rest = self.runs_from(p + need, n + vs.len());
                            (vs + rest.0, rest.1)
                        }
                    } else {
                        let count = header as int / 2;
                        if count > self.hard_cap() {
                            (
                                seq![],
                                seq![
                                    self.fault(
                                        "implausible RLE run length "@ + text::dec(count as nat),
                                    ),
                                ],
                            )
                        } else if left < self.byte_width() {
                            (seq![], seq![self.fault("truncated RLE run value"@)])
                        } else {
                            let k = if count < self.hard_cap() - n {
                                count
                            } else {
                                self.hard_cap() - n
                            };
                            let vs = self.repeated(pos, p, k);
                            let rest = self.runs_from(p + self.byte_width(), n + vs.len());
                            (vs + rest.0, rest.1)
                        }
                    }
                },
                (Err(_), _) => (seq![], seq![self.fault("truncated run header"@)]),
            }
        }
    }

    /// The decoded values: those of the runs, up to the expected number.
    pub open spec fn values(self) -> Seq<(u32, SpanView)> {
        if self.bit_width > 32 {
            seq![]
        } else {
            first(self.runs_from(0, 0).0, self.expected)
        }
    }

    /// The issues that decoding reports.
    pub open spec fn issues(self) -> Seq<IssueView> {
        if self.bit_width > 32 {
            seq![
                self.fault("invalid bit width "@ + text::dec(self.bit_width as nat) + " (> 32)"@),
            ]
        } else {
            let (vs, faults) = self.runs_from(0, 0);
            if vs.len() < self.expected {
                faults.push(
                    self.fault(
                        self.kind + " stream truncated: decoded "@ + text::dec(vs.len()) + " of "@
                            + text::dec(self.expected) + " expected values"@,
                    ),
                )
            } else {
                faults
            }
        }
    }
}

/// Each value reduced to its low 16 bits.
pub open spec fn low_words(s: Seq<(u32, SpanView)>) -> Seq<(u16, SpanView)> {
    Seq::new(s.len(), |i: int| ((s[i].0 % 0x1_0000) as u16, s[i].1))
}

/// The variable-length integer at `pos`: what [`crate::thrift::TReader::varint`]
/// reads there, with the same position behind it, also where it fails.
pub fn read_varint(data: &[u8], pos: &mut usize) -> (r: Option<u64>)
    ensures
        match wire::uint_at(data@, *old(pos) as int) {
            (Ok(v), p) => r == Some(v) && *final(pos) == p,
            (Err(_), p) => r is None && *final(pos) == p,
        },
        *old(pos) <= data@.len() ==> *final(pos) <= data@.len(),
        match varint::varint_at(data@, *old(pos) as int) {
            (Ok(v), p) => r == Some(v) && *final(pos) == p,
            (Err(_), p) => r is None && *final(pos) == p,
        },
{
    proof {
        varint::lemma_varint_progress(data@, *pos as int);
    }
    match varint::read(data, pos) {
        Ok(v) => Some(v),
        Err(_) => None,
    }
}

/// An error of kind "LevelDecode" about a page.
fn level_fault(message: String, column: &str, page: usize) -> (r: Issue)
    ensures
        r@ == IssueView::error("LevelDecode"@, message@).for_column(column@).for_page(page),
{
    Issue::error("LevelDecode", message).for_column(column).for_page(page)
}

/// Decodes `groups` groups of eight bit-packed values at `from`.
fn decode_bitpacked(
    data: &[u8],
    from: usize,
    groups: usize,
    bit_width: u32,
    span: &Span,
    out: &mut Vec<(u32, Span)>,
    Ghost(st): Ghost<HybridStream>,
    Ghost(run_start): Ghost<int>,
)
    requires
        1 <= bit_width <= 32,
        from + groups * bit_width <= data@.len(),
        st.data == data@,
        st.bit_width == bit_width,
        span@ == (SpanView {
            kind: st.kind,
            start: model::offset(st.base, run_start),
            end: model::offset(st.base, from + groups * bit_width),
            page: None,
        }),
    ensures
        model::traced_view(final(out)@) == model::traced_view(old(out)@) + st.packed(
            run_start,
            from as int,
            groups as int,
        ),
{
    let ghost all = st.packed(run_start, from as int, groups as int);
    let ghost before = model::traced_view(out@);
    let w: usize = bit_width as usize;
    let mut g: usize = 0;
    let mut at: usize = from;
    proof {
        vstd::arithmetic::power2::lemma2_to64();
        assert(all.take(0) =~= seq![]);
        assert(before + all.take(0) =~= before);
        assert(0 * bit_width == 0);
    }
    while g < groups
        invariant
            g <= groups,
            1 <= bit_width <= 32,
            w == bit_width,
            from + groups * bit_width <= data@.len(),
            at == from + g * bit_width,
            st.data == data@,
            st.bit_width == bit_width,
            span@ == (SpanView {
                kind: st.kind,
                start: model::offset(st.base, run_start),
                end: model::offset(st.base, from + groups * bit_width),
                page: None,
            }),
            all == st.packed(run_start, from as int, groups as int),
            model::traced_view(out@) == before + all.take(8 * g),
        decreases groups - g,
    {
        assert((g + 1) * bit_width <= groups * bit_width) by (nonlinear_arith)
            requires
                g + 1 <= groups,
        ;
        assert((g + 1) * bit_width == g * bit_width + bit_width) by (nonlinear_arith);
        assert(at + w <= data.len());
        let mut k: usize = 0;
        while k < 8
            invariant
                k <= 8,
                g < groups,
                1 <= bit_width <= 32,
                w == bit_width,
                at == from + g * bit_width,
                at + w <= data@.len(),
                at + w <= usize::MAX,
                st.data == data@,
                st.bit_width == bit_width,
                span@ == (SpanView {
                    kind: st.kind,
                    start: model::offset(st.base, run_start),
                    end: model::offset(st.base, from + groups * bit_width),
                    page: None,
                }),
                all == st.packed(run_start, from as int, groups as int),
                model::traced_view(out@) == before + all.take(8 * g + k),
            decreases 8 - k,
        {
            assert(k * w <= 7 * w) by (nonlinear_arith)
                requires
                    k <= 7,
            ;
            let bit: usize = k * w;
            proof {
                let i = 8 * g + k;
                assert(8 * from + i * bit_width == 8 * at + bit) by (nonlinear_arith)
                    requires
                        i == 8 * g + k,
                        at == from + g * bit_width,
                        bit == k * w,
                        w == bit_width,
                ;
            }
            let v: u64 = bits::read_bits(data, at + bit / 8, (bit % 8) as u32, bit_width);
            proof {
                vstd::arithmetic::power2::lemma2_to64();
                if bit_width < 32 {
                    vstd::arithmetic::power2::lemma_pow2_strictly_increases(bit_width as nat, 32);
                }
            }
            let ghost view = model::traced_view(out@);
            out.push((v as u32, span.clone()));
            proof {
                let i = 8 * g + k;
                assert(all[i] == (v as u32, span@));
                assert(model::traced_view(out@) =~= view.push(all[i]));
                assert(all.take(i + 1) =~= all.take(i).push(all[i]));
                assert(before + all.take(i + 1) =~= (before + all.take(i)).push(all[i]));
            }
            k += 1;
        }
        at = at + w;
        g += 1;
    }
    assert(all.take(8 * groups) =~= all);
}

/// Decodes the runs of a hybrid stream, each of them whole, until there are
/// `expected` values, or up to the end of the data, or up to a run that cannot be
/// read, which it reports.
#[verifier::rlimit(60)]
fn decode_runs(
    data: &[u8],
    base_offset: u64,
    bit_width: u32,
    expected: usize,
    kind: &str,
    column: &str,
    page: usize,
    issues: &mut Vec<Issue>,
) -> (out: Vec<(u32, Span)>)
    requires
        bit_width <= 32,
    ensures
        ({
            let st = HybridStream {
                data: data@,
                base: base_offset,
                bit_width,
                expected: expected as nat,
                kind: kind@,
                column: column@,
                page,
            };
            &&& model::traced_view(out@) == st.runs_from(0, 0).0
            &&& model::issues_view(final(issues)@) == model::issues_view(old(issues)@)
                + st.runs_from(0, 0).1
        }),
{
    let ghost st = HybridStream {
        data: data@,
        base: base_offset,
        bit_width,
        expected: expected as nat,
        kind: kind@,
        column: column@,
        page,
    };
    let mut out: Vec<(u32, Span)> = Vec::new();
    let byte_width: usize = ((bit_width + 7) / 8) as usize;
    let quadruple: usize = if expected > usize::MAX / 4 {
        usize::MAX
    } else {
        expected * 4
    };
    let hard_cap: usize = if quadruple < 1024 {
        1024
    } else {
        quadruple
    };
    let mut pos: usize = 0;
    assert(hard_cap == st.hard_cap());
    assert(model::traced_view(out@) + st.runs_from(0, 0).0 =~= st.runs_from(0, 0).0);
    while pos < data.len() && out.len() < expected
        invariant
            bit_width <= 32,
            byte_width == st.byte_width(),
            hard_cap == st.hard_cap(),
            expected <= hard_cap,
            st == (HybridStream {
                data: data@,
                base: base_offset,
                bit_width,
                expected: expected as nat,
                kind: kind@,
                column: column@,
                page,
            }),
            pos <= data@.len(),
            model::issues_view(issues@) == model::issues_view(old(issues)@),
            st.runs_from(0, 0) == (
                model::traced_view(out@) + st.runs_from(pos as int, out@.len()).0,
                st.runs_from(pos as int, out@.len()).1,
            ),
        decreases data@.len() - pos,
    {
        let run_start: usize = pos;
        let ghost here = st.runs_from(run_start as int, out@.len());
        let ghost before = model::traced_view(out@);
        proof {
            varint::lemma_varint_progress(data@, pos as int);
            assert(before + seq![] =~= before);
        }
        let header: u64 = match read_varint(data, &mut pos) {
            Some(h) => h,
            None => {
                model::report(
                    issues,
                    level_fault("truncated run header".to_string(), column, page),
                );
                return out;
            },
        };
        let ghost p = pos as int;
        let left: usize = data.len() - pos;
        if header % 2 == 1 {
            // bit-packed run of `groups` times eight values
            let groups: u64 = header / 2;
            assert(groups * bit_width <= 0x8000_0000_0000_0000 * 32) by (nonlinear_arith)
                requires
                    groups < 0x8000_0000_0000_0000,
                    bit_width <= 32,
            ;
            assert(groups * bit_width >= 0) by (nonlinear_arith);
            let need: u128 = groups as u128 * bit_width as u128;
            if need > left as u128 {
                let mut m: String = "bit-packed run of ".to_string();
                text::push_dec(&mut m, groups as u128);
                m.append(" groups needs ");
                text::push_dec(&mut m, need);
                m.append(" bytes, only ");
                text::push_dec(&mut m, left as u128);
                m.append(" left");
                model::report(issues, level_fault(m, column, page));
                assert(bit_width > 0) by (nonlinear_arith)
                    requires
                        groups * bit_width > left,
                        left >= 0,
                ;
                // what complete groups there are
                let whole: usize = left / bit_width as usize;
                let some: usize = if (whole as u64) < groups {
                    whole
                } else {
                    groups as usize
                };
                assert(some * bit_width <= left) by (nonlinear_arith)
                    requires
                        some <= whole,
                        whole == left as int / bit_width as int,
                        bit_width > 0,
                        left >= 0,
                ;
                assert(pos + some * bit_width <= data.len());
                let span = Span {
                    kind: kind.to_string(),
                    start: base_offset.wrapping_add(run_start as u64),
                    end: base_offset.wrapping_add((pos + some * bit_width as usize) as u64),
                    page: None,
                };
                decode_bitpacked(
                    data,
                    pos,
                    some,
                    bit_width,
                    &span,
                    &mut out,
                    Ghost(st),
                    Ghost(run_start as int),
                );
                return out;
            }
            let nbytes: usize = need as usize;
            if bit_width > 0 {
                assert(groups <= need) by (nonlinear_arith)
                    requires
                        need == groups * bit_width,
                        bit_width > 0,
                ;
                let span = Span {
                    kind: kind.to_string(),
                    start: base_offset.wrapping_add(run_start as u64),
                    end: base_offset.wrapping_add((pos + nbytes) as u64),
                    page: None,
                };
                decode_bitpacked(
                    data,
                    pos,
                    groups as usize,
                    bit_width,
                    &span,
                    &mut out,
                    Ghost(st),
                    Ghost(run_start as int),
                );
            }
            pos = pos + nbytes;
            proof {
                let vs = st.packed(run_start as int, p, groups as int);
                let rest = st.runs_from(pos as int, out@.len());
                assert(model::traced_view(out@) =~= before + vs);
                assert(out@.len() == before.len() + vs.len());
                assert(here == (vs + rest.0, rest.1));
                assert(before + (vs + rest.0) =~= model::traced_view(out@) + rest.0);
            }
        } else {
            // RLE run
            let count: u64 = header / 2;
            if count > hard_cap as u64 {
                let mut m: String = "implausible RLE run length ".to_string();
                text::push_dec(&mut m, count as u128);
                model::report(issues, level_fault(m, column, page));
                return out;
            }
            if left < byte_width {
                model::report(
                    issues,
                    level_fault("truncated RLE run value".to_string(), column, page),
                );
                return out;
            }
            assert(pos + byte_width <= data.len());
            let v: u64 = le::read_le(data, pos, byte_width);
            proof {
                le::lemma_le_bound(data@.subrange(pos as int, pos + byte_width));
                le::lemma_pow256();
            }
            let span = Span {
                kind: kind.to_string(),
                start: base_offset.wrapping_add(run_start as u64),
                end: base_offset.wrapping_add((pos + byte_width) as u64),
                page: Some(page),
            };
            pos = pos + byte_width;
            let room: usize = hard_cap - out.len();
            let k: usize = if count < room as u64 {
                count as usize
            } else {
                room
            };
            let ghost vs = st.repeated(run_start as int, p, k as int);
            let mut j: usize = 0;
            assert(before + vs.take(0) =~= before);
            while j < k
                invariant
                    j <= k,
                    vs.len() == k,
                    v <= u32::MAX,
                    forall|i: int| 0 <= i < k ==> vs[i] == (v as u32, span@),
                    model::traced_view(out@) == before + vs.take(j as int),
                decreases k - j,
            {
                let ghost view = model::traced_view(out@);
                out.push((v as u32, span.clone()));
                proof {
                    assert(model::traced_view(out@) =~= view.push(vs[j as int]));
                    assert(vs.take(j + 1) =~= vs.take(j as int).push(vs[j as int]));
                    assert(before + vs.take(j + 1) =~= (before + vs.take(j as int)).push(
                        vs[j as int],
                    ));
                }
                j += 1;
            }
            proof {
                assert(vs.take(k as int) =~= vs);
                let rest = st.runs_from(pos as int, out@.len());
                assert(out@.len() == before.len() + vs.len());
                assert(here == (vs + rest.0, rest.1));
                assert(before + (vs + rest.0) =~= model::traced_view(out@) + rest.0);
            }
        }
    }
    proof {
        assert(model::traced_view(out@) + seq![] =~= model::traced_view(out@));
        assert(model::issues_view(old(issues)@) + seq![] =~= model::issues_view(old(issues)@));
    }
    out
}

/// Decode a hybrid run-length / bit-packed stream. Returns (value, span)
/// pairs. Stops at `expected` values or end of data; records local issues
/// instead of failing hard so partially-decoded data survives.
pub fn decode_hybrid(
    data: &[u8],
    base_offset: u64,
    bit_width: u32,
    expected: usize,
    kind: &str,
    column: &str,
    page: usize,
    issues: &mut Vec<Issue>,
) -> (out: Vec<(u16, Span)>)
    ensures
        ({
            let st = HybridStream {
                data: data@,
                base: base_offset,
                bit_width,
                expected: expected as nat,
                kind: kind@,
                column: column@,
                page,
            };
            &&& out@.len() <= expected
            &&& out@.len() == st.values().len()
            &&& forall|k: int|
                0 <= k < out@.len() ==> (#[trigger] out@[k]).0 as int == st.values()[k].0 as int
                    % 0x1_0000 && out@[k].1@ == st.values()[k].1
            &&& model::traced_view(out@) == low_words(st.values())
            &&& model::issues_view(final(issues)@) == model::issues_view(old(issues)@)
                + st.issues()
        }),
{
    let raw: Vec<(u32, Span)> = decode_values(
        data,
        base_offset,
        bit_width,
        expected,
        kind,
        column,
        page,
        issues,
    );
    let mut out: Vec<(u16, Span)> = Vec::new();
    let mut i: usize = 0;
    while i < raw.len()
        invariant
            i <= raw@.len(),
            out@.len() == i,
            forall|k: int|
                0 <= k < i ==> (#[trigger] out@[k]).0 == raw@[k].0 % 0x1_0000 && out@[k].1@
                    == raw@[k].1@,
        decreases raw@.len() - i,
    {
        let r: &(u32, Span) = &raw[i];
        out.push(((r.0 % 0x1_0000) as u16, r.1.clone()));
        i += 1;
    }
    assert(model::traced_view(out@) =~= low_words(model::traced_view(raw@)));
    proof {
        let all = model::traced_view(raw@);
        assert forall|k: int| 0 <= k < out@.len() implies (#[trigger] out@[k]).0 as int
            == all[k].0 as int % 0x1_0000 && out@[k].1@ == all[k].1 by {
            assert(all[k] == (raw@[k].0, raw@[k].1@));
        }
    }
    out
}

/// Decodes a hybrid stream of values of up to 32 bits.
fn decode_values(
    data: &[u8],
    base_offset: u64,
    bit_width: u32,
    expected: usize,
    kind: &str,
    column: &str,
    page: usize,
    issues: &mut Vec<Issue>,
) -> (out: Vec<(u32, Span)>)
    ensures
        ({
            let st = HybridStream {
                data: data@,
                base: base_offset,
                bit_width,
                expected: expected as nat,
                kind: kind@,
                column: column@,
                page,
            };
            &&& out@.len() <= expected
            &&& model::traced_view(out@) == st.values()
            &&& model::issues_view(final(issues)@) == model::issues_view(old(issues)@)
                + st.issues()
        }),
{
    if bit_width > 32 {
        let mut m: String = "invalid bit width ".to_string();
        text::push_dec(&mut m, bit_width as u128);
        m.append(" (> 32)");
        model::report(issues, level_fault(m, column, page));
        let out: Vec<(u32, Span)> = Vec::new();
        assert(model::traced_view(out@) =~= seq![]);
        return out;
    }
    let ghost start = model::issues_view(issues@);
    let mut out: Vec<(u32, Span)> = decode_runs(
        data,
        base_offset,
        bit_width,
        expected,
        kind,
        column,
        page,
        issues,
    );
    let ghost faults = model::issues_view(issues@).skip(start.len() as int);
    if out.len() < expected {
        let mut m: String = kind.to_string();
        m.append(" stream truncated: decoded ");
        text::push_dec(&mut m, out.len() as u128);
        m.append(" of ");
        text::push_dec(&mut m, expected as u128);
        m.append(" expected values");
        let ghost before = model::issues_view(issues@);
        let issue: Issue = level_fault(m, column, page);
        let ghost seen = issue@;
        model::report(issues, issue);
        assert(before =~= start + faults);
        assert(before + seq![seen] =~= start + faults.push(seen));
    }
    let ghost all = model::traced_view(out@);
    out.truncate(expected);
    assert(model::traced_view(out@) =~= first(all, expected as nat));
    out
}

/// Decode a u32-index dictionary stream (first byte = bit width, then hybrid).
pub fn decode_dict_indices(
    data: &[u8],
    base_offset: u64,
    expected: usize,
    column: &str,
    page: usize,
    issues: &mut Vec<Issue>,
) -> (out: Vec<(u32, Span)>)
    ensures
        ({
            let fault = |message: Seq<char>|
                IssueView::error("DictDecode"@, message).for_column(column@).for_page(page);
            let st = HybridStream {
                data: data@.skip(1),
                base: model::offset(base_offset, 1),
                bit_width: data@[0] as u32,
                expected: expected as nat,
                kind: "dict_indices"@,
                column: column@,
                page,
            };
            if data@.len() == 0 {
                &&& out@.len() == 0
                &&& model::issues_view(final(issues)@) == model::issues_view(old(issues)@).push(
                    fault("empty dictionary index stream"@),
                )
            } else if data@[0] > 32 {
                &&& out@.len() == 0
                &&& model::issues_view(final(issues)@) == model::issues_view(old(issues)@).push(
                    fault("invalid dictionary bit width "@ + text::dec(data@[0] as nat)),
                )
            } else {
                &&& out@.len() <= expected
                &&& model::traced_view(out@) == st.values()
                &&& model::issues_view(final(issues)@) == model::issues_view(old(issues)@)
                    + st.issues()
            }
        }),
{
    if data.len() == 0 {
        model::report(
            issues,
            Issue::error("DictDecode", "empty dictionary index stream").for_column(column).for_page(
                page,
            ),
        );
        return Vec::new();
    }
    let bit_width: u32 = data[0] as u32;
    if bit_width > 32 {
        let mut m: String = "invalid dictionary bit width ".to_string();
        text::push_dec(&mut m, bit_width as u128);
        model::report(issues, Issue::error("DictDecode", m).for_column(column).for_page(page));
        return Vec::new();
    }
    let rest: &[u8] = vstd::slice::slice_subrange(data, 1, data.len());
    assert(rest@ =~= data@.skip(1));
    decode_values(
        rest,
        base_offset.wrapping_add(1),
        bit_width,
        expected,
        "dict_indices",
        column,
        page,
        issues,
    )
}

/// How many more values runs may add when `n` values are there.
spec fn headroom(st: HybridStream, n: nat) -> int {
    if n < st.hard_cap() {
        st.hard_cap() - n
    } else {
        0
    }
}

proof fn lemma_runs_bounded(st: HybridStream, pos: int, n: nat)
    requires
        0 <= pos <= st.data.len(),
        st.expected <= usize::MAX,
    ensures
        st.runs_from(pos, n).0.len() <= headroom(st, n) + 8 * (st.data.len() - pos),
    decreases st.data.len() - pos,
{
    if pos < st.data.len() && n < st.expected {
        varint::lemma_varint_progress(st.data, pos);
        if let (Ok(header), p) = varint::varint_at(st.data, pos) {
            let left = st.data.len() - p;
            let half = header as int / 2;
            if header % 2 == 1 {
                let need = half * st.bit_width;
                assert(need >= 0 && (st.bit_width > 0 ==> half <= need)) by (nonlinear_arith)
                    requires
                        need == half * st.bit_width,
                        half >= 0,
                ;
                if need <= left {
                    let vs = st.packed(pos, p, half);
                    lemma_runs_bounded(st, p + need, n + vs.len());
                } else {
                    assert(st.bit_width > 0) by (nonlinear_arith)
                        requires
                            half * st.bit_width > left,
                            left >= 0,
                    ;
                    let whole = left / st.bit_width as int;
                    assert(0 <= whole <= left) by (nonlinear_arith)
                        requires
                            whole == left / st.bit_width as int,
                            st.bit_width > 0,
                            left >= 0,
                    ;
                }
            } else if half <= st.hard_cap() && left >= st.byte_width() {
                let k = if half < st.hard_cap() - n {
                    half
                } else {
                    st.hard_cap() - n
                };
                lemma_runs_bounded(st, p + st.byte_width(), n + k as nat);
            }
        }
    }
}

/// Decoding stops at the expected number of values, and corrupt run lengths
/// cannot make it expand much more on the way: at most four times that number
/// (but no fewer than 1024 are allowed) and eight values for each byte of data.
pub proof fn lemma_values_bounded(st: HybridStream)
    requires
        st.expected <= usize::MAX,
    ensures
        st.values().len() <= st.expected,
        st.runs_from(0, 0).0.len() <= st.hard_cap() + 8 * st.data.len(),
{
    lemma_runs_bounded(st, 0, 0);
}

/// Every value stems from a non-empty byte range of the stream.
pub open spec fn traced_inside(st: HybridStream, vs: Seq<(u32, SpanView)>) -> bool {
    forall|i: int|
        0 <= i < vs.len() ==> {
            let span = (#[trigger] vs[i]).1;
            st.base <= span.start < span.end <= st.base + st.data.len()
        }
}

/// Byte ranges come in order: two values share theirs, or that of the first
/// ends before that of the second starts.
pub open spec fn traced_in_order(vs: Seq<(u32, SpanView)>) -> bool {
    forall|i: int, j: int|
        0 <= i < j < vs.len() ==> (#[trigger] vs[i]).1 == (#[trigger] vs[j]).1 || vs[i].1.end
            <= vs[j].1.start
}

/// No byte range starts before `at`.
spec fn traced_behind(vs: Seq<(u32, SpanView)>, at: int) -> bool {
    forall|i: int| 0 <= i < vs.len() ==> at <= (#[trigger] vs[i]).1.start
}

proof fn lemma_order_joined(
    vs: Seq<(u32, SpanView)>,
    rest: Seq<(u32, SpanView)>,
    start: int,
    end: int,
)
    requires
        forall|i: int, j: int|
            0 <= i < vs.len() && 0 <= j < vs.len() ==> (#[trigger] vs[i]).1 == (
            #[trigger] vs[j]).1,
        forall|i: int|
            0 <= i < vs.len() ==> (#[trigger] vs[i]).1.start == start && vs[i].1.end == end,
        start <= end,
        traced_in_order(rest),
        traced_behind(rest, end),
    ensures
        traced_in_order(vs + rest),
        traced_behind(vs + rest, start),
{
    let all = vs + rest;
    assert forall|i: int| 0 <= i < all.len() implies start <= (#[trigger] all[i]).1.start by {
        if i < vs.len() {
            assert(all[i] == vs[i]);
        } else {
            assert(all[i] == rest[i - vs.len()]);
        }
    }
    assert forall|i: int, j: int| 0 <= i < j < all.len() implies (#[trigger] all[i]).1 == (
    #[trigger] all[j]).1 || all[i].1.end <= all[j].1.start by {
        if i < vs.len() {
            assert(all[i] == vs[i]);
        } else {
            assert(all[i] == rest[i - vs.len()]);
        }
        if j < vs.len() {
            assert(all[j] == vs[j]);
        } else {
            assert(all[j] == rest[j - vs.len()]);
        }
    }
}

proof fn lemma_runs_traced(st: HybridStream, pos: int, n: nat)
    requires
        0 <= pos <= st.data.len(),
        st.base + st.data.len() <= u64::MAX,
        st.bit_width <= 32,
    ensures
        traced_inside(st, st.runs_from(pos, n).0),
        traced_in_order(st.runs_from(pos, n).0),
        traced_behind(st.runs_from(pos, n).0, st.base + pos),
    decreases st.data.len() - pos,
{
    if pos < st.data.len() && n < st.expected {
        varint::lemma_varint_progress(st.data, pos);
        if let (Ok(header), p) = varint::varint_at(st.data, pos) {
            let left = st.data.len() - p;
            let half = header as int / 2;
            if header % 2 == 1 {
                let need = half * st.bit_width;
                assert(need >= 0) by (nonlinear_arith)
                    requires
                        need == half * st.bit_width,
                        half >= 0,
                ;
                if need <= left {
                    let vs = st.packed(pos, p, half);
                    let rest = st.runs_from(p + need, n + vs.len()).0;
                    lemma_runs_traced(st, p + need, n + vs.len());
                    lemma_order_joined(vs, rest, st.base + pos, st.base + p + need);
                    assert forall|i: int| 0 <= i < (vs + rest).len() implies {
                        let span = (#[trigger] (vs + rest)[i]).1;
                        st.base <= span.start < span.end <= st.base + st.data.len()
                    } by {
                        if i >= vs.len() {
                            assert((vs + rest)[i] == rest[i - vs.len()]);
                        }
                    }
                } else {
                    assert(st.bit_width > 0) by (nonlinear_arith)
                        requires
                            half * st.bit_width > left,
                            left >= 0,
                    ;
                    let w = st.bit_width as int;
                    let whole = left / w;
                    let some = if whole < half {
                        whole
                    } else {
                        half
                    };
                    assert(0 <= some * w <= left) by (nonlinear_arith)
                        requires
                            whole == left / w,
                            0 <= some <= whole,
                            w > 0,
                            left >= 0,
                    ;
                }
            } else if half <= st.hard_cap() && left >= st.byte_width() {
                let k = if half < st.hard_cap() - n {
                    half
                } else {
                    st.hard_cap() - n
                };
                let vs = st.repeated(pos, p, k);
                let rest = st.runs_from(p + st.byte_width(), n + vs.len()).0;
                lemma_runs_traced(st, p + st.byte_width(), n + vs.len());
                lemma_order_joined(vs, rest, st.base + pos, st.base + p + st.byte_width());
                assert forall|i: int| 0 <= i < (vs + rest).len() implies {
                    let span = (#[trigger] (vs + rest)[i]).1;
                    st.base <= span.start < span.end <= st.base + st.data.len()
                } by {
                    if i >= vs.len() {
                        assert((vs + rest)[i] == rest[i - vs.len()]);
                    }
                }
            }
        }
    }
}

/// The span of every decoded value is a non-empty range of the stream's own
/// bytes, wherever in the file the stream lies. The spans come in order, and
/// those of two runs never overlap.
pub proof fn lemma_values_traced(st: HybridStream)
    requires
        st.base + st.data.len() <= u64::MAX,
    ensures
        traced_inside(st, st.values()),
        traced_in_order(st.values()),
{
    if st.bit_width <= 32 {
        lemma_runs_traced(st, 0, 0);
    }
}

/// Too few values never go unreported: without an issue there are at least as
/// many values as expected.
pub proof fn lemma_shortfall_reported(st: HybridStream)
    ensures
        st.issues().len() == 0 ==> st.values().len() >= st.expected,
{
}

/// A run of a hybrid stream.
pub enum HybridRun {
    /// `count` times the same value.
    Repeated { count: nat, value: u32 },
    /// `groups` groups of eight values, bit-packed.
    Packed { groups: nat, bytes: Seq<u8> },
}

impl HybridRun {
    /// The run can be written in a stream of values of `w` bits.
    pub open spec fn valid(self, w: u32) -> bool {
        match self {
            HybridRun::Repeated { count, value } => 2 * count <= u64::MAX && value < le::pow256(
                ((w + 7) / 8) as nat,
            ),
            HybridRun::Packed { groups, bytes } => 2 * groups + 1 <= u64::MAX && bytes.len()
                == groups * w,
        }
    }

    /// The bytes of the run: its header, then the value or the packed values.
    pub open spec fn bytes(self, w: u32) -> Seq<u8> {
        match self {
            HybridRun::Repeated { count, value } => varint::varint_bytes(2 * count) + le::le_bytes(
                value as nat,
                ((w + 7) / 8) as nat,
            ),
            HybridRun::Packed { groups, bytes } => varint::varint_bytes(2 * groups + 1) + bytes,
        }
    }

    /// The values of the run.
    pub open spec fn values(self, w: u32) -> Seq<u32> {
        match self {
            HybridRun::Repeated { count, value } => Seq::new(count, |i: int| value),
            HybridRun::Packed { groups, bytes } => if w == 0 {
                seq![]
            } else {
                Seq::new(8 * groups, |i: int| packed_value(bytes, w, i))
            },
        }
    }
}

/// Value `i` of bit-packed values of `w` bits: the bytes form one number, the first
/// byte lowest, and each value takes the next `w` bits of it, from the lowest on.
pub open spec fn packed_value(bytes: Seq<u8>, w: u32, i: int) -> u32 {
    ((le::le_nat(bytes) / pow2((i * w) as nat)) % pow2(w as nat)) as u32
}

/// The bytes of the runs from index `i` on.
pub open spec fn stream_bytes(runs: Seq<HybridRun>, w: u32, i: int) -> Seq<u8>
    decreases runs.len() - i,
{
    if 0 <= i < runs.len() {
        runs[i].bytes(w) + stream_bytes(runs, w, i + 1)
    } else {
        seq![]
    }
}

/// The values of the runs from index `i` on.
pub open spec fn stream_values(runs: Seq<HybridRun>, w: u32, i: int) -> Seq<u32>
    decreases runs.len() - i,
{
    if 0 <= i < runs.len() {
        runs[i].values(w) + stream_values(runs, w, i + 1)
    } else {
        seq![]
    }
}

/// Where a value comes from: the bytes from `from` up to `to` of the stream, which
/// are a bit-packed run or not.
pub struct Origin {
    pub from: int,
    pub to: int,
    pub packed: bool,
}

/// Where each value of the runs from index `i` on comes from; `at` is the position
/// of run `i`.
pub open spec fn stream_origins(runs: Seq<HybridRun>, w: u32, i: int, at: int) -> Seq<Origin>
    decreases runs.len() - i,
{
    if 0 <= i < runs.len() {
        let to = at + runs[i].bytes(w).len();
        Seq::new(
            runs[i].values(w).len(),
            |k: int| Origin { from: at, to, packed: runs[i] is Packed },
        ) + stream_origins(runs, w, i + 1, to)
    } else {
        seq![]
    }
}

impl HybridStream {
    /// The span names the bytes that a value comes from, behind the base and in
    /// 64-bit arithmetic, with the kind of the stream. Only repeated runs carry the
    /// page.
    pub open spec fn stems(self, span: SpanView, o: Origin) -> bool {
        &&& span.kind == self.kind
        &&& o.to <= u64::MAX ==> span.start == (self.base + o.from) % 0x1_0000_0000_0000_0000
        &&& o.to <= u64::MAX ==> span.end == (self.base + o.to) % 0x1_0000_0000_0000_0000
        &&& o.packed ==> span.page is None
        &&& !o.packed ==> span.page == Some(self.page)
    }
}

/// After `n` values, no repeated run from index `i` on is longer than `cap`, of
/// those that start before there are `expected` values.
pub open spec fn plausible(
    runs: Seq<HybridRun>,
    w: u32,
    i: int,
    n: nat,
    expected: nat,
    cap: int,
) -> bool
    decreases runs.len() - i,
{
    0 <= i < runs.len() && n < expected ==> {
        &&& runs[i] matches HybridRun::Repeated { count, .. } ==> count <= cap
        &&& plausible(runs, w, i + 1, n + runs[i].values(w).len(), expected, cap)
    }
}

proof fn lemma_bits_moved(d: Seq<u8>, from: int, part: Seq<u8>, at: int, n: nat)
    requires
        0 <= from,
        0 <= at,
        at + n <= 8 * part.len(),
        from + part.len() <= d.len(),
        d.subrange(from, from + part.len()) == part,
    ensures
        bits::bits(d, 8 * from + at, n) == bits::bits(part, at, n),
    decreases n,
{
    if n > 0 {
        lemma_bits_moved(d, from, part, at + 1, (n - 1) as nat);
        assert((8 * from + at) / 8 == from + at / 8);
        assert((8 * from + at) % 8 == at % 8);
        assert(d.subrange(from, from + part.len())[at / 8] == d[from + at / 8]);
    }
}

/// The values of `run` that are decoded when `n` values are there.
spec fn run_taken(st: HybridStream, run: HybridRun, n: nat) -> Seq<u32> {
    let vs = run.values(st.bit_width);
    match run {
        HybridRun::Repeated { .. } => if n + vs.len() > st.hard_cap() {
            vs.take(st.hard_cap() - n)
        } else {
            vs
        },
        HybridRun::Packed { .. } => vs,
    }
}

proof fn lemma_packed_values(
    st: HybridStream,
    run_start: int,
    from: int,
    groups: nat,
    bytes: Seq<u8>,
)
    requires
        st.bit_width <= 32,
        0 <= run_start <= from,
        bytes.len() == groups * st.bit_width,
        from + bytes.len() <= st.data.len(),
        st.data.subrange(from, from + bytes.len()) == bytes,
    ensures
        forall|k: int|
            0 <= k < st.packed(run_start, from, groups as int).len() ==> {
                let v = #[trigger] st.packed(run_start, from, groups as int)[k];
                &&& v.0 == packed_value(bytes, st.bit_width, k)
                &&& st.stems(
                    v.1,
                    Origin { from: run_start, to: from + bytes.len(), packed: true },
                )
            },
{
    let w = st.bit_width;
    let vs = st.packed(run_start, from, groups as int);
    assert forall|k: int| 0 <= k < vs.len() implies {
        let v = #[trigger] vs[k];
        &&& v.0 == packed_value(bytes, w, k)
        &&& st.stems(v.1, Origin { from: run_start, to: from + bytes.len(), packed: true })
    } by {
        assert(0 <= k * w && k * w + w <= 8 * bytes.len()) by (nonlinear_arith)
            requires
                0 <= k < 8 * groups,
                bytes.len() == groups * w,
        ;
        lemma_bits_moved(st.data, from, bytes, k * w, w as nat);
        bits::lemma_bits_of_number(bytes, k * w, w as nat);
        assert(8 * from + k * w == 8 * from + (k * w));
    }
}

#[verifier::rlimit(80)]
#[verifier::spinoff_prover]
proof fn lemma_run_read(st: HybridStream, run: HybridRun, pos: int, n: nat)
    requires
        st.bit_width <= 32,
        st.expected <= usize::MAX,
        run.valid(st.bit_width),
        0 <= pos,
        pos + run.bytes(st.bit_width).len() <= st.data.len(),
        st.data.subrange(pos, pos + run.bytes(st.bit_width).len()) == run.bytes(st.bit_width),
        n < st.expected,
        run matches HybridRun::Repeated { count, .. } ==> count <= st.hard_cap(),
    ensures
        ({
            let next = pos + run.bytes(st.bit_width).len();
            let vs = run_taken(st, run, n);
            let all = st.runs_from(pos, n);
            let rest = st.runs_from(next, n + vs.len());
            &&& pos < next
            &&& all.0.len() == vs.len() + rest.0.len()
            &&& forall|k: int|
                0 <= k < vs.len() ==> (#[trigger] all.0[k]).0 == vs[k] && st.stems(
                    all.0[k].1,
                    Origin { from: pos, to: next, packed: run is Packed },
                )
            &&& forall|k: int|
                vs.len() <= k < all.0.len() ==> (#[trigger] all.0[k]) == rest.0[k - vs.len()]
            &&& all.1 == rest.1
        }),
{
    let w = st.bit_width;
    let whole = run.bytes(w);
    let header = match run {
        HybridRun::Repeated { count, value } => (2 * count) as u64,
        HybridRun::Packed { groups, bytes } => (2 * groups + 1) as u64,
    };
    let h = varint::varint_bytes(header as nat);
    let tail = whole.skip(h.len() as int);
    assert(h.len() > 0);
    assert(st.data.subrange(pos, pos + h.len()) =~= st.data.subrange(
        pos,
        pos + whole.len(),
    ).subrange(0, h.len() as int));
    assert(whole.subrange(0, h.len() as int) =~= h);
    varint::lemma_varint_round_trip(st.data, pos, header);
    let p = pos + h.len();
    assert(st.data.subrange(p, p + tail.len()) =~= st.data.subrange(
        pos,
        pos + whole.len(),
    ).skip(h.len() as int));
    match run {
        HybridRun::Repeated { count, value } => {
            let b = le::le_bytes(value as nat, ((w + 7) / 8) as nat);
            assert(tail =~= b);
            le::lemma_le_round_trip(value as nat, ((w + 7) / 8) as nat);
            assert(st.byte_width() == b.len());
            assert(count == header as int / 2);
            let vs = st.repeated(pos, p, run_taken(st, run, n).len() as int);
            let rest = st.runs_from(p + st.byte_width(), n + vs.len());
            assert(st.runs_from(pos, n).0 =~= vs + rest.0);
        },
        HybridRun::Packed { groups, bytes } => {
            assert(tail =~= bytes);
            assert(groups == header as int / 2);
            let vs = st.packed(pos, p, groups as int);
            let rest = st.runs_from(p + groups * w, n + vs.len());
            assert(st.runs_from(pos, n).0 =~= vs + rest.0);
            lemma_packed_values(st, pos, p, groups, bytes);
        },
    }
}

/// `got` agrees with `vs`, which come from `os`, on the first `want` values; it has
/// them all if `vs` has, and no others if `vs` has fewer.
spec fn agrees(
    st: HybridStream,
    got: Seq<(u32, SpanView)>,
    vs: Seq<u32>,
    os: Seq<Origin>,
    want: int,
) -> bool {
    &&& os.len() == vs.len()
    &&& if vs.len() < want {
        got.len() == vs.len()
    } else {
        got.len() >= want
    }
    &&& forall|k: int|
        0 <= k < want && k < vs.len() && k < got.len() ==> (#[trigger] got[k]).0 == vs[k]
            && st.stems(got[k].1, os[k])
}

proof fn lemma_origins_len(runs: Seq<HybridRun>, w: u32, i: int, at: int)
    ensures
        stream_origins(runs, w, i, at).len() == stream_values(runs, w, i).len(),
    decreases runs.len() - i,
{
    if 0 <= i < runs.len() {
        lemma_origins_len(runs, w, i + 1, at + runs[i].bytes(w).len());
    }
}

proof fn lemma_stream_read(st: HybridStream, runs: Seq<HybridRun>, i: int, pos: int, n: nat)
    requires
        st.bit_width <= 32,
        st.expected <= usize::MAX,
        forall|k: int| 0 <= k < runs.len() ==> (#[trigger] runs[k]).valid(st.bit_width),
        0 <= i <= runs.len(),
        0 <= pos <= st.data.len(),
        st.data.skip(pos) == stream_bytes(runs, st.bit_width, i),
        plausible(runs, st.bit_width, i, n, st.expected, st.hard_cap()),
    ensures
        agrees(
            st,
            st.runs_from(pos, n).0,
            stream_values(runs, st.bit_width, i),
            stream_origins(runs, st.bit_width, i, pos),
            st.expected - n,
        ),
        st.runs_from(pos, n).1.len() == 0,
    decreases runs.len() - i,
{
    let w = st.bit_width;
    if i < runs.len() && n < st.expected {
        let run = runs[i];
        let b = run.bytes(w);
        let more = stream_bytes(runs, w, i + 1);
        let v = run.values(w);
        let taken = run_taken(st, run, n);
        let vs = stream_values(runs, w, i);
        let os = stream_origins(runs, w, i, pos);
        lemma_origins_len(runs, w, i, pos);
        assert(st.data.skip(pos).len() == b.len() + more.len());
        assert(st.data.subrange(pos, pos + b.len()) =~= st.data.skip(pos).subrange(
            0,
            b.len() as int,
        ));
        assert((b + more).subrange(0, b.len() as int) =~= b);
        assert(st.data.skip(pos + b.len()) =~= st.data.skip(pos).skip(b.len() as int));
        assert((b + more).skip(b.len() as int) =~= more);
        lemma_run_read(st, run, pos, n);
        let all = st.runs_from(pos, n);
        let rest = st.runs_from(pos + b.len(), n + taken.len());
        if taken.len() == v.len() {
            assert(taken =~= v);
            lemma_stream_read(st, runs, i + 1, pos + b.len(), n + v.len());
            assert forall|k: int|
                0 <= k < st.expected - n && k < vs.len() && k < all.0.len() implies (
            #[trigger] all.0[k]).0 == vs[k] && st.stems(all.0[k].1, os[k]) by {
                if k >= v.len() {
                    assert(all.0[k] == rest.0[k - v.len()]);
                    assert(rest.0[k - v.len()].0 == stream_values(runs, w, i + 1)[k - v.len()]);
                }
            }
        } else {
            // the run was stopped, but not before there were enough values
            assert(n + taken.len() == st.hard_cap());
        }
    } else {
        lemma_origins_len(runs, w, i, pos);
        if i == runs.len() {
            assert(st.data.skip(pos).len() == 0);
        }
    }
}

/// Decoding inverts the hybrid encoding: from the bytes of the runs come their
/// values, in order and up to the expected number, each with the span of its run; no
/// issue if they are enough, and one if not. Left out are streams in which a repeated
/// run that is needed is longer than four times the expected number, and longer than
/// 1024: it counts as corrupt.
pub proof fn lemma_hybrid_round_trip(st: HybridStream, runs: Seq<HybridRun>)
    requires
        st.bit_width <= 32,
        st.expected <= usize::MAX,
        forall|k: int| 0 <= k < runs.len() ==> (#[trigger] runs[k]).valid(st.bit_width),
        st.data == stream_bytes(runs, st.bit_width, 0),
        plausible(runs, st.bit_width, 0, 0, st.expected, st.hard_cap()),
    ensures
        ({
            let vs = first(stream_values(runs, st.bit_width, 0), st.expected);
            &&& st.values().len() == vs.len()
            &&& forall|k: int|
                0 <= k < vs.len() ==> (#[trigger] st.values()[k]).0 == vs[k] && st.stems(
                    st.values()[k].1,
                    stream_origins(runs, st.bit_width, 0, 0)[k],
                )
            &&& st.issues().len() == (if vs.len() < st.expected {
                1nat
            } else {
                0
            })
        }),
{
    assert(st.data.skip(0) =~= st.data);
    lemma_stream_read(st, runs, 0, 0, 0);
    let got = st.runs_from(0, 0).0;
    assert forall|k: int| 0 <= k < st.values().len() implies (#[trigger] st.values()[k]).0
        == first(stream_values(runs, st.bit_width, 0), st.expected)[k] && st.stems(
        st.values()[k].1,
        stream_origins(runs, st.bit_width, 0, 0)[k],
    ) by {
        assert(st.values()[k] == got[k]);
    }
}

impl HybridStream {
    /// The stream with nothing behind its first `n` bytes.
    pub open spec fn cut(self, n: int) -> HybridStream {
        HybridStream { data: self.data.take(n), ..self }
    }
}

/// `a` is the beginning of `b`: the first `m` values are the same, with the same
/// spans. Those behind them are the same too; they belong to one bit-packed run,
/// and only the ends of their spans may differ.
pub open spec fn begins(a: Seq<(u32, SpanView)>, b: Seq<(u32, SpanView)>, m: int) -> bool {
    &&& 0 <= m <= a.len() <= b.len()
    &&& forall|k: int| 0 <= k < m ==> #[trigger] a[k] == b[k]
    &&& forall|k: int|
        m <= k < a.len() ==> {
            &&& (#[trigger] a[k]).0 == b[k].0
            &&& a[k].1 == (SpanView { end: a[k].1.end, ..b[k].1 })
            &&& a[k].1 == a[m].1
            &&& a[k].1.page is None
        }
}

proof fn lemma_begins_after(
    vs: Seq<(u32, SpanView)>,
    a: Seq<(u32, SpanView)>,
    b: Seq<(u32, SpanView)>,
    m: int,
)
    requires
        begins(a, b, m),
    ensures
        begins(vs + a, vs + b, vs.len() + m),
{
    let x = vs + a;
    let y = vs + b;
    let n = vs.len() + m;
    assert forall|k: int| 0 <= k < n implies #[trigger] x[k] == y[k] by {
        if k >= vs.len() {
            assert(x[k] == a[k - vs.len()]);
        }
    }
    assert forall|k: int| n <= k < x.len() implies {
        &&& (#[trigger] x[k]).0 == y[k].0
        &&& x[k].1 == (SpanView { end: x[k].1.end, ..y[k].1 })
        &&& x[k].1 == x[n].1
        &&& x[k].1.page is None
    } by {
        assert(x[k] == a[k - vs.len()]);
        assert(y[k] == b[k - vs.len()]);
        assert(x[n] == a[m]);
    }
}

proof fn lemma_packed_cut(
    st: HybridStream,
    n: int,
    run_start: int,
    from: int,
    some: int,
    groups: int,
)
    requires
        0 <= from,
        0 <= some <= groups,
        from + some * st.bit_width <= n <= st.data.len(),
    ensures
        begins(st.cut(n).packed(run_start, from, some), st.packed(run_start, from, groups), 0),
        some == groups ==> st.cut(n).packed(run_start, from, some) == st.packed(
            run_start,
            from,
            groups,
        ),
{
    let w = st.bit_width;
    let a = st.cut(n).packed(run_start, from, some);
    let b = st.packed(run_start, from, groups);
    assert forall|k: int| 0 <= k < a.len() implies (#[trigger] a[k]).0 == b[k].0 by {
        assert(0 <= k * w && 8 * from + k * w + w <= 8 * n) by (nonlinear_arith)
            requires
                0 <= k < 8 * some,
                from + some * w <= n,
        ;
        assert(st.data.subrange(0, n) =~= st.data.take(n));
        lemma_bits_moved(st.data, 0, st.data.take(n), 8 * from + k * w, w as nat);
    }
    if some == groups {
        assert(a =~= b);
    }
}

proof fn lemma_runs_cut(st: HybridStream, n: int, pos: int, done: nat) -> (m: int)
    requires
        st.bit_width <= 32,
        0 <= pos <= n <= st.data.len(),
    ensures
        begins(st.cut(n).runs_from(pos, done).0, st.runs_from(pos, done).0, m),
    decreases n - pos,
{
    let part = st.cut(n);
    let w = st.bit_width;
    if pos < n && done < st.expected && varint::varint_at(part.data, pos).0 is Ok {
        varint::lemma_varint_cut(st.data, n, pos);
        varint::lemma_varint_progress(part.data, pos);
        let header = varint::varint_at(part.data, pos).0->Ok_0;
        let p = varint::varint_at(part.data, pos).1;
        let half = header as int / 2;
        let left = n - p;
        if header % 2 == 1 {
            let need = half * w;
            assert(need >= 0) by (nonlinear_arith)
                requires
                    need == half * w,
                    half >= 0,
            ;
            if need <= left {
                let a = part.packed(pos, p, half);
                lemma_packed_cut(st, n, pos, p, half, half);
                let m = lemma_runs_cut(st, n, p + need, done + a.len());
                lemma_begins_after(
                    a,
                    part.runs_from(p + need, done + a.len()).0,
                    st.runs_from(p + need, done + a.len()).0,
                    m,
                );
                a.len() + m
            } else {
                assert(w > 0) by (nonlinear_arith)
                    requires
                        half * w > left,
                        left >= 0,
                ;
                let whole = left / w as int;
                let some = if whole < half {
                    whole
                } else {
                    half
                };
                assert(0 <= some && p + some * w <= n) by (nonlinear_arith)
                    requires
                        w > 0,
                        left >= 0,
                        left == n - p,
                        0 <= half,
                        whole == left / w as int,
                        some == (if whole < half {
                            whole
                        } else {
                            half
                        }),
                ;
                let more = (st.data.len() - p) / w as int;
                assert(some <= more) by (nonlinear_arith)
                    requires
                        w > 0,
                        left >= 0,
                        left == n - p,
                        n <= st.data.len(),
                        whole == left / w as int,
                        some <= whole,
                        more == (st.data.len() - p) / w as int,
                ;
                let groups = if need <= st.data.len() - p || half <= more {
                    half
                } else {
                    more
                };
                lemma_packed_cut(st, n, pos, p, some, groups);
                let a = part.packed(pos, p, some);
                let b = st.packed(pos, p, groups);
                assert(part.runs_from(pos, done).0 == a);
                if need <= st.data.len() - p {
                    let rest = st.runs_from(p + need, done + b.len()).0;
                    assert(st.runs_from(pos, done).0 == b + rest);
                    assert forall|k: int| 0 <= k < a.len() implies (b + rest)[k] == b[k] by {}
                    assert(begins(a, b + rest, 0));
                } else {
                    assert(st.runs_from(pos, done).0 == b);
                }
                0
            }
        } else if half <= st.hard_cap() && left >= st.byte_width() {
            let k = if half < st.hard_cap() - done {
                half
            } else {
                st.hard_cap() - done
            };
            let a = part.repeated(pos, p, k);
            let to = p + st.byte_width();
            assert(part.data.subrange(p, to) =~= st.data.subrange(p, to));
            assert(a =~= st.repeated(pos, p, k));
            let m = lemma_runs_cut(st, n, to, done + a.len());
            lemma_begins_after(
                a,
                part.runs_from(to, done + a.len()).0,
                st.runs_from(to, done + a.len()).0,
                m,
            );
            a.len() + m
        } else {
            0
        }
    } else {
        0
    }
}

/// Partially decoded data survives: what a stream that breaks off gives is the
/// beginning of what the whole stream gives, with the same spans but for the
/// ends of those of a bit-packed run in which it breaks off.
pub proof fn lemma_partial_data_survives(st: HybridStream, n: int) -> (m: int)
    requires
        0 <= n <= st.data.len(),
    ensures
        begins(st.cut(n).values(), st.values(), m),
{
    if st.bit_width <= 32 {
        let m = lemma_runs_cut(st, n, 0, 0);
        if m <= st.expected {
            m
        } else {
            st.expected as int
        }
    } else {
        0
    }
}

/// A level is the value of the stream in 16-bit arithmetic, with its span, whatever
/// its place in the stream.
pub proof fn lemma_levels_of_values(s: Seq<(u32, SpanView)>, k: int)
    ensures
        low_words(s).len() == s.len(),
        0 <= k < s.len() ==> {
            &&& low_words(s)[k].0 as int == s[k].0 as int % 0x1_0000
            &&& low_words(s)[k].1 == s[k].1
        },
{
}

/// Levels that fit in 16 bits come back from a stream as they are: level `k` is value
/// `k` of the runs.
pub proof fn lemma_levels_round_trip(st: HybridStream, runs: Seq<HybridRun>, k: int)
    requires
        st.bit_width <= 32,
        st.expected <= usize::MAX,
        forall|i: int| 0 <= i < runs.len() ==> (#[trigger] runs[i]).valid(st.bit_width),
        st.data == stream_bytes(runs, st.bit_width, 0),
        plausible(runs, st.bit_width, 0, 0, st.expected, st.hard_cap()),
        0 <= k < st.expected,
        k < stream_values(runs, st.bit_width, 0).len(),
        stream_values(runs, st.bit_width, 0)[k] < 0x1_0000,
    ensures
        k < low_words(st.values()).len(),
        low_words(st.values())[k].0 == stream_values(runs, st.bit_width, 0)[k],
        st.stems(low_words(st.values())[k].1, stream_origins(runs, st.bit_width, 0, 0)[k]),
{
    lemma_hybrid_round_trip(st, runs);
    lemma_levels_of_values(st.values(), k);
    assert(st.values()[k].0 == first(stream_values(runs, st.bit_width, 0), st.expected)[k]);
}

proof fn lemma_stream_then(
    st: HybridStream,
    runs: Seq<HybridRun>,
    tail: Seq<u8>,
    i: int,
    pos: int,
    n: nat,
)
    requires
        st.bit_width <= 32,
        st.expected <= usize::MAX,
        forall|k: int| 0 <= k < runs.len() ==> (#[trigger] runs[k]).valid(st.bit_width),
        0 <= i <= runs.len(),
        0 <= pos <= st.data.len(),
        st.data.skip(pos) == stream_bytes(runs, st.bit_width, i) + tail,
        n + stream_values(runs, st.bit_width, i).len() < st.expected,
    ensures
        ({
            let all = st.runs_from(pos, n);
            let vs = stream_values(runs, st.bit_width, i);
            let rest = st.runs_from(st.data.len() - tail.len(), n + vs.len());
            &&& all.0.len() == vs.len() + rest.0.len()
            &&& forall|k: int| 0 <= k < vs.len() ==> (#[trigger] all.0[k]).0 == vs[k]
            &&& forall|k: int|
                vs.len() <= k < all.0.len() ==> #[trigger] all.0[k] == rest.0[k - vs.len()]
            &&& all.1 == rest.1
        }),
    decreases runs.len() - i,
{
    let w = st.bit_width;
    let whole = stream_bytes(runs, w, i) + tail;
    assert(st.data.skip(pos).len() == whole.len());
    if i < runs.len() {
        let run = runs[i];
        let b = run.bytes(w);
        let more = stream_bytes(runs, w, i + 1) + tail;
        let v = run.values(w);
        let vs = stream_values(runs, w, i);
        assert(whole =~= b + more);
        assert(st.data.subrange(pos, pos + b.len()) =~= st.data.skip(pos).subrange(
            0,
            b.len() as int,
        ));
        assert((b + more).subrange(0, b.len() as int) =~= b);
        assert(st.data.skip(pos + b.len()) =~= st.data.skip(pos).skip(b.len() as int));
        assert((b + more).skip(b.len() as int) =~= more);
        assert(run_taken(st, run, n) == v);
        lemma_run_read(st, run, pos, n);
        lemma_stream_then(st, runs, tail, i + 1, pos + b.len(), n + v.len());
        let all = st.runs_from(pos, n);
        let mid = st.runs_from(pos + b.len(), n + v.len());
        let rest = st.runs_from(st.data.len() - tail.len(), n + vs.len());
        assert(n + v.len() + stream_values(runs, w, i + 1).len() == n + vs.len());
        assert forall|k: int| 0 <= k < vs.len() implies (#[trigger] all.0[k]).0 == vs[k] by {
            if k >= v.len() {
                assert(all.0[k] == mid.0[k - v.len()]);
            }
        }
        assert forall|k: int| vs.len() <= k < all.0.len() implies #[trigger] all.0[k]
            == rest.0[k - vs.len()] by {
            assert(all.0[k] == mid.0[k - v.len()]);
        }
    }
}

impl HybridStream {
    /// An error about the column and the page of the stream.
    pub open spec fn complains(self, i: IssueView, message: Seq<char>) -> bool {
        &&& i.severity == "error"@
        &&& i.kind == "LevelDecode"@
        &&& i.message == message
        &&& i.column == Some(self.column)
        &&& i.page == Some(self.page)
    }
}

/// What a stream that breaks off gives: the values of the runs before `tail`, where it
/// breaks off before there are enough. A run header that cannot be read, a repeated run
/// without its value, one that is too long to be true and a bit-packed run with too few
/// bytes are each reported for what they are; of the last the complete groups of eight
/// are kept. A second error says how many values there are of how many.
pub proof fn lemma_hybrid_breaks_off(
    st: HybridStream,
    runs: Seq<HybridRun>,
    tail: Seq<u8>,
    count: nat,
    rest: Seq<u8>,
)
    requires
        st.bit_width <= 32,
        st.expected <= usize::MAX,
        forall|k: int| 0 <= k < runs.len() ==> (#[trigger] runs[k]).valid(st.bit_width),
        st.data == stream_bytes(runs, st.bit_width, 0) + tail,
        stream_values(runs, st.bit_width, 0).len() < st.expected,
        tail.len() > 0,
    ensures
        ({
            let w = st.bit_width;
            let before = stream_values(runs, w, 0);
            let vs = st.values();
            let cap = if 4 * st.expected > usize::MAX {
                usize::MAX as int
            } else if st.expected < 256 {
                1024
            } else {
                4 * st.expected as int
            };
            let repeats = tail == varint::varint_bytes(2 * count) + rest && 2 * count <= u64::MAX;
            let packs = tail == varint::varint_bytes(2 * count + 1) + rest && 2 * count + 1
                <= u64::MAX;
            &&& vs.len() >= before.len()
            &&& forall|k: int| 0 <= k < before.len() ==> (#[trigger] vs[k]).0 == before[k]
            &&& varint::varint_at(tail, 0).0 is Err ==> {
                &&& vs.len() == before.len()
                &&& st.issues().len() == 2
                &&& st.complains(st.issues()[0], "truncated run header"@)
            }
            &&& repeats && count > cap ==> {
                &&& vs.len() == before.len()
                &&& st.issues().len() == 2
                &&& st.complains(
                    st.issues()[0],
                    "implausible RLE run length "@ + text::dec(count),
                )
            }
            &&& repeats && count <= cap && 8 * rest.len() < w ==> {
                &&& vs.len() == before.len()
                &&& st.issues().len() == 2
                &&& st.complains(st.issues()[0], "truncated RLE run value"@)
            }
            &&& packs && rest.len() < count * w ==> {
                let kept = 8 * (rest.len() as int / w as int);
                &&& vs.len() == (if before.len() + kept < st.expected {
                    before.len() + kept
                } else {
                    st.expected as int
                })
                &&& forall|k: int|
                    before.len() <= k < vs.len() ==> (#[trigger] vs[k]).0 == packed_value(
                        rest,
                        w,
                        k - before.len(),
                    )
                &&& st.issues().len() == (if vs.len() < st.expected {
                    2nat
                } else {
                    1
                })
                &&& st.complains(
                    st.issues()[0],
                    "bit-packed run of "@ + text::dec(count) + " groups needs "@ + text::dec(
                        (count * w) as nat,
                    ) + " bytes, only "@ + text::dec(rest.len()) + " left"@,
                )
            }
            &&& vs.len() < st.expected ==> st.issues().len() > 0 && st.complains(
                st.issues().last(),
                st.kind + " stream truncated: decoded "@ + text::dec(vs.len()) + " of "@
                    + text::dec(st.expected) + " expected values"@,
            )
        }),
{
    let w = st.bit_width;
    let before = stream_values(runs, w, 0);
    let p = st.data.len() - tail.len();
    assert(st.data.skip(0) =~= st.data);
    lemma_stream_then(st, runs, tail, 0, 0, 0);
    assert(st.data.skip(p) =~= tail);
    lemma_tail_read(st, tail, p, before.len(), count, rest);
    let all = st.runs_from(0, 0).0;
    assert forall|k: int| 0 <= k < st.values().len() implies #[trigger] st.values()[k]
        == all[k] by {}
}

proof fn lemma_varint_moved(s: Seq<u8>, p: int, tail: Seq<u8>)
    requires
        0 <= p <= s.len(),
        s.skip(p) == tail,
    ensures
        varint::varint_at(s, p).0 == varint::varint_at(tail, 0).0,
{
    assert(varint::window(s, p) =~= varint::window(tail, 0));
}

proof fn lemma_tail_read(
    st: HybridStream,
    tail: Seq<u8>,
    p: int,
    n: nat,
    count: nat,
    rest: Seq<u8>,
)
    requires
        st.bit_width <= 32,
        st.expected <= usize::MAX,
        0 <= p < st.data.len(),
        st.data.skip(p) == tail,
        n < st.expected,
    ensures
        ({
            let w = st.bit_width;
            let (vs, faults) = st.runs_from(p, n);
            let cap = if 4 * st.expected > usize::MAX {
                usize::MAX as int
            } else if st.expected < 256 {
                1024
            } else {
                4 * st.expected as int
            };
            let repeats = tail == varint::varint_bytes(2 * count) + rest && 2 * count <= u64::MAX;
            let packs = tail == varint::varint_bytes(2 * count + 1) + rest && 2 * count + 1
                <= u64::MAX;
            &&& varint::varint_at(tail, 0).0 is Err ==> {
                &&& vs.len() == 0
                &&& faults == seq![st.fault("truncated run header"@)]
            }
            &&& repeats && count > cap ==> {
                &&& vs.len() == 0
                &&& faults == seq![
                    st.fault("implausible RLE run length "@ + text::dec(count)),
                ]
            }
            &&& repeats && count <= cap && 8 * rest.len() < w ==> {
                &&& vs.len() == 0
                &&& faults == seq![st.fault("truncated RLE run value"@)]
            }
            &&& packs && rest.len() < count * w ==> {
                &&& vs.len() == 8 * (rest.len() as int / w as int)
                &&& forall|k: int|
                    0 <= k < vs.len() ==> (#[trigger] vs[k]).0 == packed_value(rest, w, k)
                &&& faults == seq![
                    st.fault(
                        "bit-packed run of "@ + text::dec(count) + " groups needs "@ + text::dec(
                            (count * w) as nat,
                        ) + " bytes, only "@ + text::dec(rest.len()) + " left"@,
                    ),
                ]
            }
        }),
{
    let w = st.bit_width;
    lemma_varint_moved(st.data, p, tail);
    lemma_header_read(st, tail, p, 2 * count, rest);
    lemma_header_read(st, tail, p, 2 * count + 1, rest);
    let packs = tail == varint::varint_bytes(2 * count + 1) + rest && 2 * count + 1 <= u64::MAX;
    if packs && rest.len() < count * w {
        let from = st.data.len() - rest.len();
        assert(w > 0) by (nonlinear_arith)
            requires
                rest.len() < count * w,
        ;
        let whole = rest.len() as int / w as int;
        assert(0 <= whole && whole < count && whole * w <= rest.len()) by (nonlinear_arith)
            requires
                whole == rest.len() as int / w as int,
                rest.len() < count * w,
                w > 0,
        ;
        assert((2 * count + 1) as int / 2 == count);
        assert((2 * count + 1) % 2 == 1);
        assert(st.runs_from(p, n).0 == st.packed(p, from, whole));
        let vs = st.packed(p, from, whole);
        assert(st.data.subrange(from, from + rest.len()) =~= rest);
        assert forall|k: int| 0 <= k < vs.len() implies (#[trigger] vs[k]).0 == packed_value(
            rest,
            w,
            k,
        ) by {
            assert(0 <= k * w && k * w + w <= 8 * rest.len()) by (nonlinear_arith)
                requires
                    0 <= k < 8 * whole,
                    whole * w <= rest.len(),
            ;
            lemma_bits_moved(st.data, from, rest, k * w, w as nat);
            bits::lemma_bits_of_number(rest, k * w, w as nat);
        }
    }
}

proof fn lemma_header_read(st: HybridStream, tail: Seq<u8>, p: int, header: nat, rest: Seq<u8>)
    requires
        0 <= p < st.data.len(),
        st.data.skip(p) == tail,
    ensures
        tail == varint::varint_bytes(header) + rest && header <= u64::MAX ==> varint::varint_at(
            st.data,
            p,
        ) == (
            Ok::<u64, varint::VarintFault>(header as u64),
            st.data.len() - rest.len(),
        ) && st.data.skip(st.data.len() - rest.len()) == rest,
{
    if tail == varint::varint_bytes(header) + rest && header <= u64::MAX {
        let h = varint::varint_bytes(header);
        assert(tail.len() == st.data.len() - p);
        assert(st.data.subrange(p, p + h.len()) =~= tail.subrange(0, h.len() as int));
        assert((h + rest).subrange(0, h.len() as int) =~= h);
        varint::lemma_varint_round_trip(st.data, p, header as u64);
        assert(st.data.skip(p + h.len()) =~= tail.skip(h.len() as int));
        assert((h + rest).skip(h.len() as int) =~= rest);
    }
}

/// Values of more than 32 bits are not decoded; one error says so.
pub proof fn lemma_hybrid_width(st: HybridStream)
    ensures
        st.bit_width > 32 ==> {
            &&& st.values().len() == 0
            &&& st.issues().len() == 1
            &&& st.complains(
                st.issues()[0],
                "invalid bit width "@ + text::dec(st.bit_width as nat) + " (> 32)"@,
            )
        },
{
}

/// What values with spans are taken to hold: each value and each span, one for one.
pub proof fn lemma_traced_contents(s: Seq<(u32, Span)>, t: Seq<(u16, Span)>, i: int)
    ensures
        model::traced_view(s).len() == s.len(),
        model::traced_view(t).len() == t.len(),
        0 <= i < s.len() ==> model::traced_view(s)[i] == (s[i].0, s[i].1@),
        0 <= i < t.len() ==> model::traced_view(t)[i] == (t[i].0, t[i].1@),
{
}

} // verus!
