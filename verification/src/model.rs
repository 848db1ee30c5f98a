//! Issues, byte lineage and logical values, the schema tree, and the assembly
//! of shredded columns (definition and repetition levels) into logical rows.
use vstd::prelude::*;
use vstd::string::*;

use crate::equality;
use crate::text;

pub use crate::assemble::assemble_column;
pub use crate::schema::{build_schema, LeafInfo, SchemaError, SchemaNode};

verus! {

/// The text in an optional string.
pub open spec fn opt_text(o: Option<String>) -> Option<Seq<char>> {
    match o {
        Some(s) => Some(s@),
        None => None,
    }
}

/// `std`'s conversion of a type into itself returns its argument.
pub assume_specification<Same>[ <Same as core::convert::From<Same>>::from ](t: Same) -> (r: Same)
    ensures
        r == t,
;

/// `std`'s conversion of a string slice into a `String` keeps the text.
pub assume_specification<'a>[ <String as core::convert::From<&'a str>>::from ](s: &str) -> (r:
    String)
    ensures
        r@ == s@,
;

/// Something noteworthy about the input.
#[derive(Debug, Clone)]
pub struct Issue {
    /// "error", "warn" or "info"
    pub severity: String,
    pub kind: String,
    pub message: String,
    pub column: Option<String>,
    pub page: Option<usize>,
}

/// The contents of an [`Issue`].
pub struct IssueView {
    pub severity: Seq<char>,
    pub kind: Seq<char>,
    pub message: Seq<char>,
    pub column: Option<Seq<char>>,
    pub page: Option<usize>,
}

impl View for Issue {
    type V = IssueView;

    open spec fn view(&self) -> IssueView {
        IssueView {
            severity: self.severity@,
            kind: self.kind@,
            message: self.message@,
            column: opt_text(self.column),
            page: self.page,
        }
    }
}

impl IssueView {
    /// An error that names neither column nor page.
    pub open spec fn error(kind: Seq<char>, message: Seq<char>) -> IssueView {
        IssueView { severity: "error"@, kind, message, column: None, page: None }
    }

    pub open spec fn for_column(self, column: Seq<char>) -> IssueView {
        IssueView { column: Some(column), ..self }
    }

    pub open spec fn for_page(self, page: usize) -> IssueView {
        IssueView { page: Some(page), ..self }
    }
}

/// The contents of each issue.
pub open spec fn issues_view(issues: Seq<Issue>) -> Seq<IssueView> {
    Seq::new(issues.len(), |i: int| issues[i]@)
}

/// Appends an issue.
pub fn report(issues: &mut Vec<Issue>, issue: Issue)
    ensures
        final(issues)@ == old(issues)@.push(issue),
        issues_view(final(issues)@) == issues_view(old(issues)@) + seq![issue@],
{
    let ghost before = issues_view(issues@);
    issues.push(issue);
    assert(issues_view(issues@) =~= before + seq![issue@]);
}

impl Issue {
    pub fn error<S: Into<String>>(kind: &str, message: S) -> (r: Issue)
        ensures
            r@ == IssueView::error(kind@, r.message@),
            call_ensures(<S as Into<String>>::into, (message,), r.message),
    {
        Issue {
            severity: "error".to_string(),
            kind: kind.to_string(),
            message: message.into(),
            column: None,
            page: None,
        }
    }

    pub fn info<S: Into<String>>(kind: &str, message: S) -> (r: Issue)
        ensures
            r@ == (IssueView {
                severity: "info"@,
                kind: kind@,
                message: r.message@,
                column: None,
                page: None,
            }),
            call_ensures(<S as Into<String>>::into, (message,), r.message),
    {
        Issue {
            severity: "info".to_string(),
            kind: kind.to_string(),
            message: message.into(),
            column: None,
            page: None,
        }
    }

    /// The same issue, about column `col`.
    pub fn for_column(self, col: &str) -> (r: Issue)
        ensures
            r@ == self@.for_column(col@),
    {
        Issue {
            severity: self.severity,
            kind: self.kind,
            message: self.message,
            column: Some(col.to_string()),
            page: self.page,
        }
    }

    /// The same issue, about page `page`.
    pub fn for_page(self, page: usize) -> (r: Issue)
        ensures
            r@ == self@.for_page(page),
    {
        Issue {
            severity: self.severity,
            kind: self.kind,
            message: self.message,
            column: self.column,
            page: Some(page),
        }
    }
}

/// Byte-range lineage: which file bytes produced a logical value.
#[derive(Debug)]
pub struct Span {
    /// "def_levels", "rep_levels", "values", "dict_indices" or "dictionary"
    pub kind: String,
    /// Absolute file offset, inclusive.
    pub start: u64,
    /// Absolute file offset, exclusive.
    pub end: u64,
    pub page: Option<usize>,
}

/// The contents of a [`Span`].
pub struct SpanView {
    pub kind: Seq<char>,
    pub start: u64,
    pub end: u64,
    pub page: Option<usize>,
}

impl View for Span {
    type V = SpanView;

    open spec fn view(&self) -> SpanView {
        SpanView { kind: self.kind@, start: self.start, end: self.end, page: self.page }
    }
}

impl Clone for Span {
    fn clone(&self) -> (r: Span)
        ensures
            r@ == self@,
    {
        Span { kind: self.kind.clone(), start: self.start, end: self.end, page: self.page }
    }
}

/// The contents of each span.
pub open spec fn spans_view(spans: Seq<Span>) -> Seq<SpanView> {
    Seq::new(spans.len(), |i: int| spans[i]@)
}

/// Values with the contents of their spans.
pub open spec fn traced_view<T>(s: Seq<(T, Span)>) -> Seq<(T, SpanView)> {
    Seq::new(s.len(), |i: int| (s[i].0, s[i].1@))
}

/// `x` bytes behind `base`, in 64-bit arithmetic.
pub open spec fn offset(base: u64, x: int) -> u64 {
    if base + x > u64::MAX {
        (base + x - 0x1_0000_0000_0000_0000) as u64
    } else {
        (base + x) as u64
    }
}

/// The lower-case hexadecimal dump of `b`.
pub fn hex(b: &[u8]) -> (s: String)
    ensures
        s@ == text::hex_text(b@),
{
    let mut out = String::new();
    let mut i: usize = 0;
    while i < b.len()
        invariant
            i <= b@.len(),
            out@ == text::hex_text(b@.take(i as int)),
        decreases b@.len() - i,
    {
        let x: u8 = b[i];
        out.append(text::digit_str(x / 16));
        out.append(text::digit_str(x % 16));
        assert(b@.take(i + 1).drop_last() =~= b@.take(i as int));
        i += 1;
    }
    assert(b@.take(b@.len() as int) =~= b@);
    out
}

/// A primitive value. Floating-point numbers are kept as their IEEE 754 bit
/// patterns.
#[derive(Debug)]
pub enum Prim {
    Bool(bool),
    I32(i32),
    I64(i64),
    /// Kept as raw 12 bytes; never reinterpreted as a timestamp.
    I96([u8; 12]),
    F32(u32),
    F64(u64),
    Bytes(Vec<u8>),
    Fixed(Vec<u8>),
}

/// The contents of a [`Prim`].
pub enum PrimView {
    Bool(bool),
    I32(i32),
    I64(i64),
    I96(Seq<u8>),
    F32(u32),
    F64(u64),
    Bytes(Seq<u8>),
    Fixed(Seq<u8>),
}

impl View for Prim {
    type V = PrimView;

    open spec fn view(&self) -> PrimView {
        match *self {
            Prim::Bool(b) => PrimView::Bool(b),
            Prim::I32(v) => PrimView::I32(v),
            Prim::I64(v) => PrimView::I64(v),
            Prim::I96(b) => PrimView::I96(b@),
            Prim::F32(v) => PrimView::F32(v),
            Prim::F64(v) => PrimView::F64(v),
            Prim::Bytes(b) => PrimView::Bytes(b@),
            Prim::Fixed(b) => PrimView::Fixed(b@),
        }
    }
}

impl Clone for Prim {
    fn clone(&self) -> (r: Prim)
        ensures
            r@ == self@,
    {
        match self {
            Prim::Bool(b) => Prim::Bool(*b),
            Prim::I32(v) => Prim::I32(*v),
            Prim::I64(v) => Prim::I64(*v),
            Prim::I96(b) => Prim::I96(*b),
            Prim::F32(v) => Prim::F32(*v),
            Prim::F64(v) => Prim::F64(*v),
            Prim::Bytes(b) => Prim::Bytes(vstd::slice::slice_to_vec(b.as_slice())),
            Prim::Fixed(b) => Prim::Fixed(vstd::slice::slice_to_vec(b.as_slice())),
        }
    }
}

/// The values are equal; floating-point numbers are compared as numbers.
pub open spec fn prims_equal(a: PrimView, b: PrimView) -> bool {
    match (a, b) {
        (PrimView::F32(x), PrimView::F32(y)) => equality::equal32(x, y),
        (PrimView::F64(x), PrimView::F64(y)) => equality::equal64(x, y),
        _ => a == b,
    }
}

impl PartialEq for Prim {
    fn eq(&self, other: &Prim) -> (r: bool) {
        match (self, other) {
            (Prim::Bool(x), Prim::Bool(y)) => *x == *y,
            (Prim::I32(x), Prim::I32(y)) => *x == *y,
            (Prim::I64(x), Prim::I64(y)) => *x == *y,
            (Prim::I96(x), Prim::I96(y)) => equality::same_bytes(x.as_slice(), y.as_slice()),
            (Prim::F32(x), Prim::F32(y)) => equality::same32(*x, *y),
            (Prim::F64(x), Prim::F64(y)) => equality::same64(*x, *y),
            (Prim::Bytes(x), Prim::Bytes(y)) => equality::same_bytes(x.as_slice(), y.as_slice()),
            (Prim::Fixed(x), Prim::Fixed(y)) => equality::same_bytes(x.as_slice(), y.as_slice()),
            _ => false,
        }
    }
}

impl vstd::std_specs::cmp::PartialEqSpecImpl for Prim {
    open spec fn obeys_eq_spec() -> bool {
        true
    }

    open spec fn eq_spec(&self, other: &Prim) -> bool {
        prims_equal(self@, other@)
    }
}

/// Primitive values with their spans, by contents.
pub open spec fn prims_view(s: Seq<(Prim, Span)>) -> Seq<(PrimView, SpanView)> {
    Seq::new(s.len(), |i: int| (s[i].0@, s[i].1@))
}

/// One shredded value: levels, the primitive if there is one, byte lineage.
#[derive(Debug)]
pub struct Triple {
    pub rep: u16,
    pub def: u16,
    pub val: Option<Prim>,
    pub spans: Vec<Span>,
}

/// The contents of a [`Triple`].
pub struct TripleView {
    pub rep: u16,
    pub def: u16,
    pub val: Option<PrimView>,
    pub spans: Seq<SpanView>,
}

impl View for Triple {
    type V = TripleView;

    open spec fn view(&self) -> TripleView {
        TripleView {
            rep: self.rep,
            def: self.def,
            val: match self.val {
                Some(p) => Some(p@),
                None => None,
            },
            spans: spans_view(self.spans@),
        }
    }
}

impl Clone for Triple {
    fn clone(&self) -> (r: Triple)
        ensures
            r@ == self@,
    {
        let val = match &self.val {
            Some(p) => Some(p.clone()),
            None => None,
        };
        let mut spans: Vec<Span> = Vec::new();
        copy_spans(&self.spans, &mut spans);
        assert(spans_view(spans@) =~= spans_view(self.spans@));
        Triple { rep: self.rep, def: self.def, val, spans }
    }
}

/// The contents of each triple.
pub open spec fn triples_view(triples: Seq<Triple>) -> Seq<TripleView> {
    Seq::new(triples.len(), |i: int| triples[i]@)
}

/// Appends copies of `from`.
pub fn copy_spans(from: &Vec<Span>, to: &mut Vec<Span>)
    ensures
        spans_view(final(to)@) == spans_view(old(to)@) + spans_view(from@),
{
    let ghost start = spans_view(to@);
    let mut i: usize = 0;
    while i < from.len()
        invariant
            i <= from@.len(),
            spans_view(to@) == start + spans_view(from@).take(i as int),
        decreases from@.len() - i,
    {
        let ghost before = spans_view(to@);
        to.push(from[i].clone());
        assert(spans_view(to@) =~= before.push(from@[i as int]@));
        assert(spans_view(from@).take(i + 1) =~= spans_view(from@).take(i as int).push(
            from@[i as int]@,
        ));
        i += 1;
    }
    assert(spans_view(from@).take(i as int) =~= spans_view(from@));
}

/// A logical (assembled) value.
#[derive(Debug)]
pub enum Value {
    Null,
    Prim(Prim),
    List(Vec<Value>),
    Struct(Vec<(String, Value)>),
}

/// The contents of a [`Value`].
pub enum ValueTree {
    Null,
    Prim(PrimView),
    List(Seq<ValueTree>),
    Struct(Seq<(Seq<char>, ValueTree)>),
}

/// The contents of each value.
pub open spec fn values_tree(items: Seq<Value>) -> Seq<ValueTree>
    decreases items,
{
    Seq::new(
        items.len(),
        |i: int|
            if 0 <= i < items.len() {
                items[i].tree()
            } else {
                arbitrary()
            },
    )
}

/// The name and contents of each field.
pub open spec fn members_tree(fields: Seq<(String, Value)>) -> Seq<(Seq<char>, ValueTree)>
    decreases fields,
{
    Seq::new(
        fields.len(),
        |i: int|
            if 0 <= i < fields.len() {
                (fields[i].0@, fields[i].1.tree())
            } else {
                arbitrary()
            },
    )
}

impl View for Value {
    type V = ValueTree;

    open spec fn view(&self) -> ValueTree {
        self.tree()
    }
}

/// The values are equal; floating-point numbers are compared as numbers.
pub open spec fn values_equal(a: ValueTree, b: ValueTree) -> bool
    decreases a,
{
    match (a, b) {
        (ValueTree::Null, ValueTree::Null) => true,
        (ValueTree::Prim(x), ValueTree::Prim(y)) => prims_equal(x, y),
        (ValueTree::List(x), ValueTree::List(y)) => x.len() == y.len() && forall|i: int|
            0 <= i < x.len() ==> values_equal(#[trigger] x[i], y[i]),
        (ValueTree::Struct(x), ValueTree::Struct(y)) => x.len() == y.len() && forall|i: int|
            0 <= i < x.len() ==> (#[trigger] x[i]).0 == y[i].0 && values_equal(x[i].1, y[i].1),
        _ => false,
    }
}

impl PartialEq for Value {
    fn eq(&self, other: &Value) -> (r: bool) {
        self.equals(other)
    }
}

impl vstd::std_specs::cmp::PartialEqSpecImpl for Value {
    open spec fn obeys_eq_spec() -> bool {
        true
    }

    open spec fn eq_spec(&self, other: &Value) -> bool {
        values_equal(self@, other@)
    }
}

impl Clone for Value {
    fn clone(&self) -> (r: Value)
        ensures
            r@ == self@,
    {
        self.duplicate()
    }
}

impl Value {
    pub open spec fn tree(self) -> ValueTree
        decreases self,
    {
        match self {
            Value::Null => ValueTree::Null,
            Value::Prim(p) => ValueTree::Prim(p@),
            Value::List(l) => ValueTree::List(values_tree(l@)),
            Value::Struct(s) => ValueTree::Struct(members_tree(s@)),
        }
    }

    /// A deep copy.
    fn duplicate(&self) -> (r: Value)
        ensures
            r@ == self@,
        decreases self,
    {
        match self {
            Value::Null => Value::Null,
            Value::Prim(p) => Value::Prim(p.clone()),
            Value::List(l) => {
                let mut out: Vec<Value> = Vec::new();
                let mut i: usize = 0;
                while i < l.len()
                    invariant
                        i <= l@.len(),
                        out@.len() == i,
                        *self == Value::List(*l),
                        forall|k: int| 0 <= k < i ==> (#[trigger] out@[k])@ == l@[k]@,
                    decreases l@.len() - i,
                {
                    assert(decreases_to!(*self => self->List_0));
                    assert(decreases_to!(*l => l[i as int]));
                    out.push(l[i].duplicate());
                    i += 1;
                }
                assert(values_tree(out@) =~= values_tree(l@));
                Value::List(out)
            },
            Value::Struct(s) => {
                let mut out: Vec<(String, Value)> = Vec::new();
                let mut i: usize = 0;
                while i < s.len()
                    invariant
                        i <= s@.len(),
                        out@.len() == i,
                        *self == Value::Struct(*s),
                        forall|k: int|
                            0 <= k < i ==> (#[trigger] out@[k]).0@ == s@[k].0@ && out@[k].1@
                                == s@[k].1@,
                    decreases s@.len() - i,
                {
                    let f: &(String, Value) = &s[i];
                    assert(decreases_to!(*self => self->Struct_0));
                    assert(decreases_to!(*s => s[i as int]));
                    assert(decreases_to!(*f => f.1));
                    out.push((f.0.clone(), f.1.duplicate()));
                    i += 1;
                }
                assert(members_tree(out@) =~= members_tree(s@));
                Value::Struct(out)
            },
        }
    }

    /// Whether the values are equal.
    fn equals(&self, other: &Value) -> (r: bool)
        ensures
            r == values_equal(self@, other@),
        decreases self,
    {
        match (self, other) {
            (Value::Null, Value::Null) => true,
            (Value::Prim(x), Value::Prim(y)) => x.eq(y),
            (Value::List(x), Value::List(y)) => {
                if x.len() != y.len() {
                    return false;
                }
                let mut i: usize = 0;
                while i < x.len()
                    invariant
                        i <= x@.len(),
                        x@.len() == y@.len(),
                        *self == Value::List(*x),
                        *other == Value::List(*y),
                        forall|k: int|
                            0 <= k < i ==> values_equal(
                                #[trigger] values_tree(x@)[k],
                                values_tree(y@)[k],
                            ),
                    decreases x@.len() - i,
                {
                    assert(decreases_to!(*self => self->List_0));
                    assert(decreases_to!(*x => x[i as int]));
                    assert(values_tree(x@)[i as int] == x@[i as int]@);
                    assert(values_tree(y@)[i as int] == y@[i as int]@);
                    if !x[i].equals(&y[i]) {
                        return false;
                    }
                    i += 1;
                }
                proof {
                    let a = values_tree(x@);
                    let b = values_tree(y@);
                    assert(self@ == ValueTree::List(a) && other@ == ValueTree::List(b));
                    assert forall|k: int| 0 <= k < a.len() implies values_equal(
                        #[trigger] a[k],
                        b[k],
                    ) by {}
                    assert(values_equal(ValueTree::List(a), ValueTree::List(b)));
                }
                true
            },
            (Value::Struct(x), Value::Struct(y)) => {
                if x.len() != y.len() {
                    return false;
                }
                let mut i: usize = 0;
                while i < x.len()
                    invariant
                        i <= x@.len(),
                        x@.len() == y@.len(),
                        *self == Value::Struct(*x),
                        *other == Value::Struct(*y),
                        forall|k: int|
                            0 <= k < i ==> (#[trigger] members_tree(x@)[k]).0 == members_tree(
                                y@,
                            )[k].0 && values_equal(members_tree(x@)[k].1, members_tree(y@)[k].1),
                    decreases x@.len() - i,
                {
                    let f: &(String, Value) = &x[i];
                    let g: &(String, Value) = &y[i];
                    assert(decreases_to!(*self => self->Struct_0));
                    assert(decreases_to!(*x => x[i as int]));
                    assert(decreases_to!(*f => f.1));
                    assert(members_tree(x@)[i as int] == (f.0@, f.1@));
                    assert(members_tree(y@)[i as int] == (g.0@, g.1@));
                    if !text::same_text(f.0.as_str(), g.0.as_str()) || !f.1.equals(&g.1) {
                        return false;
                    }
                    i += 1;
                }
                proof {
                    let a = members_tree(x@);
                    let b = members_tree(y@);
                    assert(self@ == ValueTree::Struct(a) && other@ == ValueTree::Struct(b));
                    assert forall|k: int| 0 <= k < a.len() implies (#[trigger] a[k]).0 == b[k].0
                        && values_equal(a[k].1, b[k].1) by {}
                    assert(values_equal(ValueTree::Struct(a), ValueTree::Struct(b)));
                }
                true
            },
            _ => false,
        }
    }
}

/// What an [`Issue`] and a [`Span`] are taken to hold: their own fields.
pub proof fn lemma_record_contents(i: Issue, s: Span, is: Seq<Issue>, ss: Seq<Span>, k: int)
    ensures
        i@.severity == i.severity@,
        i@.kind == i.kind@,
        i@.message == i.message@,
        i.column matches Some(c) ==> i@.column == Some(c@),
        i.column is None ==> i@.column is None,
        i@.page == i.page,
        s@.kind == s.kind@,
        s@.start == s.start,
        s@.end == s.end,
        s@.page == s.page,
        issues_view(is).len() == is.len(),
        0 <= k < is.len() ==> issues_view(is)[k] == is[k]@,
        spans_view(ss).len() == ss.len(),
        0 <= k < ss.len() ==> spans_view(ss)[k] == ss[k]@,
{
}

/// What a new issue says: the kind and message that it was made of. A column and a
/// page can be added, and nothing else changes with them.
pub proof fn lemma_issue_parts(
    kind: Seq<char>,
    message: Seq<char>,
    i: IssueView,
    column: Seq<char>,
    page: usize,
)
    ensures
        ({
            let e = IssueView::error(kind, message);
            &&& e.severity == "error"@
            &&& e.kind == kind
            &&& e.message == message
            &&& e.column is None
            &&& e.page is None
        }),
        ({
            let c = i.for_column(column);
            let p = i.for_page(page);
            &&& c.column == Some(column)
            &&& p.page == Some(page)
            &&& c.page == i.page
            &&& p.column == i.column
            &&& c.severity == i.severity && p.severity == i.severity
            &&& c.kind == i.kind && p.kind == i.kind
            &&& c.message == i.message && p.message == i.message
        }),
{
}

/// A place behind a file offset is that many bytes further on, in 64-bit arithmetic.
pub proof fn lemma_offset(base: u64, x: int)
    requires
        0 <= x <= u64::MAX,
    ensures
        offset(base, x) == (base + x) % 0x1_0000_0000_0000_0000,
{
}

/// What a [`Prim`] is taken to hold: its variant and what is in it.
pub proof fn lemma_prim_contents(p: Prim)
    ensures
        match p {
            Prim::Bool(b) => p@ == PrimView::Bool(b),
            Prim::I32(v) => p@ == PrimView::I32(v),
            Prim::I64(v) => p@ == PrimView::I64(v),
            Prim::I96(b) => p@ == PrimView::I96(b@),
            Prim::F32(v) => p@ == PrimView::F32(v),
            Prim::F64(v) => p@ == PrimView::F64(v),
            Prim::Bytes(b) => p@ == PrimView::Bytes(b@),
            Prim::Fixed(b) => p@ == PrimView::Fixed(b@),
        },
{
}

/// What a [`Triple`] is taken to hold: its levels, its value if it has one, and its
/// spans.
pub proof fn lemma_triple_contents(t: Triple, ts: Seq<Triple>, ps: Seq<(Prim, Span)>, k: int)
    ensures
        t@.rep == t.rep,
        t@.def == t.def,
        t.val matches Some(p) ==> t@.val == Some(p@),
        t.val is None ==> t@.val is None,
        t@.spans.len() == t.spans@.len(),
        0 <= k < t.spans@.len() ==> t@.spans[k] == t.spans@[k]@,
        triples_view(ts).len() == ts.len(),
        0 <= k < ts.len() ==> triples_view(ts)[k] == ts[k]@,
        prims_view(ps).len() == ps.len(),
        0 <= k < ps.len() ==> prims_view(ps)[k] == (ps[k].0@, ps[k].1@),
{
}

/// What a [`Value`] is taken to hold: its variant, and what its parts hold, one for one.
pub proof fn lemma_value_contents(v: Value, k: int)
    ensures
        match v {
            Value::Null => v@ is Null,
            Value::Prim(p) => v@ == ValueTree::Prim(p@),
            Value::List(l) => v@ matches ValueTree::List(t) && t.len() == l@.len() && (0 <= k
                < t.len() ==> t[k] == l@[k]@),
            Value::Struct(f) => v@ matches ValueTree::Struct(t) && t.len() == f@.len() && (0 <= k
                < t.len() ==> t[k] == (f@[k].0@, f@[k].1@)),
        },
{
}

/// The value holds no floating-point number.
pub open spec fn float_free(v: ValueTree) -> bool
    decreases v,
{
    match v {
        ValueTree::Null => true,
        ValueTree::Prim(p) => !(p is F32) && !(p is F64),
        ValueTree::List(items) => forall|i: int|
            0 <= i < items.len() ==> float_free(#[trigger] items[i]),
        ValueTree::Struct(fields) => forall|i: int|
            0 <= i < fields.len() ==> float_free((#[trigger] fields[i]).1),
    }
}

/// Values without floating-point numbers are equal exactly if they are the same.
pub proof fn lemma_equality_is_identity(a: ValueTree, b: ValueTree)
    requires
        float_free(a),
    ensures
        values_equal(a, b) <==> a == b,
    decreases a,
{
    match (a, b) {
        (ValueTree::List(x), ValueTree::List(y)) => {
            if x.len() == y.len() {
                assert forall|i: int| 0 <= i < x.len() implies (values_equal(
                    #[trigger] x[i],
                    y[i],
                ) <==> x[i] == y[i]) by {
                    lemma_equality_is_identity(x[i], y[i]);
                }
                if values_equal(a, b) {
                    assert(x =~= y);
                }
            }
        },
        (ValueTree::Struct(x), ValueTree::Struct(y)) => {
            if x.len() == y.len() {
                assert forall|i: int| 0 <= i < x.len() implies (values_equal(
                    (#[trigger] x[i]).1,
                    y[i].1,
                ) <==> x[i].1 == y[i].1) by {
                    assert(decreases_to!(x => x[i]));
                    lemma_equality_is_identity(x[i].1, y[i].1);
                }
                if values_equal(a, b) {
                    assert forall|i: int| 0 <= i < x.len() implies x[i] == y[i] by {
                        assert(x[i].0 == y[i].0);
                    }
                    assert(x =~= y);
                }
            }
        },
        _ => {},
    }
}

/// Floating-point numbers are equal as numbers, never to a value of another type.
pub proof fn lemma_float_prims_equal(a: u32, b: u32, c: u64, d: u64, p: PrimView)
    ensures
        prims_equal(PrimView::F32(a), PrimView::F32(b)) == equality::equal32(a, b),
        prims_equal(PrimView::F64(c), PrimView::F64(d)) == equality::equal64(c, d),
        !(p is F32) ==> !prims_equal(PrimView::F32(a), p) && !prims_equal(p, PrimView::F32(a)),
        !(p is F64) ==> !prims_equal(PrimView::F64(c), p) && !prims_equal(p, PrimView::F64(c)),
{
}

/// Equality goes through every part: lists are equal exactly if they are as long and their
/// items are equal, and structs if the names are the same too, in the same order.
pub proof fn lemma_equality_of_parts(
    p: PrimView,
    q: PrimView,
    x: Seq<ValueTree>,
    y: Seq<ValueTree>,
    f: Seq<(Seq<char>, ValueTree)>,
    g: Seq<(Seq<char>, ValueTree)>,
)
    ensures
        values_equal(ValueTree::Prim(p), ValueTree::Prim(q)) == prims_equal(p, q),
        values_equal(ValueTree::List(x), ValueTree::List(y)) <==> {
            &&& x.len() == y.len()
            &&& forall|i: int| 0 <= i < x.len() ==> values_equal(#[trigger] x[i], y[i])
        },
        values_equal(ValueTree::Struct(f), ValueTree::Struct(g)) <==> {
            &&& f.len() == g.len()
            &&& forall|i: int|
                0 <= i < f.len() ==> (#[trigger] f[i]).0 == g[i].0 && values_equal(f[i].1, g[i].1)
        },
{
    assert(ValueTree::List(x)->List_0 == x && ValueTree::List(y)->List_0 == y);
    assert(ValueTree::Struct(f)->Struct_0 == f && ValueTree::Struct(g)->Struct_0 == g);
}

} // verus!
