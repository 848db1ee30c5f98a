//! Assembly of one shredded column (definition and repetition levels) into
//! logical rows.
use vstd::prelude::*;
use vstd::string::*;

use crate::model::{
    copy_spans, issues_view, members_tree, report, spans_view, triples_view, values_tree, Issue,
    IssueView, Span, SpanView, Triple, TripleView, Value, ValueTree,
};
use crate::schema::{
    first_at, lemma_route_finds, lemma_wide, node_on, nodes_tree, reaches, route_from, NodeTree,
    SchemaNode,
};
use crate::text;

verus! {

/// What one step of the assembly makes of the values from some position on:
/// a value, the position behind the values it used up, their lineage, and the
/// issues it found.
pub struct Step {
    pub value: ValueTree,
    pub pos: int,
    pub spans: Seq<SpanView>,
    pub issues: Seq<IssueView>,
}

/// What the assembly of a repeated field makes of the values.
pub struct Run {
    pub items: Seq<ValueTree>,
    pub pos: int,
    pub spans: Seq<SpanView>,
    pub issues: Seq<IssueView>,
}

impl Run {
    /// The run with what came before it.
    pub open spec fn after(
        self,
        items: Seq<ValueTree>,
        spans: Seq<SpanView>,
        issues: Seq<IssueView>,
    ) -> Run {
        Run {
            items: items + self.items,
            pos: self.pos,
            spans: spans + self.spans,
            issues: issues + self.issues,
        }
    }
}

/// A row: its value and its lineage.
pub type Row = (ValueTree, Seq<SpanView>);

/// What the assembly of a column makes of the values.
pub struct Assembly {
    pub rows: Seq<Row>,
    pub pos: int,
    pub issues: Seq<IssueView>,
}

impl Assembly {
    /// The assembly with what came before it.
    pub open spec fn after(self, rows: Seq<Row>, issues: Seq<IssueView>) -> Assembly {
        Assembly { rows: rows + self.rows, pos: self.pos, issues: issues + self.issues }
    }
}

/// The message about values that are missing for a row.
pub open spec fn ran_out(row: nat) -> Seq<char> {
    "ran out of values at row "@ + text::dec(row) + " ("@ + text::dec(row) + " rows assembled)"@
}

/// The message about values that belong to no row.
pub open spec fn left_over(n: nat, num_rows: nat) -> Seq<char> {
    text::dec(n) + " decoded values left over after "@ + text::dec(num_rows)
        + " rows (corrupt levels?)"@
}

/// The values of one leaf column.
pub struct Column {
    pub triples: Seq<TripleView>,
    /// The path of the leaf.
    pub path: Seq<char>,
}

impl Column {
    /// The number of values from position `pos` on.
    pub open spec fn left(self, pos: int) -> int {
        if pos < self.triples.len() {
            self.triples.len() - pos
        } else {
            0
        }
    }

    /// An error of the assembly.
    pub open spec fn error(self, message: Seq<char>) -> IssueView {
        IssueView::error("RowReconstruction"@, message).for_column(self.path)
    }

    /// The message about a leaf whose value is missing.
    pub open spec fn no_value(self, def: u16) -> Seq<char> {
        "leaf "@ + self.path + " reached with no value (def="@ + text::dec(def as nat) + ")"@
    }

    /// One instance of the field `node`, with the leaf at the end of `route`.
    pub open spec fn field(self, node: NodeTree, route: Seq<usize>, pos: int) -> Step
        decreases route.len(), 2int, 0int,
    {
        if node.repetition == 0 {
            self.content(node, route, pos)
        } else if node.repetition == 1 {
            let t = self.triples[pos];
            if t.def >= node.def_level {
                self.content(node, route, pos)
            } else {
                Step { value: ValueTree::Null, pos: pos + 1, spans: t.spans, issues: seq![] }
            }
        } else if node.repetition == 2 {
            let run = self.repeated(node, route, pos, false);
            Step {
                value: ValueTree::List(run.items),
                pos: run.pos,
                spans: run.spans,
                issues: run.issues,
            }
        } else {
            Step {
                value: ValueTree::Null,
                pos,
                spans: seq![],
                issues: seq![
                    IssueView::error("Schema"@, "bad repetition type"@).for_column(self.path),
                ],
            }
        }
    }

    /// The items of the repeated field `node`; `any` says that there were items
    /// before.
    pub open spec fn repeated(self, node: NodeTree, route: Seq<usize>, pos: int, any: bool) -> Run
        decreases route.len(), 1int, self.left(pos),
    {
        let t = self.triples[pos];
        if pos >= self.triples.len() {
            Run {
                items: seq![],
                pos,
                spans: seq![],
                issues: if any {
                    seq![]
                } else {
                    seq![self.error("missing repeated field marker"@)]
                },
            }
        } else if any && t.rep < node.rep_level {
            Run { items: seq![], pos, spans: seq![], issues: seq![] }
        } else if t.def < node.def_level {
            if any {
                self.repeated(node, route, pos + 1, any).after(
                    seq![],
                    t.spans,
                    seq![self.error("empty marker mid-list"@)],
                )
            } else {
                Run { items: seq![], pos: pos + 1, spans: t.spans, issues: seq![] }
            }
        } else {
            let s = self.content(node, route, pos);
            if s.pos > pos {
                self.repeated(node, route, s.pos, true).after(seq![s.value], s.spans, s.issues)
            } else {
                Run { items: seq![s.value], pos: s.pos, spans: s.spans, issues: s.issues }
            }
        }
    }

    /// What an instance of `node` that is present holds.
    pub open spec fn content(self, node: NodeTree, route: Seq<usize>, pos: int) -> Step
        decreases route.len(), 0int, 0int,
    {
        if node.leaf is Some {
            let t = self.triples[pos];
            Step {
                value: match t.val {
                    Some(p) => ValueTree::Prim(p),
                    None => ValueTree::Null,
                },
                pos: pos + 1,
                spans: t.spans,
                issues: match t.val {
                    Some(_) => seq![],
                    None => seq![self.error(self.no_value(t.def))],
                },
            }
        } else if route.len() == 0 {
            Step { value: ValueTree::Struct(seq![]), pos, spans: seq![], issues: seq![] }
        } else {
            let child = node.children[route[0] as int];
            let s = self.field(child, route.drop_first(), pos);
            Step { value: ValueTree::Struct(seq![(child.name, s.value)]), ..s }
        }
    }

    /// The rows from number `row` on, up to `num_rows` in all.
    pub open spec fn rows(
        self,
        root: NodeTree,
        route: Seq<usize>,
        num_rows: nat,
        row: nat,
        pos: int,
    ) -> Assembly
        decreases num_rows - row,
    {
        if row >= num_rows {
            Assembly { rows: seq![], pos, issues: seq![] }
        } else if pos >= self.triples.len() {
            Assembly { rows: seq![], pos, issues: seq![self.error(ran_out(row))] }
        } else {
            let s = self.field(root.children[route[0] as int], route.drop_first(), pos);
            self.rows(root, route, num_rows, row + 1, s.pos).after(
                seq![(s.value, s.spans)],
                s.issues,
            )
        }
    }

    /// The rows of the column, with the issues found on the way.
    pub open spec fn assembly(self, root: NodeTree, num_rows: nat) -> Assembly {
        match root.route(self.path) {
            None => Assembly {
                rows: seq![],
                pos: 0,
                issues: seq![
                    IssueView::error("SchemaPath"@, "leaf "@ + self.path + " not found"@),
                ],
            },
            Some(route) => {
                let a = self.rows(root, route, num_rows, 0, 0);
                Assembly {
                    issues: if a.pos < self.triples.len() {
                        a.issues.push(
                            self.error(left_over((self.triples.len() - a.pos) as nat, num_rows)),
                        )
                    } else {
                        a.issues
                    },
                    ..a
                }
            },
        }
    }
}

/// Appends to `chain` the way from `node` to the leaf that
/// [`SchemaNode::find_leaf`] finds, as child indices; without such a leaf `chain`
/// stays as it is.
pub fn find_chain(node: &SchemaNode, leaf_path: &str, chain: &mut Vec<usize>) -> (found: bool)
    ensures
        found == (node@.route(leaf_path@) is Some),
        found == (first_at(node@.leaves(), leaf_path@) is Some),
        node@.route(leaf_path@) matches Some(way) ==> {
            &&& final(chain)@ == old(chain)@ + way
            &&& reaches(node@, way)
            &&& first_at(node@.leaves(), leaf_path@) == Some(node_on(node@, way))
        },
        !found ==> final(chain)@ == old(chain)@,
    decreases node,
{
    proof {
        lemma_wide(*node);
        lemma_route_finds(node@, leaf_path@);
    }
    let ghost start = chain@;
    if text::same_text(node.path.as_str(), leaf_path) && node.is_leaf() {
        assert(chain@ =~= start + Seq::<usize>::empty());
        return true;
    }
    let ghost nodes = node@.children;
    let mut i: usize = 0;
    while i < node.children.len()
        invariant
            i <= node.children@.len(),
            nodes == nodes_tree(node.children@),
            chain@ == start,
            start == old(chain)@,
            node@.route(leaf_path@) == route_from(nodes, leaf_path@, i as int),
        decreases node.children@.len() - i,
    {
        assert(decreases_to!(*node => node.children));
        assert(decreases_to!(node.children => node.children[i as int]));
        chain.push(i);
        if find_chain(&node.children[i], leaf_path, chain) {
            proof {
                lemma_wide(*node);
                lemma_route_finds(node@, leaf_path@);
                let r = nodes[i as int].route(leaf_path@)->Some_0;
                assert(start.push(i) + r =~= start + (seq![i] + r));
            }
            return true;
        }
        chain.pop();
        assert(chain@ =~= start);
        i += 1;
    }
    false
}


proof fn lemma_after_nothing(run: Run)
    ensures
        run.after(seq![], seq![], seq![]) == run,
{
    let r = run.after(seq![], seq![], seq![]);
    assert(r.items =~= run.items);
    assert(r.spans =~= run.spans);
    assert(r.issues =~= run.issues);
}

proof fn lemma_after_after(
    run: Run,
    items: Seq<ValueTree>,
    spans: Seq<SpanView>,
    issues: Seq<IssueView>,
    items2: Seq<ValueTree>,
    spans2: Seq<SpanView>,
    issues2: Seq<IssueView>,
)
    ensures
        run.after(items2, spans2, issues2).after(items, spans, issues) == run.after(
            items + items2,
            spans + spans2,
            issues + issues2,
        ),
{
    let a = run.after(items2, spans2, issues2).after(items, spans, issues);
    let b = run.after(items + items2, spans + spans2, issues + issues2);
    assert(a.items =~= b.items);
    assert(a.spans =~= b.spans);
    assert(a.issues =~= b.issues);
}

/// Records an error of the assembly.
fn complain(issues: &mut Vec<Issue>, leaf_path: &str, kind: &str, message: String)
    ensures
        issues_view(final(issues)@) == issues_view(old(issues)@) + seq![
            IssueView::error(kind@, message@).for_column(leaf_path@),
        ],
{
    report(issues, Issue::error(kind, message).for_column(leaf_path));
}

/// What an instance of `node` that is present holds.
fn assemble_content(
    node: &SchemaNode,
    route: &[usize],
    depth: usize,
    triples: &[Triple],
    pos: &mut usize,
    spans: &mut Vec<Span>,
    issues: &mut Vec<Issue>,
    leaf_path: &str,
) -> (value: Value)
    requires
        depth <= route@.len(),
        *old(pos) < triples@.len(),
        reaches(node@, route@.skip(depth as int)),
    ensures
        *old(pos) <= *final(pos) <= triples@.len(),
        ({
            let c = Column { triples: triples_view(triples@), path: leaf_path@ };
            let s = c.content(node@, route@.skip(depth as int), *old(pos) as int);
            &&& value@ == s.value
            &&& *final(pos) == s.pos
            &&& spans_view(final(spans)@) == spans_view(old(spans)@) + s.spans
            &&& issues_view(final(issues)@) == issues_view(old(issues)@) + s.issues
        }),
    decreases route@.len() - depth, 0int,
{
    let ghost c = Column { triples: triples_view(triples@), path: leaf_path@ };
    let ghost way = route@.skip(depth as int);
    let ghost had_spans = spans_view(spans@);
    let ghost had_issues = issues_view(issues@);
    if node.is_leaf() {
        let t: &Triple = &triples[*pos];
        copy_spans(&t.spans, spans);
        *pos = *pos + 1;
        match &t.val {
            Some(p) => {
                assert(issues_view(issues@) =~= had_issues + Seq::<IssueView>::empty());
                Value::Prim(p.clone())
            },
            None => {
                let mut m = String::new();
                m.append("leaf ");
                m.append(leaf_path);
                m.append(" reached with no value (def=");
                text::push_dec(&mut m, t.def as u128);
                m.append(")");
                assert(m@ =~= c.no_value(t.def));
                complain(issues, leaf_path, "RowReconstruction", m);
                Value::Null
            },
        }
    } else {
        let mut fields: Vec<(String, Value)> = Vec::new();
        if depth < route.len() {
            let child: &SchemaNode = &node.children[route[depth]];
            assert(way.drop_first() =~= route@.skip(depth + 1));
            let v = assemble_field(
                child,
                route,
                depth + 1,
                triples,
                pos,
                spans,
                issues,
                leaf_path,
            );
            fields.push((child.name.clone(), v));
            assert(members_tree(fields@) =~= seq![(child@.name, v@)]);
        } else {
            assert(members_tree(fields@) =~= seq![]);
            assert(spans_view(spans@) =~= had_spans + Seq::<SpanView>::empty());
            assert(issues_view(issues@) =~= had_issues + Seq::<IssueView>::empty());
        }
        Value::Struct(fields)
    }
}

/// One instance of the field `node`, for the leaf at the end of the route.
fn assemble_field(
    node: &SchemaNode,
    route: &[usize],
    depth: usize,
    triples: &[Triple],
    pos: &mut usize,
    spans: &mut Vec<Span>,
    issues: &mut Vec<Issue>,
    leaf_path: &str,
) -> (value: Value)
    requires
        depth <= route@.len(),
        *old(pos) < triples@.len(),
        reaches(node@, route@.skip(depth as int)),
    ensures
        *old(pos) <= *final(pos) <= triples@.len(),
        ({
            let c = Column { triples: triples_view(triples@), path: leaf_path@ };
            let s = c.field(node@, route@.skip(depth as int), *old(pos) as int);
            &&& value@ == s.value
            &&& *final(pos) == s.pos
            &&& spans_view(final(spans)@) == spans_view(old(spans)@) + s.spans
            &&& issues_view(final(issues)@) == issues_view(old(issues)@) + s.issues
        }),
    decreases route@.len() - depth, 2int,
{
    let ghost c = Column { triples: triples_view(triples@), path: leaf_path@ };
    let ghost way = route@.skip(depth as int);
    let ghost had_spans = spans_view(spans@);
    let ghost had_issues = issues_view(issues@);
    match node.repetition {
        0 => assemble_content(node, route, depth, triples, pos, spans, issues, leaf_path),
        1 => {
            // optional: exactly one triple per parent instance
            let t: &Triple = &triples[*pos];
            if t.def >= node.def_level {
                assemble_content(node, route, depth, triples, pos, spans, issues, leaf_path)
            } else {
                copy_spans(&t.spans, spans);
                *pos = *pos + 1;
                assert(issues_view(issues@) =~= had_issues + Seq::<IssueView>::empty());
                Value::Null
            }
        },
        2 => {
            let items = assemble_items(
                node,
                route,
                depth,
                triples,
                pos,
                spans,
                issues,
                leaf_path,
            );
            Value::List(items)
        },
        _ => {
            assert(spans_view(spans@) =~= had_spans + Seq::<SpanView>::empty());
            complain(issues, leaf_path, "Schema", "bad repetition type".to_string());
            Value::Null
        },
    }
}

/// The items of the repeated field `node`.
fn assemble_items(
    node: &SchemaNode,
    route: &[usize],
    depth: usize,
    triples: &[Triple],
    pos: &mut usize,
    spans: &mut Vec<Span>,
    issues: &mut Vec<Issue>,
    leaf_path: &str,
) -> (items: Vec<Value>)
    requires
        depth <= route@.len(),
        *old(pos) <= triples@.len(),
        reaches(node@, route@.skip(depth as int)),
    ensures
        *old(pos) <= *final(pos) <= triples@.len(),
        ({
            let c = Column { triples: triples_view(triples@), path: leaf_path@ };
            let run = c.repeated(node@, route@.skip(depth as int), *old(pos) as int, false);
            &&& values_tree(items@) == run.items
            &&& *final(pos) == run.pos
            &&& spans_view(final(spans)@) == spans_view(old(spans)@) + run.spans
            &&& issues_view(final(issues)@) == issues_view(old(issues)@) + run.issues
        }),
    decreases route@.len() - depth, 1int,
{
    let ghost c = Column { triples: triples_view(triples@), path: leaf_path@ };
    let ghost way = route@.skip(depth as int);
    let ghost had_spans = spans_view(spans@);
    let ghost had_issues = issues_view(issues@);
    let ghost mut seen_spans: Seq<SpanView> = seq![];
    let ghost mut seen_issues: Seq<IssueView> = seq![];
    let ghost start = *pos as int;
    let ghost whole = c.repeated(node@, way, start, false);
    let mut items: Vec<Value> = Vec::new();
    proof {
        assert(values_tree(items@) =~= seq![]);
        lemma_after_nothing(whole);
        assert(spans_view(spans@) =~= had_spans + seen_spans);
        assert(issues_view(issues@) =~= had_issues + seen_issues);
    }
    loop
        invariant
            start <= *pos <= triples@.len(),
            start == *old(pos),
            depth <= route@.len(),
            way == route@.skip(depth as int),
            reaches(node@, way),
            c == (Column { triples: triples_view(triples@), path: leaf_path@ }),
            whole == c.repeated(node@, way, start, false),
            whole == c.repeated(node@, way, *pos as int, items@.len() > 0).after(
                values_tree(items@),
                seen_spans,
                seen_issues,
            ),
            had_spans == spans_view(old(spans)@),
            had_issues == issues_view(old(issues)@),
            spans_view(spans@) == had_spans + seen_spans,
            issues_view(issues@) == had_issues + seen_issues,
        decreases triples@.len() - *pos,
    {
        let ghost rest = c.repeated(node@, way, *pos as int, items@.len() > 0);
        if *pos >= triples.len() {
            if items.is_empty() {
                complain(
                    issues,
                    leaf_path,
                    "RowReconstruction",
                    "missing repeated field marker".to_string(),
                );
            }
            assert(values_tree(items@) =~= whole.items);
            assert(spans_view(spans@) =~= had_spans + whole.spans);
            assert(issues_view(issues@) =~= had_issues + whole.issues);
            return items;
        }
        let t: &Triple = &triples[*pos];
        if !items.is_empty() && t.rep < node.rep_level {
            assert(values_tree(items@) =~= whole.items);
            assert(spans_view(spans@) =~= had_spans + whole.spans);
            assert(issues_view(issues@) =~= had_issues + whole.issues);
            return items;
        }
        if t.def < node.def_level {
            // empty marker (zero occurrences at this level)
            copy_spans(&t.spans, spans);
            *pos = *pos + 1;
            if items.is_empty() {
                assert(values_tree(items@) =~= whole.items);
                assert(spans_view(spans@) =~= had_spans + whole.spans);
                assert(issues_view(issues@) =~= had_issues + whole.issues);
                return items;
            }
            complain(
                issues,
                leaf_path,
                "RowReconstruction",
                "empty marker mid-list".to_string(),
            );
            proof {
                let m = c.error("empty marker mid-list"@);
                lemma_after_after(
                    c.repeated(node@, way, *pos as int, true),
                    values_tree(items@),
                    seen_spans,
                    seen_issues,
                    seq![],
                    t@.spans,
                    seq![m],
                );
                assert(values_tree(items@) + Seq::<ValueTree>::empty() =~= values_tree(items@));
                assert(spans_view(spans@) =~= had_spans + (seen_spans + t@.spans));
                assert(issues_view(issues@) =~= had_issues + (seen_issues + seq![m]));
                seen_spans = seen_spans + t@.spans;
                seen_issues = seen_issues + seq![m];
            }
            continue ;
        }
        let ghost s = c.content(node@, way, *pos as int);
        let ghost had = values_tree(items@);
        let before: usize = *pos;
        let item = assemble_content(node, route, depth, triples, pos, spans, issues, leaf_path);
        items.push(item);
        assert(values_tree(items@) =~= had + seq![s.value]);
        if *pos == before {
            // the item used nothing up, and so would the next
            assert(values_tree(items@) =~= whole.items);
            assert(spans_view(spans@) =~= had_spans + whole.spans);
            assert(issues_view(issues@) =~= had_issues + whole.issues);
            return items;
        }
        proof {
            lemma_after_after(
                c.repeated(node@, way, *pos as int, true),
                had,
                seen_spans,
                seen_issues,
                seq![s.value],
                s.spans,
                s.issues,
            );
            assert(spans_view(spans@) =~= had_spans + (seen_spans + s.spans));
            assert(issues_view(issues@) =~= had_issues + (seen_issues + s.issues));
            seen_spans = seen_spans + s.spans;
            seen_issues = seen_issues + s.issues;
        }
    }
}

/// The value and lineage of each row, by contents.
pub open spec fn rows_view(rows: Seq<(Value, Vec<Span>)>) -> Seq<Row> {
    Seq::new(rows.len(), |i: int| (rows[i].0@, spans_view(rows[i].1@)))
}

/// Assembles `num_rows` logical records of the column whose leaf has the path
/// `leaf_path`; `root` is the file root and `triples` belong to that column.
/// Returns per-row values plus lineage. Local issues are recorded and the
/// assembly continues with partial data where possible.
///
/// The root itself is no column: it may be the leaf only if there is nothing
/// to assemble.
pub fn assemble_column(
    root: &SchemaNode,
    leaf_path: &str,
    triples: &[Triple],
    num_rows: usize,
    issues: &mut Vec<Issue>,
) -> (rows: Vec<(Value, Vec<Span>)>)
    requires
        root@.route(leaf_path@) == Some(Seq::<usize>::empty()) ==> num_rows == 0 || triples@.len()
            == 0,
    ensures
        ({
            let c = Column { triples: triples_view(triples@), path: leaf_path@ };
            let a = c.assembly(root@, num_rows as nat);
            &&& rows_view(rows@) == a.rows
            &&& issues_view(final(issues)@) == issues_view(old(issues)@) + a.issues
        }),
{
    let ghost c = Column { triples: triples_view(triples@), path: leaf_path@ };
    let ghost had_issues = issues_view(issues@);
    let mut rows: Vec<(Value, Vec<Span>)> = Vec::new();
    // The way from the root to the leaf.
    let mut chain: Vec<usize> = Vec::new();
    if !find_chain(root, leaf_path, &mut chain) {
        let mut m = String::new();
        m.append("leaf ");
        m.append(leaf_path);
        m.append(" not found");
        assert(m@ =~= "leaf "@ + leaf_path@ + " not found"@);
        report(issues, Issue::error("SchemaPath", m));
        assert(rows_view(rows@) =~= seq![]);
        return rows;
    }
    let route: &[usize] = chain.as_slice();
    let ghost way = route@;
    proof {
        assert(way =~= root@.route(leaf_path@)->Some_0);
        assert(way.len() == 0 ==> way =~= Seq::<usize>::empty());
    }
    let mut pos: usize = 0;
    let mut row: usize = 0;
    let ghost whole = c.rows(root@, way, num_rows as nat, 0, 0);
    let ghost mut seen_issues: Seq<IssueView> = seq![];
    let mut more = true;
    proof {
        assert(rows_view(rows@) =~= seq![]);
        assert(whole.after(seq![], seq![]).rows =~= whole.rows);
        assert(whole.after(seq![], seq![]).issues =~= whole.issues);
        assert(issues_view(issues@) =~= had_issues + seen_issues);
    }
    while more && row < num_rows
        invariant
            row <= num_rows,
            row == rows@.len(),
            pos <= triples@.len(),
            way == route@,
            way.len() > 0 || num_rows == 0 || triples@.len() == 0,
            reaches(root@, way),
            c == (Column { triples: triples_view(triples@), path: leaf_path@ }),
            issues_view(issues@) == had_issues + seen_issues,
            !more ==> whole.rows == rows_view(rows@) && whole.issues == seen_issues && whole.pos
                == pos,
            more ==> whole == c.rows(root@, way, num_rows as nat, row as nat, pos as int).after(
                rows_view(rows@),
                seen_issues,
            ),
        decreases num_rows - row + (if more {
            1int
        } else {
            0
        }),
    {
        if pos >= triples.len() {
            let mut m = String::new();
            m.append("ran out of values at row ");
            text::push_dec(&mut m, row as u128);
            m.append(" (");
            text::push_dec(&mut m, rows.len() as u128);
            m.append(" rows assembled)");
            assert(m@ =~= ran_out(row as nat));
            complain(issues, leaf_path, "RowReconstruction", m);
            proof {
                let e = c.error(ran_out(row as nat));
                assert(issues_view(issues@) =~= had_issues + (seen_issues + seq![e]));
                seen_issues = seen_issues + seq![e];
                assert(whole.rows =~= rows_view(rows@));
            }
            more = false;
        } else {
            let first: usize = route[0];
            let child: &SchemaNode = &root.children[first];
            let mut spans: Vec<Span> = Vec::new();
            let ghost s = c.field(child@, way.drop_first(), pos as int);
            let ghost had_rows = rows_view(rows@);
            assert(way.drop_first() =~= route@.skip(1));
            let v = assemble_field(
                child,
                route,
                1,
                triples,
                &mut pos,
                &mut spans,
                issues,
                leaf_path,
            );
            assert(spans_view(spans@) =~= s.spans);
            rows.push((v, spans));
            proof {
                let rest = c.rows(root@, way, num_rows as nat, row as nat + 1, pos as int);
                let r: Row = (s.value, s.spans);
                assert(rows_view(rows@) =~= had_rows + seq![r]);
                assert(issues_view(issues@) =~= had_issues + (seen_issues + s.issues));
                let a = rest.after(seq![r], s.issues).after(had_rows, seen_issues);
                let b = rest.after(had_rows + seq![r], seen_issues + s.issues);
                assert(a.rows =~= b.rows);
                assert(a.issues =~= b.issues);
                seen_issues = seen_issues + s.issues;
            }
            row += 1;
        }
    }
    proof {
        if more {
            assert(whole.rows =~= rows_view(rows@));
            assert(whole.issues =~= seen_issues);
        }
    }
    if pos < triples.len() {
        let mut m = String::new();
        text::push_dec(&mut m, (triples.len() - pos) as u128);
        m.append(" decoded values left over after ");
        text::push_dec(&mut m, num_rows as u128);
        m.append(" rows (corrupt levels?)");
        let ghost n = (triples@.len() - pos) as nat;
        assert(m@ =~= left_over(n, num_rows as nat));
        complain(issues, leaf_path, "RowReconstruction", m);
        proof {
            let e = c.error(left_over(n, num_rows as nat));
            assert(issues_view(issues@) =~= had_issues + seen_issues.push(e));
        }
    }
    rows
}

impl Column {
    /// The lineage of the values from position `from` up to `to`.
    pub open spec fn lineage(self, from: int, to: int) -> Seq<SpanView>
        decreases to - from,
    {
        if from < to {
            self.triples[from].spans + self.lineage(from + 1, to)
        } else {
            seq![]
        }
    }
}

proof fn lemma_lineage_join(c: Column, from: int, mid: int, to: int)
    requires
        from <= mid <= to,
    ensures
        c.lineage(from, mid) + c.lineage(mid, to) == c.lineage(from, to),
    decreases mid - from,
{
    if from < mid {
        lemma_lineage_join(c, from + 1, mid, to);
        assert(c.triples[from].spans + c.lineage(from + 1, mid) + c.lineage(mid, to)
            =~= c.triples[from].spans + (c.lineage(from + 1, mid) + c.lineage(mid, to)));
    } else {
        assert(c.lineage(from, mid) + c.lineage(mid, to) =~= c.lineage(from, to));
    }
}

proof fn lemma_one_lineage(c: Column, pos: int)
    ensures
        c.triples[pos].spans == c.lineage(pos, pos + 1),
{
    assert(c.lineage(pos + 1, pos + 1) =~= seq![]);
    assert(c.triples[pos].spans + Seq::<SpanView>::empty() =~= c.triples[pos].spans);
}

/// The lineage of a field is that of the values that it used up, all of them
/// and in their order.
pub proof fn lemma_field_lineage(c: Column, node: NodeTree, route: Seq<usize>, pos: int)
    requires
        0 <= pos < c.triples.len(),
    ensures
        pos <= c.field(node, route, pos).pos <= c.triples.len(),
        c.field(node, route, pos).spans == c.lineage(pos, c.field(node, route, pos).pos),
    decreases route.len(), 2int, 0int,
{
    lemma_one_lineage(c, pos);
    if node.repetition == 0 || node.repetition == 1 {
        lemma_content_lineage(c, node, route, pos);
    } else if node.repetition == 2 {
        lemma_items_lineage(c, node, route, pos, false);
    }
}

proof fn lemma_items_lineage(c: Column, node: NodeTree, route: Seq<usize>, pos: int, any: bool)
    requires
        0 <= pos <= c.triples.len(),
    ensures
        pos <= c.repeated(node, route, pos, any).pos <= c.triples.len(),
        c.repeated(node, route, pos, any).spans == c.lineage(
            pos,
            c.repeated(node, route, pos, any).pos,
        ),
    decreases route.len(), 1int, c.left(pos),
{
    if pos < c.triples.len() {
        let t = c.triples[pos];
        lemma_one_lineage(c, pos);
        if any && t.rep < node.rep_level {
        } else if t.def < node.def_level {
            if any {
                lemma_items_lineage(c, node, route, pos + 1, any);
                lemma_lineage_join(c, pos, pos + 1, c.repeated(node, route, pos + 1, any).pos);
            }
        } else {
            lemma_content_lineage(c, node, route, pos);
            let s = c.content(node, route, pos);
            if s.pos > pos {
                lemma_items_lineage(c, node, route, s.pos, true);
                lemma_lineage_join(c, pos, s.pos, c.repeated(node, route, s.pos, true).pos);
            }
        }
    }
}

proof fn lemma_content_lineage(c: Column, node: NodeTree, route: Seq<usize>, pos: int)
    requires
        0 <= pos < c.triples.len(),
    ensures
        pos <= c.content(node, route, pos).pos <= c.triples.len(),
        c.content(node, route, pos).spans == c.lineage(pos, c.content(node, route, pos).pos),
    decreases route.len(), 0int, 0int,
{
    lemma_one_lineage(c, pos);
    if node.leaf is None && route.len() > 0 {
        lemma_field_lineage(c, node.children[route[0] as int], route.drop_first(), pos);
    }
}

/// The lineage of the rows, one after the other.
pub open spec fn rows_lineage(rows: Seq<Row>) -> Seq<SpanView>
    decreases rows.len(),
{
    if rows.len() == 0 {
        seq![]
    } else {
        rows[0].1 + rows_lineage(rows.drop_first())
    }
}

proof fn lemma_rows_lineage(
    c: Column,
    root: NodeTree,
    route: Seq<usize>,
    num_rows: nat,
    row: nat,
    pos: int,
)
    requires
        0 <= pos <= c.triples.len(),
        row <= num_rows,
    ensures
        ({
            let a = c.rows(root, route, num_rows, row, pos);
            &&& pos <= a.pos <= c.triples.len()
            &&& rows_lineage(a.rows) == c.lineage(pos, a.pos)
            &&& a.rows.len() <= num_rows - row
            &&& a.rows.len() < num_rows - row ==> a.pos == c.triples.len() && a.issues.len() > 0
                && a.issues.last() == c.error(ran_out(row + a.rows.len()))
        }),
    decreases num_rows - row,
{
    if row < num_rows && pos < c.triples.len() {
        let child = root.children[route[0] as int];
        lemma_field_lineage(c, child, route.drop_first(), pos);
        let s = c.field(child, route.drop_first(), pos);
        lemma_rows_lineage(c, root, route, num_rows, row + 1, s.pos);
        let rest = c.rows(root, route, num_rows, row + 1, s.pos);
        let a = c.rows(root, route, num_rows, row, pos);
        lemma_lineage_join(c, pos, s.pos, a.pos);
        assert(a.rows.drop_first() =~= rest.rows);
        assert(row + 1 + rest.rows.len() == row + a.rows.len());
    }
}

/// Nothing is lost in silence. The rows' lineage is that of the values up to
/// some position, all of them and in their order. Where values are left behind
/// it, or rows are missing, the last issue says so with the number. So with no
/// issue every row is there and every value was used.
pub proof fn lemma_assembly_complete(c: Column, root: NodeTree, num_rows: nat)
    ensures
        ({
            let a = c.assembly(root, num_rows);
            &&& 0 <= a.pos <= c.triples.len()
            &&& rows_lineage(a.rows) == c.lineage(0, a.pos)
            &&& a.rows.len() <= num_rows
            &&& root.route(c.path) is Some && a.rows.len() < num_rows ==> a.pos == c.triples.len()
                && a.issues.len() > 0 && a.issues.last() == c.error(ran_out(a.rows.len()))
            &&& root.route(c.path) is Some && a.pos < c.triples.len() ==> a.rows.len() == num_rows
                && a.issues.len() > 0 && a.issues.last() == c.error(
                left_over((c.triples.len() - a.pos) as nat, num_rows),
            )
            &&& a.issues.len() == 0 ==> a.rows.len() == num_rows && a.pos == c.triples.len()
        }),
{
    if let Some(route) = root.route(c.path) {
        lemma_rows_lineage(c, root, route, num_rows, 0, 0);
    }
}

} // verus!
