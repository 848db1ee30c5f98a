//! Shredding of logical rows into the levels and values of one column, and
//! what assembly makes of them: the rows again.
use vstd::prelude::*;

use crate::assemble::{lemma_field_lineage, left_over, ran_out, rows_view, Column, Row};
use crate::meta::SchemaElement;
use crate::model::{IssueView, PrimView, Span, TripleView, Value, ValueTree};
use crate::schema::{
    lemma_counts_on, lemma_preorder_from_reaches, lemma_route_reaches, lemma_schema_elements,
    lemma_schema_faithful, lemma_schema_regular, node_at, node_on, optional_on, preorder_from,
    reaches, repeated_on, wide_ok, NodeTree, SchemaError,
};
use crate::text;

verus! {

/// `v` is an instance of the field `node`, as far as the leaf at the end of
/// `route` goes.
pub open spec fn fits(node: NodeTree, route: Seq<usize>, v: ValueTree) -> bool
    decreases route.len(), 1int,
{
    if node.repetition == 0 {
        fits_content(node, route, v)
    } else if node.repetition == 1 {
        v is Null || fits_content(node, route, v)
    } else {
        v matches ValueTree::List(items) && forall|i: int|
            0 <= i < items.len() ==> fits_content(node, route, #[trigger] items[i])
    }
}

/// `v` is what an instance of `node` that is present can hold.
pub open spec fn fits_content(node: NodeTree, route: Seq<usize>, v: ValueTree) -> bool
    decreases route.len(), 0int,
{
    if node.leaf is Some {
        v is Prim
    } else if route.len() == 0 {
        false
    } else {
        let child = node.children[route[0] as int];
        v matches ValueTree::Struct(fields) && fields.len() == 1 && fields[0].0 == child.name
            && fits(child, route.drop_first(), fields[0].1)
    }
}

/// The levels and values of one instance of the field `node`. The first has
/// repetition level `rep`; what is absent has definition level `def`.
pub open spec fn shred(
    node: NodeTree,
    route: Seq<usize>,
    v: ValueTree,
    rep: u16,
    def: u16,
) -> Seq<TripleView>
    decreases route.len(), 2int, 0int,
{
    let absent = seq![TripleView { rep, def, val: None, spans: seq![] }];
    if node.repetition == 0 {
        shred_content(node, route, v, rep)
    } else if node.repetition == 1 {
        if v is Null {
            absent
        } else {
            shred_content(node, route, v, rep)
        }
    } else {
        let items = v->List_0;
        if items.len() == 0 {
            absent
        } else {
            shred_items(node, route, items, 0, rep)
        }
    }
}

/// The levels and values of the items from index `i` on: those behind the first
/// have the repetition level of `node`.
pub open spec fn shred_items(
    node: NodeTree,
    route: Seq<usize>,
    items: Seq<ValueTree>,
    i: int,
    rep: u16,
) -> Seq<TripleView>
    decreases route.len(), 1int, items.len() - i,
{
    if 0 <= i < items.len() {
        shred_content(node, route, items[i], rep) + shred_items(
            node,
            route,
            items,
            i + 1,
            node.rep_level,
        )
    } else {
        seq![]
    }
}

/// The levels and values of an instance of `node` that is present.
pub open spec fn shred_content(
    node: NodeTree,
    route: Seq<usize>,
    v: ValueTree,
    rep: u16,
) -> Seq<TripleView>
    decreases route.len(), 0int, 0int,
{
    if node.leaf is Some {
        seq![
            TripleView { rep, def: node.def_level, val: Some(v->Prim_0), spans: seq![] },
        ]
    } else if route.len() == 0 {
        seq![]
    } else {
        let child = node.children[route[0] as int];
        shred(child, route.drop_first(), v->Struct_0[0].1, rep, node.def_level)
    }
}

/// The levels and values of the rows from number `i` on.
pub open spec fn shred_rows(
    root: NodeTree,
    route: Seq<usize>,
    rows: Seq<ValueTree>,
    i: int,
) -> Seq<TripleView>
    decreases rows.len() - i,
{
    if 0 <= i < rows.len() {
        shred(root.children[route[0] as int], route.drop_first(), rows[i], 0, root.def_level)
            + shred_rows(root, route, rows, i + 1)
    } else {
        seq![]
    }
}

/// Along the route, from `node` on, the levels grow by one for each optional or
/// repeated field, and for each repeated field; at its end there is a leaf.
pub open spec fn sound(node: NodeTree, route: Seq<usize>, def: u16, rep: u16) -> bool
    decreases route.len(),
{
    &&& 0 <= node.repetition <= 2
    &&& node.def_level == def + (if node.repetition != 0 {
        1int
    } else {
        0
    })
    &&& node.rep_level == rep + (if node.repetition == 2 {
        1int
    } else {
        0
    })
    &&& if route.len() == 0 {
        node.leaf is Some
    } else {
        sound(
            node.children[route[0] as int],
            route.drop_first(),
            node.def_level,
            node.rep_level,
        )
    }
}

/// The same levels and the same value.
pub open spec fn alike(a: TripleView, b: TripleView) -> bool {
    a.rep == b.rep && a.def == b.def && a.val == b.val
}

impl Column {
    /// From position `pos` on the column has the levels and values `ts`.
    pub open spec fn has(self, pos: int, ts: Seq<TripleView>) -> bool {
        &&& 0 <= pos
        &&& pos + ts.len() <= self.triples.len()
        &&& forall|k: int| 0 <= k < ts.len() ==> alike(#[trigger] self.triples[pos + k], ts[k])
    }

    /// What stands at position `pos`, if anything, repeats no deeper than `rep`.
    pub open spec fn ends(self, pos: int, rep: u16) -> bool {
        pos < self.triples.len() ==> self.triples[pos].rep <= rep
    }
}

proof fn lemma_has_split(c: Column, pos: int, a: Seq<TripleView>, b: Seq<TripleView>)
    requires
        c.has(pos, a + b),
    ensures
        c.has(pos, a),
        c.has(pos + a.len(), b),
{
    assert forall|k: int| 0 <= k < a.len() implies alike(#[trigger] c.triples[pos + k], a[k]) by {
        assert((a + b)[k] == a[k]);
    }
    let p = pos + a.len();
    assert forall|k: int| 0 <= k < b.len() implies alike(#[trigger] c.triples[p + k], b[k]) by {
        assert((a + b)[a.len() + k] == b[k]);
        assert(alike(c.triples[pos + (a.len() + k)], (a + b)[a.len() + k]));
    }
}

proof fn lemma_shred_first(
    node: NodeTree,
    route: Seq<usize>,
    v: ValueTree,
    rep: u16,
    def: u16,
    prep: u16,
)
    requires
        sound(node, route, def, prep),
        fits(node, route, v),
    ensures
        ({
            let ts = shred(node, route, v, rep, def);
            ts.len() > 0 && ts[0].rep == rep && ts[0].def >= def
        }),
    decreases route.len(), 1int,
{
    if node.repetition == 2 {
        let items = v->List_0;
        if items.len() > 0 {
            assert(fits_content(node, route, items[0]));
            lemma_shred_content_first(node, route, items[0], rep, def, prep);
        }
    } else if !(node.repetition == 1 && v is Null) {
        lemma_shred_content_first(node, route, v, rep, def, prep);
    }
}

proof fn lemma_shred_content_first(
    node: NodeTree,
    route: Seq<usize>,
    v: ValueTree,
    rep: u16,
    def: u16,
    prep: u16,
)
    requires
        sound(node, route, def, prep),
        fits_content(node, route, v),
    ensures
        ({
            let ts = shred_content(node, route, v, rep);
            ts.len() > 0 && ts[0].rep == rep && ts[0].def >= node.def_level
        }),
    decreases route.len(), 0int,
{
    if !(node.leaf is Some) {
        let child = node.children[route[0] as int];
        lemma_shred_first(
            child,
            route.drop_first(),
            v->Struct_0[0].1,
            rep,
            node.def_level,
            node.rep_level,
        );
    }
}

proof fn lemma_field_inverts(
    c: Column,
    node: NodeTree,
    route: Seq<usize>,
    v: ValueTree,
    rep: u16,
    def: u16,
    prep: u16,
    pos: int,
)
    requires
        sound(node, route, def, prep),
        fits(node, route, v),
        c.has(pos, shred(node, route, v, rep, def)),
        c.ends(pos + shred(node, route, v, rep, def).len(), prep),
    ensures
        ({
            let s = c.field(node, route, pos);
            &&& s.value == v
            &&& s.pos == pos + shred(node, route, v, rep, def).len()
            &&& s.issues.len() == 0
        }),
    decreases route.len(), 2int, 0int,
{
    lemma_shred_first(node, route, v, rep, def, prep);
    let ts = shred(node, route, v, rep, def);
    assert(alike(c.triples[pos + 0], ts[0]));
    if node.repetition == 2 {
        let items = v->List_0;
        if items.len() > 0 {
            lemma_items_invert(c, node, route, items, 0, rep, def, prep, pos);
            assert(items.skip(0) =~= items);
        } else {
            assert(c.repeated(node, route, pos, false).items =~= items);
        }
    } else if !(node.repetition == 1 && v is Null) {
        lemma_shred_content_first(node, route, v, rep, def, prep);
        lemma_content_inverts(c, node, route, v, rep, def, prep, pos);
    }
}

proof fn lemma_items_invert(
    c: Column,
    node: NodeTree,
    route: Seq<usize>,
    items: Seq<ValueTree>,
    i: int,
    rep: u16,
    def: u16,
    prep: u16,
    pos: int,
)
    requires
        sound(node, route, def, prep),
        node.repetition == 2,
        forall|k: int| 0 <= k < items.len() ==> fits_content(node, route, #[trigger] items[k]),
        0 <= i <= items.len(),
        items.len() > 0,
        i > 0 ==> rep == node.rep_level,
        c.has(pos, shred_items(node, route, items, i, rep)),
        c.ends(pos + shred_items(node, route, items, i, rep).len(), prep),
    ensures
        ({
            let run = c.repeated(node, route, pos, i > 0);
            &&& run.items == items.skip(i)
            &&& run.pos == pos + shred_items(node, route, items, i, rep).len()
            &&& run.issues.len() == 0
        }),
    decreases route.len(), 1int, items.len() - i,
{
    let run = c.repeated(node, route, pos, i > 0);
    if i < items.len() {
        let v = items[i];
        assert(fits_content(node, route, v));
        let a = shred_content(node, route, v, rep);
        let b = shred_items(node, route, items, i + 1, node.rep_level);
        lemma_has_split(c, pos, a, b);
        lemma_shred_content_first(node, route, v, rep, def, prep);
        assert(alike(c.triples[pos + 0], a[0]));
        if i + 1 < items.len() {
            assert(fits_content(node, route, items[i + 1]));
            lemma_shred_content_first(node, route, items[i + 1], node.rep_level, def, prep);
            assert(alike(c.triples[pos + a.len() + 0], b[0]));
        }
        lemma_content_inverts(c, node, route, v, rep, def, prep, pos);
        lemma_items_invert(
            c,
            node,
            route,
            items,
            i + 1,
            node.rep_level,
            def,
            prep,
            pos + a.len(),
        );
        assert(run.items =~= items.skip(i));
    } else {
        assert(run.items =~= items.skip(i));
    }
}

proof fn lemma_content_inverts(
    c: Column,
    node: NodeTree,
    route: Seq<usize>,
    v: ValueTree,
    rep: u16,
    def: u16,
    prep: u16,
    pos: int,
)
    requires
        sound(node, route, def, prep),
        fits_content(node, route, v),
        c.has(pos, shred_content(node, route, v, rep)),
        c.ends(pos + shred_content(node, route, v, rep).len(), node.rep_level),
    ensures
        ({
            let s = c.content(node, route, pos);
            &&& s.value == v
            &&& s.pos == pos + shred_content(node, route, v, rep).len()
            &&& s.issues.len() == 0
        }),
    decreases route.len(), 0int, 0int,
{
    lemma_shred_content_first(node, route, v, rep, def, prep);
    let ts = shred_content(node, route, v, rep);
    assert(alike(c.triples[pos + 0], ts[0]));
    if !(node.leaf is Some) {
        let child = node.children[route[0] as int];
        let w = v->Struct_0[0].1;
        lemma_field_inverts(
            c,
            child,
            route.drop_first(),
            w,
            rep,
            node.def_level,
            node.rep_level,
            pos,
        );
        assert(v->Struct_0 =~= seq![(child.name, w)]);
    }
}

proof fn lemma_rows_invert(
    c: Column,
    root: NodeTree,
    route: Seq<usize>,
    values: Seq<ValueTree>,
    i: nat,
    pos: int,
)
    requires
        i <= values.len(),
        sound(
            root.children[route[0] as int],
            route.drop_first(),
            root.def_level,
            root.rep_level,
        ),
        forall|k: int|
            0 <= k < values.len() ==> fits(
                root.children[route[0] as int],
                route.drop_first(),
                #[trigger] values[k],
            ),
        c.has(pos, shred_rows(root, route, values, i as int)),
        c.triples.len() == pos + shred_rows(root, route, values, i as int).len(),
    ensures
        ({
            let a = c.rows(root, route, values.len(), i, pos);
            &&& a.rows.len() == values.len() - i
            &&& forall|k: int| 0 <= k < a.rows.len() ==> (#[trigger] a.rows[k]).0 == values[i + k]
            &&& a.pos == c.triples.len()
            &&& a.issues.len() == 0
        }),
    decreases values.len() - i,
{
    if i < values.len() {
        let child = root.children[route[0] as int];
        let way = route.drop_first();
        let v = values[i as int];
        assert(fits(child, way, v));
        let a = shred(child, way, v, 0, root.def_level);
        let b = shred_rows(root, route, values, i as int + 1);
        lemma_has_split(c, pos, a, b);
        lemma_shred_first(child, way, v, 0, root.def_level, root.rep_level);
        if i + 1 < values.len() {
            let w = values[i as int + 1];
            assert(fits(child, way, w));
            lemma_shred_first(child, way, w, 0, root.def_level, root.rep_level);
            assert(alike(c.triples[pos + a.len() + 0], b[0]));
        }
        lemma_field_inverts(c, child, way, v, 0, root.def_level, root.rep_level, pos);
        lemma_rows_invert(c, root, route, values, i + 1, pos + a.len());
        let whole = c.rows(root, route, values.len(), i, pos);
        let rest = c.rows(root, route, values.len(), i + 1, pos + a.len());
        assert forall|k: int| 0 <= k < whole.rows.len() implies (#[trigger] whole.rows[k]).0
            == values[i + k] by {
            if k > 0 {
                assert(whole.rows[k] == rest.rows[k - 1]);
            }
        }
    }
}

/// Every node on the route, behind `node` itself, is required, optional or
/// repeated.
pub open spec fn regular_on(node: NodeTree, route: Seq<usize>) -> bool
    decreases route.len(),
{
    route.len() > 0 ==> {
        let child = node.children[route[0] as int];
        0 <= child.repetition <= 2 && regular_on(child, route.drop_first())
    }
}

proof fn lemma_regular_on(node: NodeTree, route: Seq<usize>)
    requires
        node.regular(),
        reaches(node, route),
    ensures
        regular_on(node, route),
    decreases route.len(),
{
    if route.len() > 0 {
        let child = node.children[route[0] as int];
        assert(child.regular());
        lemma_regular_on(child, route.drop_first());
    }
}

/// The levels along the route from the root of a schema to a leaf are sound.
pub proof fn lemma_route_sound(node: NodeTree, route: Seq<usize>)
    requires
        node.consistent(),
        regular_on(node, route),
        reaches(node, route),
        node_on(node, route).leaf is Some,
        node.def_level + optional_on(node, route) <= u16::MAX,
        node.rep_level + repeated_on(node, route) <= u16::MAX,
    ensures
        route.len() > 0 ==> sound(
            node.children[route[0] as int],
            route.drop_first(),
            node.def_level,
            node.rep_level,
        ),
    decreases route.len(),
{
    if route.len() > 0 {
        let child = node.children[route[0] as int];
        lemma_route_sound(child, route.drop_first());
    }
}

/// The values of the column are what `values` are shredded into: one for each
/// row, the field below `root` on the way to the leaf.
pub open spec fn shredded(
    c: Column,
    root: NodeTree,
    route: Seq<usize>,
    values: Seq<ValueTree>,
) -> bool {
    &&& forall|k: int|
        0 <= k < values.len() ==> fits(
            root.children[route[0] as int],
            route.drop_first(),
            #[trigger] values[k],
        )
    &&& c.has(0, shred_rows(root, route, values, 0))
    &&& c.triples.len() == shred_rows(root, route, values, 0).len()
}

/// The assembly of the column gives `values`, and reports no issue.
pub open spec fn assembled(c: Column, root: NodeTree, values: Seq<ValueTree>) -> bool {
    let a = c.assembly(root, values.len());
    &&& a.rows.len() == values.len()
    &&& forall|k: int| 0 <= k < values.len() ==> (#[trigger] a.rows[k]).0 == values[k]
    &&& a.issues.len() == 0
}

/// Assembly inverts shredding in one column, whatever the rest of the schema is
/// like. Left out are routes with a node that is neither required nor optional
/// nor repeated, and those on which a level does not fit in 16 bits.
pub proof fn lemma_column_inverts_shredding(
    root: NodeTree,
    route: Seq<usize>,
    c: Column,
    values: Seq<ValueTree>,
)
    requires
        root.consistent(),
        root.def_level == 0,
        root.rep_level == 0,
        wide_ok(root),
        root.route(c.path) == Some(route),
        route.len() > 0,
        optional_on(root, route) <= u16::MAX,
        regular_on(root, route),
        shredded(c, root, route, values),
    ensures
        assembled(c, root, values),
{
    lemma_route_reaches(root, c.path);
    lemma_counts_on(root, route);
    lemma_route_sound(root, route);
    lemma_rows_invert(c, root, route, values, 0, 0);
}

/// Assembly inverts shredding: for every schema that can be built from elements
/// each of which is required, optional or repeated, and for every leaf below its
/// root, the levels and values that the rows of the column are shredded into are
/// assembled into those rows, and no issue is reported. Left out are leaves whose
/// levels do not fit in 16 bits: more than 65535 nodes on the way to them are
/// optional or repeated.
pub proof fn lemma_assembly_inverts_shredding(
    els: Seq<SchemaElement>,
    root: NodeTree,
    end: int,
    c: Column,
    values: Seq<ValueTree>,
)
    requires
        forall|k: int| 0 <= k < els.len() ==> 0 <= (#[trigger] els[k]).repetition <= 2,
        node_at(els, 0, 0, 0, seq![], true) == Ok::<(NodeTree, int), SchemaError>((root, end)),
        wide_ok(root),
        root.route(c.path) matches Some(route) && {
            &&& route.len() > 0
            &&& optional_on(root, route) <= u16::MAX
            &&& shredded(c, root, route, values)
        },
    ensures
        assembled(c, root, values),
{
    let route = root.route(c.path)->Some_0;
    lemma_schema_faithful(els);
    lemma_schema_regular(els);
    lemma_route_reaches(root, c.path);
    lemma_regular_on(root, route);
    lemma_column_inverts_shredding(root, route, c, values);
}

/// The primitive values in `v`, in order.
pub open spec fn prims_in(v: ValueTree) -> Seq<PrimView>
    decreases v, 0int,
{
    match v {
        ValueTree::Null => seq![],
        ValueTree::Prim(p) => seq![p],
        ValueTree::List(items) => prims_in_items(items, 0),
        ValueTree::Struct(fields) => prims_in_fields(fields, 0),
    }
}

/// The primitive values in the items from index `i` on.
pub open spec fn prims_in_items(items: Seq<ValueTree>, i: int) -> Seq<PrimView>
    decreases items, items.len() - i,
{
    if 0 <= i < items.len() {
        prims_in(items[i]) + prims_in_items(items, i + 1)
    } else {
        seq![]
    }
}

/// The primitive values in the fields from index `i` on.
pub open spec fn prims_in_fields(fields: Seq<(Seq<char>, ValueTree)>, i: int) -> Seq<PrimView>
    decreases fields, fields.len() - i,
{
    if 0 <= i < fields.len() {
        prims_in(fields[i].1) + prims_in_fields(fields, i + 1)
    } else {
        seq![]
    }
}

/// The values in the column from `from` up to `to` that are present: those of definition
/// level `def` or higher.
pub open spec fn present(c: Column, from: int, to: int, def: u16) -> Seq<PrimView>
    decreases to - from,
{
    if from < to {
        let t = c.triples[from];
        (if t.def >= def && t.val is Some {
            seq![t.val->Some_0]
        } else {
            seq![]
        }) + present(c, from + 1, to, def)
    } else {
        seq![]
    }
}

/// How many values in the column from `from` up to `to` should be present and are not.
pub open spec fn absent(c: Column, from: int, to: int, def: u16) -> nat
    decreases to - from,
{
    if from < to {
        let t = c.triples[from];
        (if t.def >= def && t.val is None {
            1nat
        } else {
            0
        }) + absent(c, from + 1, to, def)
    } else {
        0
    }
}

proof fn lemma_present_join(c: Column, from: int, mid: int, to: int, def: u16)
    requires
        from <= mid <= to,
    ensures
        present(c, from, to, def) == present(c, from, mid, def) + present(c, mid, to, def),
        absent(c, from, to, def) == absent(c, from, mid, def) + absent(c, mid, to, def),
    decreases mid - from,
{
    if from < mid {
        lemma_present_join(c, from + 1, mid, to, def);
        let t = c.triples[from];
        let own = if t.def >= def && t.val is Some {
            seq![t.val->Some_0]
        } else {
            seq![]
        };
        assert(own + (present(c, from + 1, mid, def) + present(c, mid, to, def)) =~= own + present(
            c,
            from + 1,
            mid,
            def,
        ) + present(c, mid, to, def));
    } else {
        assert(present(c, from, mid, def) + present(c, mid, to, def) =~= present(c, mid, to, def));
    }
}

/// Only the last node on the route is a leaf.
pub open spec fn leaf_last(node: NodeTree, route: Seq<usize>) -> bool
    decreases route.len(),
{
    route.len() > 0 ==> node.leaf is None && leaf_last(
        node.children[route[0] as int],
        route.drop_first(),
    )
}

proof fn lemma_sound_levels(node: NodeTree, route: Seq<usize>, def: u16, rep: u16)
    requires
        sound(node, route, def, rep),
    ensures
        def <= node.def_level <= node_on(node, route).def_level,
    decreases route.len(),
{
    if route.len() > 0 {
        lemma_sound_levels(
            node.children[route[0] as int],
            route.drop_first(),
            node.def_level,
            node.rep_level,
        );
    }
}

/// The issue is an error of the assembly of the column, of one of the two kinds that its
/// levels and values can give rise to.
pub open spec fn names_fault(c: Column, i: IssueView) -> bool {
    &&& i.severity == "error"@
    &&& i.kind == "RowReconstruction"@
    &&& i.column == Some(c.path)
    &&& i.page is None
    &&& i.message == "empty marker mid-list"@ || exists|def: u16|
        i.message == "leaf "@ + c.path + " reached with no value (def="@ + #[trigger] text::dec(
            def as nat,
        ) + ")"@
}

/// All issues name a fault.
pub open spec fn all_name_faults(c: Column, issues: Seq<IssueView>) -> bool {
    forall|k: int| 0 <= k < issues.len() ==> names_fault(c, #[trigger] issues[k])
}

proof fn lemma_faults_join(c: Column, a: Seq<IssueView>, b: Seq<IssueView>)
    requires
        all_name_faults(c, a),
        all_name_faults(c, b),
    ensures
        all_name_faults(c, a + b),
{
    assert forall|k: int| 0 <= k < (a + b).len() implies names_fault(c, #[trigger] (a + b)[k]) by {
        if k < a.len() {
            assert((a + b)[k] == a[k]);
        } else {
            assert((a + b)[k] == b[k - a.len()]);
        }
    }
}

proof fn lemma_items_prims_push(v: ValueTree, rest: Seq<ValueTree>, i: int)
    requires
        0 <= i,
    ensures
        prims_in_items(seq![v] + rest, i + 1) == prims_in_items(rest, i),
    decreases rest.len() - i,
{
    let all = seq![v] + rest;
    if i < rest.len() {
        assert(all[i + 1] == rest[i]);
        lemma_items_prims_push(v, rest, i + 1);
    }
}

proof fn lemma_items_prims_first(v: ValueTree, rest: Seq<ValueTree>)
    ensures
        prims_in_items(seq![v] + rest, 0) == prims_in(v) + prims_in_items(rest, 0),
{
    lemma_items_prims_push(v, rest, 0);
    assert((seq![v] + rest)[0] == v);
}

/// Whatever the levels are, a field holds the values that are present among those that it
/// used up, all of them and in order; each that is missing is reported.
pub proof fn lemma_field_keeps_values(
    c: Column,
    node: NodeTree,
    route: Seq<usize>,
    def: u16,
    rep: u16,
    pos: int,
)
    requires
        sound(node, route, def, rep),
        leaf_last(node, route),
        0 <= pos < c.triples.len(),
        c.triples[pos].def >= def,
    ensures
        ({
            let s = c.field(node, route, pos);
            let full = node_on(node, route).def_level;
            &&& pos < s.pos <= c.triples.len()
            &&& prims_in(s.value) == present(c, pos, s.pos, full)
            &&& s.issues.len() >= absent(c, pos, s.pos, full)
            &&& all_name_faults(c, s.issues)
        }),
    decreases route.len(), 2int, 0int,
{
    let full = node_on(node, route).def_level;
    let t = c.triples[pos];
    lemma_sound_levels(node, route, def, rep);
    assert(present(c, pos + 1, pos + 1, full) =~= seq![]);
    assert(absent(c, pos + 1, pos + 1, full) == 0);
    if node.repetition == 2 {
        lemma_items_keep_values(c, node, route, def, rep, pos, false);
    } else if node.repetition == 0 || t.def >= node.def_level {
        lemma_content_keeps_values(c, node, route, def, rep, pos);
    } else {
        assert(present(c, pos, pos + 1, full) =~= seq![]);
    }
}

proof fn lemma_items_keep_values(
    c: Column,
    node: NodeTree,
    route: Seq<usize>,
    def: u16,
    rep: u16,
    pos: int,
    any: bool,
)
    requires
        sound(node, route, def, rep),
        leaf_last(node, route),
        node.repetition == 2,
        0 <= pos <= c.triples.len(),
        !any ==> pos < c.triples.len(),
    ensures
        ({
            let run = c.repeated(node, route, pos, any);
            let full = node_on(node, route).def_level;
            &&& pos <= run.pos <= c.triples.len()
            &&& !any ==> pos < run.pos
            &&& prims_in_items(run.items, 0) == present(c, pos, run.pos, full)
            &&& run.issues.len() >= absent(c, pos, run.pos, full)
            &&& all_name_faults(c, run.issues)
        }),
    decreases route.len(), 1int, c.left(pos),
{
    let full = node_on(node, route).def_level;
    let run = c.repeated(node, route, pos, any);
    lemma_sound_levels(node, route, def, rep);
    if pos < c.triples.len() {
        let t = c.triples[pos];
        assert(present(c, pos + 1, pos + 1, full) =~= seq![]);
        assert(absent(c, pos + 1, pos + 1, full) == 0);
        if any && t.rep < node.rep_level {
            assert(run.items =~= seq![]);
        } else if t.def < node.def_level {
            assert(present(c, pos, pos + 1, full) =~= seq![]);
            if any {
                let rest = c.repeated(node, route, pos + 1, any);
                lemma_items_keep_values(c, node, route, def, rep, pos + 1, any);
                lemma_present_join(c, pos, pos + 1, rest.pos, full);
                let e = seq![c.error("empty marker mid-list"@)];
                assert(all_name_faults(c, e));
                lemma_faults_join(c, e, rest.issues);
                assert(run.items =~= rest.items);
                assert(present(c, pos, rest.pos, full) =~= present(c, pos + 1, rest.pos, full));
            } else {
                assert(run.items =~= seq![]);
            }
        } else {
            lemma_content_keeps_values(c, node, route, def, rep, pos);
            let s = c.content(node, route, pos);
            let rest = c.repeated(node, route, s.pos, true);
            lemma_items_keep_values(c, node, route, def, rep, s.pos, true);
            lemma_present_join(c, pos, s.pos, rest.pos, full);
            lemma_faults_join(c, s.issues, rest.issues);
            lemma_items_prims_first(s.value, rest.items);
        }
    } else {
        assert(run.items =~= seq![]);
    }
}

proof fn lemma_content_keeps_values(
    c: Column,
    node: NodeTree,
    route: Seq<usize>,
    def: u16,
    rep: u16,
    pos: int,
)
    requires
        sound(node, route, def, rep),
        leaf_last(node, route),
        0 <= pos < c.triples.len(),
        c.triples[pos].def >= node.def_level,
    ensures
        ({
            let s = c.content(node, route, pos);
            let full = node_on(node, route).def_level;
            &&& pos < s.pos <= c.triples.len()
            &&& prims_in(s.value) == present(c, pos, s.pos, full)
            &&& s.issues.len() >= absent(c, pos, s.pos, full)
            &&& all_name_faults(c, s.issues)
        }),
    decreases route.len(), 0int, 0int,
{
    let full = node_on(node, route).def_level;
    let t = c.triples[pos];
    let s = c.content(node, route, pos);
    if route.len() == 0 {
        assert(present(c, pos + 1, pos + 1, full) =~= seq![]);
        assert(absent(c, pos + 1, pos + 1, full) == 0);
        assert(present(c, pos, pos + 1, full) =~= prims_in(s.value));
        if t.val is None {
            let i = c.error(c.no_value(t.def));
            let d = text::dec(t.def as nat);
            assert(i.message == "leaf "@ + c.path + " reached with no value (def="@ + d + ")"@);
            assert(names_fault(c, i));
        }
    } else {
        let child = node.children[route[0] as int];
        lemma_field_keeps_values(
            c,
            child,
            route.drop_first(),
            node.def_level,
            node.rep_level,
            pos,
        );
        let inner = c.field(child, route.drop_first(), pos);
        let fields = seq![(child.name, inner.value)];
        assert(prims_in_fields(fields, 1) =~= seq![]);
        assert(prims_in_fields(fields, 0) =~= prims_in(inner.value));
        assert(s.value == ValueTree::Struct(fields));
    }
}

/// No leaf in the tree has children.
spec fn bare(node: NodeTree) -> bool {
    forall|k: int|
        0 <= k < node.preorder().len() && (#[trigger] node.preorder()[k]).leaf is Some
            ==> node.preorder()[k].children.len() == 0
}

proof fn lemma_leaf_last(node: NodeTree, route: Seq<usize>)
    requires
        bare(node),
        reaches(node, route),
    ensures
        leaf_last(node, route),
    decreases route.len(),
{
    if route.len() > 0 {
        let i = route[0] as int;
        let child = node.children[i];
        assert(node.preorder()[0] == node);
        assert forall|k: int|
            0 <= k < child.preorder().len() && (#[trigger] child.preorder()[k]).leaf
                is Some implies child.preorder()[k].children.len() == 0 by {
            let n = child.preorder()[k];
            assert(child.preorder().contains(n));
            lemma_preorder_from_reaches(node.children, 0, i, n);
            let below = preorder_from(node.children, 0);
            let j = choose|j: int| 0 <= j < below.len() && below[j] == n;
            assert(node.preorder()[j + 1] == n);
        }
        lemma_leaf_last(child, route.drop_first());
    }
}

/// The primitive values in the rows, one row after the other.
pub open spec fn rows_prims(rows: Seq<Row>) -> Seq<PrimView>
    decreases rows.len(),
{
    if rows.len() == 0 {
        seq![]
    } else {
        prims_in(rows[0].0) + rows_prims(rows.drop_first())
    }
}

/// The row was made of the values from `from` up to `to`: it has their lineage,
/// and it holds those that are present.
pub open spec fn made_of(c: Column, r: Row, from: int, to: int, full: u16) -> bool {
    &&& 0 <= from < to <= c.triples.len()
    &&& r.1 == c.lineage(from, to)
    &&& prims_in(r.0) == present(c, from, to, full)
}

proof fn lemma_rows_keep_values(
    c: Column,
    root: NodeTree,
    route: Seq<usize>,
    num_rows: nat,
    row: nat,
    pos: int,
) -> (cuts: Seq<int>)
    requires
        root.def_level == 0,
        sound(
            root.children[route[0] as int],
            route.drop_first(),
            root.def_level,
            root.rep_level,
        ),
        leaf_last(root.children[route[0] as int], route.drop_first()),
        0 <= pos <= c.triples.len(),
    ensures
        ({
            let a = c.rows(root, route, num_rows, row, pos);
            let full = node_on(root.children[route[0] as int], route.drop_first()).def_level;
            &&& pos <= a.pos <= c.triples.len()
            &&& rows_prims(a.rows) == present(c, pos, a.pos, full)
            &&& a.issues.len() >= absent(c, pos, a.pos, full)
            &&& cuts.len() == a.rows.len() + 1
            &&& cuts[0] == pos
            &&& cuts.last() == a.pos
            &&& forall|k: int|
                0 <= k < a.rows.len() ==> made_of(
                    c,
                    #[trigger] a.rows[k],
                    cuts[k],
                    cuts[k + 1],
                    full,
                )
        }),
    decreases num_rows - row,
{
    let child = root.children[route[0] as int];
    let way = route.drop_first();
    let full = node_on(child, way).def_level;
    let a = c.rows(root, route, num_rows, row, pos);
    if row < num_rows && pos < c.triples.len() {
        lemma_field_keeps_values(c, child, way, root.def_level, root.rep_level, pos);
        let s = c.field(child, way, pos);
        let rest = c.rows(root, route, num_rows, row + 1, s.pos);
        let more = lemma_rows_keep_values(c, root, route, num_rows, row + 1, s.pos);
        lemma_present_join(c, pos, s.pos, rest.pos, full);
        lemma_field_lineage(c, child, way, pos);
        assert(a.rows.drop_first() =~= rest.rows);
        assert(a.rows[0] == (s.value, s.spans));
        let cuts = seq![pos] + more;
        assert forall|k: int| 0 <= k < a.rows.len() implies made_of(
            c,
            #[trigger] a.rows[k],
            cuts[k],
            cuts[k + 1],
            full,
        ) by {
            if k > 0 {
                assert(a.rows[k] == rest.rows[k - 1]);
                assert(cuts[k] == more[k - 1]);
                assert(cuts[k + 1] == more[k - 1 + 1]);
            }
        }
        assert(cuts.last() == more.last());
        cuts
    } else {
        seq![pos]
    }
}

/// Whatever the levels of the column are, its rows hold the values that are present among
/// those that were used up, all of them and in order, and there are at least as many issues
/// as values that should be present and are not. Each row is made of the values behind those
/// of the row before it, and has the lineage of its own. Left out is what makes no sense of
/// the schema: routes with a node that is neither required nor optional nor repeated, and levels
/// that do not fit in 16 bits.
pub proof fn lemma_assembly_keeps_values(
    els: Seq<SchemaElement>,
    root: NodeTree,
    end: int,
    c: Column,
    num_rows: nat,
) -> (cuts: Seq<int>)
    requires
        node_at(els, 0, 0, 0, seq![], true) == Ok::<(NodeTree, int), SchemaError>((root, end)),
        wide_ok(root),
        root.route(c.path) matches Some(route) && {
            &&& route.len() > 0
            &&& optional_on(root, route) <= u16::MAX
            &&& regular_on(root, route)
        },
    ensures
        ({
            let a = c.assembly(root, num_rows);
            let full = node_on(root, root.route(c.path)->Some_0).def_level;
            &&& 0 <= a.pos <= c.triples.len()
            &&& rows_prims(a.rows) == present(c, 0, a.pos, full)
            &&& a.issues.len() >= absent(c, 0, a.pos, full)
            &&& cuts.len() == a.rows.len() + 1
            &&& cuts[0] == 0
            &&& cuts.last() == a.pos
            &&& forall|k: int|
                0 <= k < a.rows.len() ==> made_of(
                    c,
                    #[trigger] a.rows[k],
                    cuts[k],
                    cuts[k + 1],
                    full,
                )
        }),
{
    let route = root.route(c.path)->Some_0;
    lemma_schema_faithful(els);
    lemma_route_reaches(root, c.path);
    lemma_counts_on(root, route);
    lemma_route_sound(root, route);
    assert forall|k: int|
        0 <= k < root.preorder().len() && (#[trigger] root.preorder()[k]).leaf is Some implies (
    root.preorder()[k].children.len() == 0) by {
        lemma_schema_elements(els, k);
    }
    lemma_leaf_last(root, route);
    lemma_rows_keep_values(c, root, route, num_rows, 0, 0)
}

/// A list ends before a value that repeats less deep than it; at the end of the values; and
/// at a marker for no items, if there were none before. A marker behind items is used up and
/// reported, and the list goes on.
pub proof fn lemma_list_ends(c: Column, node: NodeTree, route: Seq<usize>, pos: int)
    requires
        0 <= pos <= c.triples.len(),
    ensures
        ({
            let run = c.repeated(node, route, pos, true);
            let ended = pos == c.triples.len() || c.triples[pos].rep < node.rep_level;
            &&& ended ==> run.pos == pos && run.items.len() == 0 && run.issues.len() == 0
                && run.spans.len() == 0
            &&& !ended && c.triples[pos].def < node.def_level ==> {
                let rest = c.repeated(node, route, pos + 1, true);
                let i = run.issues[0];
                &&& run.items == rest.items
                &&& run.pos == rest.pos
                &&& run.spans == c.triples[pos].spans + rest.spans
                &&& run.issues.len() == rest.issues.len() + 1
                &&& run.issues.drop_first() == rest.issues
                &&& i.severity == "error"@ && i.kind == "RowReconstruction"@ && i.message
                    == "empty marker mid-list"@ && i.column == Some(c.path) && i.page is None
            }
        }),
        pos < c.triples.len() && c.triples[pos].def < node.def_level ==> {
            let run = c.repeated(node, route, pos, false);
            &&& run.pos == pos + 1
            &&& run.items.len() == 0
            &&& run.issues.len() == 0
            &&& run.spans == c.triples[pos].spans
        },
{
    let run = c.repeated(node, route, pos, true);
    let ended = pos == c.triples.len() || c.triples[pos].rep < node.rep_level;
    if !ended && c.triples[pos].def < node.def_level {
        let rest = c.repeated(node, route, pos + 1, true);
        assert(run.items =~= rest.items);
        assert(run.issues.drop_first() =~= rest.issues);
    }
}

/// A list that has not ended takes the value at hand for the start of an item, and goes on
/// behind that item, however deep the value repeats; its first item is no exception.
pub proof fn lemma_list_goes_on(c: Column, node: NodeTree, route: Seq<usize>, pos: int, any: bool)
    requires
        0 <= pos < c.triples.len(),
        c.triples[pos].def >= node.def_level,
        any ==> c.triples[pos].rep >= node.rep_level,
        c.content(node, route, pos).pos > pos,
    ensures
        ({
            let run = c.repeated(node, route, pos, any);
            let item = c.content(node, route, pos);
            let rest = c.repeated(node, route, item.pos, true);
            &&& run.items.len() == rest.items.len() + 1
            &&& run.items[0] == item.value
            &&& run.items.drop_first() == rest.items
            &&& run.pos == rest.pos
            &&& run.spans == item.spans + rest.spans
            &&& run.issues == item.issues + rest.issues
        }),
{
    let run = c.repeated(node, route, pos, any);
    let item = c.content(node, route, pos);
    let rest = c.repeated(node, route, item.pos, true);
    assert(run.items.drop_first() =~= rest.items);
}

/// What one value gives, whatever its levels are: nothing is there of an optional field
/// that it does not define, and no issue is raised; a leaf is its value, and null with one
/// issue where it has none; both use up that value alone, with its lineage. A group holds one
/// field, by the name of the child on the route, and adds no issue and no lineage of its own.
pub proof fn lemma_single_steps(c: Column, node: NodeTree, route: Seq<usize>, pos: int)
    requires
        0 <= pos < c.triples.len(),
    ensures
        ({
            let t = c.triples[pos];
            let f = c.field(node, route, pos);
            let s = c.content(node, route, pos);
            &&& node.repetition == 1 && t.def < node.def_level ==> {
                &&& f.value is Null
                &&& f.pos == pos + 1
                &&& f.spans == t.spans
                &&& f.issues.len() == 0
            }
            &&& node.repetition == 0 || node.repetition == 1 && t.def >= node.def_level ==> f == s
            &&& node.repetition == 2 ==> {
                &&& f.value is List
                &&& f.value->List_0 == c.repeated(node, route, pos, false).items
            }
            &&& node.leaf is Some ==> {
                &&& s.pos == pos + 1
                &&& s.spans == t.spans
                &&& t.val is Some ==> s.value is Prim && s.value->Prim_0 == t.val->Some_0
                    && s.issues.len() == 0
                &&& t.val is None ==> s.value is Null && s.issues.len() == 1 && s.issues[0].message
                    == "leaf "@ + c.path + " reached with no value (def="@ + text::dec(
                    t.def as nat,
                ) + ")"@
            }
            &&& node.leaf is None && route.len() > 0 ==> {
                let child = node.children[route[0] as int];
                let inner = c.field(child, route.drop_first(), pos);
                &&& s.value is Struct
                &&& s.value->Struct_0.len() == 1
                &&& s.value->Struct_0[0].0 == child.name
                &&& s.value->Struct_0[0].1 == inner.value
                &&& s.pos == inner.pos
                &&& s.spans == inner.spans
                &&& s.issues == inner.issues
            }
        }),
{
}

/// What no row can be made of: a field of no known repetition is null, uses nothing up and
/// is reported; a leaf that is not in the schema gives no rows, and is reported by its path.
pub proof fn lemma_assembly_refuses(
    c: Column,
    node: NodeTree,
    route: Seq<usize>,
    pos: int,
    num_rows: nat,
)
    ensures
        !(0 <= node.repetition <= 2) ==> {
            let s = c.field(node, route, pos);
            let i = s.issues[0];
            &&& s.value is Null
            &&& s.pos == pos
            &&& s.spans.len() == 0
            &&& s.issues.len() == 1
            &&& i.severity == "error"@ && i.kind == "Schema"@ && i.message
                == "bad repetition type"@ && i.column == Some(c.path) && i.page is None
        },
        node.route(c.path) is None ==> {
            let a = c.assembly(node, num_rows);
            let i = a.issues[0];
            &&& a.rows.len() == 0
            &&& a.issues.len() == 1
            &&& i.severity == "error"@ && i.kind == "SchemaPath"@ && i.message == "leaf "@ + c.path
                + " not found"@ && i.column is None && i.page is None
        },
{
}

/// What is said of missing rows and of values that are left over.
pub proof fn lemma_count_messages(row: nat, n: nat, num_rows: nat, c: Column)
    ensures
        c.error(ran_out(row)).message == "ran out of values at row "@ + text::dec(row) + " ("@
            + text::dec(row) + " rows assembled)"@,
        c.error(left_over(n, num_rows)).message == text::dec(n)
            + " decoded values left over after "@ + text::dec(num_rows)
            + " rows (corrupt levels?)"@,
        c.error(ran_out(row)).severity == "error"@,
        c.error(ran_out(row)).kind == "RowReconstruction"@,
        c.error(ran_out(row)).column == Some(c.path),
        c.error(ran_out(row)).page is None,
{
}

/// What rows are taken to hold: their values and spans, one for one.
pub proof fn lemma_rows_contents(rows: Seq<(Value, Vec<Span>)>, k: int, j: int)
    ensures
        rows_view(rows).len() == rows.len(),
        0 <= k < rows.len() ==> {
            &&& rows_view(rows)[k].0 == rows[k].0@
            &&& rows_view(rows)[k].1.len() == rows[k].1@.len()
            &&& 0 <= j < rows[k].1@.len() ==> rows_view(rows)[k].1[j] == rows[k].1@[j]@
        },
{
}

} // verus!
