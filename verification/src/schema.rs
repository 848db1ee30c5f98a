//! The schema tree: its construction from the flat list of schema elements,
//! its leaves, and the way from the root to a leaf.
use vstd::prelude::*;
use vstd::string::*;

use crate::meta::SchemaElement;
use crate::text;

verus! {

/// The physical type of a leaf.
#[derive(Debug, Clone, Copy)]
pub struct LeafInfo {
    pub typ: i32,
    pub type_length: i32,
}

/// A node of the schema.
#[derive(Debug)]
pub struct SchemaNode {
    pub name: String,
    /// 0 required, 1 optional, 2 repeated
    pub repetition: i32,
    pub def_level: u16,
    pub rep_level: u16,
    pub leaf: Option<LeafInfo>,
    pub children: Vec<SchemaNode>,
    /// Dot-joined from root (excluding root).
    pub path: String,
}

/// The contents of a [`SchemaNode`].
pub struct NodeTree {
    pub name: Seq<char>,
    pub repetition: i32,
    pub def_level: u16,
    pub rep_level: u16,
    pub leaf: Option<LeafInfo>,
    pub children: Seq<NodeTree>,
    pub path: Seq<char>,
}

/// Why no schema tree could be built.
#[derive(Debug, Clone, Copy, PartialEq, Eq, Structural)]
pub enum SchemaError {
    Empty,
    /// An element announces more children than there are elements left.
    IndexOutOfRange,
}

impl SchemaError {
    pub open spec fn text(self) -> Seq<char> {
        match self {
            SchemaError::Empty => "empty schema"@,
            SchemaError::IndexOutOfRange => "schema element index out of range"@,
        }
    }

    /// The text of the error.
    pub fn message(&self) -> (m: String)
        ensures
            m@ == self.text(),
    {
        match self {
            SchemaError::Empty => "empty schema".to_string(),
            SchemaError::IndexOutOfRange => "schema element index out of range".to_string(),
        }
    }
}

/// The contents of each node.
pub open spec fn nodes_tree(nodes: Seq<SchemaNode>) -> Seq<NodeTree>
    decreases nodes,
{
    Seq::new(
        nodes.len(),
        |i: int|
            if 0 <= i < nodes.len() {
                nodes[i].tree()
            } else {
                arbitrary()
            },
    )
}

impl View for SchemaNode {
    type V = NodeTree;

    open spec fn view(&self) -> NodeTree {
        self.tree()
    }
}

impl Clone for SchemaNode {
    fn clone(&self) -> (r: SchemaNode)
        ensures
            r@ == self@,
    {
        self.duplicate()
    }
}

/// The leaves of the nodes from index `i` on, in preorder.
pub open spec fn leaves_from(nodes: Seq<NodeTree>, i: int) -> Seq<NodeTree>
    decreases nodes, nodes.len() - i,
{
    if 0 <= i < nodes.len() {
        nodes[i].leaves() + leaves_from(nodes, i + 1)
    } else {
        seq![]
    }
}

/// The first node with path `path`.
pub open spec fn first_at(nodes: Seq<NodeTree>, path: Seq<char>) -> Option<NodeTree>
    decreases nodes.len(),
{
    if nodes.len() == 0 {
        None
    } else if nodes[0].path == path {
        Some(nodes[0])
    } else {
        first_at(nodes.drop_first(), path)
    }
}

/// The way to a leaf with path `path` from the first of the nodes from index
/// `i` on under which there is one: child indices.
pub open spec fn route_from(nodes: Seq<NodeTree>, path: Seq<char>, i: int) -> Option<Seq<usize>>
    decreases nodes, nodes.len() - i,
{
    if 0 <= i < nodes.len() {
        match nodes[i].route(path) {
            Some(r) => Some(seq![i as usize] + r),
            None => route_from(nodes, path, i + 1),
        }
    } else {
        None
    }
}

/// Every step of the route leads to a child.
pub open spec fn reaches(node: NodeTree, route: Seq<usize>) -> bool
    decreases route.len(),
{
    route.len() > 0 ==> route[0] < node.children.len() && reaches(
        node.children[route[0] as int],
        route.drop_first(),
    )
}

/// The node at the end of the route.
pub open spec fn node_on(node: NodeTree, route: Seq<usize>) -> NodeTree
    decreases route.len(),
{
    if route.len() == 0 {
        node
    } else {
        node_on(node.children[route[0] as int], route.drop_first())
    }
}

impl NodeTree {
    /// The node itself, if it is a leaf, and the leaves below it, in preorder.
    pub open spec fn leaves(self) -> Seq<NodeTree>
        decreases self, 0int,
    {
        (if self.leaf is Some {
            seq![self]
        } else {
            seq![]
        }) + leaves_from(self.children, 0)
    }

    /// The child indices on the way to the first leaf, in preorder, whose path
    /// is `path`.
    pub open spec fn route(self, path: Seq<char>) -> Option<Seq<usize>>
        decreases self, 0int,
    {
        if self.path == path && self.leaf is Some {
            Some(seq![])
        } else {
            route_from(self.children, path, 0)
        }
    }
}

proof fn lemma_route_from_reaches(nodes: Seq<NodeTree>, path: Seq<char>, i: int, node: NodeTree)
    requires
        0 <= i,
        node.children == nodes,
        nodes.len() <= usize::MAX,
        wide_ok(node),
    ensures
        route_from(nodes, path, i) matches Some(r) ==> reaches(node, r) && r.len() > 0
            && node_on(node, r).leaf is Some && node_on(node, r).path == path,
    decreases nodes, nodes.len() - i,
{
    if i < nodes.len() {
        lemma_route_reaches(nodes[i], path);
        if let Some(r) = nodes[i].route(path) {
            let whole = seq![i as usize] + r;
            assert(whole.drop_first() =~= r);
        } else {
            lemma_route_from_reaches(nodes, path, i + 1, node);
        }
    }
}

/// No node has more children than a vector can hold.
pub open spec fn wide_ok(node: NodeTree) -> bool
    decreases node,
{
    &&& node.children.len() <= usize::MAX
    &&& forall|i: int| 0 <= i < node.children.len() ==> wide_ok(#[trigger] node.children[i])
}

/// A route leads from child to child to a leaf with the path looked for.
pub proof fn lemma_route_reaches(node: NodeTree, path: Seq<char>)
    requires
        wide_ok(node),
    ensures
        node.route(path) matches Some(r) ==> reaches(node, r) && node_on(node, r).leaf is Some
            && node_on(node, r).path == path,
    decreases node, 0int,
{
    if !(node.path == path && node.leaf is Some) {
        lemma_route_from_reaches(node.children, path, 0, node);
    }
}

impl SchemaNode {
    pub open spec fn tree(self) -> NodeTree
        decreases self,
    {
        NodeTree {
            name: self.name@,
            repetition: self.repetition,
            def_level: self.def_level,
            rep_level: self.rep_level,
            leaf: self.leaf,
            children: nodes_tree(self.children@),
            path: self.path@,
        }
    }

    /// A deep copy.
    fn duplicate(&self) -> (r: SchemaNode)
        ensures
            r@ == self@,
        decreases self,
    {
        let mut children: Vec<SchemaNode> = Vec::new();
        let mut i: usize = 0;
        while i < self.children.len()
            invariant
                i <= self.children@.len(),
                children@.len() == i,
                forall|k: int| 0 <= k < i ==> (#[trigger] children@[k])@ == self.children@[k]@,
            decreases self.children@.len() - i,
        {
            assert(decreases_to!(*self => self.children));
            assert(decreases_to!(self.children => self.children[i as int]));
            children.push(self.children[i].duplicate());
            i += 1;
        }
        assert(nodes_tree(children@) =~= nodes_tree(self.children@));
        SchemaNode {
            name: self.name.clone(),
            repetition: self.repetition,
            def_level: self.def_level,
            rep_level: self.rep_level,
            leaf: self.leaf,
            children,
            path: self.path.clone(),
        }
    }

    pub fn is_leaf(&self) -> (r: bool)
        ensures
            r == (self@.leaf is Some),
    {
        self.leaf.is_some()
    }

    /// The leaves, in preorder.
    pub fn leaves(&self) -> (out: Vec<&SchemaNode>)
        ensures
            out@.len() == self@.leaves().len(),
            forall|i: int| 0 <= i < out@.len() ==> (#[trigger] out@[i])@ == self@.leaves()[i],
    {
        let mut out: Vec<&SchemaNode> = Vec::new();
        self.collect_leaves(&mut out);
        assert(seen(out@) =~= self@.leaves());
        assert forall|i: int| 0 <= i < out@.len() implies (#[trigger] out@[i])@
            == self@.leaves()[i] by {
            assert(seen(out@)[i] == out@[i]@);
        }
        out
    }

    fn collect_leaves<'a>(&'a self, out: &mut Vec<&'a SchemaNode>)
        ensures
            seen(final(out)@) == seen(old(out)@) + self@.leaves(),
        decreases self,
    {
        let ghost start = seen(out@);
        let ghost own = if self@.leaf is Some {
            seq![self@]
        } else {
            seq![]
        };
        if self.is_leaf() {
            out.push(self);
        }
        assert(seen(out@) =~= start + own);
        let ghost nodes = self@.children;
        let mut i: usize = 0;
        while i < self.children.len()
            invariant
                i <= self.children@.len(),
                nodes == nodes_tree(self.children@),
                start + own + leaves_from(nodes, 0) == seen(out@) + leaves_from(nodes, i as int),
            decreases self.children@.len() - i,
        {
            assert(decreases_to!(*self => self.children));
            assert(decreases_to!(self.children => self.children[i as int]));
            let ghost before = seen(out@);
            self.children[i].collect_leaves(out);
            assert(before + (nodes[i as int].leaves() + leaves_from(nodes, i + 1)) =~= seen(out@)
                + leaves_from(nodes, i + 1));
            i += 1;
        }
        assert(seen(out@) + seq![] =~= seen(out@));
        assert(start + own + leaves_from(nodes, 0) =~= start + (own + leaves_from(nodes, 0)));
    }

    /// The first leaf with path `path`.
    pub fn find_leaf(&self, path: &str) -> (r: Option<&SchemaNode>)
        ensures
            match first_at(self@.leaves(), path@) {
                Some(n) => r matches Some(x) && x@ == n,
                None => r is None,
            },
    {
        let all: Vec<&SchemaNode> = self.leaves();
        let ghost nodes = self@.leaves();
        let mut i: usize = 0;
        assert(nodes.skip(0) =~= nodes);
        while i < all.len()
            invariant
                i <= all@.len(),
                all@.len() == nodes.len(),
                nodes == self@.leaves(),
                forall|k: int| 0 <= k < all@.len() ==> (#[trigger] all@[k])@ == nodes[k],
                first_at(nodes, path@) == first_at(nodes.skip(i as int), path@),
            decreases all@.len() - i,
        {
            let n: &SchemaNode = all[i];
            assert(nodes.skip(i as int).drop_first() =~= nodes.skip(i + 1));
            if text::same_text(n.path.as_str(), path) {
                return Some(n);
            }
            i += 1;
        }
        None
    }
}

/// The contents of each node.
spec fn seen(nodes: Seq<&SchemaNode>) -> Seq<NodeTree> {
    Seq::new(nodes.len(), |i: int| nodes[i]@)
}

/// A level, one higher if `up`, in 16-bit arithmetic.
pub open spec fn raised(level: u16, up: bool) -> u16 {
    if !up {
        level
    } else if level == u16::MAX {
        0
    } else {
        (level + 1) as u16
    }
}

/// The path of a node `name` below a node with path `parent`.
pub open spec fn joined(parent: Seq<char>, name: Seq<char>) -> Seq<char> {
    if parent.len() == 0 {
        name
    } else {
        parent + "."@ + name
    }
}

/// The number of children that an element announces.
pub open spec fn announced(el: SchemaElement) -> nat {
    if el.num_children < 0 {
        0
    } else {
        el.num_children as nat
    }
}

/// What the element says of a leaf.
pub open spec fn leaf_info(el: SchemaElement) -> Option<LeafInfo> {
    if el.num_children == 0 {
        Some(
            LeafInfo {
                typ: match el.typ {
                    Some(t) => t,
                    None => (-1) as i32,
                },
                type_length: match el.type_length {
                    Some(n) => n,
                    None => 0,
                },
            },
        )
    } else {
        None
    }
}

/// The tree of the element at `idx` and the elements that follow as its
/// descendants, in preorder, and the index behind them. `def`, `rep` and
/// `path` are those of the parent; the root counts as required and its name
/// does not enter the paths.
pub open spec fn node_at(
    els: Seq<SchemaElement>,
    idx: int,
    def: u16,
    rep: u16,
    path: Seq<char>,
    is_root: bool,
) -> Result<(NodeTree, int), SchemaError>
    decreases els.len() - idx, 0nat, 0nat,
{
    if idx < 0 || idx >= els.len() {
        Err(SchemaError::IndexOutOfRange)
    } else {
        let el = els[idx];
        let repetition = if is_root {
            0
        } else {
            el.repetition
        };
        let def_level = raised(def, repetition != 0);
        let rep_level = raised(rep, repetition == 2);
        let own_path = if is_root {
            seq![]
        } else {
            joined(path, el.name@)
        };
        let n = announced(el);
        match children_at(els, idx + 1, n, def_level, rep_level, own_path) {
            Ok((children, end)) => Ok(
                (
                    NodeTree {
                        name: el.name@,
                        repetition,
                        def_level,
                        rep_level,
                        leaf: leaf_info(el),
                        children,
                        path: own_path,
                    },
                    end,
                ),
            ),
            Err(e) => Err(e),
        }
    }
}

/// The trees of `n` children from `idx` on, and the index behind them.
pub open spec fn children_at(
    els: Seq<SchemaElement>,
    idx: int,
    n: nat,
    def: u16,
    rep: u16,
    path: Seq<char>,
) -> Result<(Seq<NodeTree>, int), SchemaError>
    decreases els.len() - idx, 1nat, n,
{
    if n == 0 {
        Ok((seq![], idx))
    } else {
        match node_at(els, idx, def, rep, path, false) {
            Ok((child, next)) => if idx < next <= els.len() {
                after_child(child, children_at(els, next, (n - 1) as nat, def, rep, path))
            } else {
                Ok((seq![child], next))
            },
            Err(e) => Err(e),
        }
    }
}

/// A child followed by the outcome for the rest.
pub open spec fn after_child(
    child: NodeTree,
    rest: Result<(Seq<NodeTree>, int), SchemaError>,
) -> Result<(Seq<NodeTree>, int), SchemaError> {
    match rest {
        Ok((children, end)) => Ok((seq![child] + children, end)),
        Err(e) => Err(e),
    }
}

/// Children already built, followed by the outcome for the rest.
spec fn after_children(
    done: Seq<NodeTree>,
    rest: Result<(Seq<NodeTree>, int), SchemaError>,
) -> Result<(Seq<NodeTree>, int), SchemaError> {
    match rest {
        Ok((children, end)) => Ok((done + children, end)),
        Err(e) => Err(e),
    }
}

proof fn lemma_after_children_step(
    done: Seq<NodeTree>,
    child: NodeTree,
    rest: Result<(Seq<NodeTree>, int), SchemaError>,
)
    ensures
        after_children(done, after_child(child, rest)) == after_children(done.push(child), rest),
{
    if let Ok((children, end)) = rest {
        assert(done + (seq![child] + children) =~= done.push(child) + children);
    }
}

/// Building a node uses up its element and never runs past the last one.
pub proof fn lemma_node_progress(
    els: Seq<SchemaElement>,
    idx: int,
    def: u16,
    rep: u16,
    path: Seq<char>,
    is_root: bool,
)
    ensures
        node_at(els, idx, def, rep, path, is_root) matches Ok((_, end)) ==> 0 <= idx < end
            <= els.len(),
    decreases els.len() - idx, 0nat, 0nat,
{
    if 0 <= idx < els.len() {
        let el = els[idx];
        let repetition = if is_root {
            0
        } else {
            el.repetition
        };
        let own_path = if is_root {
            seq![]
        } else {
            joined(path, el.name@)
        };
        let n = announced(el);
        lemma_children_progress(
            els,
            idx + 1,
            n,
            raised(def, repetition != 0),
            raised(rep, repetition == 2),
            own_path,
        );
    }
}

proof fn lemma_children_progress(
    els: Seq<SchemaElement>,
    idx: int,
    n: nat,
    def: u16,
    rep: u16,
    path: Seq<char>,
)
    requires
        0 <= idx <= els.len(),
    ensures
        children_at(els, idx, n, def, rep, path) matches Ok((_, end)) ==> idx <= end <= els.len(),
    decreases els.len() - idx, 1nat, n,
{
    if n > 0 {
        lemma_node_progress(els, idx, def, rep, path, false);
        if let Ok((child, next)) = node_at(els, idx, def, rep, path, false) {
            lemma_children_progress(els, next, (n - 1) as nat, def, rep, path);
        }
    }
}

/// Builds the schema tree from its elements in preorder. Elements behind the
/// tree of the first one are ignored.
pub fn build_schema(elements: &[SchemaElement]) -> (r: Result<SchemaNode, SchemaError>)
    ensures
        elements@.len() == 0 ==> r matches Err(SchemaError::Empty),
        elements@.len() > 0 ==> match node_at(elements@, 0, 0, 0, seq![], true) {
            Ok((n, _)) => r matches Ok(x) && x@ == n,
            Err(e) => r matches Err(x) && x == e,
        },
{
    if elements.len() == 0 {
        return Err(SchemaError::Empty);
    }
    let mut idx: usize = 0;
    proof {
        reveal_strlit("");
        assert(""@ =~= seq![]);
    }
    build_node(elements, &mut idx, 0, 0, "", true)
}

fn raise(level: u16, up: bool) -> (r: u16)
    ensures
        r == raised(level, up),
{
    if up {
        level.wrapping_add(1)
    } else {
        level
    }
}

fn build_node(
    elements: &[SchemaElement],
    idx: &mut usize,
    parent_def: u16,
    parent_rep: u16,
    parent_path: &str,
    is_root: bool,
) -> (r: Result<SchemaNode, SchemaError>)
    ensures
        match node_at(
            elements@,
            *old(idx) as int,
            parent_def,
            parent_rep,
            parent_path@,
            is_root,
        ) {
            Ok((n, end)) => r matches Ok(x) && x@ == n && *final(idx) == end,
            Err(e) => r matches Err(x) && x == e,
        },
    decreases elements@.len() - *old(idx),
{
    proof {
        lemma_node_progress(
            elements@,
            *idx as int,
            parent_def,
            parent_rep,
            parent_path@,
            is_root,
        );
    }
    if *idx >= elements.len() {
        return Err(SchemaError::IndexOutOfRange);
    }
    let el: &SchemaElement = &elements[*idx];
    let ghost start = *idx as int;
    *idx += 1;
    let repetition: i32 = if is_root {
        0
    } else {
        el.repetition
    };
    let def_level: u16 = raise(parent_def, repetition != 0);
    let rep_level: u16 = raise(parent_rep, repetition == 2);
    let path: String = if is_root {
        String::new()
    } else if parent_path.is_empty() {
        el.name.clone()
    } else {
        let mut p: String = parent_path.to_string();
        p.append(".");
        p.append(el.name.as_str());
        p
    };
    let own_path: &str = path.as_str();
    let ghost n = announced(*el);
    let ghost whole = children_at(elements@, start + 1, n, def_level, rep_level, own_path@);
    let mut children: Vec<SchemaNode> = Vec::new();
    let mut i: i32 = 0;
    proof {
        assert(nodes_tree(children@) =~= seq![]);
        if let Ok((cs, end)) = whole {
            assert(seq![] + cs =~= cs);
        }
    }
    while i < el.num_children
        invariant
            0 <= i <= n,
            n == announced(*el),
            start == *old(idx),
            start < *idx <= elements@.len(),
            whole == children_at(elements@, start + 1, n, def_level, rep_level, own_path@),
            whole is Err ==> node_at(
                elements@,
                start,
                parent_def,
                parent_rep,
                parent_path@,
                is_root,
            ) == Err::<(NodeTree, int), SchemaError>(whole->Err_0),
            whole == after_children(
                nodes_tree(children@),
                children_at(
                    elements@,
                    *idx as int,
                    (n - i) as nat,
                    def_level,
                    rep_level,
                    own_path@,
                ),
            ),
        decreases n - i,
    {
        proof {
            lemma_node_progress(elements@, *idx as int, def_level, rep_level, own_path@, false);
        }
        let ghost before = nodes_tree(children@);
        match build_node(elements, idx, def_level, rep_level, own_path, false) {
            Ok(child) => {
                proof {
                    lemma_after_children_step(
                        before,
                        child@,
                        children_at(
                            elements@,
                            *idx as int,
                            (n - i - 1) as nat,
                            def_level,
                            rep_level,
                            own_path@,
                        ),
                    );
                }
                children.push(child);
                assert(nodes_tree(children@) =~= before.push(child@));
            },
            Err(e) => {
                return Err(e);
            },
        }
        i += 1;
    }
    assert(nodes_tree(children@) + seq![] =~= nodes_tree(children@));
    let leaf: Option<LeafInfo> = if el.num_children == 0 {
        Some(
            LeafInfo {
                typ: match el.typ {
                    Some(t) => t,
                    None => -1,
                },
                type_length: match el.type_length {
                    Some(n) => n,
                    None => 0,
                },
            },
        )
    } else {
        None
    };
    Ok(
        SchemaNode {
            name: el.name.clone(),
            repetition,
            def_level,
            rep_level,
            leaf,
            children,
            path,
        },
    )
}

/// The nodes from index `i` on and their descendants, in preorder.
pub open spec fn preorder_from(nodes: Seq<NodeTree>, i: int) -> Seq<NodeTree>
    decreases nodes, nodes.len() - i,
{
    if 0 <= i < nodes.len() {
        nodes[i].preorder() + preorder_from(nodes, i + 1)
    } else {
        seq![]
    }
}

impl NodeTree {
    /// The node and its descendants, in preorder.
    pub open spec fn preorder(self) -> Seq<NodeTree>
        decreases self, 0int,
    {
        seq![self] + preorder_from(self.children, 0)
    }

    /// Levels and paths continue those of the parent, all the way down.
    pub open spec fn consistent(self) -> bool
        decreases self,
    {
        forall|i: int|
            0 <= i < self.children.len() ==> {
                let c = #[trigger] self.children[i];
                &&& c.def_level == raised(self.def_level, c.repetition != 0)
                &&& c.rep_level == raised(self.rep_level, c.repetition == 2)
                &&& c.path == joined(self.path, c.name)
                &&& c.consistent()
            }
    }
}

/// The nodes are the elements from `idx` on, one for one; the first of them is
/// the root, whose own repetition does not count, if `is_root` says so.
pub open spec fn mirrors(
    nodes: Seq<NodeTree>,
    els: Seq<SchemaElement>,
    idx: int,
    is_root: bool,
) -> bool {
    forall|k: int|
        0 <= k < nodes.len() ==> {
            let el = els[idx + k];
            &&& (#[trigger] nodes[k]).name == el.name@
            &&& nodes[k].leaf == leaf_info(el)
            &&& nodes[k].children.len() == announced(el)
            &&& nodes[k].repetition == (if is_root && k == 0 {
                0
            } else {
                el.repetition
            })
        }
}

proof fn lemma_preorder_after(child: NodeTree, rest: Seq<NodeTree>, i: int)
    requires
        0 <= i,
    ensures
        preorder_from(seq![child] + rest, i + 1) == preorder_from(rest, i),
    decreases rest.len() - i,
{
    let all = seq![child] + rest;
    if i < rest.len() {
        assert(all[i + 1] == rest[i]);
        lemma_preorder_after(child, rest, i + 1);
    }
}

proof fn lemma_node_preorder(
    els: Seq<SchemaElement>,
    idx: int,
    def: u16,
    rep: u16,
    path: Seq<char>,
    is_root: bool,
)
    ensures
        node_at(els, idx, def, rep, path, is_root) matches Ok((n, end)) ==> {
            &&& n.preorder().len() == end - idx
            &&& mirrors(n.preorder(), els, idx, is_root)
            &&& n.consistent()
            &&& !is_root ==> {
                &&& n.def_level == raised(def, n.repetition != 0)
                &&& n.rep_level == raised(rep, n.repetition == 2)
                &&& n.path == joined(path, n.name)
            }
        },
    decreases els.len() - idx, 0nat, 0nat,
{
    if let Ok((n, end)) = node_at(els, idx, def, rep, path, is_root) {
        let el = els[idx];
        let count = announced(el);
        lemma_children_preorder(els, idx + 1, count, n.def_level, n.rep_level, n.path);
        let below = preorder_from(n.children, 0);
        let nodes = n.preorder();
        assert forall|k: int| 0 <= k < nodes.len() implies {
            let el = els[idx + k];
            &&& (#[trigger] nodes[k]).name == el.name@
            &&& nodes[k].leaf == leaf_info(el)
            &&& nodes[k].children.len() == announced(el)
            &&& nodes[k].repetition == (if is_root && k == 0 {
                0
            } else {
                el.repetition
            })
        } by {
            if k > 0 {
                assert(nodes[k] == below[k - 1]);
            }
        }
    }
}

proof fn lemma_children_preorder(
    els: Seq<SchemaElement>,
    idx: int,
    n: nat,
    def: u16,
    rep: u16,
    path: Seq<char>,
)
    requires
        0 <= idx <= els.len(),
    ensures
        children_at(els, idx, n, def, rep, path) matches Ok((cs, end)) ==> {
            &&& cs.len() == n
            &&& preorder_from(cs, 0).len() == end - idx
            &&& mirrors(preorder_from(cs, 0), els, idx, false)
            &&& forall|i: int|
                0 <= i < cs.len() ==> {
                    let c = #[trigger] cs[i];
                    &&& c.def_level == raised(def, c.repetition != 0)
                    &&& c.rep_level == raised(rep, c.repetition == 2)
                    &&& c.path == joined(path, c.name)
                    &&& c.consistent()
                }
        },
    decreases els.len() - idx, 1nat, n,
{
    if n > 0 {
        lemma_node_progress(els, idx, def, rep, path, false);
        lemma_node_preorder(els, idx, def, rep, path, false);
        if let Ok((child, next)) = node_at(els, idx, def, rep, path, false) {
            lemma_children_preorder(els, next, (n - 1) as nat, def, rep, path);
            if let Ok((rest, end)) = children_at(els, next, (n - 1) as nat, def, rep, path) {
                let cs = seq![child] + rest;
                lemma_preorder_after(child, rest, 0);
                let a = child.preorder();
                let b = preorder_from(rest, 0);
                assert(preorder_from(cs, 0) == a + b);
                let nodes = a + b;
                assert forall|k: int| 0 <= k < nodes.len() implies {
                    let el = els[idx + k];
                    &&& (#[trigger] nodes[k]).name == el.name@
                    &&& nodes[k].leaf == leaf_info(el)
                    &&& nodes[k].children.len() == announced(el)
                    &&& nodes[k].repetition == el.repetition
                } by {
                    if k < a.len() {
                        assert(nodes[k] == a[k]);
                    } else {
                        assert(nodes[k] == b[k - a.len()]);
                    }
                }
                assert forall|i: int| 0 <= i < cs.len() implies {
                    let c = #[trigger] cs[i];
                    &&& c.def_level == raised(def, c.repetition != 0)
                    &&& c.rep_level == raised(rep, c.repetition == 2)
                    &&& c.path == joined(path, c.name)
                    &&& c.consistent()
                } by {
                    if i > 0 {
                        assert(cs[i] == rest[i - 1]);
                    }
                }
            }
        }
    }
}

/// The tree that [`build_schema`] builds holds the elements in their order, as
/// a preorder walk meets them; the levels of every node are those of its
/// parent, raised by its own repetition; and its path is that of its parent
/// joined with its name.
pub proof fn lemma_schema_faithful(els: Seq<SchemaElement>)
    ensures
        node_at(els, 0, 0, 0, seq![], true) matches Ok((root, end)) ==> {
            &&& root.preorder().len() == end
            &&& end <= els.len()
            &&& mirrors(root.preorder(), els, 0, true)
            &&& root.consistent()
            &&& root.def_level == 0
            &&& root.rep_level == 0
            &&& root.path.len() == 0
        },
{
    lemma_node_progress(els, 0, 0, 0, seq![], true);
    lemma_node_preorder(els, 0, 0, 0, seq![], true);
}

/// How many nodes on the route, behind `node` itself, are not required.
pub open spec fn optional_on(node: NodeTree, route: Seq<usize>) -> nat
    decreases route.len(),
{
    if route.len() == 0 {
        0
    } else {
        let child = node.children[route[0] as int];
        (if child.repetition != 0 {
            1nat
        } else {
            0
        }) + optional_on(child, route.drop_first())
    }
}

/// How many nodes on the route, behind `node` itself, are repeated.
pub open spec fn repeated_on(node: NodeTree, route: Seq<usize>) -> nat
    decreases route.len(),
{
    if route.len() == 0 {
        0
    } else {
        let child = node.children[route[0] as int];
        (if child.repetition == 2 {
            1nat
        } else {
            0
        }) + repeated_on(child, route.drop_first())
    }
}

/// Repeated nodes are not required, and there are no more nodes on a route than
/// it has steps.
pub proof fn lemma_counts_on(node: NodeTree, route: Seq<usize>)
    ensures
        repeated_on(node, route) <= optional_on(node, route) <= route.len(),
    decreases route.len(),
{
    if route.len() > 0 {
        lemma_counts_on(node.children[route[0] as int], route.drop_first());
    }
}

proof fn lemma_levels_along(node: NodeTree, route: Seq<usize>)
    requires
        node.consistent(),
        reaches(node, route),
        node.def_level + optional_on(node, route) <= u16::MAX,
        node.rep_level + repeated_on(node, route) <= u16::MAX,
    ensures
        node_on(node, route).def_level == node.def_level + optional_on(node, route),
        node_on(node, route).rep_level == node.rep_level + repeated_on(node, route),
    decreases route.len(),
{
    if route.len() > 0 {
        lemma_levels_along(node.children[route[0] as int], route.drop_first());
    }
}

/// In a schema that [`build_schema`] builds, the definition level of a node is the
/// number of nodes on the way to it, itself too, that are not required, and the
/// repetition level the number of those that are repeated; so the second never
/// exceeds the first. Left out are nodes whose levels do not fit in 16 bits.
pub proof fn lemma_schema_levels_ordered(els: Seq<SchemaElement>, route: Seq<usize>)
    ensures
        node_at(els, 0, 0, 0, seq![], true) matches Ok((root, _)) ==> {
            let node = node_on(root, route);
            reaches(root, route) && optional_on(root, route) <= u16::MAX ==> {
                &&& node.def_level == optional_on(root, route)
                &&& node.rep_level == repeated_on(root, route)
                &&& node.rep_level <= node.def_level
            }
        },
{
    lemma_schema_faithful(els);
    if let Ok((root, _)) = node_at(els, 0, 0, 0, seq![], true) {
        lemma_counts_on(root, route);
        if reaches(root, route) && optional_on(root, route) <= u16::MAX {
            lemma_levels_along(root, route);
        }
    }
}

proof fn lemma_first_at_join(a: Seq<NodeTree>, b: Seq<NodeTree>, path: Seq<char>)
    ensures
        first_at(a + b, path) == (match first_at(a, path) {
            Some(n) => Some(n),
            None => first_at(b, path),
        }),
    decreases a.len(),
{
    if a.len() == 0 {
        assert(a + b =~= b);
    } else {
        assert((a + b).drop_first() =~= a.drop_first() + b);
        lemma_first_at_join(a.drop_first(), b, path);
    }
}

proof fn lemma_route_from_finds(nodes: Seq<NodeTree>, path: Seq<char>, i: int, node: NodeTree)
    requires
        0 <= i,
        node.children == nodes,
        wide_ok(node),
    ensures
        first_at(leaves_from(nodes, i), path) == (match route_from(nodes, path, i) {
            Some(r) => Some(node_on(node, r)),
            None => None,
        }),
    decreases nodes, nodes.len() - i,
{
    if i < nodes.len() {
        lemma_route_finds(nodes[i], path);
        lemma_route_from_finds(nodes, path, i + 1, node);
        lemma_first_at_join(nodes[i].leaves(), leaves_from(nodes, i + 1), path);
        if let Some(r) = nodes[i].route(path) {
            assert((seq![i as usize] + r).drop_first() =~= r);
        }
    }
}

/// There is a route exactly if [`SchemaNode::find_leaf`] finds a leaf; it leads
/// from child to child to that very leaf.
pub proof fn lemma_route_finds(node: NodeTree, path: Seq<char>)
    requires
        wide_ok(node),
    ensures
        node.route(path) matches Some(r) ==> reaches(node, r),
        first_at(node.leaves(), path) == (match node.route(path) {
            Some(r) => Some(node_on(node, r)),
            None => None,
        }),
    decreases node, 0int,
{
    lemma_route_reaches(node, path);
    let own = if node.leaf is Some {
        seq![node]
    } else {
        seq![]
    };
    lemma_first_at_join(own, leaves_from(node.children, 0), path);
    if node.leaf is Some {
        assert(first_at(own.drop_first(), path) is None);
        assert(first_at(own, path) is Some <==> node.path == path);
    } else {
        assert(first_at(own, path) is None);
    }
    assert(node.leaves() == own + leaves_from(node.children, 0));
    lemma_route_from_finds(node.children, path, 0, node);
}

/// The contents of a node that exists in memory.
pub proof fn lemma_wide(node: SchemaNode)
    ensures
        wide_ok(node@),
    decreases node,
{
    assert(node.children.len() == node.children@.len());
    assert forall|i: int| 0 <= i < node@.children.len() implies wide_ok(
        #[trigger] node@.children[i],
    ) by {
        assert(decreases_to!(node => node.children));
        assert(decreases_to!(node.children => node.children[i]));
        lemma_wide(node.children[i]);
    }
}

impl NodeTree {
    /// Every node is required, optional or repeated.
    pub open spec fn regular(self) -> bool
        decreases self,
    {
        &&& 0 <= self.repetition <= 2
        &&& forall|i: int| 0 <= i < self.children.len() ==> (#[trigger] self.children[i]).regular()
    }
}

proof fn lemma_node_regular(
    els: Seq<SchemaElement>,
    idx: int,
    def: u16,
    rep: u16,
    path: Seq<char>,
    is_root: bool,
)
    requires
        forall|k: int| 0 <= k < els.len() ==> 0 <= (#[trigger] els[k]).repetition <= 2,
    ensures
        node_at(els, idx, def, rep, path, is_root) matches Ok((n, end)) ==> n.regular(),
    decreases els.len() - idx, 0nat, 0nat,
{
    if let Ok((n, end)) = node_at(els, idx, def, rep, path, is_root) {
        let el = els[idx];
        let count = announced(el);
        lemma_children_regular(els, idx + 1, count, n.def_level, n.rep_level, n.path);
    }
}

proof fn lemma_children_regular(
    els: Seq<SchemaElement>,
    idx: int,
    n: nat,
    def: u16,
    rep: u16,
    path: Seq<char>,
)
    requires
        forall|k: int| 0 <= k < els.len() ==> 0 <= (#[trigger] els[k]).repetition <= 2,
        0 <= idx <= els.len(),
    ensures
        children_at(els, idx, n, def, rep, path) matches Ok((cs, end)) ==> forall|i: int|
            0 <= i < cs.len() ==> (#[trigger] cs[i]).regular(),
    decreases els.len() - idx, 1nat, n,
{
    if n > 0 {
        lemma_node_progress(els, idx, def, rep, path, false);
        lemma_node_regular(els, idx, def, rep, path, false);
        if let Ok((child, next)) = node_at(els, idx, def, rep, path, false) {
            lemma_children_regular(els, next, (n - 1) as nat, def, rep, path);
            if let Ok((rest, end)) = children_at(els, next, (n - 1) as nat, def, rep, path) {
                let cs = seq![child] + rest;
                assert forall|i: int| 0 <= i < cs.len() implies (#[trigger] cs[i]).regular() by {
                    if i > 0 {
                        assert(cs[i] == rest[i - 1]);
                    }
                }
            }
        }
    }
}

/// A schema whose elements are all required, optional or repeated has only such
/// nodes.
pub proof fn lemma_schema_regular(els: Seq<SchemaElement>)
    requires
        forall|k: int| 0 <= k < els.len() ==> 0 <= (#[trigger] els[k]).repetition <= 2,
    ensures
        node_at(els, 0, 0, 0, seq![], true) matches Ok((root, _)) ==> root.regular(),
{
    lemma_node_regular(els, 0, 0, 0, seq![], true);
}

proof fn lemma_preorder_holds(nodes: Seq<NodeTree>, from: int, i: int)
    requires
        0 <= from <= i < nodes.len(),
    ensures
        preorder_from(nodes, from).len() >= nodes[i].preorder().len(),
    decreases i - from,
{
    if from < i {
        lemma_preorder_holds(nodes, from + 1, i);
    }
}

proof fn lemma_route_short(node: NodeTree, route: Seq<usize>)
    requires
        reaches(node, route),
    ensures
        route.len() < node.preorder().len(),
    decreases route.len(),
{
    if route.len() > 0 {
        let i = route[0] as int;
        lemma_route_short(node.children[i], route.drop_first());
        lemma_preorder_holds(node.children, 0, i);
    }
}

/// In a schema of at most 65536 elements all levels fit in 16 bits.
pub proof fn lemma_small_schema_fits(els: Seq<SchemaElement>, route: Seq<usize>)
    requires
        els.len() <= 0x1_0000,
    ensures
        node_at(els, 0, 0, 0, seq![], true) matches Ok((root, _)) ==> reaches(root, route)
            ==> optional_on(root, route) <= u16::MAX,
{
    lemma_schema_faithful(els);
    if let Ok((root, _)) = node_at(els, 0, 0, 0, seq![], true) {
        lemma_counts_on(root, route);
        if reaches(root, route) {
            lemma_route_short(root, route);
        }
    }
}

proof fn lemma_leaves_from_preorder(nodes: Seq<NodeTree>, i: int)
    requires
        0 <= i,
    ensures
        leaves_from(nodes, i) == preorder_from(nodes, i).filter(|n: NodeTree| n.leaf is Some),
    decreases nodes, nodes.len() - i,
{
    let is_leaf = |n: NodeTree| n.leaf is Some;
    if i < nodes.len() {
        lemma_leaves_are_all(nodes[i]);
        lemma_leaves_from_preorder(nodes, i + 1);
        Seq::filter_distributes_over_add(
            nodes[i].preorder(),
            preorder_from(nodes, i + 1),
            is_leaf,
        );
    } else {
        reveal(Seq::filter);
    }
}

/// The leaves of a tree are the nodes of its preorder walk that are leaves, all
/// of them and in that order.
pub proof fn lemma_leaves_are_all(node: NodeTree)
    ensures
        node.leaves() == node.preorder().filter(|n: NodeTree| n.leaf is Some),
    decreases node, 0int,
{
    let is_leaf = |n: NodeTree| n.leaf is Some;
    let own = seq![node];
    lemma_leaves_from_preorder(node.children, 0);
    Seq::filter_distributes_over_add(own, preorder_from(node.children, 0), is_leaf);
    assert(own.filter(is_leaf) == (if node.leaf is Some {
        own
    } else {
        seq![]
    })) by {
        reveal(Seq::filter);
        assert(own.drop_last() =~= seq![]);
        assert(own.drop_last().filter(is_leaf) =~= seq![]);
    }
}

/// The walk over some nodes meets what the walk over one of them meets.
pub proof fn lemma_preorder_from_reaches(nodes: Seq<NodeTree>, from: int, i: int, n: NodeTree)
    requires
        0 <= from <= i < nodes.len(),
        nodes[i].preorder().contains(n),
    ensures
        preorder_from(nodes, from).contains(n),
    decreases i - from,
{
    let a = nodes[from].preorder();
    let b = preorder_from(nodes, from + 1);
    if from < i {
        lemma_preorder_from_reaches(nodes, from + 1, i, n);
        let k = choose|k: int| 0 <= k < b.len() && b[k] == n;
        assert((a + b)[a.len() + k] == n);
    } else {
        let k = choose|k: int| 0 <= k < a.len() && a[k] == n;
        assert((a + b)[k] == n);
    }
}

/// The preorder walk meets every node that a route leads to.
pub proof fn lemma_preorder_meets_all(node: NodeTree, route: Seq<usize>)
    requires
        reaches(node, route),
    ensures
        node.preorder().contains(node_on(node, route)),
    decreases route.len(),
{
    let below = preorder_from(node.children, 0);
    if route.len() == 0 {
        assert(node.preorder()[0] == node);
    } else {
        let i = route[0] as int;
        let n = node_on(node, route);
        lemma_preorder_meets_all(node.children[i], route.drop_first());
        lemma_preorder_from_reaches(node.children, 0, i, n);
        let k = choose|k: int| 0 <= k < below.len() && below[k] == n;
        assert(node.preorder()[k + 1] == n);
    }
}

/// What is found is the first node with that path, and it is found if there is
/// one: no other node with the path stands before it.
pub proof fn lemma_first_is_first(nodes: Seq<NodeTree>, path: Seq<char>)
    ensures
        match first_at(nodes, path) {
            Some(n) => n.path == path && exists|i: int|
                0 <= i < nodes.len() && #[trigger] nodes[i] == n && forall|j: int|
                    0 <= j < i ==> (#[trigger] nodes[j]).path != path,
            None => forall|i: int| 0 <= i < nodes.len() ==> (#[trigger] nodes[i]).path != path,
        },
    decreases nodes.len(),
{
    if nodes.len() > 0 {
        if nodes[0].path == path {
            assert(nodes[0] == first_at(nodes, path)->Some_0);
        } else {
            let rest = nodes.drop_first();
            lemma_first_is_first(rest, path);
            match first_at(rest, path) {
                Some(n) => {
                    let i = choose|i: int|
                        0 <= i < rest.len() && #[trigger] rest[i] == n && forall|j: int|
                            0 <= j < i ==> (#[trigger] rest[j]).path != path;
                    assert(nodes[i + 1] == n);
                    assert forall|j: int| 0 <= j < i + 1 implies (#[trigger] nodes[j]).path
                        != path by {
                        if j > 0 {
                            assert(rest[j - 1] == nodes[j]);
                        }
                    }
                },
                None => {
                    assert forall|i: int| 0 <= i < nodes.len() implies (#[trigger] nodes[i]).path
                        != path by {
                        if i > 0 {
                            assert(rest[i - 1] == nodes[i]);
                        }
                    }
                },
            }
        }
    }
}

/// Every leaf of the tree can be found: [`SchemaNode::find_leaf`] and the search
/// for a route succeed for its path, wherever in the tree it stands.
pub proof fn lemma_every_leaf_found(node: NodeTree, route: Seq<usize>)
    requires
        wide_ok(node),
        reaches(node, route),
        node_on(node, route).leaf is Some,
    ensures
        first_at(node.leaves(), node_on(node, route).path) is Some,
        node.route(node_on(node, route).path) is Some,
{
    let n = node_on(node, route);
    let all = node.preorder();
    lemma_leaves_are_all(node);
    lemma_preorder_meets_all(node, route);
    let k = choose|k: int| 0 <= k < all.len() && all[k] == n;
    all.lemma_filter_contains(|x: NodeTree| x.leaf is Some, k);
    let i = choose|i: int| 0 <= i < node.leaves().len() && node.leaves()[i] == n;
    lemma_first_is_first(node.leaves(), n.path);
    assert(node.leaves()[i].path == n.path);
    lemma_route_finds(node, n.path);
}

/// What a schema is made of: node `k` of the preorder walk has the name and the
/// repetition of element `k`, and as many children as that announces. It is a
/// leaf exactly if the element announces none, and then has its physical type, or
/// -1 without one, and its length, or 0. The root counts as required.
pub proof fn lemma_schema_elements(els: Seq<SchemaElement>, k: int)
    ensures
        node_at(els, 0, 0, 0, seq![], true) matches Ok((root, end)) ==> {
            let n = root.preorder()[k];
            let el = els[k];
            &&& root.preorder().len() == end
            &&& 0 <= k < end ==> {
                &&& n.name == el.name@
                &&& n.repetition == (if k == 0 {
                    0
                } else {
                    el.repetition
                })
                &&& el.num_children > 0 ==> n.children.len() == el.num_children && n.leaf is None
                &&& el.num_children == 0 ==> n.children.len() == 0 && n.leaf is Some
                &&& el.num_children < 0 ==> n.children.len() == 0 && n.leaf is None
                &&& n.leaf matches Some(info) ==> {
                    &&& el.typ matches Some(t) ==> info.typ == t
                    &&& el.typ is None ==> info.typ == -1
                    &&& el.type_length matches Some(t) ==> info.type_length == t
                    &&& el.type_length is None ==> info.type_length == 0
                }
            }
        },
{
    lemma_schema_faithful(els);
}

proof fn lemma_consistent_on(node: NodeTree, route: Seq<usize>)
    requires
        node.consistent(),
        reaches(node, route),
    ensures
        node_on(node, route).consistent(),
    decreases route.len(),
{
    if route.len() > 0 {
        lemma_consistent_on(node.children[route[0] as int], route.drop_first());
    }
}

/// What a node has from its parent, wherever in a schema it stands: its path is
/// the parent's, a dot and its name, or its name alone below the root; its
/// definition level is one higher exactly if it is not required, its repetition
/// level exactly if it is repeated, in 16-bit arithmetic.
pub proof fn lemma_schema_inherits(els: Seq<SchemaElement>, route: Seq<usize>, i: int)
    ensures
        node_at(els, 0, 0, 0, seq![], true) matches Ok((root, _)) ==> {
            let p = node_on(root, route);
            let c = p.children[i];
            &&& root.path.len() == 0 && root.def_level == 0 && root.rep_level == 0
            &&& reaches(root, route) && 0 <= i < p.children.len() ==> {
                &&& p.path.len() == 0 ==> c.path == c.name
                &&& p.path.len() > 0 ==> c.path == p.path.push('.') + c.name
                &&& c.repetition == 0 ==> c.def_level == p.def_level
                &&& c.repetition != 0 ==> c.def_level == (p.def_level + 1) % 0x1_0000
                &&& c.repetition != 2 ==> c.rep_level == p.rep_level
                &&& c.repetition == 2 ==> c.rep_level == (p.rep_level + 1) % 0x1_0000
            }
        },
{
    lemma_schema_faithful(els);
    if let Ok((root, _)) = node_at(els, 0, 0, 0, seq![], true) {
        let p = node_on(root, route);
        let c = p.children[i];
        if reaches(root, route) && 0 <= i < p.children.len() {
            lemma_consistent_on(root, route);
            assert(c.consistent());
            reveal_strlit(".");
            assert("."@ =~= seq!['.']);
            assert(p.path + "."@ + c.name =~= p.path.push('.') + c.name);
        }
    }
}

/// How many nodes the elements from `from` up to `to` announce beyond themselves.
pub open spec fn balance(els: Seq<SchemaElement>, from: int, to: int) -> int
    decreases to - from,
{
    if from < to {
        balance(els, from, to - 1) - 1 + (if els[to - 1].num_children > 0 {
            els[to - 1].num_children as int
        } else {
            0
        })
    } else {
        0
    }
}

proof fn lemma_balance_join(els: Seq<SchemaElement>, from: int, mid: int, to: int)
    requires
        from <= mid <= to,
    ensures
        balance(els, from, to) == balance(els, from, mid) + balance(els, mid, to),
    decreases to - mid,
{
    if mid < to {
        lemma_balance_join(els, from, mid, to - 1);
    }
}

proof fn lemma_node_balance(
    els: Seq<SchemaElement>,
    idx: int,
    def: u16,
    rep: u16,
    path: Seq<char>,
    is_root: bool,
)
    requires
        0 <= idx <= els.len(),
    ensures
        match node_at(els, idx, def, rep, path, is_root) {
            Ok((_, end)) => {
                &&& idx < end <= els.len()
                &&& balance(els, idx, end) == -1
                &&& forall|k: int| idx <= k < end ==> #[trigger] balance(els, idx, k) >= 0
            },
            Err(e) => {
                &&& e == SchemaError::IndexOutOfRange
                &&& forall|k: int| idx <= k <= els.len() ==> #[trigger] balance(els, idx, k) >= 0
            },
        },
    decreases els.len() - idx, 0nat, 0nat,
{
    lemma_node_progress(els, idx, def, rep, path, is_root);
    if idx < els.len() {
        let el = els[idx];
        let repetition = if is_root {
            0
        } else {
            el.repetition
        };
        let own_path = if is_root {
            seq![]
        } else {
            joined(path, el.name@)
        };
        let d = raised(def, repetition != 0);
        let r = raised(rep, repetition == 2);
        lemma_children_balance(els, idx + 1, announced(el), d, r, own_path);
        assert(balance(els, idx, idx) == 0);
        assert(balance(els, idx, idx + 1) == announced(el) - 1);
        assert forall|k: int| idx < k <= els.len() implies #[trigger] balance(els, idx, k)
            == announced(el) - 1 + balance(els, idx + 1, k) by {
            lemma_balance_join(els, idx, idx + 1, k);
        }
    }
}

proof fn lemma_children_balance(
    els: Seq<SchemaElement>,
    idx: int,
    n: nat,
    def: u16,
    rep: u16,
    path: Seq<char>,
)
    requires
        0 <= idx <= els.len(),
    ensures
        match children_at(els, idx, n, def, rep, path) {
            Ok((_, end)) => {
                &&& idx <= end <= els.len()
                &&& balance(els, idx, end) == -n
                &&& forall|k: int| idx <= k < end ==> #[trigger] balance(els, idx, k) > -n
            },
            Err(e) => {
                &&& e == SchemaError::IndexOutOfRange
                &&& forall|k: int| idx <= k <= els.len() ==> #[trigger] balance(els, idx, k) > -n
            },
        },
    decreases els.len() - idx, 1nat, n,
{
    if n > 0 {
        lemma_node_progress(els, idx, def, rep, path, false);
        lemma_node_balance(els, idx, def, rep, path, false);
        if let Ok((_, next)) = node_at(els, idx, def, rep, path, false) {
            lemma_children_balance(els, next, (n - 1) as nat, def, rep, path);
            assert forall|k: int| next <= k <= els.len() implies #[trigger] balance(els, idx, k)
                == balance(els, next, k) - 1 by {
                lemma_balance_join(els, idx, next, k);
            }
        }
    }
}

/// When a schema can be built: exactly if some first elements announce as many
/// nodes as there are behind the root. The tree is made of the shortest such
/// list; if there is none, an element index is out of range.
pub proof fn lemma_schema_complete(els: Seq<SchemaElement>)
    requires
        els.len() > 0,
    ensures
        match node_at(els, 0, 0, 0, seq![], true) {
            Ok((_, end)) => {
                &&& 0 < end <= els.len()
                &&& balance(els, 0, end) == -1
                &&& forall|k: int| 0 <= k < end ==> #[trigger] balance(els, 0, k) >= 0
            },
            Err(e) => {
                &&& e == SchemaError::IndexOutOfRange
                &&& forall|k: int| 0 <= k <= els.len() ==> #[trigger] balance(els, 0, k) >= 0
            },
        },
{
    lemma_node_balance(els, 0, 0, 0, seq![], true);
}

/// What a [`SchemaNode`] is taken to hold: its own fields, and what its children
/// hold, one for one.
pub proof fn lemma_node_contents(n: SchemaNode)
    ensures
        n@.name == n.name@,
        n@.path == n.path@,
        n@.repetition == n.repetition,
        n@.def_level == n.def_level,
        n@.rep_level == n.rep_level,
        n@.leaf == n.leaf,
        n@.children.len() == n.children@.len(),
        forall|i: int| 0 <= i < n.children@.len() ==> #[trigger] n@.children[i] == n.children@[i]@,
{
}

} // verus!
