//! A tree of JSON values, kept as a list of nodes that refer to each other by
//! index, with a focus path into it and the moves of the focus through it.

use vstd::prelude::*;

verus! {

/// How a container is shown.
#[derive(Debug, Copy, Clone, PartialEq, Eq, Structural)]
pub enum ContainerState {
    Expanded,
    Inlined,
    Collapsed,
}

/// A JSON value as read, from which a tree is built.
#[derive(Debug)]
pub enum JsonValue {
    Null,
    Bool(bool),
    /// A number, by its text.
    Number(String),
    String(String),
    Array(Vec<JsonValue>),
    Object(Vec<(String, JsonValue)>),
}

/// A value that cannot be drilled into.
#[derive(Debug)]
pub enum JPrimitive {
    Null,
    Bool(bool),
    /// A number, by its text.
    Number(String),
    String(String),
    EmptyArray,
    EmptyObject,
}

/// The children of a container, by their indexes in the tree.
#[derive(Debug)]
pub enum JContainer {
    Array(Vec<usize>),
    Object(Vec<(String, usize)>),
    /// The root of the document, which may hold several top-level values.
    TopLevel(Vec<usize>),
}

#[derive(Debug)]
pub enum JValue {
    Primitive(JPrimitive),
    Container(JContainer),
}

/// A node of the tree: its value, how it is shown if it is a container, and
/// its parent.
#[derive(Debug)]
pub struct JNode {
    pub value: JValue,
    pub container_state: ContainerState,
    pub parent: Option<usize>,
    pub start_index: usize,
    pub end_index: usize,
}

/// The nodes of a document; the first is its root.
#[derive(Debug)]
pub struct JTree {
    pub nodes: Vec<JNode>,
}

/// The path to the focused node: for each container on the way, the
/// container and the position of the child taken in it.
#[derive(Debug)]
pub struct Focus(pub Vec<(usize, usize)>);

/// A move of the focus.
#[derive(Debug, Copy, Clone, PartialEq, Eq, Structural)]
pub enum Action {
    Up,
    Down,
    Left,
    Right,
    ToggleInline,
    FocusFirstElem,
    FocusLastElem,
}

impl JContainer {
    /// The indexes of the children, in order.
    pub open spec fn spec_children(&self) -> Seq<usize> {
        match self {
            JContainer::Array(v) => v@,
            JContainer::Object(kv) => kv@.map_values(|p: (String, usize)| p.1),
            JContainer::TopLevel(v) => v@,
        }
    }

    /// The characters that open and close the container.
    pub fn characters(&self) -> (r: (char, char))
        ensures
            r == match self {
                JContainer::Array(_) => ('[', ']'),
                JContainer::Object(_) => ('{', '}'),
                JContainer::TopLevel(_) => ('<', '>'),
            },
    {
        match self {
            JContainer::Array(_) => ('[', ']'),
            JContainer::Object(_) => ('{', '}'),
            JContainer::TopLevel(_) => ('<', '>'),
        }
    }

    /// The number of children.
    pub fn len(&self) -> (n: usize)
        ensures
            n == self.spec_children().len(),
    {
        match self {
            JContainer::Array(v) => v.len(),
            JContainer::Object(kv) => kv.len(),
            JContainer::TopLevel(v) => v.len(),
        }
    }

    /// The index of the `k`-th child.
    pub fn index(&self, k: usize) -> (c: usize)
        requires
            k < self.spec_children().len(),
        ensures
            c == self.spec_children()[k as int],
    {
        match self {
            JContainer::Array(v) => v[k],
            JContainer::Object(kv) => kv[k].1,
            JContainer::TopLevel(v) => v[k],
        }
    }
}

impl JNode {
    /// Whether a container node has no children.
    pub fn is_empty(&self) -> (b: bool)
        requires
            self.value is Container,
        ensures
            self.value matches JValue::Container(c) && b == (c.spec_children().len() == 0),
    {
        self.len() == 0
    }

    /// The number of children of a container node.
    pub fn len(&self) -> (n: usize)
        requires
            self.value is Container,
        ensures
            self.value matches JValue::Container(c) && n == c.spec_children().len(),
    {
        match &self.value {
            JValue::Container(c) => c.len(),
            JValue::Primitive(_) => 0,
        }
    }
}

/// The children of node `i`; none for a primitive.
pub open spec fn children(nodes: Seq<JNode>, i: int) -> Seq<usize> {
    match nodes[i].value {
        JValue::Container(c) => c.spec_children(),
        JValue::Primitive(_) => Seq::empty(),
    }
}

/// Node `i` is a container shown expanded.
pub open spec fn is_expanded(nodes: Seq<JNode>, i: int) -> bool {
    nodes[i].value is Container && nodes[i].container_state == ContainerState::Expanded
}

impl JTree {
    /// Every child comes after its container, exists and has it as parent,
    /// and every container has a child.
    pub open spec fn wf(&self) -> bool {
        nodes_wf(self.nodes@)
    }
}

/// Every child comes after its container, exists and has it as parent, and
/// every container has a child.
pub open spec fn nodes_wf(n: Seq<JNode>) -> bool {
        &&& 0 < n.len()
        &&& forall|i: int, k: int|
            0 <= i < n.len() && 0 <= k < children(n, i).len() ==> i < #[trigger] children(n, i)[k]
                < n.len() && n[children(n, i)[k] as int].parent == Some(i as usize)
        &&& forall|i: int| 0 <= i < n.len() && (#[trigger] n[i]).value is Container ==> children(n, i).len() > 0
}

/// The node at `i` stands for `json`: primitives as they are, empty arrays
/// and objects as empty values, and others as expanded containers whose
/// children, which come after it, stand for the items in order (with the keys
/// of an object).
pub open spec fn represents(nodes: Seq<JNode>, i: int, json: JsonValue) -> bool
    decreases json,
{
    &&& 0 <= i < nodes.len()
    &&& match json {
        JsonValue::Null => nodes[i].value matches JValue::Primitive(JPrimitive::Null),
        JsonValue::Bool(b) => nodes[i].value matches JValue::Primitive(JPrimitive::Bool(c)) && c == b,
        JsonValue::Number(s) => nodes[i].value matches JValue::Primitive(JPrimitive::Number(t)) && t@
            == s@,
        JsonValue::String(s) => nodes[i].value matches JValue::Primitive(JPrimitive::String(t)) && t@
            == s@,
        JsonValue::Array(vs) => if vs@.len() == 0 {
            nodes[i].value matches JValue::Primitive(JPrimitive::EmptyArray)
        } else {
            &&& nodes[i].value matches JValue::Container(JContainer::Array(cs))
            &&& nodes[i].container_state == ContainerState::Expanded
            &&& children(nodes, i).len() == vs@.len()
            &&& forall|k: int|
                0 <= k < vs@.len() ==> i < #[trigger] children(nodes, i)[k] < nodes.len()
                    && represents(nodes, children(nodes, i)[k] as int, vs@[k])
        },
        JsonValue::Object(kvs) => if kvs@.len() == 0 {
            nodes[i].value matches JValue::Primitive(JPrimitive::EmptyObject)
        } else {
            &&& nodes[i].value matches JValue::Container(JContainer::Object(cs))
            &&& nodes[i].container_state == ContainerState::Expanded
            &&& children(nodes, i).len() == kvs@.len()
            &&& forall|k: int|
                0 <= k < kvs@.len() ==> i < #[trigger] children(nodes, i)[k] < nodes.len()
                    && cs@[k].0@ == kvs@[k].0@ && represents(
                    nodes,
                    children(nodes, i)[k] as int,
                    kvs@[k].1,
                )
        },
    }
}


/// The nodes from `lo` on are well formed: their children come after them,
/// exist and have them as parent, and containers have children.
pub open spec fn wf_from(nodes: Seq<JNode>, lo: int) -> bool {
    &&& forall|j: int, k: int|
        lo <= j < nodes.len() && 0 <= k < children(nodes, j).len() ==> j < #[trigger] children(nodes, j)[k]
            < nodes.len() && nodes[children(nodes, j)[k] as int].parent == Some(j as usize)
    &&& forall|j: int| lo <= j < nodes.len() && (#[trigger] nodes[j]).value is Container ==> children(nodes, j).len() > 0
}

/// What a node stands for depends only on it and the nodes after it.
proof fn lemma_represents_frame(nodes: Seq<JNode>, nodes2: Seq<JNode>, i: int, json: JsonValue)
    requires
        represents(nodes, i, json),
        nodes2.len() >= nodes.len(),
        forall|k: int| i <= k < nodes.len() ==> nodes2[k] == nodes[k],
    ensures
        represents(nodes2, i, json),
    decreases json,
{
    assert(nodes2[i] == nodes[i]);
    match json {
        JsonValue::Array(vs) => {
            if vs@.len() > 0 {
                assert forall|k: int| 0 <= k < vs@.len() implies i < #[trigger] children(nodes2, i)[k]
                    < nodes2.len() && represents(nodes2, children(nodes2, i)[k] as int, vs@[k]) by {
                    let c = children(nodes, i)[k] as int;
                    assert(represents(nodes, c, vs@[k]));
                    lemma_represents_frame(nodes, nodes2, c, vs@[k]);
                }
            }
        },
        JsonValue::Object(kvs) => {
            if kvs@.len() > 0 {
                assert forall|k: int| 0 <= k < kvs@.len() implies i < #[trigger] children(nodes2, i)[k]
                    < nodes2.len() && represents(nodes2, children(nodes2, i)[k] as int, kvs@[k].1) by {
                    let c = children(nodes, i)[k] as int;
                    assert(represents(nodes, c, kvs@[k].1));
                    lemma_represents_frame(nodes, nodes2, c, kvs@[k].1);
                }
            }
        },
        _ => {},
    }
}

/// Well-formedness from `lo` on depends only on the nodes from `lo` on.
proof fn lemma_wf_from_frame(nodes: Seq<JNode>, nodes2: Seq<JNode>, lo: int)
    requires
        wf_from(nodes, lo),
        nodes2.len() >= nodes.len(),
        forall|k: int| lo <= k < nodes.len() ==> nodes2[k] == nodes[k],
        wf_from(nodes2, nodes.len() as int),
    ensures
        wf_from(nodes2, lo),
{
    assert forall|j: int, k: int|
        lo <= j < nodes2.len() && 0 <= k < children(nodes2, j).len() implies j < #[trigger] children(nodes2, j)[k]
            < nodes2.len() && nodes2[children(nodes2, j)[k] as int].parent == Some(j as usize) by {
        if j < nodes.len() {
            assert(nodes2[j] == nodes[j]);
            assert(children(nodes2, j) == children(nodes, j));
            let c = children(nodes, j)[k] as int;
            assert(j < c < nodes.len());
            assert(nodes2[c] == nodes[c]);
        }
    }
    assert forall|j: int| lo <= j < nodes2.len() && (#[trigger] nodes2[j]).value is Container implies children(nodes2, j).len() > 0 by {
        if j < nodes.len() {
            assert(nodes2[j] == nodes[j]);
        }
    }
}

/// Setting the children of node `i` to nodes after it that have it as
/// parent makes the nodes from `i` on well formed.
proof fn lemma_wf_from_frame_update(before: Seq<JNode>, nodes: Seq<JNode>, i: int)
    requires
        0 <= i < before.len(),
        nodes.len() == before.len(),
        forall|m: int| i < m < nodes.len() ==> nodes[m] == before[m],
        wf_from(before, i + 1),
        nodes[i].value is Container,
        children(nodes, i).len() > 0,
        forall|m: int|
            0 <= m < children(nodes, i).len() ==> i < #[trigger] children(nodes, i)[m] < nodes.len()
                && nodes[children(nodes, i)[m] as int].parent == Some(i as usize),
    ensures
        wf_from(nodes, i),
{
    assert forall|j: int, k: int|
        i <= j < nodes.len() && 0 <= k < children(nodes, j).len() implies j < #[trigger] children(nodes, j)[k]
            < nodes.len() && nodes[children(nodes, j)[k] as int].parent == Some(j as usize) by {
        if j > i {
            assert(nodes[j] == before[j]);
            assert(children(nodes, j) == children(before, j));
            let c = children(before, j)[k] as int;
            assert(nodes[c] == before[c]);
        }
    }
    assert forall|j: int| i <= j < nodes.len() && (#[trigger] nodes[j]).value is Container implies children(nodes, j).len() > 0 by {
        if j > i {
            assert(nodes[j] == before[j]);
        }
    }
}

/// A node for `value`, with `parent`.
fn leaf(value: JValue, parent: Option<usize>) -> (n: JNode)
    ensures
        n.value == value,
        n.parent == parent,
        n.container_state == ContainerState::Expanded,
{
    JNode { value, container_state: ContainerState::Expanded, parent, start_index: 0, end_index: 0 }
}

/// Appends the nodes standing for `json`, the first of them with `parent`,
/// and returns the index of that first node.
fn build(nodes: &mut Vec<JNode>, json: &JsonValue, parent: Option<usize>) -> (i: usize)
    ensures
        i == old(nodes)@.len(),
        final(nodes)@.len() > i,
        forall|k: int| 0 <= k < i ==> final(nodes)@[k] == old(nodes)@[k],
        final(nodes)@[i as int].parent == parent,
        represents(final(nodes)@, i as int, *json),
        wf_from(final(nodes)@, i as int),
    decreases json,
{
    let i = nodes.len();
    match json {
        JsonValue::Null => {
            nodes.push(leaf(JValue::Primitive(JPrimitive::Null), parent));
        },
        JsonValue::Bool(b) => {
            nodes.push(leaf(JValue::Primitive(JPrimitive::Bool(*b)), parent));
        },
        JsonValue::Number(t) => {
            nodes.push(leaf(JValue::Primitive(JPrimitive::Number(t.clone())), parent));
        },
        JsonValue::String(t) => {
            nodes.push(leaf(JValue::Primitive(JPrimitive::String(t.clone())), parent));
        },
        JsonValue::Array(vs) => {
            if vs.len() == 0 {
                nodes.push(leaf(JValue::Primitive(JPrimitive::EmptyArray), parent));
            } else {
                let ghost nodes0 = nodes@;
                nodes.push(leaf(JValue::Container(JContainer::Array(Vec::new())), parent));
                let mut cs: Vec<usize> = Vec::new();
                let mut k: usize = 0;
                while k < vs.len()
                    invariant
                        i == nodes0.len(),
                        nodes@.len() > i,
                        forall|m: int| 0 <= m < i ==> nodes@[m] == nodes0[m],
                        nodes@[i as int].parent == parent,
                        nodes@[i as int].container_state == ContainerState::Expanded,
                        k <= vs@.len(),
                        *json is Array,
                        (*json)->Array_0 == *vs,
                        cs@.len() == k,
                        forall|m: int|
                            0 <= m < k ==> i < #[trigger] cs@[m] < nodes@.len() && represents(
                                nodes@,
                                cs@[m] as int,
                                vs@[m],
                            ) && nodes@[cs@[m] as int].parent == Some(i),
                        wf_from(nodes@, i + 1),
                    decreases vs@.len() - k,
                {
                    let ghost before = nodes@;
                    proof {
                        assert(decreases_to!(*json => (*json)->Array_0));
                        assert((*json)->Array_0 == *vs);
                        assert(decreases_to!(*vs => vs@));
                        assert(decreases_to!(vs@ => vs@[k as int]));
                        assert(decreases_to!(*json => vs@[k as int]));
                    }
                    let c = build(nodes, &vs[k], Some(i));
                    proof {
                        assert forall|m: int| 0 <= m < k implies i < #[trigger] cs@[m] < nodes@.len()
                            && represents(nodes@, cs@[m] as int, vs@[m]) && nodes@[cs@[m] as int].parent
                            == Some(i) by {
                            lemma_represents_frame(before, nodes@, cs@[m] as int, vs@[m]);
                        }
                        lemma_wf_from_frame(before, nodes@, i + 1);
                    }
                    cs.push(c);
                    k = k + 1;
                }
                let ghost before = nodes@;
                let ghost kids = cs@;
                nodes[i].value = JValue::Container(JContainer::Array(cs));
                proof {
                    assert forall|m: int| i < m < nodes@.len() implies nodes@[m] == before[m] by {}
                    assert(children(nodes@, i as int) == kids);
                    assert forall|m: int| 0 <= m < vs@.len() implies i < #[trigger] children(nodes@, i as int)[m]
                        < nodes@.len() && represents(nodes@, children(nodes@, i as int)[m] as int, vs@[m]) by {
                        lemma_represents_frame(before, nodes@, kids[m] as int, vs@[m]);
                    }
                    lemma_wf_from_frame_update(before, nodes@, i as int);
                }
            }
        },
        JsonValue::Object(kvs) => {
            if kvs.len() == 0 {
                nodes.push(leaf(JValue::Primitive(JPrimitive::EmptyObject), parent));
            } else {
                let ghost nodes0 = nodes@;
                nodes.push(leaf(JValue::Container(JContainer::Object(Vec::new())), parent));
                let mut cs: Vec<(String, usize)> = Vec::new();
                let mut k: usize = 0;
                while k < kvs.len()
                    invariant
                        i == nodes0.len(),
                        nodes@.len() > i,
                        forall|m: int| 0 <= m < i ==> nodes@[m] == nodes0[m],
                        nodes@[i as int].parent == parent,
                        nodes@[i as int].container_state == ContainerState::Expanded,
                        k <= kvs@.len(),
                        *json is Object,
                        (*json)->Object_0 == *kvs,
                        cs@.len() == k,
                        forall|m: int|
                            0 <= m < k ==> i < (#[trigger] cs@[m]).1 < nodes@.len() && cs@[m].0@
                                == kvs@[m].0@ && represents(nodes@, cs@[m].1 as int, kvs@[m].1)
                                && nodes@[cs@[m].1 as int].parent == Some(i),
                        wf_from(nodes@, i + 1),
                    decreases kvs@.len() - k,
                {
                    let ghost before = nodes@;
                    proof {
                        assert(decreases_to!(*json => (*json)->Object_0));
                        assert((*json)->Object_0 == *kvs);
                        assert(decreases_to!(*kvs => kvs@));
                        assert(decreases_to!(kvs@ => kvs@[k as int]));
                        assert(decreases_to!(kvs@[k as int] => kvs@[k as int].1));
                        assert(decreases_to!(*json => kvs@[k as int].1));
                    }
                    let c = build(nodes, &kvs[k].1, Some(i));
                    proof {
                        assert forall|m: int| 0 <= m < k implies i < (#[trigger] cs@[m]).1 < nodes@.len()
                            && cs@[m].0@ == kvs@[m].0@ && represents(nodes@, cs@[m].1 as int, kvs@[m].1)
                            && nodes@[cs@[m].1 as int].parent == Some(i) by {
                            lemma_represents_frame(before, nodes@, cs@[m].1 as int, kvs@[m].1);
                        }
                        lemma_wf_from_frame(before, nodes@, i + 1);
                    }
                    cs.push((kvs[k].0.clone(), c));
                    k = k + 1;
                }
                let ghost before = nodes@;
                let ghost kids = cs@;
                nodes[i].value = JValue::Container(JContainer::Object(cs));
                proof {
                    assert forall|m: int| i < m < nodes@.len() implies nodes@[m] == before[m] by {}
                    assert(children(nodes@, i as int) =~= kids.map_values(|p: (String, usize)| p.1));
                    assert forall|m: int| 0 <= m < kvs@.len() implies i < #[trigger] children(nodes@, i as int)[m]
                        < nodes@.len() && kids[m].0@ == kvs@[m].0@ && represents(
                        nodes@,
                        children(nodes@, i as int)[m] as int,
                        kvs@[m].1,
                    ) by {
                        assert(children(nodes@, i as int)[m] == kids[m].1);
                        lemma_represents_frame(before, nodes@, kids[m].1 as int, kvs@[m].1);
                    }
                    lemma_wf_from_frame_update(before, nodes@, i as int);
                }
            }
        },
    }
    i
}


/// The tree of a document: a root holding the one top-level value `json`.
pub fn tree_from_value(json: &JsonValue) -> (t: JTree)
    ensures
        t.wf(),
        t.nodes@[0].value matches JValue::Container(JContainer::TopLevel(cs)) && cs@.len() == 1
            && represents(t.nodes@, cs@[0] as int, *json),
        t.nodes@[0].container_state == ContainerState::Expanded,
        t.nodes@[0].parent is None,
{
    let mut nodes: Vec<JNode> = Vec::new();
    nodes.push(leaf(JValue::Container(JContainer::TopLevel(Vec::new())), None));
    let c = build(&mut nodes, json, Some(0));
    let mut top: Vec<usize> = Vec::new();
    top.push(c);
    let ghost before = nodes@;
    nodes[0].value = JValue::Container(JContainer::TopLevel(top));
    proof {
        assert forall|m: int| 0 < m < nodes@.len() implies nodes@[m] == before[m] by {}
        lemma_represents_frame(before, nodes@, c as int, *json);
        lemma_wf_from_frame_update(before, nodes@, 0);
    }
    JTree { nodes }
}

/// The node at the end of the focus path.
pub open spec fn focused(nodes: Seq<JNode>, f: Seq<(usize, usize)>) -> int {
    children(nodes, f.last().0 as int)[f.last().1 as int] as int
}

/// Each step of the focus path is a child of a container that exists.
pub open spec fn focus_valid(nodes: Seq<JNode>, f: Seq<(usize, usize)>) -> bool {
    &&& f.len() > 0
    &&& forall|k: int|
        0 <= k < f.len() ==> (#[trigger] f[k]).0 < nodes.len() && nodes[f[k].0 as int].value is Container
            && f[k].1 < children(nodes, f[k].0 as int).len()
}

/// The nodes with the container at `i` shown as `state`.
pub open spec fn with_state(nodes: Seq<JNode>, i: int, state: ContainerState) -> Seq<JNode> {
    nodes.update(i, JNode { container_state: state, ..nodes[i] })
}

/// From `node` on, down through last children of expanded containers, each
/// step added to the path.
pub open spec fn descend_last(nodes: Seq<JNode>, f: Seq<(usize, usize)>, node: int) -> Seq<(usize, usize)>
    decreases nodes.len() - node,
{
    if 0 <= node < nodes.len() && is_expanded(nodes, node) && children(nodes, node).len() > 0 {
        let last = children(nodes, node).len() - 1;
        let next = children(nodes, node)[last] as int;
        if node < next < nodes.len() {
            descend_last(nodes, f.push((node as usize, last as usize)), next)
        } else {
            f.push((node as usize, last as usize))
        }
    } else {
        f
    }
}

/// Up: nothing at the first top-level value; to the container from a first
/// child; else to the previous sibling, and down through the last children
/// of the expanded containers there.
pub open spec fn spec_move_up(nodes: Seq<JNode>, f: Seq<(usize, usize)>) -> Seq<(usize, usize)> {
    let n = f.len();
    if n == 1 && f[0].1 == 0 {
        f
    } else if f[n - 1].1 == 0 {
        f.drop_last()
    } else {
        let f2 = f.update(n - 1, (f[n - 1].0, (f[n - 1].1 - 1) as usize));
        descend_last(nodes, f2, focused(nodes, f2))
    }
}

/// The path to the next sibling of the step at depth `d` or of the nearest
/// step above it that has one; unchanged when none below the top level has.
pub open spec fn climb(nodes: Seq<JNode>, f: Seq<(usize, usize)>, d: int) -> Seq<(usize, usize)>
    decreases d,
{
    if d <= 0 {
        f
    } else if f[d].1 + 1 < children(nodes, f[d].0 as int).len() {
        f.subrange(0, d + 1).update(d, (f[d].0, (f[d].1 + 1) as usize))
    } else {
        climb(nodes, f, d - 1)
    }
}

/// Down: into an expanded container, else to the next sibling of the node or
/// of its nearest ancestor that has one.
pub open spec fn spec_move_down(nodes: Seq<JNode>, f: Seq<(usize, usize)>) -> Seq<(usize, usize)> {
    let cur = focused(nodes, f);
    if is_expanded(nodes, cur) {
        f.push((cur as usize, 0))
    } else {
        climb(nodes, f, f.len() - 1)
    }
}

/// Left: an expanded container collapses; from anything else the focus goes
/// to the container, unless it is at the top level.
pub open spec fn spec_move_left(nodes: Seq<JNode>, f: Seq<(usize, usize)>) -> (Seq<JNode>, Seq<(usize, usize)>) {
    let cur = focused(nodes, f);
    if is_expanded(nodes, cur) {
        (with_state(nodes, cur, ContainerState::Collapsed), f)
    } else if f.len() > 1 {
        (nodes, f.drop_last())
    } else {
        (nodes, f)
    }
}

/// Right: a collapsed container expands, an expanded one is entered, and
/// nothing happens otherwise.
pub open spec fn spec_move_right(nodes: Seq<JNode>, f: Seq<(usize, usize)>) -> (Seq<JNode>, Seq<(usize, usize)>) {
    let cur = focused(nodes, f);
    if nodes[cur].value is Container && nodes[cur].container_state == ContainerState::Collapsed {
        (with_state(nodes, cur, ContainerState::Expanded), f)
    } else if is_expanded(nodes, cur) {
        (nodes, f.push((cur as usize, 0)))
    } else {
        (nodes, f)
    }
}

/// Toggling inline: an inlined container expands, another container is
/// inlined, and a primitive stays as it is.
pub open spec fn spec_toggle_inline(nodes: Seq<JNode>, f: Seq<(usize, usize)>) -> Seq<JNode> {
    let cur = focused(nodes, f);
    if nodes[cur].value is Container {
        if nodes[cur].container_state == ContainerState::Inlined {
            with_state(nodes, cur, ContainerState::Expanded)
        } else {
            with_state(nodes, cur, ContainerState::Inlined)
        }
    } else {
        nodes
    }
}

/// The tree and focus after `action`.
pub open spec fn spec_perform(nodes: Seq<JNode>, f: Seq<(usize, usize)>, action: Action) -> (Seq<JNode>, Seq<(usize, usize)>) {
    let n = f.len();
    match action {
        Action::Up => (nodes, spec_move_up(nodes, f)),
        Action::Down => (nodes, spec_move_down(nodes, f)),
        Action::Left => spec_move_left(nodes, f),
        Action::Right => spec_move_right(nodes, f),
        Action::ToggleInline => (spec_toggle_inline(nodes, f), f),
        Action::FocusFirstElem => (nodes, f.update(n - 1, (f[n - 1].0, 0usize))),
        Action::FocusLastElem => (nodes, f.update(
            n - 1,
            (f[n - 1].0, (children(nodes, f[n - 1].0 as int).len() - 1) as usize),
        )),
    }
}


impl JTree {
    /// Shows the container at `i` as `state`.
    pub fn set_container_state(&mut self, i: usize, state: ContainerState)
        requires
            i < old(self).nodes@.len(),
            old(self).nodes@[i as int].value is Container,
        ensures
            final(self).nodes@ == with_state(old(self).nodes@, i as int, state),
    {
        self.nodes[i].container_state = state;
    }

    /// Whether node `i` is a container shown expanded.
    pub fn node_is_expanded(&self, i: usize) -> (b: bool)
        requires
            i < self.nodes@.len(),
        ensures
            b == is_expanded(self.nodes@, i as int),
    {
        match &self.nodes[i].value {
            JValue::Container(_) => match self.nodes[i].container_state {
                ContainerState::Expanded => true,
                _ => false,
            },
            JValue::Primitive(_) => false,
        }
    }

    /// The number of children of node `i`.
    pub fn len(&self, i: usize) -> (n: usize)
        requires
            i < self.nodes@.len(),
        ensures
            n == children(self.nodes@, i as int).len(),
    {
        match &self.nodes[i].value {
            JValue::Container(c) => c.len(),
            JValue::Primitive(_) => 0,
        }
    }

    /// The index of the `k`-th child of node `i`.
    pub fn child(&self, i: usize, k: usize) -> (c: usize)
        requires
            i < self.nodes@.len(),
            k < children(self.nodes@, i as int).len(),
        ensures
            c == children(self.nodes@, i as int)[k as int],
    {
        match &self.nodes[i].value {
            JValue::Container(c) => c.index(k),
            JValue::Primitive(_) => 0,
        }
    }
}

impl Focus {
    /// The positions taken at each step of the path.
    pub fn indexes(&self) -> (r: Vec<usize>)
        ensures
            r@ == self.0@.map_values(|p: (usize, usize)| p.1),
    {
        let mut r: Vec<usize> = Vec::new();
        let mut i: usize = 0;
        while i < self.0.len()
            invariant
                i <= self.0@.len(),
                r@ == self.0@.subrange(0, i as int).map_values(|p: (usize, usize)| p.1),
            decreases self.0@.len() - i,
        {
            r.push(self.0[i].1);
            i = i + 1;
            assert(r@ =~= self.0@.subrange(0, i as int).map_values(|p: (usize, usize)| p.1));
        }
        assert(self.0@.subrange(0, i as int) =~= self.0@);
        r
    }

    /// The focused node.
    pub fn current_node(&self, tree: &JTree) -> (c: usize)
        requires
            tree.wf(),
            focus_valid(tree.nodes@, self.0@),
        ensures
            c == focused(tree.nodes@, self.0@),
            c < tree.nodes@.len(),
    {
        let n = self.0.len();
        let (parent, k) = self.0[n - 1];
        proof {
            assert(self.0@[n - 1] == self.0@.last());
        }
        tree.child(parent, k)
    }
}


/// Moves the focus up.
fn move_up(tree: &JTree, focus: &mut Focus)
    requires
        tree.wf(),
        focus_valid(tree.nodes@, old(focus).0@),
    ensures
        final(focus).0@ == spec_move_up(tree.nodes@, old(focus).0@),
        focus_valid(tree.nodes@, final(focus).0@),
{
    let ghost nodes = tree.nodes@;
    let n = focus.0.len();
    if n == 1 && focus.0[0].1 == 0 {
        return;
    }
    if focus.0[n - 1].1 == 0 {
        focus.0.pop();
        proof {
            assert(focus.0@ =~= old(focus).0@.drop_last());
        }
        return;
    }
    let (parent, k) = focus.0[n - 1];
    focus.0.set(n - 1, (parent, k - 1));
    let ghost f2 = focus.0@;
    proof {
        assert(f2 == old(focus).0@.update(n - 1, (parent, (k - 1) as usize)));
        assert(focus_valid(nodes, f2)) by {
            assert forall|j: int| 0 <= j < f2.len() implies (#[trigger] f2[j]).0 < nodes.len()
                && nodes[f2[j].0 as int].value is Container && f2[j].1 < children(nodes, f2[j].0 as int).len() by {
                assert(old(focus).0@[j].0 == f2[j].0);
            }
        }
    }
    let mut curr = focus.current_node(tree);
    loop
        invariant
            tree.wf(),
            nodes == tree.nodes@,
            focus_valid(nodes, focus.0@),
            curr == focused(nodes, focus.0@),
            curr < nodes.len(),
            descend_last(nodes, f2, focused(nodes, f2)) == descend_last(nodes, focus.0@, curr as int),
        ensures
            focus_valid(nodes, focus.0@),
            descend_last(nodes, f2, focused(nodes, f2)) == focus.0@,
        decreases nodes.len() - curr,
    {
        if !tree.node_is_expanded(curr) {
            break;
        }
        let len = tree.len(curr);
        let next = tree.child(curr, len - 1);
        let ghost before = focus.0@;
        focus.0.push((curr, len - 1));
        proof {
            assert(curr < next < nodes.len());
            assert(focus.0@ == before.push((curr, (len - 1) as usize)));
            assert forall|j: int| 0 <= j < focus.0@.len() implies (#[trigger] focus.0@[j]).0 < nodes.len()
                && nodes[focus.0@[j].0 as int].value is Container && focus.0@[j].1 < children(nodes, focus.0@[j].0 as int).len() by {
                if j < before.len() {
                    assert(focus.0@[j] == before[j]);
                }
            }
        }
        curr = next;
    }
}

/// Moves the focus down.
fn move_down(tree: &JTree, focus: &mut Focus)
    requires
        tree.wf(),
        focus_valid(tree.nodes@, old(focus).0@),
    ensures
        final(focus).0@ == spec_move_down(tree.nodes@, old(focus).0@),
        focus_valid(tree.nodes@, final(focus).0@),
{
    let ghost nodes = tree.nodes@;
    let ghost f0 = focus.0@;
    let current_node = focus.current_node(tree);
    if tree.node_is_expanded(current_node) {
        focus.0.push((current_node, 0));
        proof {
            assert(children(nodes, current_node as int).len() > 0);
            assert forall|j: int| 0 <= j < focus.0@.len() implies (#[trigger] focus.0@[j]).0 < nodes.len()
                && nodes[focus.0@[j].0 as int].value is Container && focus.0@[j].1 < children(nodes, focus.0@[j].0 as int).len() by {
                if j < f0.len() {
                    assert(focus.0@[j] == f0[j]);
                }
            }
        }
        return;
    }
    let depth = focus.0.len();
    let mut depth_index = depth - 1;
    while depth_index > 0
        invariant_except_break
            focus.0@ == f0,
        invariant
            nodes == tree.nodes@,
            focus_valid(nodes, f0),
            f0.len() == depth,
            depth_index < f0.len(),
            climb(nodes, f0, f0.len() - 1) == climb(nodes, f0, depth_index as int),
        ensures
            focus_valid(nodes, focus.0@),
            focus.0@ == climb(nodes, f0, f0.len() - 1),
        decreases depth_index,
    {
        let (node, curr_index) = focus.0[depth_index];
        let len = tree.len(node);
        if curr_index + 1 < len {
            focus.0.truncate(depth_index + 1);
            focus.0.set(depth_index, (node, curr_index + 1));
            proof {
                let g = f0.subrange(0, depth_index + 1).update(
                    depth_index as int,
                    (node, (curr_index + 1) as usize),
                );
                assert(focus.0@ =~= g);
                assert forall|j: int| 0 <= j < g.len() implies (#[trigger] g[j]).0 < nodes.len()
                    && nodes[g[j].0 as int].value is Container && g[j].1 < children(nodes, g[j].0 as int).len() by {
                    if j < depth_index {
                        assert(g[j] == f0[j]);
                    }
                }
            }
            break;
        }
        depth_index = depth_index - 1;
    }
}

/// Moves the focus left: collapses an expanded container, else goes to the
/// container.
fn move_left(tree: &mut JTree, focus: &mut Focus)
    requires
        old(tree).wf(),
        focus_valid(old(tree).nodes@, old(focus).0@),
    ensures
        (final(tree).nodes@, final(focus).0@) == spec_move_left(old(tree).nodes@, old(focus).0@),
{
    let current_node = focus.current_node(tree);
    if tree.node_is_expanded(current_node) {
        tree.set_container_state(current_node, ContainerState::Collapsed);
    } else if focus.0.len() > 1 {
        focus.0.pop();
        proof {
            assert(focus.0@ =~= old(focus).0@.drop_last());
        }
    }
}

/// Moves the focus right: expands a collapsed container, enters an expanded
/// one.
fn move_right(tree: &mut JTree, focus: &mut Focus)
    requires
        old(tree).wf(),
        focus_valid(old(tree).nodes@, old(focus).0@),
    ensures
        (final(tree).nodes@, final(focus).0@) == spec_move_right(old(tree).nodes@, old(focus).0@),
{
    let current_node = focus.current_node(tree);
    let is_container = match &tree.nodes[current_node].value {
        JValue::Container(_) => true,
        JValue::Primitive(_) => false,
    };
    if is_container {
        match tree.nodes[current_node].container_state {
            ContainerState::Inlined => {},
            ContainerState::Collapsed => {
                tree.set_container_state(current_node, ContainerState::Expanded);
            },
            ContainerState::Expanded => {
                focus.0.push((current_node, 0));
            },
        }
    }
}

/// Inlines the focused container, or expands it if it is inlined.
fn toggle_inline(tree: &mut JTree, focus: &Focus)
    requires
        old(tree).wf(),
        focus_valid(old(tree).nodes@, focus.0@),
    ensures
        final(tree).nodes@ == spec_toggle_inline(old(tree).nodes@, focus.0@),
{
    let current_node = focus.current_node(tree);
    let is_container = match &tree.nodes[current_node].value {
        JValue::Container(_) => true,
        JValue::Primitive(_) => false,
    };
    if is_container {
        if tree.nodes[current_node].container_state == ContainerState::Inlined {
            tree.set_container_state(current_node, ContainerState::Expanded);
        } else {
            tree.set_container_state(current_node, ContainerState::Inlined);
        }
    }
}

/// Moves the focus to the first child of its container.
fn focus_first_elem(focus: &mut Focus)
    requires
        old(focus).0@.len() > 0,
    ensures
        final(focus).0@ == old(focus).0@.update(
            old(focus).0@.len() - 1,
            (old(focus).0@.last().0, 0usize),
        ),
{
    let n = focus.0.len();
    let (node, _) = focus.0[n - 1];
    focus.0.set(n - 1, (node, 0));
}

/// Moves the focus to the last child of its container.
fn focus_last_elem(tree: &JTree, focus: &mut Focus)
    requires
        tree.wf(),
        focus_valid(tree.nodes@, old(focus).0@),
    ensures
        final(focus).0@ == old(focus).0@.update(
            old(focus).0@.len() - 1,
            (
                old(focus).0@.last().0,
                (children(tree.nodes@, old(focus).0@.last().0 as int).len() - 1) as usize,
            ),
        ),
{
    let n = focus.0.len();
    let (node, _) = focus.0[n - 1];
    proof {
        assert(old(focus).0@[n - 1] == old(focus).0@.last());
    }
    let len = tree.len(node);
    focus.0.set(n - 1, (node, len - 1));
}



/// Showing a container differently keeps the nodes well formed and a focus
/// valid.
proof fn lemma_with_state(nodes: Seq<JNode>, i: int, state: ContainerState, f: Seq<(usize, usize)>)
    requires
        nodes_wf(nodes),
        0 <= i < nodes.len(),
        focus_valid(nodes, f),
    ensures
        nodes_wf(with_state(nodes, i, state)),
        focus_valid(with_state(nodes, i, state), f),
{
    let n2 = with_state(nodes, i, state);
    assert forall|j: int| 0 <= j < nodes.len() implies children(n2, j) == children(nodes, j) && (n2[j].value is Container <==> nodes[j].value is Container) && n2[j].parent == nodes[j].parent by {}
    assert forall|j: int, k: int|
        0 <= j < n2.len() && 0 <= k < children(n2, j).len() implies j < #[trigger] children(n2, j)[k]
            < n2.len() && n2[children(n2, j)[k] as int].parent == Some(j as usize) by {
        assert(children(n2, j) == children(nodes, j));
        let c = children(nodes, j)[k] as int;
        assert(n2[c].parent == nodes[c].parent);
    }
}

/// The focus is a path from the root: it starts at the root, each step
/// takes the child that the step before led to, and every container it
/// enters below the root is expanded.
pub open spec fn focus_connected(nodes: Seq<JNode>, f: Seq<(usize, usize)>) -> bool {
    &&& f.len() >= 1
    &&& f[0].0 == 0
    &&& forall|k: int|
        1 <= k < f.len() ==> (#[trigger] f[k]).0 == children(nodes, f[k - 1].0 as int)[f[k - 1].1 as int]
            && is_expanded(nodes, f[k].0 as int)
}

/// Going down through last children from the focused node ends on a node
/// that is not expanded, keeps the path it started from, and moving to a
/// next sibling from the end skips the steps it added.
proof fn lemma_descend_then_climb(nodes: Seq<JNode>, g: Seq<(usize, usize)>, x: int)
    requires
        nodes_wf(nodes),
        focus_valid(nodes, g),
        x == focused(nodes, g),
    ensures
        ({
            let d = descend_last(nodes, g, x);
            &&& d.len() >= g.len()
            &&& d.take(g.len() as int) == g
            &&& !is_expanded(nodes, focused(nodes, d))
            &&& climb(nodes, d, d.len() - 1) == climb(nodes, d, g.len() - 1)
        }),
    decreases nodes.len() - x,
{
    let last_step = g[g.len() - 1];
    assert(g.last() == last_step);
    assert(0 <= x < nodes.len());
    lemma_children_fit(nodes, x);
    if is_expanded(nodes, x) && children(nodes, x).len() > 0 {
        let last = children(nodes, x).len() - 1;
        let next = children(nodes, x)[last] as int;
        let g2 = g.push((x as usize, last as usize));
        assert(x < next < nodes.len());
        assert(g2.last() == (x as usize, last as usize));
        assert(focus_valid(nodes, g2)) by {
            assert forall|k: int| 0 <= k < g2.len() implies (#[trigger] g2[k]).0 < nodes.len()
                && nodes[g2[k].0 as int].value is Container && g2[k].1 < children(nodes, g2[k].0 as int).len() by {
                if k < g.len() {
                    assert(g2[k] == g[k]);
                }
            }
        }
        lemma_descend_then_climb(nodes, g2, next);
        let d = descend_last(nodes, g2, next);
        assert(d == descend_last(nodes, g, x));
        assert(d.take(g.len() as int) =~= g) by {
            assert(d.take(g2.len() as int) == g2);
            assert forall|k: int| 0 <= k < g.len() implies d.take(g.len() as int)[k] == g[k] by {
                assert(d[k] == d.take(g2.len() as int)[k]);
                assert(g2[k] == g[k]);
            }
        }
        let gl = g.len() as int;
        assert(d[gl] == g2[gl]) by {
            assert(d[gl] == d.take(g2.len() as int)[gl]);
        }
        assert(climb(nodes, d, gl) == climb(nodes, d, gl - 1));
    } else {
        assert(descend_last(nodes, g, x) == g);
        assert(g.take(g.len() as int) =~= g);
    }
}

/// Where moving to a next sibling moves the focus, it moves at a step `e`
/// below the top level, and every step after `e` took the last child.
proof fn lemma_climb_moves(nodes: Seq<JNode>, f: Seq<(usize, usize)>, d: int)
    requires
        focus_valid(nodes, f),
        0 <= d < f.len(),
        climb(nodes, f, d) != f,
    ensures
        exists|e: int|
            1 <= e <= d && #[trigger] f[e].1 + 1 < children(nodes, f[e].0 as int).len()
                && climb(nodes, f, d) == f.take(e + 1).update(e, (f[e].0, (f[e].1 + 1) as usize))
                && forall|j: int| e < j <= d ==> (#[trigger] f[j]).1 + 1 == children(nodes, f[j].0 as int).len(),
    decreases d,
{
    if d > 0 {
        if f[d].1 + 1 < children(nodes, f[d].0 as int).len() {
            assert(f[d].1 + 1 < children(nodes, f[d].0 as int).len());
        } else {
            assert(f[d].1 < children(nodes, f[d].0 as int).len());
            lemma_climb_moves(nodes, f, d - 1);
            let e = choose|e: int|
                1 <= e <= d - 1 && #[trigger] f[e].1 + 1 < children(nodes, f[e].0 as int).len()
                    && climb(nodes, f, d - 1) == f.take(e + 1).update(e, (f[e].0, (f[e].1 + 1) as usize))
                    && forall|j: int| e < j <= d - 1 ==> (#[trigger] f[j]).1 + 1 == children(nodes, f[j].0 as int).len();
            assert(forall|j: int| e < j <= d ==> (#[trigger] f[j]).1 + 1 == children(nodes, f[j].0 as int).len());
        }
    }
}

/// Going down through last children from step `j` of a connected focus
/// whose steps from `j` on took last children, and whose focused node is
/// not expanded, gives the whole focus back.
proof fn lemma_descend_rebuilds(nodes: Seq<JNode>, f: Seq<(usize, usize)>, j: int)
    requires
        nodes_wf(nodes),
        focus_valid(nodes, f),
        focus_connected(nodes, f),
        1 <= j <= f.len(),
        forall|i: int| j <= i < f.len() ==> (#[trigger] f[i]).1 + 1 == children(nodes, f[i].0 as int).len(),
        !is_expanded(nodes, focused(nodes, f)),
    ensures
        descend_last(nodes, f.take(j), if j < f.len() { f[j].0 as int } else { focused(nodes, f) }) == f,
    decreases f.len() - j,
{
    let n = f.len();
    let last_step = f[n - 1];
    assert(f.last() == last_step);
    if j < n {
        let x = f[j].0 as int;
        assert(f[j].0 < nodes.len());
        assert(is_expanded(nodes, x));
        assert(children(nodes, x).len() > 0);
        let last = children(nodes, x).len() - 1;
        assert(f[j].1 == last);
        let next = children(nodes, x)[last] as int;
        let nx = if j + 1 < n { f[j + 1].0 as int } else { focused(nodes, f) };
        if j + 1 < n {
            assert(f[j + 1].0 == children(nodes, f[j].0 as int)[f[j].1 as int]);
        }
        assert(next == nx);
        assert(x < next < nodes.len());
        assert(f.take(j).push((x as usize, last as usize)) =~= f.take(j + 1));
        lemma_descend_rebuilds(nodes, f, j + 1);
    } else {
        let cur = focused(nodes, f);
        assert(f.take(j) =~= f);
        assert(descend_last(nodes, f, cur) == f);
    }
}

/// Moving down and then up gives back the focus, wherever moving down moves
/// a connected focus.
pub proof fn law_down_then_up(nodes: Seq<JNode>, f: Seq<(usize, usize)>)
    requires
        nodes_wf(nodes),
        focus_valid(nodes, f),
        focus_connected(nodes, f),
        spec_move_down(nodes, f) != f,
    ensures
        spec_move_up(nodes, spec_move_down(nodes, f)) == f,
{
    let n = f.len();
    let cur = focused(nodes, f);
    let last_step = f[n - 1];
    assert(f.last() == last_step);
    assert(0 <= cur < nodes.len());
    if is_expanded(nodes, cur) {
        let f2 = f.push((cur as usize, 0usize));
        assert(spec_move_down(nodes, f) == f2);
        assert(f2.len() == n + 1);
        assert(f2[n as int].1 == 0);
        assert(f2.drop_last() =~= f);
        assert(spec_move_up(nodes, f2) == f2.drop_last());
    } else {
        lemma_climb_moves(nodes, f, n - 1);
        let e = choose|e: int|
            1 <= e <= n - 1 && #[trigger] f[e].1 + 1 < children(nodes, f[e].0 as int).len()
                && climb(nodes, f, n - 1) == f.take(e + 1).update(e, (f[e].0, (f[e].1 + 1) as usize))
                && forall|j: int| e < j <= n - 1 ==> (#[trigger] f[j]).1 + 1 == children(nodes, f[j].0 as int).len();
        lemma_children_fit(nodes, f[e].0 as int);
        let f2 = f.take(e + 1).update(e, (f[e].0, (f[e].1 + 1) as usize));
        assert(spec_move_down(nodes, f) == f2);
        assert(f2.len() == e + 1 >= 2);
        assert(f2[e].1 == f[e].1 + 1);
        let f3 = f2.update(e, (f2[e].0, (f2[e].1 - 1) as usize));
        assert(f3 =~= f.take(e + 1));
        assert(spec_move_up(nodes, f2) == descend_last(nodes, f3, focused(nodes, f3)));
        assert(f3.last() == f[e]);
        let x = focused(nodes, f3);
        if e + 1 < n {
            assert(f[e + 1].0 == children(nodes, f[e].0 as int)[f[e].1 as int]);
            assert(x == f[e + 1].0 as int);
        } else {
            assert(x == cur);
        }
        lemma_descend_rebuilds(nodes, f, e + 1);
    }
}

/// Moving up and then down gives back the focus, wherever moving up moves a
/// connected focus below the top level.
pub proof fn law_up_then_down(nodes: Seq<JNode>, f: Seq<(usize, usize)>)
    requires
        nodes_wf(nodes),
        focus_valid(nodes, f),
        focus_connected(nodes, f),
        f.len() >= 2,
    ensures
        spec_move_down(nodes, spec_move_up(nodes, f)) == f,
{
    let n = f.len();
    let last_step = f[n - 1];
    assert(f.last() == last_step);
    if f[n - 1].1 == 0 {
        let f2 = f.drop_last();
        assert(f2.last() == f[n - 2]);
        assert(f[n - 1].0 == children(nodes, f[n - 2].0 as int)[f[n - 2].1 as int]);
        assert(focused(nodes, f2) == f[n - 1].0 as int);
        assert(is_expanded(nodes, f[n - 1].0 as int));
        assert(f2.push((f[n - 1].0, 0usize)) =~= f);
    } else {
        let p = f[n - 1].0;
        let k = f[n - 1].1;
        let f2 = f.update(n - 1, (p, (k - 1) as usize));
        assert(f2.last() == (p, (k - 1) as usize));
        assert(focus_valid(nodes, f2)) by {
            assert forall|i: int| 0 <= i < f2.len() implies (#[trigger] f2[i]).0 < nodes.len()
                && nodes[f2[i].0 as int].value is Container && f2[i].1 < children(nodes, f2[i].0 as int).len() by {
                assert(f2[i].0 == f[i].0);
            }
        }
        let x = focused(nodes, f2);
        lemma_descend_then_climb(nodes, f2, x);
        let d = descend_last(nodes, f2, x);
        assert(d[n - 1] == f2[n - 1]) by {
            assert(d[n - 1] == d.take(n as int)[n - 1]);
        }
        assert(climb(nodes, d, n - 1) == d.take(n as int).update(n - 1, (p, k)));
        assert(d.take(n as int).update(n - 1, (p, k)) =~= f);
    }
}

/// A nonempty prefix of a connected focus is connected.
proof fn lemma_connected_prefix(nodes: Seq<JNode>, f: Seq<(usize, usize)>, m: int)
    requires
        focus_connected(nodes, f),
        1 <= m <= f.len(),
    ensures
        focus_connected(nodes, f.take(m)),
{
    let g = f.take(m);
    assert(g[0] == f[0]);
    assert forall|k: int| 1 <= k < g.len() implies (#[trigger] g[k]).0 == children(nodes, g[k - 1].0 as int)[g[k
        - 1].1 as int] && is_expanded(nodes, g[k].0 as int) by {
        assert(g[k] == f[k]);
        assert(g[k - 1] == f[k - 1]);
    }
}

/// Taking another child at the last step keeps a focus connected.
proof fn lemma_connected_update_last(nodes: Seq<JNode>, f: Seq<(usize, usize)>, i: usize)
    requires
        focus_connected(nodes, f),
    ensures
        focus_connected(nodes, f.update(f.len() - 1, (f[f.len() - 1].0, i))),
{
    let n = f.len();
    let g = f.update(n - 1, (f[n - 1].0, i));
    assert(g[0].0 == f[0].0);
    assert forall|k: int| 1 <= k < g.len() implies (#[trigger] g[k]).0 == children(nodes, g[k - 1].0 as int)[g[k
        - 1].1 as int] && is_expanded(nodes, g[k].0 as int) by {
        assert(g[k].0 == f[k].0);
        assert(g[k - 1] == f[k - 1]);
    }
}

/// Entering the focused node, when it is an expanded container, keeps a
/// focus connected.
proof fn lemma_connected_push(nodes: Seq<JNode>, f: Seq<(usize, usize)>, x: int, j: usize)
    requires
        focus_connected(nodes, f),
        x == focused(nodes, f),
        is_expanded(nodes, x),
        0 <= x <= usize::MAX,
    ensures
        focus_connected(nodes, f.push((x as usize, j))),
{
    let n = f.len();
    let g = f.push((x as usize, j));
    assert(f.last() == f[n - 1]);
    assert(g[0] == f[0]);
    assert forall|k: int| 1 <= k < g.len() implies (#[trigger] g[k]).0 == children(nodes, g[k - 1].0 as int)[g[k
        - 1].1 as int] && is_expanded(nodes, g[k].0 as int) by {
        assert(g[k - 1] == f[k - 1]);
        if k < n {
            assert(g[k] == f[k]);
        }
    }
}

/// The nodes along a connected focus come one after another, so each comes
/// before the focused node.
proof fn lemma_connected_before_focused(nodes: Seq<JNode>, f: Seq<(usize, usize)>, j: int)
    requires
        nodes_wf(nodes),
        focus_valid(nodes, f),
        focus_connected(nodes, f),
        0 <= j < f.len(),
    ensures
        f[j].0 < focused(nodes, f),
    decreases f.len() - j,
{
    let n = f.len();
    assert(f.last() == f[n - 1]);
    assert(f[j].1 < children(nodes, f[j].0 as int).len());
    if j + 1 < n {
        assert(f[j + 1].0 == children(nodes, f[j].0 as int)[f[j].1 as int]);
        lemma_connected_before_focused(nodes, f, j + 1);
    }
}

/// Changing how the focused node is shown keeps a focus connected.
proof fn lemma_connected_with_state(nodes: Seq<JNode>, f: Seq<(usize, usize)>, state: ContainerState)
    requires
        nodes_wf(nodes),
        focus_valid(nodes, f),
        focus_connected(nodes, f),
    ensures
        focus_connected(with_state(nodes, focused(nodes, f), state), f),
        focused(with_state(nodes, focused(nodes, f), state), f) == focused(nodes, f),
{
    let cur = focused(nodes, f);
    let n2 = with_state(nodes, cur, state);
    assert(f.last() == f[f.len() - 1]);
    assert(0 <= cur < nodes.len());
    assert forall|j: int| 0 <= j < nodes.len() implies children(n2, j) == children(nodes, j) by {}
    assert forall|k: int| 1 <= k < f.len() implies (#[trigger] f[k]).0 == children(n2, f[k - 1].0 as int)[f[k
        - 1].1 as int] && is_expanded(n2, f[k].0 as int) by {
        lemma_connected_before_focused(nodes, f, k);
        assert(f[k].0 < nodes.len());
        assert(f[k - 1].0 < nodes.len());
    }
}

/// Going down through last children from the focused node keeps a focus
/// connected.
proof fn lemma_descend_connected(nodes: Seq<JNode>, g: Seq<(usize, usize)>, x: int)
    requires
        nodes_wf(nodes),
        focus_valid(nodes, g),
        focus_connected(nodes, g),
        x == focused(nodes, g),
    ensures
        focus_connected(nodes, descend_last(nodes, g, x)),
    decreases nodes.len() - x,
{
    assert(g.last() == g[g.len() - 1]);
    assert(0 <= x < nodes.len());
    lemma_children_fit(nodes, x);
    if is_expanded(nodes, x) && children(nodes, x).len() > 0 {
        let last = children(nodes, x).len() - 1;
        let next = children(nodes, x)[last] as int;
        let g2 = g.push((x as usize, last as usize));
        lemma_connected_push(nodes, g, x, last as usize);
        lemma_push_valid_last(nodes, g, x);
        assert(g2.last() == (x as usize, last as usize));
        assert(x < next < nodes.len());
        assert(g2 == g.push((x as usize, (children(nodes, x).len() - 1) as usize)));
        lemma_descend_connected(nodes, g2, next);
    }
}

/// Entering an expanded container at its last child keeps a focus valid.
proof fn lemma_push_valid_last(nodes: Seq<JNode>, g: Seq<(usize, usize)>, x: int)
    requires
        nodes_wf(nodes),
        focus_valid(nodes, g),
        0 <= x < nodes.len(),
        x <= usize::MAX,
        is_expanded(nodes, x),
    ensures
        focus_valid(nodes, g.push((x as usize, (children(nodes, x).len() - 1) as usize))),
{
    lemma_children_fit(nodes, x);
    let g2 = g.push((x as usize, (children(nodes, x).len() - 1) as usize));
    assert(children(nodes, x).len() > 0);
    assert forall|k: int| 0 <= k < g2.len() implies (#[trigger] g2[k]).0 < nodes.len() && nodes[g2[k].0 as int].value is Container
        && g2[k].1 < children(nodes, g2[k].0 as int).len() by {
        if k < g.len() {
            assert(g2[k] == g[k]);
        }
    }
}

/// The moves keep the focus a path from the root through expanded
/// containers.
pub proof fn law_moves_keep_focus_connected(nodes: Seq<JNode>, f: Seq<(usize, usize)>, action: Action)
    requires
        nodes_wf(nodes),
        focus_valid(nodes, f),
        focus_connected(nodes, f),
    ensures
        focus_connected(spec_perform(nodes, f, action).0, spec_perform(nodes, f, action).1),
{
    let n = f.len();
    let cur = focused(nodes, f);
    assert(f.last() == f[n - 1]);
    assert(0 <= cur < nodes.len());
    match action {
        Action::Up => {
            if n == 1 && f[0].1 == 0 {
            } else if f[n - 1].1 == 0 {
                assert(f.drop_last() =~= f.take(n - 1));
                lemma_connected_prefix(nodes, f, n - 1);
            } else {
                let f2 = f.update(n - 1, (f[n - 1].0, (f[n - 1].1 - 1) as usize));
                lemma_connected_update_last(nodes, f, (f[n - 1].1 - 1) as usize);
                assert(focus_valid(nodes, f2)) by {
                    assert forall|i: int| 0 <= i < f2.len() implies (#[trigger] f2[i]).0 < nodes.len()
                        && nodes[f2[i].0 as int].value is Container && f2[i].1 < children(nodes, f2[i].0 as int).len() by {
                        assert(f2[i].0 == f[i].0);
                    }
                }
                lemma_descend_connected(nodes, f2, focused(nodes, f2));
            }
        },
        Action::Down => {
            if is_expanded(nodes, cur) {
                lemma_connected_push(nodes, f, cur, 0);
            } else if climb(nodes, f, n - 1) != f {
                lemma_climb_moves(nodes, f, n - 1);
                let e = choose|e: int|
                    1 <= e <= n - 1 && #[trigger] f[e].1 + 1 < children(nodes, f[e].0 as int).len()
                        && climb(nodes, f, n - 1) == f.take(e + 1).update(e, (f[e].0, (f[e].1 + 1) as usize))
                        && forall|j: int| e < j <= n - 1 ==> (#[trigger] f[j]).1 + 1 == children(nodes, f[j].0 as int).len();
                lemma_connected_prefix(nodes, f, e + 1);
                let t = f.take(e + 1);
                assert(t[e] == f[e]);
                lemma_connected_update_last(nodes, t, (f[e].1 + 1) as usize);
            }
        },
        Action::Left => {
            if is_expanded(nodes, cur) {
                lemma_connected_with_state(nodes, f, ContainerState::Collapsed);
            } else if n > 1 {
                assert(f.drop_last() =~= f.take(n - 1));
                lemma_connected_prefix(nodes, f, n - 1);
            }
        },
        Action::Right => {
            if nodes[cur].value is Container && nodes[cur].container_state == ContainerState::Collapsed {
                lemma_connected_with_state(nodes, f, ContainerState::Expanded);
            } else if is_expanded(nodes, cur) {
                lemma_connected_push(nodes, f, cur, 0);
            }
        },
        Action::ToggleInline => {
            lemma_connected_with_state(nodes, f, ContainerState::Expanded);
            lemma_connected_with_state(nodes, f, ContainerState::Inlined);
        },
        Action::FocusFirstElem => {
            lemma_connected_update_last(nodes, f, 0);
        },
        Action::FocusLastElem => {
            lemma_connected_update_last(nodes, f, (children(nodes, f[n - 1].0 as int).len() - 1) as usize);
        },
    }
}

/// Toggling inline twice gives back the tree: a container shown expanded
/// or inlined comes back to how it was shown, and a primitive is never
/// changed.
pub proof fn law_toggle_inline_twice(nodes: Seq<JNode>, f: Seq<(usize, usize)>)
    requires
        nodes_wf(nodes),
        focus_valid(nodes, f),
        nodes[focused(nodes, f)].value is Container ==> nodes[focused(nodes, f)].container_state
            != ContainerState::Collapsed,
    ensures
        spec_toggle_inline(spec_toggle_inline(nodes, f), f) == nodes,
{
    let cur = focused(nodes, f);
    let last = f.last();
    assert(f[f.len() - 1] == last);
    assert(0 <= cur < nodes.len());
    let once = spec_toggle_inline(nodes, f);
    if nodes[cur].value is Container {
        let state = once[cur].container_state;
        lemma_with_state(nodes, cur, state, f);
        assert(children(once, last.0 as int) == children(nodes, last.0 as int));
        assert(focused(once, f) == cur);
        assert(spec_toggle_inline(once, f) =~= nodes);
    }
}

/// The moves keep the nodes well formed and the focus a valid path.
pub proof fn law_moves_keep_focus_valid(nodes: Seq<JNode>, f: Seq<(usize, usize)>, action: Action)
    requires
        nodes_wf(nodes),
        focus_valid(nodes, f),
    ensures
        nodes_wf(spec_perform(nodes, f, action).0),
        focus_valid(spec_perform(nodes, f, action).0, spec_perform(nodes, f, action).1),
{
    let n = f.len();
    let cur = focused(nodes, f);
    assert(f[n - 1] == f.last());
    assert(0 <= cur < nodes.len());
    match action {
        Action::Up => {
            if n == 1 && f[0].1 == 0 {
            } else if f[n - 1].1 == 0 {
                lemma_prefix_valid(nodes, f, n - 1);
                assert(f.subrange(0, n - 1) =~= f.drop_last());
            } else {
                let f2 = f.update(n - 1, (f[n - 1].0, (f[n - 1].1 - 1) as usize));
                assert forall|k: int| 0 <= k < f2.len() implies (#[trigger] f2[k]).0 < nodes.len()
                    && nodes[f2[k].0 as int].value is Container && f2[k].1 < children(nodes, f2[k].0 as int).len() by {
                    assert(f[k].0 == f2[k].0);
                }
                assert(f2.last() == f2[n - 1]);
                lemma_descend_valid(nodes, f2, focused(nodes, f2));
            }
        },
        Action::Down => {
            if is_expanded(nodes, cur) {
                lemma_push_valid(nodes, f, cur);
            } else {
                lemma_climb_valid(nodes, f, n - 1);
            }
        },
        Action::Left => {
            if is_expanded(nodes, cur) {
                lemma_with_state(nodes, cur, ContainerState::Collapsed, f);
            } else if n > 1 {
                lemma_prefix_valid(nodes, f, n - 1);
                assert(f.subrange(0, n - 1) =~= f.drop_last());
            }
        },
        Action::Right => {
            if nodes[cur].value is Container && nodes[cur].container_state == ContainerState::Collapsed {
                lemma_with_state(nodes, cur, ContainerState::Expanded, f);
            } else if is_expanded(nodes, cur) {
                lemma_push_valid(nodes, f, cur);
            }
        },
        Action::ToggleInline => {
            lemma_with_state(nodes, cur, ContainerState::Expanded, f);
            lemma_with_state(nodes, cur, ContainerState::Inlined, f);
        },
        Action::FocusFirstElem | Action::FocusLastElem => {
            let f2 = spec_perform(nodes, f, action).1;
            assert(children(nodes, f[n - 1].0 as int).len() > 0);
            assert forall|k: int| 0 <= k < f2.len() implies (#[trigger] f2[k]).0 < nodes.len()
                && nodes[f2[k].0 as int].value is Container && f2[k].1 < children(nodes, f2[k].0 as int).len() by {
                assert(f[k].0 == f2[k].0);
            }
        },
    }
}

/// A nonempty prefix of a valid focus is valid.
proof fn lemma_prefix_valid(nodes: Seq<JNode>, f: Seq<(usize, usize)>, m: int)
    requires
        focus_valid(nodes, f),
        0 < m <= f.len(),
    ensures
        focus_valid(nodes, f.subrange(0, m)),
{
    assert forall|k: int| 0 <= k < m implies (#[trigger] f.subrange(0, m)[k]).0 < nodes.len() && nodes[f.subrange(0, m)[k].0 as int].value is Container
        && f.subrange(0, m)[k].1 < children(nodes, f.subrange(0, m)[k].0 as int).len() by {
        assert(f.subrange(0, m)[k] == f[k]);
    }
}

/// Entering an expanded container keeps a focus valid.
proof fn lemma_push_valid(nodes: Seq<JNode>, f: Seq<(usize, usize)>, node: int)
    requires
        nodes_wf(nodes),
        focus_valid(nodes, f),
        0 <= node < nodes.len(),
        node <= usize::MAX,
        nodes[node].value is Container,
    ensures
        focus_valid(nodes, f.push((node as usize, 0usize))),
{
    let g = f.push((node as usize, 0usize));
    assert(children(nodes, node).len() > 0);
    assert forall|k: int| 0 <= k < g.len() implies (#[trigger] g[k]).0 < nodes.len() && nodes[g[k].0 as int].value is Container
        && g[k].1 < children(nodes, g[k].0 as int).len() by {
        if k < f.len() {
            assert(g[k] == f[k]);
        }
    }
}

/// A node has no more children than a vector can hold.
pub proof fn lemma_children_fit(nodes: Seq<JNode>, i: int)
    ensures
        children(nodes, i).len() <= usize::MAX,
{
    match nodes[i].value {
        JValue::Container(JContainer::Array(v)) => assert(v.len() == v@.len()),
        JValue::Container(JContainer::Object(kv)) => assert(kv.len() == kv@.len()),
        JValue::Container(JContainer::TopLevel(v)) => assert(v.len() == v@.len()),
        JValue::Primitive(_) => {},
    }
}

/// Going down through last children keeps a focus valid.
proof fn lemma_descend_valid(nodes: Seq<JNode>, f: Seq<(usize, usize)>, node: int)
    requires
        nodes_wf(nodes),
        focus_valid(nodes, f),
        0 <= node < nodes.len(),
        node <= usize::MAX,
    ensures
        focus_valid(nodes, descend_last(nodes, f, node)),
    decreases nodes.len() - node,
{
    lemma_children_fit(nodes, node);
    if is_expanded(nodes, node) && children(nodes, node).len() > 0 {
        let last = children(nodes, node).len() - 1;
        let g = f.push((node as usize, last as usize));
        assert forall|k: int| 0 <= k < g.len() implies (#[trigger] g[k]).0 < nodes.len() && nodes[g[k].0 as int].value is Container
            && g[k].1 < children(nodes, g[k].0 as int).len() by {
            if k < f.len() {
                assert(g[k] == f[k]);
            }
        }
        let next = children(nodes, node)[last] as int;
        if node < next < nodes.len() {
            lemma_descend_valid(nodes, g, next);
        }
    }
}

/// Moving to a next sibling higher up keeps a focus valid.
proof fn lemma_climb_valid(nodes: Seq<JNode>, f: Seq<(usize, usize)>, d: int)
    requires
        focus_valid(nodes, f),
        0 <= d < f.len(),
    ensures
        focus_valid(nodes, climb(nodes, f, d)),
    decreases d,
{
    if d > 0 {
        if f[d].1 + 1 < children(nodes, f[d].0 as int).len() {
            let g = f.subrange(0, d + 1).update(d, (f[d].0, (f[d].1 + 1) as usize));
            assert forall|k: int| 0 <= k < g.len() implies (#[trigger] g[k]).0 < nodes.len() && nodes[g[k].0 as int].value is Container
                && g[k].1 < children(nodes, g[k].0 as int).len() by {
                if k < d {
                    assert(g[k] == f[k]);
                }
            }
        } else {
            lemma_climb_valid(nodes, f, d - 1);
        }
    }
}

/// Performs `action` on the tree and the focus.
pub fn perform_action(tree: &mut JTree, focus: &mut Focus, action: Action)
    requires
        old(tree).wf(),
        focus_valid(old(tree).nodes@, old(focus).0@),
    ensures
        (final(tree).nodes@, final(focus).0@) == spec_perform(old(tree).nodes@, old(focus).0@, action),
        final(tree).wf(),
        focus_valid(final(tree).nodes@, final(focus).0@),
{
    proof {
        law_moves_keep_focus_valid(tree.nodes@, focus.0@, action);
    }
    match action {
        Action::Up => move_up(tree, focus),
        Action::Down => move_down(tree, focus),
        Action::Left => move_left(tree, focus),
        Action::Right => move_right(tree, focus),
        Action::ToggleInline => toggle_inline(tree, focus),
        Action::FocusFirstElem => focus_first_elem(focus),
        Action::FocusLastElem => focus_last_elem(tree, focus),
    }
}

} // verus!
