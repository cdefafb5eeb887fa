//! The lines of a tree as shown: each container that is expanded takes a line
//! for its start and one for its end, and every other node one line; moving
//! from line to line, and what each line shows.

use std::cmp::Ordering;
use vstd::prelude::*;
use crate::jnode::{
    children, focus_connected, focus_valid, is_expanded, lemma_children_fit, nodes_wf, Focus, JNode, JTree,
};

verus! {

/// Which end of a container an output line stands for.
#[derive(Debug, Copy, Clone, PartialEq, Eq, Structural)]
pub enum OutputSide {
    Start,
    End,
}

/// A line of output: the path from the root to its node, by the position of
/// each child taken, and the end of the node that it shows.
#[derive(Debug, Clone)]
pub struct OutputLineRef {
    pub path: Vec<usize>,
    pub side: OutputSide,
}

/// The node reached from the root through the children at `path`.
pub open spec fn node_at(nodes: Seq<JNode>, path: Seq<usize>) -> int
    decreases path.len(),
{
    if path.len() == 0 {
        0
    } else {
        children(nodes, node_at(nodes, path.drop_last()))[path.last() as int] as int
    }
}

/// Each step of `path` takes a child that exists.
pub open spec fn path_valid(nodes: Seq<JNode>, path: Seq<usize>) -> bool {
    forall|k: int| 0 <= k < path.len() ==> #[trigger] path[k] < children(nodes, node_at(nodes, path.take(k))).len()
}

/// A line that output can reach: a nonempty path through existing children,
/// every container on the way below the root expanded, and only expanded
/// containers shown by their end.
pub open spec fn line_valid(nodes: Seq<JNode>, path: Seq<usize>, side: OutputSide) -> bool {
    &&& path.len() >= 1
    &&& path_valid(nodes, path)
    &&& forall|k: int| 1 <= k < path.len() ==> is_expanded(nodes, #[trigger] node_at(nodes, path.take(k)))
    &&& side == OutputSide::End ==> is_expanded(nodes, node_at(nodes, path))
}

/// The line after (`path`, `side`), or `None` on the last line.
pub open spec fn spec_next_line(nodes: Seq<JNode>, path: Seq<usize>, side: OutputSide) -> Option<(Seq<usize>, OutputSide)> {
    let n = path.len();
    let cur = node_at(nodes, path);
    let parent = node_at(nodes, path.drop_last());
    if n == 1 && path[0] == children(nodes, 0).len() - 1 && (side == OutputSide::End || !is_expanded(nodes, cur)) {
        None
    } else if is_expanded(nodes, cur) && side == OutputSide::Start {
        Some((path.push(0), OutputSide::Start))
    } else if path.last() == children(nodes, parent).len() - 1 {
        Some((path.drop_last(), OutputSide::End))
    } else {
        Some((path.update(n - 1, (path.last() + 1) as usize), OutputSide::Start))
    }
}

/// How a node's line is entered from below: by its end if it is an
/// expanded container, else by its start.
pub open spec fn side_from_below(nodes: Seq<JNode>, i: int) -> OutputSide {
    if is_expanded(nodes, i) {
        OutputSide::End
    } else {
        OutputSide::Start
    }
}

/// The line before (`path`, `side`), or `None` on the first line.
pub open spec fn spec_prev_line(nodes: Seq<JNode>, path: Seq<usize>, side: OutputSide) -> Option<(Seq<usize>, OutputSide)> {
    let n = path.len();
    let cur = node_at(nodes, path);
    let parent = node_at(nodes, path.drop_last());
    if n == 1 && path[0] == 0 && (side == OutputSide::Start || !is_expanded(nodes, cur)) {
        None
    } else if is_expanded(nodes, cur) && side == OutputSide::End {
        let last = children(nodes, cur).len() - 1;
        Some((path.push(last as usize), side_from_below(nodes, children(nodes, cur)[last] as int)))
    } else if path.last() == 0 {
        Some((path.drop_last(), OutputSide::Start))
    } else {
        let i = path.last() - 1;
        Some((path.update(n - 1, i as usize), side_from_below(nodes, children(nodes, parent)[i] as int)))
    }
}

/// The node one step further than `path` is the child taken in the node at
/// `path`.
proof fn lemma_node_at_push(nodes: Seq<JNode>, path: Seq<usize>, x: usize)
    ensures
        node_at(nodes, path.push(x)) == children(nodes, node_at(nodes, path))[x as int] as int,
{
    assert(path.push(x).drop_last() =~= path);
}

/// The nodes along a valid path exist.
proof fn lemma_node_at_in_tree(nodes: Seq<JNode>, path: Seq<usize>)
    requires
        nodes_wf(nodes),
        path_valid(nodes, path),
    ensures
        0 <= node_at(nodes, path) < nodes.len(),
    decreases path.len(),
{
    if path.len() > 0 {
        let q = path.drop_last();
        assert forall|k: int| 0 <= k < q.len() implies #[trigger] q[k] < children(nodes, node_at(nodes, q.take(k))).len() by {
            assert(q.take(k) =~= path.take(k));
            assert(path[k] == q[k]);
        }
        lemma_node_at_in_tree(nodes, q);
        let k = path.len() - 1;
        assert(path.take(k) =~= q);
        assert(path[k] < children(nodes, node_at(nodes, q)).len());
    }
}

/// A prefix of a valid path is valid.
proof fn lemma_prefix_path_valid(nodes: Seq<JNode>, path: Seq<usize>, m: int)
    requires
        path_valid(nodes, path),
        0 <= m <= path.len(),
    ensures
        path_valid(nodes, path.take(m)),
{
    let q = path.take(m);
    assert forall|k: int| 0 <= k < q.len() implies #[trigger] q[k] < children(nodes, node_at(nodes, q.take(k))).len() by {
        assert(q.take(k) =~= path.take(k));
        assert(path[k] == q[k]);
    }
}

/// A valid path stays valid when its last step takes another existing child.
proof fn lemma_path_valid_update(nodes: Seq<JNode>, path: Seq<usize>, y: usize)
    requires
        path_valid(nodes, path),
        path.len() >= 1,
        y < children(nodes, node_at(nodes, path.drop_last())).len(),
    ensures
        path_valid(nodes, path.update(path.len() - 1, y)),
        path.update(path.len() - 1, y).drop_last() == path.drop_last(),
        node_at(nodes, path.update(path.len() - 1, y)) == children(nodes, node_at(nodes, path.drop_last()))[y as int] as int,
        forall|k: int| 0 <= k < path.len() ==> #[trigger] path.update(path.len() - 1, y).take(k) == path.take(k),
{
    let n = path.len() - 1;
    let q = path.update(n, y);
    assert(q.drop_last() =~= path.drop_last());
    assert forall|k: int| 0 <= k < path.len() implies #[trigger] q.take(k) == path.take(k) by {
        assert(q.take(k) =~= path.take(k));
    }
    assert forall|k: int| 0 <= k < q.len() implies #[trigger] q[k] < children(nodes, node_at(nodes, q.take(k))).len() by {
        assert(q.take(k) == path.take(k));
        if k == n {
            assert(path.take(k) =~= path.drop_last());
        }
    }
}

/// A valid path stays valid when it takes an existing child of its node.
proof fn lemma_path_valid_push(nodes: Seq<JNode>, path: Seq<usize>, x: usize)
    requires
        path_valid(nodes, path),
        x < children(nodes, node_at(nodes, path)).len(),
    ensures
        path_valid(nodes, path.push(x)),
        path.push(x).drop_last() == path,
        node_at(nodes, path.push(x)) == children(nodes, node_at(nodes, path))[x as int] as int,
        forall|k: int| 0 <= k <= path.len() ==> #[trigger] path.push(x).take(k) == path.take(k),
{
    let q = path.push(x);
    lemma_node_at_push(nodes, path, x);
    assert(q.drop_last() =~= path);
    assert forall|k: int| 0 <= k <= path.len() implies #[trigger] q.take(k) == path.take(k) by {
        assert(q.take(k) =~= path.take(k));
    }
    assert forall|k: int| 0 <= k < q.len() implies #[trigger] q[k] < children(nodes, node_at(nodes, q.take(k))).len() by {
        assert(q.take(k) == path.take(k));
        if k == path.len() {
            assert(path.take(k) =~= path);
        }
    }
}

/// Going into an expanded container from its start line and back.
proof fn lemma_enter_and_back(nodes: Seq<JNode>, path: Seq<usize>)
    requires
        nodes_wf(nodes),
        line_valid(nodes, path, OutputSide::Start),
        is_expanded(nodes, node_at(nodes, path)),
    ensures
        line_valid(nodes, path.push(0), OutputSide::Start),
        spec_prev_line(nodes, path.push(0), OutputSide::Start) == Some((path, OutputSide::Start)),
{
    let cur = node_at(nodes, path);
    lemma_node_at_in_tree(nodes, path);
    assert(children(nodes, cur).len() > 0);
    lemma_path_valid_push(nodes, path, 0);
    let p2 = path.push(0);
    assert forall|k: int| 1 <= k < p2.len() implies is_expanded(nodes, #[trigger] node_at(nodes, p2.take(k))) by {
        assert(p2.take(k) == path.take(k));
        if k == path.len() {
            assert(path.take(k) =~= path);
        }
    }
}

/// Leaving a container from its last child and back.
proof fn lemma_leave_and_back(nodes: Seq<JNode>, path: Seq<usize>, side: OutputSide)
    requires
        nodes_wf(nodes),
        line_valid(nodes, path, side),
        path.len() >= 2,
        path.last() == children(nodes, node_at(nodes, path.drop_last())).len() - 1,
        side == side_from_below(nodes, node_at(nodes, path)),
    ensures
        line_valid(nodes, path.drop_last(), OutputSide::End),
        spec_prev_line(nodes, path.drop_last(), OutputSide::End) == Some((path, side)),
{
    let n = path.len();
    let q = path.drop_last();
    assert(path.take(n - 1) =~= q);
    lemma_prefix_path_valid(nodes, path, n - 1);
    assert forall|k: int| 1 <= k < q.len() implies is_expanded(nodes, #[trigger] node_at(nodes, q.take(k))) by {
        assert(q.take(k) =~= path.take(k));
    }
    assert(is_expanded(nodes, node_at(nodes, path.take(n - 1))));
    lemma_path_valid_push(nodes, q, path.last());
    assert(q.push(path.last()) =~= path);
}

/// Going to the next sibling and back.
proof fn lemma_sibling_and_back(nodes: Seq<JNode>, path: Seq<usize>, side: OutputSide)
    requires
        nodes_wf(nodes),
        line_valid(nodes, path, side),
        path.last() + 1 < children(nodes, node_at(nodes, path.drop_last())).len(),
        side == side_from_below(nodes, node_at(nodes, path)),
    ensures
        line_valid(nodes, path.update(path.len() - 1, (path.last() + 1) as usize), OutputSide::Start),
        spec_prev_line(nodes, path.update(path.len() - 1, (path.last() + 1) as usize), OutputSide::Start)
            == Some((path, side)),
{
    let n = path.len();
    lemma_children_fit(nodes, node_at(nodes, path.drop_last()));
    let y = (path.last() + 1) as usize;
    let p2 = path.update(n - 1, y);
    lemma_path_valid_update(nodes, path, y);
    assert forall|k: int| 1 <= k < p2.len() implies is_expanded(nodes, #[trigger] node_at(nodes, p2.take(k))) by {
        assert(p2.take(k) == path.take(k));
    }
    let back = (p2.last() - 1) as usize;
    assert(back == path.last());
    lemma_path_valid_update(nodes, p2, back);
    assert(p2.update(n - 1, back) =~= path);
    assert(path.drop_last() =~= p2.drop_last());
}

/// Moving to the next line and back gives the line one started from: for
/// every reachable line that has a next one, the next line is reachable too
/// and its previous line is the first.
pub proof fn law_next_then_prev(nodes: Seq<JNode>, path: Seq<usize>, side: OutputSide)
    requires
        nodes_wf(nodes),
        line_valid(nodes, path, side),
        spec_next_line(nodes, path, side) is Some,
    ensures
        line_valid(nodes, spec_next_line(nodes, path, side).unwrap().0, spec_next_line(nodes, path, side).unwrap().1),
        spec_prev_line(nodes, spec_next_line(nodes, path, side).unwrap().0, spec_next_line(nodes, path, side).unwrap().1)
            == Some((path, side)),
{
    let n = path.len();
    let cur = node_at(nodes, path);
    let parent = node_at(nodes, path.drop_last());
    if is_expanded(nodes, cur) && side == OutputSide::Start {
        lemma_enter_and_back(nodes, path);
    } else if path.last() == children(nodes, parent).len() - 1 {
        lemma_leave_and_back(nodes, path, side);
    } else {
        assert(path.take(n - 1) =~= path.drop_last());
        lemma_sibling_and_back(nodes, path, side);
    }
}

/// Going from the end line of an expanded container to its last child and
/// back.
proof fn lemma_last_child_and_back(nodes: Seq<JNode>, path: Seq<usize>)
    requires
        nodes_wf(nodes),
        line_valid(nodes, path, OutputSide::End),
    ensures
        ({
            let cur = node_at(nodes, path);
            let last = children(nodes, cur).len() - 1;
            let side2 = side_from_below(nodes, children(nodes, cur)[last] as int);
            &&& line_valid(nodes, path.push(last as usize), side2)
            &&& spec_next_line(nodes, path.push(last as usize), side2) == Some((path, OutputSide::End))
        }),
{
    let cur = node_at(nodes, path);
    lemma_node_at_in_tree(nodes, path);
    lemma_children_fit(nodes, cur);
    let last = (children(nodes, cur).len() - 1) as usize;
    lemma_path_valid_push(nodes, path, last);
    let p2 = path.push(last);
    assert forall|k: int| 1 <= k < p2.len() implies is_expanded(nodes, #[trigger] node_at(nodes, p2.take(k))) by {
        assert(p2.take(k) == path.take(k));
        if k == path.len() {
            assert(path.take(k) =~= path);
        }
    }
    assert(p2.take(p2.len() as int) =~= p2);
}

/// Going from the first child of a container to its start line and back.
proof fn lemma_parent_and_back(nodes: Seq<JNode>, path: Seq<usize>)
    requires
        nodes_wf(nodes),
        line_valid(nodes, path, OutputSide::Start),
        path.len() >= 2,
        path.last() == 0,
    ensures
        line_valid(nodes, path.drop_last(), OutputSide::Start),
        spec_next_line(nodes, path.drop_last(), OutputSide::Start) == Some((path, OutputSide::Start)),
{
    let n = path.len();
    let q = path.drop_last();
    assert(path.take(n - 1) =~= q);
    lemma_prefix_path_valid(nodes, path, n - 1);
    assert forall|k: int| 1 <= k < q.len() implies is_expanded(nodes, #[trigger] node_at(nodes, q.take(k))) by {
        assert(q.take(k) =~= path.take(k));
    }
    assert(is_expanded(nodes, node_at(nodes, path.take(n - 1))));
    assert(q.push(0) =~= path);
}

/// Going to the previous sibling and back.
proof fn lemma_prev_sibling_and_back(nodes: Seq<JNode>, path: Seq<usize>)
    requires
        nodes_wf(nodes),
        line_valid(nodes, path, OutputSide::Start),
        path.last() > 0,
    ensures
        ({
            let i = (path.last() - 1) as usize;
            let side2 = side_from_below(nodes, children(nodes, node_at(nodes, path.drop_last()))[i as int] as int);
            &&& line_valid(nodes, path.update(path.len() - 1, i), side2)
            &&& spec_next_line(nodes, path.update(path.len() - 1, i), side2) == Some((path, OutputSide::Start))
        }),
{
    let n = path.len();
    let i = (path.last() - 1) as usize;
    assert(path.take(n - 1) =~= path.drop_last());
    let p2 = path.update(n - 1, i);
    lemma_path_valid_update(nodes, path, i);
    assert forall|k: int| 1 <= k < p2.len() implies is_expanded(nodes, #[trigger] node_at(nodes, p2.take(k))) by {
        assert(p2.take(k) == path.take(k));
    }
    let fwd = (p2.last() + 1) as usize;
    assert(fwd == path.last());
    lemma_path_valid_update(nodes, p2, fwd);
    assert(p2.update(n - 1, fwd) =~= path);
    assert(path.drop_last() =~= p2.drop_last());
}

/// Moving to the previous line and forward again gives the line one started
/// from: for every reachable line that has a previous one, the previous line
/// is reachable too and its next line is the first.
pub proof fn law_prev_then_next(nodes: Seq<JNode>, path: Seq<usize>, side: OutputSide)
    requires
        nodes_wf(nodes),
        line_valid(nodes, path, side),
        spec_prev_line(nodes, path, side) is Some,
    ensures
        line_valid(nodes, spec_prev_line(nodes, path, side).unwrap().0, spec_prev_line(nodes, path, side).unwrap().1),
        spec_next_line(nodes, spec_prev_line(nodes, path, side).unwrap().0, spec_prev_line(nodes, path, side).unwrap().1)
            == Some((path, side)),
{
    let cur = node_at(nodes, path);
    if is_expanded(nodes, cur) && side == OutputSide::End {
        lemma_last_child_and_back(nodes, path);
    } else if path.last() == 0 {
        lemma_parent_and_back(nodes, path);
    } else {
        lemma_prev_sibling_and_back(nodes, path);
    }
}

impl OutputLineRef {
    /// The container holding the line's node, and the node.
    #[verifier::rlimit(40)]
    pub(crate) fn walk(&self, tree: &JTree) -> (r: (usize, usize))
        requires
            tree.wf(),
            self.path@.len() >= 1,
            path_valid(tree.nodes@, self.path@),
        ensures
            r.0 == node_at(tree.nodes@, self.path@.drop_last()),
            r.1 == node_at(tree.nodes@, self.path@),
            r.0 < tree.nodes@.len(),
            r.1 < tree.nodes@.len(),
    {
        let ghost nodes = tree.nodes@;
        let ghost path = self.path@;
        let mut parent: usize = 0;
        let mut current: usize = 0;
        let mut k: usize = 0;
        assert(path.take(0) =~= Seq::<usize>::empty());
        while k < self.path.len()
            invariant
                tree.wf(),
                nodes == tree.nodes@,
                path == self.path@,
                path_valid(nodes, path),
                path.len() >= 1,
                k <= path.len(),
                current == node_at(nodes, path.take(k as int)),
                current < nodes.len(),
                parent < nodes.len(),
                k >= 1 ==> parent == node_at(nodes, path.take(k - 1)),
            decreases path.len() - k,
        {
            let step = self.path[k];
            proof {
                assert(step < children(nodes, current as int).len());
            }
            parent = current;
            current = tree.child(current, step);
            proof {
                assert(current == children(nodes, parent as int)[step as int]);
                assert(path.take(k + 1).drop_last() =~= path.take(k as int));
                assert(path.take(k + 1).last() == step);
            }
            k = k + 1;
        }
        proof {
            assert(path.take(path.len() as int) =~= path);
            assert(path.take(path.len() - 1) =~= path.drop_last());
        }
        (parent, current)
    }

    /// Moves to the next line of output; stays, and returns `false`, on the
    /// last line.
    pub fn next(&mut self, tree: &JTree) -> (moved: bool)
        requires
            tree.wf(),
            line_valid(tree.nodes@, old(self).path@, old(self).side),
        ensures
            match spec_next_line(tree.nodes@, old(self).path@, old(self).side) {
                Some(line) => moved && final(self).path@ == line.0 && final(self).side == line.1,
                None => !moved && final(self).path@ == old(self).path@ && final(self).side == old(self).side,
            },
    {
        let ghost nodes = tree.nodes@;
        let n = self.path.len();
        let root_len = tree.len(0);
        let at_last_child_of_root = n == 1 && self.path[0] == root_len - 1;
        let at_end = self.side == OutputSide::End;
        let (parent, current) = self.walk(tree);
        let expanded = tree.node_is_expanded(current);
        if at_last_child_of_root && (at_end || !expanded) {
            return false;
        }
        if expanded && !at_end {
            self.path.push(0);
            self.side = OutputSide::Start;
        } else if self.path[n - 1] == tree.len(parent) - 1 {
            self.path.pop();
            self.side = OutputSide::End;
        } else {
            let i = n - 1;
            let next_index = self.path[i] + 1;
            self.path.set(i, next_index);
            self.side = OutputSide::Start;
        }
        true
    }

    /// Moves to the previous line of output; stays, and returns `false`, on
    /// the first line.
    pub fn prev(&mut self, tree: &JTree) -> (moved: bool)
        requires
            tree.wf(),
            line_valid(tree.nodes@, old(self).path@, old(self).side),
        ensures
            match spec_prev_line(tree.nodes@, old(self).path@, old(self).side) {
                Some(line) => moved && final(self).path@ == line.0 && final(self).side == line.1,
                None => !moved && final(self).path@ == old(self).path@ && final(self).side == old(self).side,
            },
    {
        let ghost nodes = tree.nodes@;
        let n = self.path.len();
        let at_first_child_of_root = n == 1 && self.path[0] == 0;
        let at_start = self.side == OutputSide::Start;
        let (parent, current) = self.walk(tree);
        let expanded = tree.node_is_expanded(current);
        if at_first_child_of_root && (at_start || !expanded) {
            return false;
        }
        if expanded && !at_start {
            let last = tree.len(current) - 1;
            let child = tree.child(current, last);
            self.path.push(last);
            self.side = if tree.node_is_expanded(child) {
                OutputSide::End
            } else {
                OutputSide::Start
            };
        } else if self.path[n - 1] == 0 {
            self.path.pop();
            self.side = OutputSide::Start;
        } else {
            let i = n - 1;
            let prev_index = self.path[i] - 1;
            self.path.set(i, prev_index);
            let sibling = tree.child(parent, prev_index);
            self.side = if tree.node_is_expanded(sibling) {
                OutputSide::End
            } else {
                OutputSide::Start
            };
        }
        true
    }
}


/// The positions taken at each step of a focus path.
pub open spec fn focus_path(f: Seq<(usize, usize)>) -> Seq<usize> {
    f.map_values(|p: (usize, usize)| p.1)
}

/// `j` as a screen index.
pub open spec fn to_u16(j: int) -> u16 {
    j as u16
}

/// Position `j` as an integer.
pub open spec fn usize_int(j: usize) -> int {
    j as int
}

/// Screen index `j` as an integer.
pub open spec fn u16_int(j: u16) -> int {
    j as int
}

/// Where the focus (a path) stands against line (`path`, `side`) in the order
/// of output, looking from step `i` on: the first step where the paths
/// differ decides; a path that is a prefix of the other comes first, but
/// after the start line of a node come the nodes inside it, and after those
/// its end line; the focus, never on an end line, matches only a start line.
pub open spec fn focus_order_from(f: Seq<usize>, path: Seq<usize>, side: OutputSide, i: int) -> Ordering
    decreases (if f.len() < path.len() { f.len() } else { path.len() }) - i,
{
    let m = if f.len() < path.len() { f.len() } else { path.len() };
    if 0 <= i < m {
        if f[i] < path[i] {
            Ordering::Less
        } else if f[i] > path[i] {
            Ordering::Greater
        } else {
            focus_order_from(f, path, side, i + 1)
        }
    } else if f.len() < path.len() {
        Ordering::Less
    } else if f.len() > path.len() {
        match side {
            OutputSide::Start => Ordering::Greater,
            OutputSide::End => Ordering::Less,
        }
    } else {
        match side {
            OutputSide::Start => Ordering::Equal,
            OutputSide::End => Ordering::Less,
        }
    }
}

/// How the focus compares with an output line in the order of output.
pub fn compare_focus_and_output_line(focus: &Focus, output_line: &OutputLineRef) -> (r: Ordering)
    ensures
        r == focus_order_from(focus_path(focus.0@), output_line.path@, output_line.side, 0),
{
    let ghost f = focus_path(focus.0@);
    let ghost path = output_line.path@;
    let focus_length = focus.0.len();
    let output_path_length = output_line.path.len();
    let min_length = if focus_length < output_path_length {
        focus_length
    } else {
        output_path_length
    };
    let mut index: usize = 0;
    while index < min_length
        invariant
            f == focus_path(focus.0@),
            path == output_line.path@,
            f.len() == focus_length,
            path.len() == output_path_length,
            min_length == (if f.len() < path.len() { f.len() } else { path.len() }),
            index <= min_length,
            focus_order_from(f, path, output_line.side, 0) == focus_order_from(f, path, output_line.side, usize_int(index)),
        decreases min_length - index,
    {
        let a = focus.0[index].1;
        let b = output_line.path[index];
        if a < b {
            return Ordering::Less;
        } else if a > b {
            return Ordering::Greater;
        }
        index = index + 1;
    }
    if focus_length < output_path_length {
        return Ordering::Less;
    } else if focus_length > output_path_length {
        match output_line.side {
            OutputSide::Start => return Ordering::Greater,
            OutputSide::End => return Ordering::Less,
        }
    }
    match output_line.side {
        OutputSide::Start => Ordering::Equal,
        OutputSide::End => Ordering::Less,
    }
}

/// How many lines are kept, where it can be, between the focused line and
/// the top or bottom of the screen.
pub const DEFAULT_SCROLLOFF: u16 = 3;

/// What part of the tree is on screen: the first line shown, the screen
/// line of the focus, the size of the screen, and how many lines are kept
/// around the focus.
#[derive(Debug)]
pub struct JsonViewer {
    pub start_line: OutputLineRef,
    pub focused_index: u16,
    pub screen_width: u16,
    pub screen_height: u16,
    pub scrolloff: u16,
}

/// Where the focus stands against the lines on screen.
#[derive(Debug, Copy, Clone, PartialEq, Eq, Structural)]
pub enum FocusPosition {
    BeforeScrolloff,
    WithinScrolloff(u16),
    AfterScrolloff,
}

/// The line after (`path`, `side`), or the same line if it is the last.
pub open spec fn next_or_stay(nodes: Seq<JNode>, path: Seq<usize>, side: OutputSide) -> (Seq<usize>, OutputSide) {
    match spec_next_line(nodes, path, side) {
        Some(line) => line,
        None => (path, side),
    }
}

/// The line `k` lines after (`path`, `side`), stopping at the last.
pub open spec fn advance(nodes: Seq<JNode>, path: Seq<usize>, side: OutputSide, k: int) -> (Seq<usize>, OutputSide)
    decreases k,
{
    if k <= 0 {
        (path, side)
    } else {
        let line = next_or_stay(nodes, path, side);
        advance(nodes, line.0, line.1, k - 1)
    }
}

/// Up to `k` lines before (`path`, `side`), stopping at the first, and how
/// many lines that went back.
pub open spec fn retreat(nodes: Seq<JNode>, path: Seq<usize>, side: OutputSide, k: int) -> (Seq<usize>, OutputSide, int)
    decreases k,
{
    if k <= 0 {
        (path, side, 0)
    } else {
        match spec_prev_line(nodes, path, side) {
            None => (path, side, 0),
            Some(line) => {
                let r = retreat(nodes, line.0, line.1, k - 1);
                (r.0, r.1, r.2 + 1)
            },
        }
    }
}

/// Where the focus `f` stands when the screen lines from `j` to before `end`
/// show the lines from (`path`, `side`) on: before them if it comes before
/// the first, at the line that it matches, or after them; `None` when it
/// comes before a line other than the first without matching the one
/// before, a case that the scan does not handle.
pub open spec fn focus_position(
    nodes: Seq<JNode>,
    f: Seq<usize>,
    path: Seq<usize>,
    side: OutputSide,
    j: int,
    end: int,
    first: bool,
) -> Option<FocusPosition>
    decreases end - j,
{
    if j >= end {
        Some(FocusPosition::AfterScrolloff)
    } else {
        match focus_order_from(f, path, side, 0) {
            Ordering::Less => if first {
                Some(FocusPosition::BeforeScrolloff)
            } else {
                None
            },
            Ordering::Equal => Some(FocusPosition::WithinScrolloff(to_u16(j))),
            Ordering::Greater => {
                let line = next_or_stay(nodes, path, side);
                focus_position(nodes, f, line.0, line.1, j + 1, end, false)
            },
        }
    }
}

/// Moving to the next line keeps a line reachable.
proof fn lemma_next_or_stay_valid(nodes: Seq<JNode>, path: Seq<usize>, side: OutputSide)
    requires
        nodes_wf(nodes),
        line_valid(nodes, path, side),
    ensures
        line_valid(nodes, next_or_stay(nodes, path, side).0, next_or_stay(nodes, path, side).1),
{
    if spec_next_line(nodes, path, side) is Some {
        law_next_then_prev(nodes, path, side);
    }
}

impl JsonViewer {
    /// Where the focus stands against the lines that the screen shows
    /// between the kept lines at its top and bottom.
    pub open spec fn spec_focus_position(&self, nodes: Seq<JNode>, focus: Seq<usize>) -> Option<FocusPosition> {
        let first = advance(nodes, self.start_line.path@, self.start_line.side, u16_int(self.scrolloff));
        focus_position(
            nodes,
            focus,
            first.0,
            first.1,
            u16_int(self.scrolloff),
            u16_int(self.screen_height) - u16_int(self.scrolloff),
            true,
        )
    }

    /// A viewer of a screen of `width` by `height` that starts at the first
    /// line of the document, with the focus on it.
    pub fn new(width: u16, height: u16) -> (v: JsonViewer)
        ensures
            v.start_line.path@ == seq![0usize],
            v.start_line.side == OutputSide::Start,
            v.focused_index == 0,
            v.screen_width == width,
            v.screen_height == height,
            v.scrolloff == DEFAULT_SCROLLOFF,
    {
        let mut path: Vec<usize> = Vec::new();
        path.push(0);
        JsonViewer {
            start_line: OutputLineRef { path, side: OutputSide::Start },
            focused_index: 0,
            screen_width: width,
            screen_height: height,
            scrolloff: DEFAULT_SCROLLOFF,
        }
    }
}

/// A screen index survives being taken as an integer and back.
proof fn lemma_u16_round_trip(x: u16)
    ensures
        to_u16(u16_int(x)) == x,
{
}

/// A copy of `line`.
pub(crate) fn copy_line(line: &OutputLineRef) -> (c: OutputLineRef)
    ensures
        c.path@ == line.path@,
        c.side == line.side,
{
    let mut path: Vec<usize> = Vec::new();
    let mut i: usize = 0;
    while i < line.path.len()
        invariant
            i <= line.path@.len(),
            path@ == line.path@.take(i as int),
        decreases line.path@.len() - i,
    {
        path.push(line.path[i]);
        i = i + 1;
        assert(path@ =~= line.path@.take(i as int));
    }
    assert(line.path@.take(i as int) =~= line.path@);
    OutputLineRef { path, side: line.side }
}

/// Going back one line, from a reachable line, reaches a reachable line,
/// and going back `rest` lines goes back one and then `rest - 1` more.
proof fn lemma_retreat_step(nodes: Seq<JNode>, path: Seq<usize>, side: OutputSide, rest: int)
    requires
        nodes_wf(nodes),
        line_valid(nodes, path, side),
        rest > 0,
    ensures
        match spec_prev_line(nodes, path, side) {
            Some(l) => line_valid(nodes, l.0, l.1) && retreat(nodes, path, side, rest) == ({
                let r = retreat(nodes, l.0, l.1, rest - 1);
                (r.0, r.1, r.2 + 1)
            }),
            None => retreat(nodes, path, side, rest) == (path, side, 0int),
        },
{
    if spec_prev_line(nodes, path, side) is Some {
        law_prev_then_next(nodes, path, side);
    }
}

/// Moves `line` back by up to `k` lines, stopping at the first, and returns
/// how many lines it went back.
fn scroll_back(line: &mut OutputLineRef, tree: &JTree, k: u16) -> (n: u16)
    requires
        tree.wf(),
        line_valid(tree.nodes@, old(line).path@, old(line).side),
    ensures
        retreat(tree.nodes@, old(line).path@, old(line).side, k as int) == (final(line).path@, final(line).side, n as int),
        line_valid(tree.nodes@, final(line).path@, final(line).side),
{
    let ghost nodes = tree.nodes@;
    let ghost target = retreat(nodes, line.path@, line.side, k as int);
    let mut n: u16 = 0;
    while n < k
        invariant
            tree.wf(),
            nodes == tree.nodes@,
            n <= k,
            line_valid(nodes, line.path@, line.side),
            ({
                let r = retreat(nodes, line.path@, line.side, k - n);
                target == (r.0, r.1, r.2 + n)
            }),
        ensures
            line_valid(nodes, line.path@, line.side),
            target == (line.path@, line.side, n as int),
        decreases k - n,
    {
        let ghost before = (line.path@, line.side);
        proof {
            lemma_retreat_step(nodes, before.0, before.1, k - n);
        }
        let moved = line.prev(tree);
        if moved {
            n = n + 1;
        } else {
            break;
        }
    }
    n
}

impl JsonViewer {
    /// Where the focus stands against the lines on screen: before the lines
    /// between the kept ones at the top and bottom, on one of them, or after.
    fn check_where_focus_is_on_screen(&self, tree: &JTree, focus: &Focus) -> (r: FocusPosition)
        requires
            tree.wf(),
            line_valid(tree.nodes@, self.start_line.path@, self.start_line.side),
            self.scrolloff <= self.screen_height,
            self.spec_focus_position(tree.nodes@, focus_path(focus.0@)) is Some,
        ensures
            self.spec_focus_position(tree.nodes@, focus_path(focus.0@)) == Some(r),
    {
        let ghost nodes = tree.nodes@;
        let ghost f = focus_path(focus.0@);
        let ghost target = self.spec_focus_position(nodes, f);
        let mut current_line = copy_line(&self.start_line);
        let mut current_index: u16 = 0;
        while current_index < self.scrolloff
            invariant
                tree.wf(),
                nodes == tree.nodes@,
                current_index <= self.scrolloff,
                line_valid(nodes, current_line.path@, current_line.side),
                advance(nodes, self.start_line.path@, self.start_line.side, u16_int(self.scrolloff)) == advance(
                    nodes,
                    current_line.path@,
                    current_line.side,
                    u16_int(self.scrolloff) - u16_int(current_index),
                ),
            decreases u16_int(self.scrolloff) - u16_int(current_index),
        {
            proof {
                lemma_next_or_stay_valid(nodes, current_line.path@, current_line.side);
            }
            current_line.next(tree);
            current_index = current_index + 1;
        }
        let end = self.screen_height - self.scrolloff;
        let mut first = true;
        while current_index < end
            invariant
                tree.wf(),
                nodes == tree.nodes@,
                f == focus_path(focus.0@),
                line_valid(nodes, current_line.path@, current_line.side),
                target == self.spec_focus_position(nodes, f),
                target is Some,
                target == focus_position(
                    nodes,
                    f,
                    current_line.path@,
                    current_line.side,
                    u16_int(current_index),
                    u16_int(end),
                    first,
                ),
            decreases u16_int(end) - u16_int(current_index),
        {
            let order = compare_focus_and_output_line(focus, &current_line);
            proof {
                assert(u16_int(current_index) < u16_int(end));
                assert(order == focus_order_from(f, current_line.path@, current_line.side, 0));
            }
            match order {
                Ordering::Less => {
                    if first {
                        return FocusPosition::BeforeScrolloff;
                    }
                    proof {
                        assert(false);
                    }
                    return FocusPosition::BeforeScrolloff;
                },
                Ordering::Equal => {
                    proof {
                        lemma_u16_round_trip(current_index);
                    }
                    return FocusPosition::WithinScrolloff(current_index);
                },
                _ => {},
            }
            proof {
                lemma_next_or_stay_valid(nodes, current_line.path@, current_line.side);
            }
            current_line.next(tree);
            current_index = current_index + 1;
            first = false;
        }
        FocusPosition::AfterScrolloff
    }

    /// Scrolls so that the focus shows: where it comes before the lines
    /// kept at the top, the screen starts that many lines above it; where it
    /// comes after the lines shown, the focus goes to the last line above
    /// those kept at the bottom; elsewhere only the focused screen line
    /// changes.
    pub fn change_focus(&mut self, tree: &JTree, focus: &Focus)
        requires
            tree.wf(),
            line_valid(tree.nodes@, old(self).start_line.path@, old(self).start_line.side),
            old(self).scrolloff <= old(self).screen_height,
            old(self).spec_focus_position(tree.nodes@, focus_path(focus.0@)) is Some,
            !(old(self).spec_focus_position(tree.nodes@, focus_path(focus.0@)) matches Some(
                FocusPosition::WithinScrolloff(_),
            )) ==> line_valid(tree.nodes@, focus_path(focus.0@), OutputSide::Start),
        ensures
            final(self).screen_width == old(self).screen_width,
            final(self).screen_height == old(self).screen_height,
            final(self).scrolloff == old(self).scrolloff,
            line_valid(tree.nodes@, final(self).start_line.path@, final(self).start_line.side),
            match old(self).spec_focus_position(tree.nodes@, focus_path(focus.0@)).unwrap() {
                FocusPosition::BeforeScrolloff => retreat(
                    tree.nodes@,
                    focus_path(focus.0@),
                    OutputSide::Start,
                    u16_int(old(self).scrolloff),
                ) == (final(self).start_line.path@, final(self).start_line.side, u16_int(final(self).focused_index)),
                FocusPosition::WithinScrolloff(i) => final(self).start_line.path@ == old(self).start_line.path@
                    && final(self).start_line.side == old(self).start_line.side && final(self).focused_index == i,
                FocusPosition::AfterScrolloff => retreat(
                    tree.nodes@,
                    focus_path(focus.0@),
                    OutputSide::Start,
                    u16_int(old(self).screen_height) - u16_int(old(self).scrolloff),
                ) == (final(self).start_line.path@, final(self).start_line.side, u16_int(final(self).focused_index)),
            },
    {
        match self.check_where_focus_is_on_screen(tree, focus) {
            FocusPosition::BeforeScrolloff => {
                self.start_line.path = focus.indexes();
                self.start_line.side = OutputSide::Start;
                let k = self.scrolloff;
                self.focused_index = scroll_back(&mut self.start_line, tree, k);
            },
            FocusPosition::WithinScrolloff(focused_index) => {
                self.focused_index = focused_index;
            },
            FocusPosition::AfterScrolloff => {
                self.start_line.path = focus.indexes();
                self.start_line.side = OutputSide::Start;
                let k = self.screen_height - self.scrolloff;
                self.focused_index = scroll_back(&mut self.start_line, tree, k);
            },
        }
    }
}

/// The length of a path, as an integer.
pub open spec fn path_len(p: Seq<usize>) -> int {
    p.len() as int
}

/// The length of the shorter of two paths.
pub open spec fn shorter_len(a: Seq<usize>, b: Seq<usize>) -> int {
    if a.len() < b.len() {
        a.len() as int
    } else {
        b.len() as int
    }
}

/// Steps on which the focus and the line agree do not decide their order.
proof fn lemma_order_skip(f: Seq<usize>, p: Seq<usize>, s: OutputSide, i: int, j: int)
    requires
        0 <= i <= j,
        j <= f.len(),
        j <= p.len(),
        forall|k: int| i <= k < j ==> f[k] == p[k],
    ensures
        focus_order_from(f, p, s, i) == focus_order_from(f, p, s, j),
    decreases j - i,
{
    if i < j {
        lemma_order_skip(f, p, s, i + 1, j);
    }
}

/// Where the focus comes after a line, either they first differ at a step
/// `j` where the focus takes a later child, or the focus goes on inside the
/// node of a start line.
proof fn lemma_greater_shape(f: Seq<usize>, p: Seq<usize>, s: OutputSide)
    requires
        focus_order_from(f, p, s, 0) == Ordering::Greater,
    ensures
        (exists|j: int|
            0 <= j < f.len() && j < p.len() && #[trigger] f[j] > p[j] && forall|k: int| 0 <= k < j ==> f[k] == p[k])
            || (f.len() > p.len() && s == OutputSide::Start && forall|k: int| 0 <= k < p.len() ==> f[k] == p[k]),
{
    let m = shorter_len(f, p);
    if exists|j: int| 0 <= j < m && f[j] != p[j] {
        lemma_first_difference(f, p, m);
        let j = choose|j: int| 0 <= j < m && f[j] != p[j] && forall|k: int| 0 <= k < j ==> f[k] == p[k];
        lemma_order_skip(f, p, s, 0, j);
    } else {
        lemma_order_skip(f, p, s, 0, m);
    }
}

/// Where two paths differ before `m`, there is a first step where they do.
proof fn lemma_first_difference(f: Seq<usize>, p: Seq<usize>, m: int)
    requires
        m <= f.len(),
        m <= p.len(),
        exists|j: int| 0 <= j < m && f[j] != p[j],
    ensures
        exists|j: int| 0 <= j < m && f[j] != p[j] && forall|k: int| 0 <= k < j ==> f[k] == p[k],
    decreases m,
{
    if exists|j: int| 0 <= j < m - 1 && f[j] != p[j] {
        lemma_first_difference(f, p, m - 1);
    } else {
        assert(f[m - 1] != p[m - 1]);
    }
}

/// The line after a reachable line, where the focus first differs from the
/// line at step `j` by a later child, does not come after the focus.
#[verifier::spinoff_prover]
proof fn lemma_order_next_at(nodes: Seq<JNode>, f: Seq<usize>, path: Seq<usize>, side: OutputSide, j: int)
    requires
        nodes_wf(nodes),
        line_valid(nodes, f, OutputSide::Start),
        line_valid(nodes, path, side),
        spec_next_line(nodes, path, side) is Some,
        0 <= j < f.len(),
        j < path.len(),
        f[j] > path[j],
        forall|k: int| 0 <= k < j ==> f[k] == path[k],
    ensures
        focus_order_from(f, spec_next_line(nodes, path, side).unwrap().0, spec_next_line(nodes, path, side).unwrap().1, 0)
            != Ordering::Less,
{
    let n = path_len(path);
    let cur = node_at(nodes, path);
    let parent = node_at(nodes, path.drop_last());
    let p2 = spec_next_line(nodes, path, side).unwrap().0;
    let s2 = spec_next_line(nodes, path, side).unwrap().1;
    if is_expanded(nodes, cur) && side == OutputSide::Start {
        assert(p2 == path.push(0));
        assert(forall|k: int| 0 <= k <= j ==> p2[k] == path[k]);
        lemma_order_skip(f, p2, s2, 0, j);
    } else if path.last() == children(nodes, parent).len() - 1 {
        assert(p2 == path.drop_last());
        if j < n - 1 {
            assert(forall|k: int| 0 <= k <= j ==> p2[k] == path[k]);
            lemma_order_skip(f, p2, s2, 0, j);
        } else {
            assert(f.take(n - 1) =~= path.drop_last());
            assert(f[n - 1] < children(nodes, node_at(nodes, f.take(n - 1))).len());
        }
    } else {
        assert(p2.len() == n);
        assert(forall|k: int| 0 <= k < n - 1 ==> p2[k] == path[k]);
        if j < n - 1 {
            assert(p2[j] == path[j]);
            lemma_order_skip(f, p2, s2, 0, j);
        } else {
            assert(p2[n - 1] == path[n - 1] + 1);
            if f[n - 1] > p2[n - 1] {
                lemma_order_skip(f, p2, s2, 0, n - 1);
            } else {
                assert(forall|k: int| 0 <= k < n ==> f[k] == p2[k]);
                lemma_order_skip(f, p2, s2, 0, n);
            }
        }
    }
}

/// The line after the start line of a node that the focus lies inside
/// does not come after the focus.
#[verifier::spinoff_prover]
proof fn lemma_order_next_inside(nodes: Seq<JNode>, f: Seq<usize>, path: Seq<usize>, side: OutputSide)
    requires
        nodes_wf(nodes),
        line_valid(nodes, f, OutputSide::Start),
        line_valid(nodes, path, side),
        f.len() > path.len(),
        side == OutputSide::Start,
        forall|k: int| 0 <= k < path.len() ==> f[k] == path[k],
    ensures
        spec_next_line(nodes, path, side) is Some,
        focus_order_from(f, spec_next_line(nodes, path, side).unwrap().0, spec_next_line(nodes, path, side).unwrap().1, 0)
            != Ordering::Less,
{
    let n = path_len(path);
    let cur = node_at(nodes, path);
    assert(f.take(n) =~= path);
    assert(is_expanded(nodes, node_at(nodes, f.take(n))));
    assert(is_expanded(nodes, cur));
    let p2 = spec_next_line(nodes, path, side).unwrap().0;
    let s2 = spec_next_line(nodes, path, side).unwrap().1;
    assert(p2 == path.push(0));
    assert(forall|k: int| 0 <= k < n ==> f[k] == p2[k]);
    if f[n] > 0 {
        lemma_order_skip(f, p2, s2, 0, n);
    } else {
        assert(forall|k: int| 0 <= k < n + 1 ==> f[k] == p2[k]);
        lemma_order_skip(f, p2, s2, 0, n + 1);
    }
}

/// The line after a reachable line comes right after it in the order of
/// output: a focus on a reachable start line that comes after a line does
/// not come before the next one.
proof fn lemma_order_next(nodes: Seq<JNode>, f: Seq<usize>, path: Seq<usize>, side: OutputSide)
    requires
        nodes_wf(nodes),
        line_valid(nodes, f, OutputSide::Start),
        line_valid(nodes, path, side),
        spec_next_line(nodes, path, side) is Some,
        focus_order_from(f, path, side, 0) == Ordering::Greater,
    ensures
        focus_order_from(f, spec_next_line(nodes, path, side).unwrap().0, spec_next_line(nodes, path, side).unwrap().1, 0)
            != Ordering::Less,
{
    lemma_greater_shape(f, path, side);
    if exists|j: int|
        0 <= j < f.len() && j < path.len() && #[trigger] f[j] > path[j] && forall|k: int| 0 <= k < j ==> f[k] == path[k] {
        let j = choose|j: int|
            0 <= j < f.len() && j < path.len() && #[trigger] f[j] > path[j] && forall|k: int| 0 <= k < j ==> f[k] == path[k];
        lemma_order_next_at(nodes, f, path, side, j);
    } else {
        lemma_order_next_inside(nodes, f, path, side);
    }
}

/// Scanning lines from a reachable one, a focus on a reachable start line
/// is always placed: where it comes after a line, it never comes before
/// the next one.
proof fn lemma_position_found(
    nodes: Seq<JNode>,
    f: Seq<usize>,
    path: Seq<usize>,
    side: OutputSide,
    j: int,
    end: int,
    first: bool,
)
    requires
        nodes_wf(nodes),
        line_valid(nodes, f, OutputSide::Start),
        line_valid(nodes, path, side),
        !first ==> focus_order_from(f, path, side, 0) != Ordering::Less,
    ensures
        focus_position(nodes, f, path, side, j, end, first) is Some,
    decreases end - j,
{
    if j < end && focus_order_from(f, path, side, 0) == Ordering::Greater {
        let line = next_or_stay(nodes, path, side);
        lemma_next_or_stay_valid(nodes, path, side);
        if spec_next_line(nodes, path, side) is Some {
            lemma_order_next(nodes, f, path, side);
        }
        lemma_position_found(nodes, f, line.0, line.1, j + 1, end, false);
    }
}

/// Moving forward from a reachable line stays on reachable lines.
proof fn lemma_advance_valid(nodes: Seq<JNode>, path: Seq<usize>, side: OutputSide, k: int)
    requires
        nodes_wf(nodes),
        line_valid(nodes, path, side),
    ensures
        line_valid(nodes, advance(nodes, path, side, k).0, advance(nodes, path, side, k).1),
    decreases k,
{
    if k > 0 {
        let line = next_or_stay(nodes, path, side);
        lemma_next_or_stay_valid(nodes, path, side);
        lemma_advance_valid(nodes, line.0, line.1, k - 1);
    }
}

/// A focus on a reachable start line is always placed against the screen of
/// a viewer that starts on a reachable line: before, on, or after the lines
/// between the kept ones.
pub proof fn law_focus_on_a_line_is_placed(viewer: JsonViewer, nodes: Seq<JNode>, focus: Seq<usize>)
    requires
        nodes_wf(nodes),
        line_valid(nodes, viewer.start_line.path@, viewer.start_line.side),
        line_valid(nodes, focus, OutputSide::Start),
    ensures
        viewer.spec_focus_position(nodes, focus) is Some,
{
    let k = u16_int(viewer.scrolloff);
    lemma_advance_valid(nodes, viewer.start_line.path@, viewer.start_line.side, k);
    let first = advance(nodes, viewer.start_line.path@, viewer.start_line.side, k);
    lemma_position_found(
        nodes,
        focus,
        first.0,
        first.1,
        k,
        u16_int(viewer.screen_height) - k,
        true,
    );
}

/// Along a connected focus, the node its first `k` positions lead to is the
/// container of its step `k`.
proof fn lemma_connected_nodes(nodes: Seq<JNode>, f: Seq<(usize, usize)>, k: int)
    requires
        focus_connected(nodes, f),
        0 <= k < f.len(),
    ensures
        node_at(nodes, focus_path(f).take(k)) == f[k].0,
    decreases k,
{
    let path = focus_path(f);
    if k == 0 {
        assert(path.take(0).len() == 0);
    } else {
        lemma_connected_nodes(nodes, f, k - 1);
        assert(path.take(k).drop_last() =~= path.take(k - 1));
        assert(path.take(k).last() == f[k - 1].1);
    }
}

/// A focus that the moves keep, a valid path from the root through expanded
/// containers, is a line that output reaches: the start line of the focused
/// node.
pub proof fn law_connected_focus_is_a_line(nodes: Seq<JNode>, f: Seq<(usize, usize)>)
    requires
        focus_valid(nodes, f),
        focus_connected(nodes, f),
    ensures
        line_valid(nodes, focus_path(f), OutputSide::Start),
{
    let path = focus_path(f);
    assert forall|k: int| 0 <= k < path.len() implies #[trigger] path[k] < children(nodes, node_at(nodes, path.take(k))).len() by {
        lemma_connected_nodes(nodes, f, k);
        assert(path[k] == f[k].1);
    }
    assert forall|k: int| 1 <= k < path.len() implies is_expanded(nodes, #[trigger] node_at(nodes, path.take(k))) by {
        lemma_connected_nodes(nodes, f, k);
    }
}

} // verus!
