//! What a line of the tree view shows: styled pieces of text for primitive
//! values and for containers shown on one line.

use vstd::prelude::*;
use crate::jnode::{children, ContainerState, JContainer, JNode, JPrimitive, JTree, JValue};
use crate::render::{copy_line, law_next_then_prev, line_valid, node_at, spec_next_line, u16_int, JsonViewer, OutputLineRef, OutputSide};
use crate::text::{push_char, push_str};

verus! {

/// How a piece of a line is coloured.
#[derive(Debug, Copy, Clone, PartialEq, Eq, Structural)]
pub enum TextStyle {
    Plain,
    Key,
    FocusedKey,
    Null,
    Bool,
    Number,
    String,
}

/// A piece of a line, with its style.
#[derive(Debug)]
pub struct Segment {
    pub style: TextStyle,
    pub text: String,
}

/// The styles and texts of a list of pieces.
pub open spec fn segments_view(v: Seq<Segment>) -> Seq<(TextStyle, Seq<char>)> {
    v.map_values(|g: Segment| (g.style, g.text@))
}

/// `s` between double quotes.
pub open spec fn quoted(s: Seq<char>) -> Seq<char> {
    seq!['"'] + s + seq!['"']
}

/// How a primitive value is shown.
pub open spec fn primitive_segments(p: JPrimitive) -> Seq<(TextStyle, Seq<char>)> {
    match p {
        JPrimitive::Null => seq![(TextStyle::Null, "null"@)],
        JPrimitive::Bool(b) => seq![(TextStyle::Bool, if b { "true"@ } else { "false"@ })],
        JPrimitive::Number(t) => seq![(TextStyle::Number, t@)],
        JPrimitive::String(t) => seq![(TextStyle::String, quoted(t@))],
        JPrimitive::EmptyArray => seq![(TextStyle::Plain, "[]"@)],
        JPrimitive::EmptyObject => seq![(TextStyle::Plain, "{}"@)],
    }
}

/// The opening and closing characters of a container.
pub open spec fn container_chars(c: JContainer) -> (char, char) {
    match c {
        JContainer::Array(_) => ('[', ']'),
        JContainer::Object(_) => ('{', '}'),
        JContainer::TopLevel(_) => ('<', '>'),
    }
}

/// How a collapsed container is shown: its characters around an ellipsis.
pub open spec fn collapsed_text(c: JContainer) -> Seq<char> {
    seq![container_chars(c).0] + " ... "@ + seq![container_chars(c).1]
}

/// How node `i` is shown on one line: a primitive as itself, a collapsed
/// container as its characters around an ellipsis, and another container
/// with all its items inline.
pub open spec fn inline_segments(nodes: Seq<JNode>, i: int) -> Seq<(TextStyle, Seq<char>)>
    decreases nodes.len() - i, 1int, 0int,
{
    if 0 <= i < nodes.len() {
        match nodes[i].value {
            JValue::Primitive(p) => primitive_segments(p),
            JValue::Container(c) => if nodes[i].container_state == ContainerState::Collapsed {
                seq![(TextStyle::Plain, collapsed_text(c))]
            } else {
                container_inline_segments(nodes, i)
            },
        }
    } else {
        Seq::empty()
    }
}

/// The first `k` items of the container at `i`, inline: separated by commas
/// in an array or an object, with their keys in an object, and one after the
/// other at the top level.
pub open spec fn items_inline(nodes: Seq<JNode>, i: int, k: int) -> Seq<(TextStyle, Seq<char>)>
    decreases nodes.len() - i, 0int, k,
{
    if k <= 0 || !(0 <= i < nodes.len()) {
        Seq::empty()
    } else {
        let child = children(nodes, i)[k - 1] as int;
        let sep: Seq<(TextStyle, Seq<char>)> = match nodes[i].value {
            JValue::Container(JContainer::TopLevel(_)) => Seq::empty(),
            _ => if k > 1 { seq![(TextStyle::Plain, ", "@)] } else { Seq::empty() },
        };
        let key: Seq<(TextStyle, Seq<char>)> = match nodes[i].value {
            JValue::Container(JContainer::Object(kv)) => seq![
                (TextStyle::Key, quoted(kv@[k - 1].0@)),
                (TextStyle::Plain, ": "@),
            ],
            _ => Seq::empty(),
        };
        let item = if i < child < nodes.len() {
            inline_segments(nodes, child)
        } else {
            Seq::empty()
        };
        items_inline(nodes, i, k - 1) + sep + key + item
    }
}

/// A container with all its items inline: between its characters, but for
/// the top level, which has none.
pub open spec fn container_inline_segments(nodes: Seq<JNode>, i: int) -> Seq<(TextStyle, Seq<char>)>
    decreases nodes.len() - i, 0int, children(nodes, i).len() + 1,
{
    if 0 <= i < nodes.len() {
        let items = items_inline(nodes, i, children(nodes, i).len() as int);
        match nodes[i].value {
            JValue::Container(JContainer::TopLevel(_)) => items,
            JValue::Container(c) => seq![(TextStyle::Plain, seq![container_chars(c).0])] + items + seq![
                (TextStyle::Plain, seq![container_chars(c).1]),
            ],
            JValue::Primitive(_) => Seq::empty(),
        }
    } else {
        Seq::empty()
    }
}

/// A piece made of `text`.
fn segment(style: TextStyle, text: &str) -> (g: Segment)
    ensures
        g.style == style,
        g.text@ == text@,
{
    let mut t = String::new();
    push_str(&mut t, text);
    proof {
        assert(t@ =~= text@);
    }
    Segment { style, text: t }
}

/// A piece made of one character.
fn char_segment(style: TextStyle, c: char) -> (g: Segment)
    ensures
        g.style == style,
        g.text@ == seq![c],
{
    let mut t = String::new();
    push_char(&mut t, c);
    proof {
        assert(t@ =~= seq![c]);
    }
    Segment { style, text: t }
}

/// `s` between double quotes.
fn quote(s: &String) -> (t: String)
    ensures
        t@ == quoted(s@),
{
    let mut t = String::new();
    push_char(&mut t, '"');
    push_str(&mut t, s.as_str());
    push_char(&mut t, '"');
    proof {
        assert(t@ =~= quoted(s@));
    }
    t
}

/// Appends how primitive `p` is shown to `out`.
fn print_primitive(p: &JPrimitive, out: &mut Vec<Segment>)
    ensures
        segments_view(final(out)@) == segments_view(old(out)@) + primitive_segments(*p),
{
    let g = match p {
        JPrimitive::Null => segment(TextStyle::Null, "null"),
        JPrimitive::Bool(b) => if *b {
            segment(TextStyle::Bool, "true")
        } else {
            segment(TextStyle::Bool, "false")
        },
        JPrimitive::Number(t) => Segment { style: TextStyle::Number, text: t.clone() },
        JPrimitive::String(t) => Segment { style: TextStyle::String, text: quote(t) },
        JPrimitive::EmptyArray => segment(TextStyle::Plain, "[]"),
        JPrimitive::EmptyObject => segment(TextStyle::Plain, "{}"),
    };
    out.push(g);
    proof {
        assert(segments_view(out@) =~= segments_view(old(out)@) + primitive_segments(*p));
    }
}

/// Appends how node `i` is shown on one line to `out`.
pub fn print_inline(tree: &JTree, i: usize, out: &mut Vec<Segment>)
    requires
        tree.wf(),
        i < tree.nodes@.len(),
    ensures
        segments_view(final(out)@) == segments_view(old(out)@) + inline_segments(tree.nodes@, i as int),
    decreases tree.nodes@.len() - i, 1int, 0int,
{
    match &tree.nodes[i].value {
        JValue::Primitive(p) => print_primitive(p, out),
        JValue::Container(c) => {
            if tree.nodes[i].container_state == ContainerState::Collapsed {
                let (left, right) = c.characters();
                let mut t = String::new();
                push_char(&mut t, left);
                push_str(&mut t, " ... ");
                push_char(&mut t, right);
                out.push(Segment { style: TextStyle::Plain, text: t });
                proof {
                    assert(t@ =~= collapsed_text(*c));
                    assert(segments_view(out@) =~= segments_view(old(out)@) + inline_segments(tree.nodes@, i as int));
                }
            } else {
                print_inlined_container(tree, i, out);
            }
        },
    }
}

/// Appends the container at `i` with all its items inline to `out`.
pub fn print_inlined_container(tree: &JTree, i: usize, out: &mut Vec<Segment>)
    requires
        tree.wf(),
        i < tree.nodes@.len(),
        tree.nodes@[i as int].value is Container,
    ensures
        segments_view(final(out)@) == segments_view(old(out)@) + container_inline_segments(tree.nodes@, i as int),
    decreases tree.nodes@.len() - i, 0int, children(tree.nodes@, i as int).len() + 1,
{
    let ghost nodes = tree.nodes@;
    let (left, right, is_top) = match &tree.nodes[i].value {
        JValue::Container(c) => {
            let (l, r) = c.characters();
            (l, r, match c {
                JContainer::TopLevel(_) => true,
                _ => false,
            })
        },
        JValue::Primitive(_) => ('[', ']', true),
    };
    proof {
        assert(nodes[i as int].value matches JValue::Container(c) && left == container_chars(c).0 && right
            == container_chars(c).1);
    }
    let ghost base = segments_view(out@);
    if !is_top {
        out.push(char_segment(TextStyle::Plain, left));
    }
    let ghost start = segments_view(out@);
    proof {
        assert(is_top ==> start == base);
        assert(!is_top ==> start =~= base + seq![(TextStyle::Plain, seq![left])]);
    }
    let n = tree.len(i);
    let mut k: usize = 0;
    while k < n
        invariant
            tree.wf(),
            nodes == tree.nodes@,
            i < nodes.len(),
            nodes[i as int].value is Container,
            n == children(nodes, i as int).len(),
            k <= n,
            is_top == (nodes[i as int].value matches JValue::Container(JContainer::TopLevel(_))),
            segments_view(out@) == start + items_inline(nodes, i as int, k as int),
        decreases n - k,
    {
        let ghost before = segments_view(out@);
        if !is_top && k > 0 {
            out.push(segment(TextStyle::Plain, ", "));
        }
        let ghost after_sep = segments_view(out@);
        match &tree.nodes[i].value {
            JValue::Container(JContainer::Object(kv)) => {
                out.push(Segment { style: TextStyle::Key, text: quote(&kv[k].0) });
                out.push(segment(TextStyle::Plain, ": "));
            },
            _ => {},
        }
        let ghost after_key = segments_view(out@);
        let child = tree.child(i, k);
        proof {
            assert(i < child < nodes.len());
        }
        print_inline(tree, child, out);
        proof {
            let sep: Seq<(TextStyle, Seq<char>)> = match nodes[i as int].value {
                JValue::Container(JContainer::TopLevel(_)) => Seq::empty(),
                _ => if k + 1 > 1 { seq![(TextStyle::Plain, ", "@)] } else { Seq::empty() },
            };
            let key: Seq<(TextStyle, Seq<char>)> = match nodes[i as int].value {
                JValue::Container(JContainer::Object(kv)) => seq![
                    (TextStyle::Key, quoted(kv@[k as int].0@)),
                    (TextStyle::Plain, ": "@),
                ],
                _ => Seq::empty(),
            };
            assert(after_sep =~= before + sep);
            assert(after_key =~= after_sep + key);
            assert(items_inline(nodes, i as int, k + 1) == items_inline(nodes, i as int, k as int) + sep + key
                + inline_segments(nodes, child as int));
            assert(segments_view(out@) =~= start + items_inline(nodes, i as int, k + 1));
        }
        k = k + 1;
    }
    let ghost items = segments_view(out@);
    if !is_top {
        out.push(char_segment(TextStyle::Plain, right));
    }
    proof {
        let all = items_inline(nodes, i as int, n as int);
        assert(items == start + all);
        if is_top {
            assert(segments_view(out@) == items);
            assert(container_inline_segments(nodes, i as int) == all);
            assert(segments_view(out@) =~= base + container_inline_segments(nodes, i as int));
        } else {
            assert(segments_view(out@) =~= items.push((TextStyle::Plain, seq![right])));
            assert(container_inline_segments(nodes, i as int) == seq![(TextStyle::Plain, seq![left])] + all
                + seq![(TextStyle::Plain, seq![right])]);
            assert(segments_view(out@) =~= base + container_inline_segments(nodes, i as int));
        }
    }
}

/// What a line shows: how deep it is indented, and its pieces.
#[derive(Debug)]
pub struct RenderedLine {
    pub depth: usize,
    pub segments: Vec<Segment>,
}

/// The pieces of line (`path`, `side`): the key of an object's item on its
/// first line (set off when the line is focused), a mark on a focused line
/// that shows no key, the node itself (by its opening or closing character
/// when expanded), and a comma after every item but the last of its
/// container, but for the opening line of an expanded container.
pub open spec fn line_segments(nodes: Seq<JNode>, path: Seq<usize>, side: OutputSide, focused: bool) -> Seq<
    (TextStyle, Seq<char>),
> {
    let parent = node_at(nodes, path.drop_last());
    let cur = node_at(nodes, path);
    let last = path.last();
    let comma: Seq<(TextStyle, Seq<char>)> = if last != children(nodes, parent).len() - 1 {
        seq![(TextStyle::Plain, ","@)]
    } else {
        Seq::empty()
    };
    let key: Seq<(TextStyle, Seq<char>)> = match nodes[parent].value {
        JValue::Container(JContainer::Object(kv)) => if side == OutputSide::Start {
            seq![
                (if focused { TextStyle::FocusedKey } else { TextStyle::Key }, quoted(kv@[last as int].0@)),
                (TextStyle::Plain, ": "@),
            ]
        } else {
            Seq::empty()
        },
        _ => Seq::empty(),
    };
    let star: Seq<(TextStyle, Seq<char>)> = if focused && key.len() == 0 {
        seq![(TextStyle::Plain, "* "@)]
    } else {
        Seq::empty()
    };
    match nodes[cur].value {
        JValue::Primitive(p) => key + star + primitive_segments(p) + comma,
        JValue::Container(c) => match nodes[cur].container_state {
            ContainerState::Collapsed => key + star + seq![(TextStyle::Plain, collapsed_text(c))] + comma,
            ContainerState::Inlined => key + star + container_inline_segments(nodes, cur) + comma,
            ContainerState::Expanded => match side {
                OutputSide::Start => key + star + seq![(TextStyle::Plain, seq![container_chars(c).0])],
                OutputSide::End => key + seq![(TextStyle::Plain, seq![container_chars(c).1])] + comma,
            },
        },
    }
}

impl OutputLineRef {
    /// What the line shows, indented by its depth below the top level.
    #[verifier::spinoff_prover]
    #[verifier::rlimit(50)]
    pub fn print(&self, tree: &JTree, is_line_focused: bool) -> (r: RenderedLine)
        requires
            tree.wf(),
            line_valid(tree.nodes@, self.path@, self.side),
        ensures
            r.depth == self.path@.len() - 1,
            segments_view(r.segments@) == line_segments(tree.nodes@, self.path@, self.side, is_line_focused),
    {
        let ghost nodes = tree.nodes@;
        let ghost path = self.path@;
        let (parent, current) = self.walk(tree);
        let n = self.path.len();
        let last_index = self.path[n - 1];
        let mut out: Vec<Segment> = Vec::new();
        let mut focused = is_line_focused;
        let not_last = last_index != tree.len(parent) - 1;
        let at_start = self.side == OutputSide::Start;
        match &tree.nodes[parent].value {
            JValue::Container(JContainer::Object(kv)) => {
                if at_start {
                    let style = if focused { TextStyle::FocusedKey } else { TextStyle::Key };
                    out.push(Segment { style, text: quote(&kv[last_index].0) });
                    out.push(segment(TextStyle::Plain, ": "));
                    focused = false;
                }
            },
            _ => {},
        }
        let ghost key = segments_view(out@);
        if focused && !(self.side == OutputSide::End && tree.node_is_expanded(current)) {
            out.push(segment(TextStyle::Plain, "* "));
        }
        let ghost with_star = segments_view(out@);
        let mut comma = not_last;
        match &tree.nodes[current].value {
            JValue::Primitive(p) => print_primitive(p, &mut out),
            JValue::Container(c) => {
                let (left, right) = c.characters();
                match tree.nodes[current].container_state {
                    ContainerState::Collapsed => {
                        let mut t = String::new();
                        push_char(&mut t, left);
                        push_str(&mut t, " ... ");
                        push_char(&mut t, right);
                        proof {
                            assert(t@ =~= collapsed_text(*c));
                        }
                        out.push(Segment { style: TextStyle::Plain, text: t });
                    },
                    ContainerState::Inlined => print_inlined_container(tree, current, &mut out),
                    ContainerState::Expanded => {
                        if at_start {
                            out.push(char_segment(TextStyle::Plain, left));
                            comma = false;
                        } else {
                            out.push(char_segment(TextStyle::Plain, right));
                        }
                    },
                }
            },
        }
        let ghost body = segments_view(out@);
        if comma {
            out.push(segment(TextStyle::Plain, ","));
        }
        proof {
            let cur = current as int;
            let spec_comma: Seq<(TextStyle, Seq<char>)> = if path.last() != children(nodes, parent as int).len() - 1 {
                seq![(TextStyle::Plain, ","@)]
            } else {
                Seq::empty()
            };
            let spec_key: Seq<(TextStyle, Seq<char>)> = match nodes[parent as int].value {
                JValue::Container(JContainer::Object(kv)) => if self.side == OutputSide::Start {
                    seq![
                        (if is_line_focused { TextStyle::FocusedKey } else { TextStyle::Key }, quoted(kv@[path.last() as int].0@)),
                        (TextStyle::Plain, ": "@),
                    ]
                } else {
                    Seq::empty()
                },
                _ => Seq::empty(),
            };
            assert(path.last() == last_index);
            assert(key =~= spec_key);
            let spec_star: Seq<(TextStyle, Seq<char>)> = if is_line_focused && spec_key.len() == 0 {
                seq![(TextStyle::Plain, "* "@)]
            } else {
                Seq::empty()
            };
            if !(self.side == OutputSide::End && crate::jnode::is_expanded(nodes, cur)) {
                assert(with_star =~= key + spec_star);
            }
            if comma {
                assert(segments_view(out@) =~= body + spec_comma);
            } else {
                assert(segments_view(out@) =~= body);
            }
            let target = line_segments(nodes, path, self.side, is_line_focused);
            assert(segments_view(out@) =~= target);
        }
        RenderedLine { depth: n - 1, segments: out }
    }
}

/// What kind of row of the screen a row is.
#[derive(Debug, Copy, Clone, PartialEq, Eq, Structural)]
pub enum RowKind {
    Line,
    EndOfFile,
    PastEndOfFile,
}

/// A row of the screen: a line of the document, the mark of its end, or a
/// row past it.
#[derive(Debug)]
pub enum ScreenRow {
    Line(RenderedLine),
    EndOfFile,
    PastEndOfFile,
}

/// The kind of a row, its indentation and its pieces.
pub open spec fn row_view(r: ScreenRow) -> (RowKind, int, Seq<(TextStyle, Seq<char>)>) {
    match r {
        ScreenRow::Line(l) => (RowKind::Line, l.depth as int, segments_view(l.segments@)),
        ScreenRow::EndOfFile => (RowKind::EndOfFile, 0, Seq::empty()),
        ScreenRow::PastEndOfFile => (RowKind::PastEndOfFile, 0, Seq::empty()),
    }
}

/// The views of a list of rows.
pub open spec fn rows_view(rows: Seq<ScreenRow>) -> Seq<(RowKind, int, Seq<(TextStyle, Seq<char>)>)> {
    rows.map_values(|r: ScreenRow| row_view(r))
}

/// The rows after the last line of the document, from screen row `printed`
/// to the bottom: the end mark, then rows past it.
pub open spec fn tail_rows(printed: int, height: int) -> Seq<(RowKind, int, Seq<(TextStyle, Seq<char>)>)> {
    if printed >= height {
        Seq::empty()
    } else {
        seq![(RowKind::EndOfFile, 0int, Seq::empty())] + Seq::new(
            (height - printed - 1) as nat,
            |k: int| (RowKind::PastEndOfFile, 0int, Seq::<(TextStyle, Seq<char>)>::empty()),
        )
    }
}

/// The rows of the screen from row `printed` on when it shows line
/// (`path`, `side`) there: the lines of the document, one per row, the one
/// on row `focused` marked as focused, until the screen or the document
/// ends, and then the rows after the document.
pub open spec fn rows_from(
    nodes: Seq<JNode>,
    path: Seq<usize>,
    side: OutputSide,
    printed: int,
    height: int,
    focused: int,
) -> Seq<(RowKind, int, Seq<(TextStyle, Seq<char>)>)>
    decreases height - printed,
{
    if printed >= height {
        Seq::empty()
    } else {
        let row = (RowKind::Line, path.len() - 1, line_segments(nodes, path, side, printed == focused));
        seq![row] + match spec_next_line(nodes, path, side) {
            Some(line) => rows_from(nodes, line.0, line.1, printed + 1, height, focused),
            None => tail_rows(printed + 1, height),
        }
    }
}

impl JsonViewer {
    /// The rows of the screen, from the viewer's start line down.
    pub fn render(&self, tree: &JTree) -> (rows: Vec<ScreenRow>)
        requires
            tree.wf(),
            line_valid(tree.nodes@, self.start_line.path@, self.start_line.side),
        ensures
            rows_view(rows@) == rows_from(
                tree.nodes@,
                self.start_line.path@,
                self.start_line.side,
                0,
                u16_int(self.screen_height),
                u16_int(self.focused_index),
            ),
    {
        let ghost nodes = tree.nodes@;
        let ghost height = u16_int(self.screen_height);
        let ghost focused = u16_int(self.focused_index);
        let ghost target = rows_from(nodes, self.start_line.path@, self.start_line.side, 0, height, focused);
        let mut rows: Vec<ScreenRow> = Vec::new();
        let mut lines_printed: u16 = 0;
        let mut current_line = copy_line(&self.start_line);
        assert(rows_view(rows@) =~= Seq::empty());
        while lines_printed < self.screen_height
            invariant_except_break
                rows_view(rows@) + rows_from(
                    nodes,
                    current_line.path@,
                    current_line.side,
                    u16_int(lines_printed),
                    height,
                    focused,
                ) == target,
            invariant
                tree.wf(),
                nodes == tree.nodes@,
                height == u16_int(self.screen_height),
                focused == u16_int(self.focused_index),
                lines_printed <= self.screen_height,
                line_valid(nodes, current_line.path@, current_line.side),
            ensures
                lines_printed <= self.screen_height,
                rows_view(rows@) + tail_rows(u16_int(lines_printed), height) == target,
            decreases u16_int(self.screen_height) - u16_int(lines_printed),
        {
            let ghost before = rows_view(rows@);
            let ghost path = current_line.path@;
            let ghost side = current_line.side;
            let line = current_line.print(tree, lines_printed == self.focused_index);
            rows.push(ScreenRow::Line(line));
            proof {
                assert(rows_view(rows@) =~= before.push(
                    (RowKind::Line, path.len() - 1, line_segments(nodes, path, side, u16_int(lines_printed) == focused)),
                ));
                if spec_next_line(nodes, path, side) is Some {
                    law_next_then_prev(nodes, path, side);
                }
            }
            lines_printed = lines_printed + 1;
            let more_lines = current_line.next(tree);
            if !more_lines {
                break;
            }
        }
        let ghost filled = rows_view(rows@);
        if lines_printed < self.screen_height {
            rows.push(ScreenRow::EndOfFile);
            lines_printed = lines_printed + 1;
        }
        proof {
            assert(rows_view(rows@) + Seq::new(
                (height - u16_int(lines_printed)) as nat,
                |k: int| (RowKind::PastEndOfFile, 0int, Seq::<(TextStyle, Seq<char>)>::empty()),
            ) =~= target);
        }
        while lines_printed < self.screen_height
            invariant
                lines_printed <= self.screen_height,
                height == u16_int(self.screen_height),
                rows_view(rows@) + Seq::new(
                    (height - u16_int(lines_printed)) as nat,
                    |k: int| (RowKind::PastEndOfFile, 0int, Seq::<(TextStyle, Seq<char>)>::empty()),
                ) == target,
            decreases u16_int(self.screen_height) - u16_int(lines_printed),
        {
            let ghost before = rows_view(rows@);
            rows.push(ScreenRow::PastEndOfFile);
            lines_printed = lines_printed + 1;
            proof {
                assert(rows_view(rows@) + Seq::new(
                    (height - u16_int(lines_printed)) as nat,
                    |k: int| (RowKind::PastEndOfFile, 0int, Seq::<(TextStyle, Seq<char>)>::empty()),
                ) =~= target);
            }
        }
        proof {
            assert(rows_view(rows@) =~= target);
        }
        rows
    }
}

} // verus!
