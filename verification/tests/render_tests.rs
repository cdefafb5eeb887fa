use jless::jnode::{tree_from_value, ContainerState, Focus, JTree, JsonValue};
use jless::linetext::{RenderedLine, ScreenRow, TextStyle};
use jless::render::{compare_focus_and_output_line, JsonViewer, OutputLineRef, OutputSide};
use jless::render::OutputSide::{End, Start};
use std::cmp::Ordering;

const SIMPLE_OBJ: &str = r#"{
    "a": { "aa": 1, "ab": 2, "ac": 3 },
    "z": [1, 2, 3]
}"#;

fn to_json_value(v: serde_json::Value) -> JsonValue {
    match v {
        serde_json::Value::Null => JsonValue::Null,
        serde_json::Value::Bool(b) => JsonValue::Bool(b),
        serde_json::Value::Number(n) => JsonValue::Number(n.to_string()),
        serde_json::Value::String(s) => JsonValue::String(s),
        serde_json::Value::Array(vs) => JsonValue::Array(vs.into_iter().map(to_json_value).collect()),
        serde_json::Value::Object(obj) => {
            JsonValue::Object(obj.into_iter().map(|(k, v)| (k, to_json_value(v))).collect())
        }
    }
}

fn tree_of(json: &str) -> JTree {
    let value: serde_json::Value = serde_json::from_str(json).unwrap();
    tree_from_value(&to_json_value(value))
}

fn line(path: &[usize], side: OutputSide) -> OutputLineRef {
    OutputLineRef { path: path.to_vec(), side }
}

fn focus(path: &[usize]) -> Focus {
    Focus(path.iter().map(|i| (0, *i)).collect())
}

fn pieces(l: &RenderedLine) -> Vec<(TextStyle, String)> {
    l.segments.iter().map(|g| (g.style, g.text.clone())).collect()
}

fn all_lines() -> Vec<(Vec<usize>, OutputSide)> {
    vec![
        (vec![0], Start),
        (vec![0, 0], Start),
        (vec![0, 0, 0], Start),
        (vec![0, 0, 1], Start),
        (vec![0, 0, 2], Start),
        (vec![0, 0], End),
        (vec![0, 1], Start),
        (vec![0, 1, 0], Start),
        (vec![0, 1, 1], Start),
        (vec![0, 1, 2], Start),
        (vec![0, 1], End),
        (vec![0], End),
    ]
}

#[test]
fn next_walks_every_line_in_order() {
    let tree = tree_of(SIMPLE_OBJ);
    let expected = all_lines();
    let mut l = line(&[0], OutputSide::Start);
    for (path, side) in expected.iter().skip(1) {
        assert!(l.next(&tree));
        assert_eq!(&l.path, path);
        assert_eq!(l.side, *side);
    }
    // The last line stays put.
    assert!(!l.next(&tree));
    assert_eq!(l.path, vec![0]);
    assert_eq!(l.side, OutputSide::End);
}

#[test]
fn prev_walks_every_line_backwards() {
    let tree = tree_of(SIMPLE_OBJ);
    let expected = all_lines();
    let mut l = line(&[0], OutputSide::End);
    for (path, side) in expected.iter().rev().skip(1) {
        assert!(l.prev(&tree));
        assert_eq!(&l.path, path);
        assert_eq!(l.side, *side);
    }
    assert!(!l.prev(&tree));
    assert_eq!(l.path, vec![0]);
    assert_eq!(l.side, OutputSide::Start);
}

#[test]
fn next_then_prev_comes_back() {
    let tree = tree_of(SIMPLE_OBJ);
    for (path, side) in all_lines().iter().take(11) {
        let mut l = line(path, *side);
        assert!(l.next(&tree));
        assert!(l.prev(&tree));
        assert_eq!(&l.path, path);
        assert_eq!(l.side, *side);
    }
}

#[test]
fn collapsed_and_inlined_containers_take_one_line() {
    let mut tree = tree_of(SIMPLE_OBJ);
    let a = tree.child(tree.child(0, 0), 0);
    tree.set_container_state(a, ContainerState::Collapsed);
    let mut l = line(&[0, 0], OutputSide::Start);
    assert!(l.next(&tree));
    assert_eq!(l.path, vec![0, 1]);
    assert_eq!(l.side, OutputSide::Start);

    let z = tree.child(tree.child(0, 0), 1);
    tree.set_container_state(z, ContainerState::Inlined);
    assert!(l.next(&tree));
    assert_eq!(l.path, vec![0]);
    assert_eq!(l.side, OutputSide::End);

    let shown = line(&[0, 0], OutputSide::Start).print(&tree, false);
    assert_eq!(
        pieces(&shown),
        vec![
            (TextStyle::Key, "\"a\"".to_string()),
            (TextStyle::Plain, ": ".to_string()),
            (TextStyle::Plain, "{ ... }".to_string()),
            (TextStyle::Plain, ",".to_string()),
        ]
    );
    let inline = line(&[0, 1], OutputSide::Start).print(&tree, true);
    assert_eq!(inline.depth, 1);
    assert_eq!(
        pieces(&inline),
        vec![
            (TextStyle::FocusedKey, "\"z\"".to_string()),
            (TextStyle::Plain, ": ".to_string()),
            (TextStyle::Plain, "[".to_string()),
            (TextStyle::Number, "1".to_string()),
            (TextStyle::Plain, ", ".to_string()),
            (TextStyle::Number, "2".to_string()),
            (TextStyle::Plain, ", ".to_string()),
            (TextStyle::Number, "3".to_string()),
            (TextStyle::Plain, "]".to_string()),
        ]
    );
}

#[test]
fn lines_show_keys_values_and_commas() {
    let tree = tree_of(SIMPLE_OBJ);
    let top = line(&[0], OutputSide::Start).print(&tree, true);
    assert_eq!(top.depth, 0);
    assert_eq!(
        pieces(&top),
        vec![(TextStyle::Plain, "* ".to_string()), (TextStyle::Plain, "{".to_string())]
    );
    let first = line(&[0, 0, 0], OutputSide::Start).print(&tree, true);
    assert_eq!(first.depth, 2);
    assert_eq!(
        pieces(&first),
        vec![
            (TextStyle::FocusedKey, "\"aa\"".to_string()),
            (TextStyle::Plain, ": ".to_string()),
            (TextStyle::Number, "1".to_string()),
            (TextStyle::Plain, ",".to_string()),
        ]
    );
    let close = line(&[0, 0], OutputSide::End).print(&tree, false);
    assert_eq!(
        pieces(&close),
        vec![(TextStyle::Plain, "}".to_string()), (TextStyle::Plain, ",".to_string())]
    );
    let last_item = line(&[0, 1, 2], OutputSide::Start).print(&tree, false);
    assert_eq!(pieces(&last_item), vec![(TextStyle::Number, "3".to_string())]);
}

#[test]
fn primitives_are_shown_by_kind() {
    let tree = tree_of(r#"[null, true, "s", [], {}]"#);
    let expect = [
        (TextStyle::Null, "null"),
        (TextStyle::Bool, "true"),
        (TextStyle::String, "\"s\""),
        (TextStyle::Plain, "[]"),
        (TextStyle::Plain, "{}"),
    ];
    for (k, (style, text)) in expect.iter().enumerate() {
        let shown = line(&[0, k], OutputSide::Start).print(&tree, false);
        assert_eq!(shown.segments[0].style, *style);
        assert_eq!(shown.segments[0].text, *text);
    }
}

#[test]
fn compare_focus_with_lines() {
    let f = focus(&[0, 0]);
    assert_eq!(compare_focus_and_output_line(&f, &line(&[0], OutputSide::Start)), Ordering::Greater);
    assert_eq!(compare_focus_and_output_line(&f, &line(&[0], OutputSide::End)), Ordering::Less);
    assert_eq!(compare_focus_and_output_line(&f, &line(&[0, 0], OutputSide::Start)), Ordering::Equal);
    assert_eq!(compare_focus_and_output_line(&f, &line(&[0, 0], OutputSide::End)), Ordering::Less);
    assert_eq!(compare_focus_and_output_line(&f, &line(&[0, 1], OutputSide::Start)), Ordering::Less);
    assert_eq!(compare_focus_and_output_line(&f, &line(&[0, 0, 3], OutputSide::Start)), Ordering::Less);
    assert_eq!(compare_focus_and_output_line(&focus(&[1]), &line(&[0, 5], OutputSide::End)), Ordering::Greater);
}

#[test]
fn render_fills_the_screen() {
    let tree = tree_of(SIMPLE_OBJ);
    let viewer = JsonViewer::new(80, 15);
    let rows = viewer.render(&tree);
    assert_eq!(rows.len(), 15);
    for (k, row) in rows.iter().enumerate().take(12) {
        match row {
            ScreenRow::Line(l) => assert_eq!(l.depth, all_lines()[k].0.len() - 1),
            _ => panic!("expected a line"),
        }
    }
    assert!(matches!(rows[12], ScreenRow::EndOfFile));
    assert!(matches!(rows[13], ScreenRow::PastEndOfFile));
    assert!(matches!(rows[14], ScreenRow::PastEndOfFile));
    match &rows[0] {
        ScreenRow::Line(l) => assert_eq!(l.segments[0].text, "* "),
        _ => panic!("expected a line"),
    }

    let short = JsonViewer::new(80, 5).render(&tree);
    assert_eq!(short.len(), 5);
    assert!(short.iter().all(|r| matches!(r, ScreenRow::Line(_))));

    let exact = JsonViewer::new(80, 12).render(&tree);
    assert_eq!(exact.len(), 12);
    assert!(exact.iter().all(|r| matches!(r, ScreenRow::Line(_))));
}

#[test]
fn change_focus_scrolls_the_screen() {
    let tree = tree_of(SIMPLE_OBJ);

    // Within the lines shown: only the focused row changes.
    let mut viewer = JsonViewer::new(80, 10);
    viewer.change_focus(&tree, &focus(&[0, 0, 1]));
    assert_eq!(viewer.focused_index, 3);
    assert_eq!(viewer.start_line.path, vec![0]);

    // After them: the focus goes to the last row above the kept ones.
    let mut viewer = JsonViewer::new(80, 10);
    viewer.change_focus(&tree, &focus(&[0, 1, 2]));
    assert_eq!(viewer.focused_index, 7);
    assert_eq!(viewer.start_line.path, vec![0, 0, 0]);
    assert_eq!(viewer.start_line.side, OutputSide::Start);

    // Before them, at the top of the document: the screen starts there.
    viewer.change_focus(&tree, &focus(&[0]));
    assert_eq!(viewer.focused_index, 0);
    assert_eq!(viewer.start_line.path, vec![0]);
    assert_eq!(viewer.start_line.side, OutputSide::Start);

    // Before them, further down: three lines are kept above the focus.
    let mut viewer = JsonViewer::new(80, 10);
    viewer.start_line = line(&[0, 1], OutputSide::Start);
    viewer.change_focus(&tree, &focus(&[0, 0, 2]));
    assert_eq!(viewer.focused_index, 3);
    assert_eq!(viewer.start_line.path, vec![0, 0]);
}
