use jless::jnode::{perform_action, tree_from_value, Action, ContainerState, Focus, JTree, JsonValue};

const SIMPLE_OBJ: &str = r#"{
    "a": { "aa": 1, "ab": 2, "ac": 3 },
    "z": [1, 2, 3]
}"#;

const SIMPLE_OBJ_WITH_EMPTY: &str = r#"{
    "a": {},
    "b": [1, 2, 3]
}"#;

fn to_json_value(v: serde_json::Value) -> JsonValue {
    match v {
        serde_json::Value::Null => JsonValue::Null,
        serde_json::Value::Bool(b) => JsonValue::Bool(b),
        serde_json::Value::Number(n) => JsonValue::Number(n.to_string()),
        serde_json::Value::String(s) => JsonValue::String(s),
        serde_json::Value::Array(vs) => JsonValue::Array(vs.into_iter().map(to_json_value).collect()),
        serde_json::Value::Object(obj) => {
            JsonValue::Object(obj.into_iter().map(|(k, v)| (k, to_json_value(v))).collect())
        }
    }
}

fn parse_json(json: &str) -> JTree {
    let value: serde_json::Value = serde_json::from_str(json).unwrap();
    tree_from_value(&to_json_value(value))
}

/// The node reached from the root through the children at `indexes`.
fn node_at(tree: &JTree, indexes: &[usize]) -> usize {
    let mut curr = 0;
    for index in indexes.iter() {
        curr = tree.child(curr, *index);
    }
    curr
}

fn construct_focus(tree: &JTree, indexes: &[usize]) -> Focus {
    let mut curr = 0;
    let mut focus = Vec::new();
    for index in indexes.iter() {
        let next = tree.child(curr, *index);
        focus.push((curr, *index));
        curr = next;
    }
    Focus(focus)
}

fn assert_focus_indexes(focus: &Focus, indexes: &[usize]) {
    assert_eq!(focus.indexes().as_slice(), indexes);
}

fn assert_movements(tree: &mut JTree, focus: &mut Focus, actions_and_focuses: &[(Action, &[usize])]) {
    for (action, new_focus_indexes) in actions_and_focuses.iter() {
        perform_action(tree, focus, *action);
        assert_focus_indexes(focus, new_focus_indexes);
    }
}

fn assert_container_state(tree: &JTree, node: usize, state: ContainerState) {
    assert_eq!(tree.nodes[node].container_state, state);
}

#[test]
fn test_movement_down_simple() {
    let mut tree = parse_json(SIMPLE_OBJ);
    let mut focus = Focus(vec![(0, 0)]);
    assert_movements(
        &mut tree,
        &mut focus,
        &[
            (Action::Down, &[0, 0]),
            (Action::Down, &[0, 0, 0]),
            (Action::Down, &[0, 0, 1]),
            (Action::Down, &[0, 0, 2]),
            (Action::Down, &[0, 1]),
            (Action::Down, &[0, 1, 0]),
            (Action::Down, &[0, 1, 1]),
            (Action::Down, &[0, 1, 2]),
            // Stay on last node
            (Action::Down, &[0, 1, 2]),
        ],
    );
}

#[test]
fn test_movement_down_skips_collapsed() {
    let mut tree = parse_json(SIMPLE_OBJ);
    let n = node_at(&tree, &[0, 0]);
    tree.set_container_state(n, ContainerState::Collapsed);
    let mut focus = Focus(vec![(0, 0)]);
    assert_movements(
        &mut tree,
        &mut focus,
        &[(Action::Down, &[0, 0]), (Action::Down, &[0, 1]), (Action::Down, &[0, 1, 0])],
    );
}

#[test]
fn test_movement_down_skips_empty() {
    let mut tree = parse_json(SIMPLE_OBJ_WITH_EMPTY);
    let mut focus = Focus(vec![(0, 0)]);
    assert_movements(
        &mut tree,
        &mut focus,
        &[(Action::Down, &[0, 0]), (Action::Down, &[0, 1]), (Action::Down, &[0, 1, 0])],
    );
}

#[test]
fn test_movement_up_simple() {
    let mut tree = parse_json(SIMPLE_OBJ);
    let mut focus = construct_focus(&tree, &[0, 1, 2]);
    assert_movements(
        &mut tree,
        &mut focus,
        &[
            (Action::Up, &[0, 1, 1]),
            (Action::Up, &[0, 1, 0]),
            (Action::Up, &[0, 1]),
            (Action::Up, &[0, 0, 2]),
            (Action::Up, &[0, 0, 1]),
            (Action::Up, &[0, 0, 0]),
            (Action::Up, &[0, 0]),
            (Action::Up, &[0]),
            // Stay at top level.
            (Action::Up, &[0]),
        ],
    );
}

#[test]
fn test_movement_up_skips_collapsed() {
    let mut tree = parse_json(SIMPLE_OBJ);
    let n = node_at(&tree, &[0, 0]);
    tree.set_container_state(n, ContainerState::Collapsed);
    let mut focus = construct_focus(&tree, &[0, 1, 0]);
    assert_movements(
        &mut tree,
        &mut focus,
        &[(Action::Up, &[0, 1]), (Action::Up, &[0, 0]), (Action::Up, &[0])],
    );
}

#[test]
fn test_movement_up_skips_empty() {
    let mut tree = parse_json(SIMPLE_OBJ_WITH_EMPTY);
    let mut focus = construct_focus(&tree, &[0, 1, 0]);
    assert_movements(
        &mut tree,
        &mut focus,
        &[(Action::Up, &[0, 1]), (Action::Up, &[0, 0]), (Action::Up, &[0])],
    );
}

#[test]
fn test_movement_right() {
    let mut tree = parse_json(SIMPLE_OBJ);
    let outer = node_at(&tree, &[0]);
    let inner = node_at(&tree, &[0, 0]);
    tree.set_container_state(outer, ContainerState::Collapsed);
    tree.set_container_state(inner, ContainerState::Collapsed);
    let mut focus = construct_focus(&tree, &[0]);

    // Expand first node, but don't enter
    perform_action(&mut tree, &mut focus, Action::Right);
    assert_focus_indexes(&focus, &[0]);
    assert_container_state(&tree, outer, ContainerState::Expanded);

    // Enter first node
    perform_action(&mut tree, &mut focus, Action::Right);
    assert_focus_indexes(&focus, &[0, 0]);
    assert_container_state(&tree, inner, ContainerState::Collapsed);

    // Expand inner node, but don't enter
    perform_action(&mut tree, &mut focus, Action::Right);
    assert_focus_indexes(&focus, &[0, 0]);
    assert_container_state(&tree, inner, ContainerState::Expanded);

    // Enter inner node
    perform_action(&mut tree, &mut focus, Action::Right);
    assert_focus_indexes(&focus, &[0, 0, 0]);

    // Focused on a primitive, going more right doesn't do anything.
    perform_action(&mut tree, &mut focus, Action::Right);
    assert_focus_indexes(&focus, &[0, 0, 0]);
}

#[test]
fn test_movement_left() {
    let mut tree = parse_json(SIMPLE_OBJ);
    let outer = node_at(&tree, &[0]);
    let inner = node_at(&tree, &[0, 1]);
    let mut focus = construct_focus(&tree, &[0, 1, 1]);

    // Exit inner node
    perform_action(&mut tree, &mut focus, Action::Left);
    assert_focus_indexes(&focus, &[0, 1]);
    assert_container_state(&tree, inner, ContainerState::Expanded);

    // Collapse inner node
    perform_action(&mut tree, &mut focus, Action::Left);
    assert_focus_indexes(&focus, &[0, 1]);
    assert_container_state(&tree, inner, ContainerState::Collapsed);

    // Exit inner node to outer node
    perform_action(&mut tree, &mut focus, Action::Left);
    assert_focus_indexes(&focus, &[0]);
    assert_container_state(&tree, outer, ContainerState::Expanded);

    // Collapse outer node
    perform_action(&mut tree, &mut focus, Action::Left);
    assert_focus_indexes(&focus, &[0]);
    assert_container_state(&tree, outer, ContainerState::Collapsed);

    // At top left, can't go anywhere.
    perform_action(&mut tree, &mut focus, Action::Left);
    assert_focus_indexes(&focus, &[0]);
}

#[test]
fn test_toggle_inline() {
    let mut tree = parse_json(SIMPLE_OBJ);
    let outer = node_at(&tree, &[0]);
    let inner = node_at(&tree, &[0, 0]);
    let mut focus = construct_focus(&tree, &[0]);

    perform_action(&mut tree, &mut focus, Action::ToggleInline);
    assert_container_state(&tree, outer, ContainerState::Inlined);

    perform_action(&mut tree, &mut focus, Action::ToggleInline);
    assert_container_state(&tree, outer, ContainerState::Expanded);

    perform_action(&mut tree, &mut focus, Action::Right);
    perform_action(&mut tree, &mut focus, Action::ToggleInline);
    assert_container_state(&tree, inner, ContainerState::Inlined);
}

#[test]
fn test_focus_first_and_last() {
    let mut tree = parse_json(SIMPLE_OBJ);
    let mut focus = construct_focus(&tree, &[0, 0, 1]);
    assert_movements(
        &mut tree,
        &mut focus,
        &[
            (Action::FocusFirstElem, &[0, 0, 0]),
            (Action::FocusFirstElem, &[0, 0, 0]),
            (Action::FocusLastElem, &[0, 0, 2]),
            (Action::FocusLastElem, &[0, 0, 2]),
            (Action::Left, &[0, 0]),
            (Action::FocusLastElem, &[0, 1]),
            (Action::Right, &[0, 1, 0]),
            (Action::FocusLastElem, &[0, 1, 2]),
        ],
    );
}

#[test]
fn tree_keeps_parents_and_keys() {
    let tree = parse_json(SIMPLE_OBJ);
    let a = node_at(&tree, &[0, 0]);
    let ab = node_at(&tree, &[0, 0, 1]);
    assert_eq!(tree.nodes[ab].parent, Some(a));
    assert_eq!(tree.nodes[0].parent, None);
    assert_eq!(tree.len(0), 1);
    assert_eq!(tree.len(a), 3);
    assert_eq!(tree.nodes[a].len(), 3);
    assert!(!tree.nodes[a].is_empty());
}

#[test]
fn moves_from_every_focus_stay_valid() {
    // Scenario for the law that moves keep the focus valid: a long mixed walk
    // never leaves the tree.
    let mut tree = parse_json(SIMPLE_OBJ_WITH_EMPTY);
    let mut focus = Focus(vec![(0, 0)]);
    let actions = [
        Action::Down, Action::Down, Action::Right, Action::Down, Action::FocusLastElem,
        Action::Left, Action::Left, Action::Up, Action::ToggleInline, Action::Down, Action::Down,
        Action::Up, Action::Up, Action::Up,
    ];
    for action in actions.iter() {
        perform_action(&mut tree, &mut focus, *action);
        assert!(!focus.0.is_empty());
        for (node, index) in focus.0.iter() {
            assert!(*index < tree.len(*node));
        }
    }
}

#[test]
fn down_then_up_and_up_then_down_come_back() {
    let mut tree = parse_json(SIMPLE_OBJ);
    let paths: [&[usize]; 8] = [&[0, 0], &[0, 0, 0], &[0, 0, 1], &[0, 0, 2], &[0, 1], &[0, 1, 0], &[0, 1, 1], &[0, 1, 2]];
    for (k, path) in paths.iter().enumerate() {
        if k + 1 < paths.len() {
            let mut focus = construct_focus(&tree, path);
            perform_action(&mut tree, &mut focus, Action::Down);
            perform_action(&mut tree, &mut focus, Action::Up);
            assert_focus_indexes(&focus, path);
        }
        let mut focus = construct_focus(&tree, path);
        perform_action(&mut tree, &mut focus, Action::Up);
        perform_action(&mut tree, &mut focus, Action::Down);
        assert_focus_indexes(&focus, path);
    }
}
