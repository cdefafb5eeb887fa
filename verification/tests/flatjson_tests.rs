use jless::flatjson::{parse_top_level_json, FlatJson, Index, OptionIndex, PathType, Row, NIL};

const OBJECT: &str = r#"{
        "1": 1,
        "2": [
            3,
            "4"
        ],
        "6": {
            "7": null,
            "8": true,
            "9": 9
        },
        "11": 11
    }"#;

const NESTED_OBJECT: &str = r#"[
        {
            "2": [
                3
            ],
            "5": {
                "6": 6
            }
        }
    ]"#;

fn assert_flat_json_fields(
    field: &'static str,
    fj: &FlatJson,
    field_values: Vec<usize>,
    accessor_fn: fn(&Row) -> OptionIndex,
) {
    assert_eq!(
        fj.0.len(),
        field_values.len(),
        "length of flat json and field_values don't match",
    );

    for (i, (elem, expected_value)) in fj.0.iter().zip(field_values.iter()).enumerate() {
        assert_eq!(
            accessor_fn(elem).to_usize(),
            *expected_value,
            "incorrect {} at index {}",
            field,
            i,
        );
    }
}

#[test]
fn test_flatten_json() {
    let fj = parse_top_level_json(OBJECT.to_owned()).unwrap();

    assert_flat_json_fields(
        "parent",
        &fj,
        vec![NIL, 0, 0, 2, 2, 0, 0, 6, 6, 6, 0, 0, NIL],
        |elem| elem.parent,
    );
    assert_flat_json_fields(
        "prev_sibling",
        &fj,
        vec![NIL, NIL, 1, NIL, 3, NIL, 2, NIL, 7, 8, NIL, 6, NIL],
        |elem| elem.prev_sibling,
    );
    assert_flat_json_fields(
        "next_sibling",
        &fj,
        vec![NIL, 2, 6, 4, NIL, NIL, 11, 8, 9, NIL, NIL, NIL, NIL],
        |elem| elem.next_sibling,
    );
    assert_flat_json_fields(
        "first_child",
        &fj,
        vec![1, NIL, 3, NIL, NIL, NIL, 7, NIL, NIL, NIL, NIL, NIL, NIL],
        |elem| elem.first_child(),
    );
    assert_flat_json_fields(
        "last_child",
        &fj,
        vec![NIL, NIL, NIL, NIL, NIL, 4, NIL, NIL, NIL, NIL, 9, NIL, 11],
        |elem| elem.last_child(),
    );
    assert_flat_json_fields(
        "{open,close}_index",
        &fj,
        vec![12, NIL, 5, NIL, NIL, 2, 10, NIL, NIL, NIL, 6, NIL, 0],
        |elem| elem.pair_index(),
    );
    assert_flat_json_fields(
        "depth",
        &fj,
        vec![0, 1, 1, 2, 2, 1, 1, 2, 2, 2, 1, 1, 0],
        |elem| OptionIndex::Index(elem.depth),
    );
}

#[test]
fn test_first_visible_ancestor() {
    let mut fj = parse_top_level_json(NESTED_OBJECT.to_owned()).unwrap();
    assert_eq!(fj.first_visible_ancestor(3), 3);
    assert_eq!(fj.first_visible_ancestor(6), 6);
    fj.collapse(5);
    assert_eq!(fj.first_visible_ancestor(6), 5);
    assert_eq!(fj.first_visible_ancestor(5), 5);
    fj.collapse(1);
    assert_eq!(fj.first_visible_ancestor(6), 1);
    fj.expand(5);
    assert_eq!(fj.first_visible_ancestor(6), 1);
    fj.collapse(0);
    assert_eq!(fj.first_visible_ancestor(6), 0);
}

fn assert_row_iter(
    movement_name: &'static str,
    fj: &FlatJson,
    start_index: Index,
    expected_visited_rows: &Vec<usize>,
    movement_fn: fn(&FlatJson, Index) -> OptionIndex,
) {
    let mut curr_index = start_index;
    for expected_index in expected_visited_rows.iter() {
        let next_index = movement_fn(fj, curr_index).to_usize();
        assert_eq!(
            next_index, *expected_index,
            "expected {}({}) to be {}",
            movement_name, curr_index, expected_index,
        );
        curr_index = next_index;
    }
}

fn reversed_walk(mut expected: Vec<usize>) -> (usize, Vec<usize>) {
    let mut start = 0;
    if expected.len() > 1 {
        start = expected[expected.len() - 2];
        expected.pop();
        expected.pop();
        expected.reverse();
        expected.push(0);
        expected.push(NIL);
    }
    (start, expected)
}

fn assert_visited_rows(fj: &FlatJson, expected: Vec<usize>) {
    assert_row_iter("next_visible_row", fj, 0, &expected, FlatJson::next_visible_row);
    let (start, backwards) = reversed_walk(expected);
    assert_row_iter("prev_visible_row", fj, start, &backwards, FlatJson::prev_visible_row);
}

fn assert_visited_items(fj: &FlatJson, expected: Vec<usize>) {
    assert_row_iter("next_item", fj, 0, &expected, FlatJson::next_item);
    let (start, backwards) = reversed_walk(expected);
    assert_row_iter("prev_item", fj, start, &backwards, FlatJson::prev_item);
}

#[test]
fn test_move_by_visible_rows_simple() {
    let fj = parse_top_level_json(OBJECT.to_owned()).unwrap();
    assert_visited_rows(&fj, vec![1, 2, 3, 4, 5, 6, 7, 8, 9, 10, 11, 12, NIL]);
}

#[test]
fn test_move_by_visible_rows_collapsed() {
    let mut fj = parse_top_level_json(NESTED_OBJECT.to_owned()).unwrap();

    fj.collapse(2);
    assert_visited_rows(&fj, vec![1, 2, 5, 6, 7, 8, 9, NIL]);

    fj.collapse(5);
    assert_visited_rows(&fj, vec![1, 2, 5, 8, 9, NIL]);

    fj.collapse(1);
    assert_visited_rows(&fj, vec![1, 9, NIL]);

    fj.collapse(0);
    assert_visited_rows(&fj, vec![NIL]);
}

#[test]
fn test_move_by_items_simple() {
    let fj = parse_top_level_json(OBJECT.to_owned()).unwrap();
    assert_visited_items(&fj, vec![1, 2, 3, 4, 6, 7, 8, 9, 11, NIL]);

    let fj = parse_top_level_json(NESTED_OBJECT.to_owned()).unwrap();
    assert_visited_items(&fj, vec![1, 2, 3, 5, 6, NIL]);
}

#[test]
fn test_move_by_items_collapsed() {
    let mut fj = parse_top_level_json(NESTED_OBJECT.to_owned()).unwrap();

    fj.collapse(2);
    assert_visited_items(&fj, vec![1, 2, 5, 6, NIL]);

    fj.collapse(5);
    assert_visited_items(&fj, vec![1, 2, 5, NIL]);

    fj.expand(2);
    assert_visited_items(&fj, vec![1, 2, 3, 5, NIL]);

    fj.collapse(1);
    assert_visited_items(&fj, vec![1, NIL]);

    fj.collapse(0);
    assert_visited_items(&fj, vec![NIL]);
}

fn assert_paths_to_node(fj: &FlatJson, index: Index, paths: (&str, &str, &str, &str)) {
    let dot = fj.build_path_to_node(PathType::Dot, index).unwrap();
    let bracket = fj.build_path_to_node(PathType::Bracket, index).unwrap();
    let query = fj.build_path_to_node(PathType::Query, index).unwrap();
    let dot_top_level = fj
        .build_path_to_node(PathType::DotWithTopLevelIndex, index)
        .unwrap();

    assert_eq!(
        paths,
        (
            dot.as_str(),
            bracket.as_str(),
            query.as_str(),
            dot_top_level.as_str()
        )
    );
}

#[test]
fn test_root_object_build_path_to_node() {
    const ROOT_OBJECT: &str = r#"{
            "non js key": 1,
            "plain_key": [
                {},
                {
                    "nested": 5,
                },
            ],
        }"#;

    let fj = parse_top_level_json(ROOT_OBJECT.to_owned()).unwrap();

    assert!(fj.build_path_to_node(PathType::Dot, 0).is_err());
    assert!(fj.build_path_to_node(PathType::Bracket, 0).is_err());
    assert_eq!(".", fj.build_path_to_node(PathType::Query, 0).unwrap());
    assert_eq!(
        "",
        fj.build_path_to_node(PathType::DotWithTopLevelIndex, 0).unwrap()
    );

    let path = r#"["non js key"]"#;
    let paths = (path, path, r#".["non js key"]"#, path);
    assert_paths_to_node(&fj, 1, paths);

    let nested_paths = (
        ".plain_key[1].nested",
        r#"["plain_key"][1]["nested"]"#,
        ".plain_key[].nested",
        ".plain_key[1].nested",
    );
    assert_paths_to_node(&fj, 5, nested_paths);
}

#[test]
fn test_root_array_build_path_to_node() {
    const ROOT_ARRAY: &str = r#"[
            1,
            {
                "nested": {
                    "more nested": 4,
                },
            },
        ]"#;

    let fj = parse_top_level_json(ROOT_ARRAY.to_owned()).unwrap();

    assert!(fj.build_path_to_node(PathType::Dot, 0).is_err());
    assert!(fj.build_path_to_node(PathType::Bracket, 0).is_err());
    assert_eq!(".", fj.build_path_to_node(PathType::Query, 0).unwrap());
    assert_eq!(
        "",
        fj.build_path_to_node(PathType::DotWithTopLevelIndex, 0).unwrap()
    );

    let paths = ("[0]", "[0]", ".[]", "[0]");
    assert_paths_to_node(&fj, 1, paths);

    let nested_paths = (
        r#"[1].nested["more nested"]"#,
        r#"[1]["nested"]["more nested"]"#,
        r#".[].nested["more nested"]"#,
        r#"[1].nested["more nested"]"#,
    );
    assert_paths_to_node(&fj, 4, nested_paths);
}

#[test]
fn test_multi_top_level_build_path_to_node() {
    const MULTI_TOP_LEVEL: &str = r#"[
            {
                "nested": [
                    3,
                ],
            },
        ]
        {
            "plain_key": [
                {
                    "nested": 10,
                },
            ],
        }"#;

    let fj = parse_top_level_json(MULTI_TOP_LEVEL.to_owned()).unwrap();

    assert!(fj.build_path_to_node(PathType::Dot, 0).is_err());
    assert!(fj.build_path_to_node(PathType::Bracket, 0).is_err());
    assert_eq!(".", fj.build_path_to_node(PathType::Query, 0).unwrap());
    assert_eq!(
        "[0]",
        fj.build_path_to_node(PathType::DotWithTopLevelIndex, 0).unwrap()
    );

    assert!(fj.build_path_to_node(PathType::Dot, 7).is_err());
    assert!(fj.build_path_to_node(PathType::Bracket, 7).is_err());
    assert_eq!(".", fj.build_path_to_node(PathType::Query, 7).unwrap());
    assert_eq!(
        "[1]",
        fj.build_path_to_node(PathType::DotWithTopLevelIndex, 7).unwrap()
    );

    let paths = (
        "[0].nested[0]",
        r#"[0]["nested"][0]"#,
        ".[].nested[]",
        "[0][0].nested[0]",
    );
    assert_paths_to_node(&fj, 3, paths);

    let paths = (
        ".plain_key[0].nested",
        r#"["plain_key"][0]["nested"]"#,
        ".plain_key[].nested",
        "[1].plain_key[0].nested",
    );
    assert_paths_to_node(&fj, 10, paths);
}

#[test]
fn test_pretty_print() {
    const JSON: &str = r#"{"a":1,"b":[2,{},[],false],"c":null}
            [ "d"   , [1,{      "e" :   7 }]   ]"#;
    const PRETTY: &str = r#"{
  "a": 1,
  "b": [
    2,
    {},
    [],
    false
  ],
  "c": null
}
[
  "d",
  [
    1,
    {
      "e": 7
    }
  ]
]
"#;
    let fj = parse_top_level_json(JSON.to_owned()).unwrap();
    assert_eq!(PRETTY, fj.pretty_printed());
}

#[test]
fn test_sexp_string() {
    const JSON: &str = r#"{"a":1,"b":[2,{},[],false],"c":null}
            [ "d"   , [1,{      "e" :   7 }]   ]"#;
    const PRETTY: &str = r#"((a 1) (b (2 () () false)) (c ()))
(d (1 ((e 7))))
"#;
    let fj = parse_top_level_json(JSON.to_owned()).unwrap();
    assert_eq!(PRETTY, fj.sexp_string().unwrap());
}

#[test]
fn test_sexp_string_escaping() {
    const JSON: &str = r#"["", "a b", "a\"b", "a\\b", "a#|b", "a|#b", "a;b", {"a(b": "a)b"}]
            ["\n\t\r\b", "\u0000\u001f\u007f"]"#;
    const PRETTY: &str = r#"("" "a b" "a\"b" "a\\b" "a#|b" "a|#b" "a;b" (("a(b" "a)b")))
("\n\t\r\b" "\000\031\127")
"#;
    let fj = parse_top_level_json(JSON.to_owned()).unwrap();
    assert_eq!(PRETTY, fj.sexp_string().unwrap());
}

#[test]
fn test_pretty_printed_value() {
    const JSON: &str = r#"[[{"3":3,"4":[5, 6, {"8": false}]}]]"#;
    let fj = parse_top_level_json(JSON.to_owned()).unwrap();
    const PRETTY_INNER_OBJ: &str = r#"{
  "3": 3,
  "4": [
    5,
    6,
    {
      "8": false
    }
  ]
}
"#;
    assert_eq!(PRETTY_INNER_OBJ, fj.pretty_printed_value(2).unwrap());
    assert_eq!("3", fj.pretty_printed_value(3).unwrap());

    const PRETTY_ARRAY: &str = r#"[
  5,
  6,
  {
    "8": false
  }
]
"#;
    assert_eq!(PRETTY_ARRAY, fj.pretty_printed_value(4).unwrap());
    assert_eq!("6", fj.pretty_printed_value(6).unwrap());

    const PRETTY_NESTED_OBJ: &str = "{\n  \"8\": false\n}\n";
    assert_eq!(PRETTY_NESTED_OBJ, fj.pretty_printed_value(7).unwrap());
}

#[test]
fn walking_back_by_items_undoes_walking_forward() {
    let mut fj = parse_top_level_json(NESTED_OBJECT.to_owned()).unwrap();
    fj.collapse(2);
    for (from, to) in [(0, 1), (1, 2), (2, 5), (5, 6)] {
        assert_eq!(fj.next_item(from), OptionIndex::Index(to));
        assert_eq!(fj.prev_item(to), OptionIndex::Index(from));
    }
    assert_eq!(fj.prev_item(0), OptionIndex::Nil);
}

#[test]
fn the_last_visible_item_has_no_next_item() {
    let mut fj = parse_top_level_json(NESTED_OBJECT.to_owned()).unwrap();
    assert_eq!(fj.last_visible_item(), 6);
    assert_eq!(fj.next_item(6), OptionIndex::Nil);
    fj.collapse(5);
    assert_eq!(fj.last_visible_item(), 5);
    assert_eq!(fj.next_item(5), OptionIndex::Nil);
    fj.collapse(1);
    assert_eq!(fj.last_visible_item(), 1);
    assert_eq!(fj.next_item(1), OptionIndex::Nil);
}

#[test]
fn each_row_lies_one_level_below_its_parent() {
    let fj = parse_top_level_json(NESTED_OBJECT.to_owned()).unwrap();
    for row in fj.0.iter() {
        match row.parent {
            OptionIndex::Index(p) => assert_eq!(row.depth, fj.0[p].depth + 1),
            OptionIndex::Nil => assert_eq!(row.depth, 0),
        }
    }
    assert_eq!(fj.0[3].depth, 3);
    assert_eq!(fj.2, 3);
    for i in 1..fj.0.len() {
        assert!(fj.0[i - 1].range.start < fj.0[i].range.start);
    }
}
