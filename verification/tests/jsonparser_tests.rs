use jless::jsonparser::parse;

#[test]
fn test_row_ranges() {
    //            0 2    7  10   15    21   26    32     39 42
    let json = r#"{ "a": 1, "b": true, "c": null, "ddd": [] }"#.to_owned();
    let (rows, _, _) = parse(json).unwrap();

    assert_eq!(rows[0].range, 0..43); // Object
    assert_eq!(rows[1].key_range, Some(2..5)); // "a": 1
    assert_eq!(rows[1].range, 7..8); // "a": 1
    assert_eq!(rows[2].key_range, Some(10..13)); // "b": true
    assert_eq!(rows[2].range, 15..19); // "b": true
    assert_eq!(rows[3].key_range, Some(21..24)); // "c": null
    assert_eq!(rows[3].range, 26..30); // "c": null
    assert_eq!(rows[4].range, 39..41); // "ddd": []
    assert_eq!(rows[5].range, 42..43); // }

    //            01   5        14     21 23
    let json = r#"[14, "apple", false, {}]"#.to_owned();
    let (rows, _, _) = parse(json).unwrap();

    assert_eq!(rows[0].range, 0..24); // Array
    assert_eq!(rows[1].range, 1..3); // 14
    assert_eq!(rows[2].range, 5..12); // "apple"
    assert_eq!(rows[3].range, 14..19); // false
    assert_eq!(rows[4].range, 21..23); // {}
    assert_eq!(rows[5].range, 23..24); // ]

    //            01 3      10     17    23  27   32   37 40    46   51
    let json = r#"[{ "abc": "str", "de": 14, "f": null }, true, false]"#.to_owned();
    let (rows, _, _) = parse(json).unwrap();

    assert_eq!(rows[0].range, 0..52); // Array
    assert_eq!(rows[1].range, 1..38); // Object
    assert_eq!(rows[2].key_range, Some(3..8)); // "abc": "str"
    assert_eq!(rows[2].range, 10..15); // "abc": "str"
    assert_eq!(rows[3].key_range, Some(17..21)); // "de": 14
    assert_eq!(rows[3].range, 23..25); // "de": 14
    assert_eq!(rows[4].key_range, Some(27..30)); // "f": null
    assert_eq!(rows[4].range, 32..36); // "f": null
    assert_eq!(rows[5].range, 37..38); // }
    assert_eq!(rows[6].range, 40..44); // true
    assert_eq!(rows[7].range, 46..51); // false
    assert_eq!(rows[8].range, 51..52); // ]
}

#[test]
fn the_depth_returned_is_that_of_the_deepest_row() {
    let (rows, _, depth) = parse("[[1], [], {\"a\": [[]]}]".to_owned()).unwrap();
    assert_eq!(depth, 3);
    assert_eq!(rows.iter().map(|r| r.depth).max(), Some(3));
    let (_, _, depth) = parse("[[], []]".to_owned()).unwrap();
    assert_eq!(depth, 1);
    let (_, _, depth) = parse("7".to_owned()).unwrap();
    assert_eq!(depth, 0);
}
