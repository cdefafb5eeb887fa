use jless::input::{BufferedInput, ESCAPE};

#[test]
fn bytes_are_taken_in_order() {
    let mut input = BufferedInput::<8>::new();
    assert!(input.needs_more_input());
    input.fill(&[b'a', b'b', b'c']);
    assert!(input.has_buffered_data());
    assert_eq!(input.next_u8(), b'a');
    assert_eq!(input.next(), Some(b'b'));
    assert_eq!(input.next(), Some(b'c'));
    assert_eq!(input.next(), None);
    assert!(input.needs_more_input());
}

#[test]
fn a_lone_escape_is_taken_whole() {
    let mut input = BufferedInput::<8>::new();
    input.fill(&[ESCAPE]);
    assert!(input.take_pure_escape());
    assert!(!input.has_buffered_data());

    // An escape that starts a sequence stays.
    input.fill(&[ESCAPE, b'[', b'A']);
    assert!(!input.take_pure_escape());
    assert_eq!(input.next(), Some(ESCAPE));

    // So does one that comes after other input.
    input.fill(&[b'x', ESCAPE]);
    assert_eq!(input.next(), Some(b'x'));
    assert!(!input.take_pure_escape());
}

#[test]
fn clear_empties_the_buffer() {
    let mut input = BufferedInput::<4>::new();
    input.fill(&[1, 2, 3, 4]);
    input.clear();
    assert!(!input.has_buffered_data());
    assert_eq!(input.next(), None);
}
