use doomsayer::lines::split_lines;

#[test]
fn splits_simple_lines() {
    let text = b"a\nb\nc".to_vec();
    assert_eq!(
        split_lines(&text),
        vec![b"a".to_vec(), b"b".to_vec(), b"c".to_vec()]
    );
}

#[test]
fn final_line_ending_is_optional() {
    let with_ending = b"a\nb\nc\n".to_vec();
    let without_ending = b"a\nb\nc".to_vec();
    assert_eq!(split_lines(&with_ending), split_lines(&without_ending));
}

#[test]
fn empty_text_has_no_lines() {
    assert_eq!(split_lines(&Vec::new()), Vec::<Vec<u8>>::new());
}

#[test]
fn blank_lines_are_kept() {
    let text = b"a\n\nb\n".to_vec();
    assert_eq!(
        split_lines(&text),
        vec![b"a".to_vec(), Vec::new(), b"b".to_vec()]
    );
}

#[test]
fn lone_line_feed_is_one_blank_line() {
    assert_eq!(split_lines(&b"\n".to_vec()), vec![Vec::<u8>::new()]);
}

#[test]
fn carriage_return_before_the_line_feed_is_stripped() {
    let text = b"a\r\nb\r\n".to_vec();
    assert_eq!(split_lines(&text), vec![b"a".to_vec(), b"b".to_vec()]);
}

#[test]
fn carriage_return_inside_a_line_is_kept() {
    let text = b"a\rb\n".to_vec();
    assert_eq!(split_lines(&text), vec![b"a\rb".to_vec()]);
}

#[test]
fn unterminated_final_line_keeps_its_carriage_return() {
    let text = b"a\r".to_vec();
    assert_eq!(split_lines(&text), vec![b"a\r".to_vec()]);
}
