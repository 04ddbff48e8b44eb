use streamline::console::{Stdin, Stdout};

fn strings(items: &[&str]) -> Vec<String> {
    items.iter().map(|s| s.to_string()).collect()
}

#[test]
fn three_lines_to_stdout() {
    let out = Stdout {}.encode_all(&strings(&["a", "b", "c"]));
    assert_eq!(out, b"a\nb\nc\n".to_vec());
}

#[test]
fn three_lines_round_trip() {
    let items = strings(&["a", "b", "c"]);
    let bytes = Stdout {}.encode_all(&items);
    assert_eq!(Stdin {}.decode_text(&bytes), items);
}

#[test]
fn round_trip_keeps_empty_and_unicode_lines() {
    let items = strings(&["", "héllo wörld", "tab\there", "mid\rcr", ""]);
    let bytes = Stdout {}.encode_all(&items);
    assert_eq!(Stdin {}.decode_text(&bytes), items);
}

#[test]
fn encode_line_appends_newline() {
    assert_eq!(Stdout {}.encode_line("hi"), b"hi\n".to_vec());
    assert_eq!(Stdout {}.encode_line(""), b"\n".to_vec());
    assert_eq!(Stdout {}.encode_line("é"), vec![0xC3, 0xA9, b'\n']);
}

#[test]
fn encode_all_of_nothing_is_empty() {
    assert_eq!(Stdout {}.encode_all(&Vec::new()), Vec::<u8>::new());
}

#[test]
fn decode_line_strips_terminators() {
    let stdin = Stdin {};
    assert_eq!(stdin.decode_line(b"abc\n".to_vec()), Some("abc".to_string()));
    assert_eq!(stdin.decode_line(b"abc\r\n".to_vec()), Some("abc".to_string()));
    assert_eq!(stdin.decode_line(b"abc".to_vec()), Some("abc".to_string()));
    assert_eq!(stdin.decode_line(b"abc\r".to_vec()), Some("abc".to_string()));
    assert_eq!(stdin.decode_line(b"\n".to_vec()), Some(String::new()));
    assert_eq!(stdin.decode_line(b"a\r\r\n".to_vec()), Some("a\r".to_string()));
}

#[test]
fn decode_line_decodes_utf8() {
    assert_eq!(Stdin {}.decode_line(vec![0xC3, 0xA9, b'\n']), Some("é".to_string()));
}

#[test]
fn decode_line_skips_invalid_utf8() {
    assert_eq!(Stdin {}.decode_line(vec![b'a', 0xFF, b'\n']), None);
    assert_eq!(Stdin {}.decode_line(vec![0xC3, b'\n']), None);
}

#[test]
fn decode_text_skips_bad_lines_and_goes_on() {
    let mut text = b"first\n".to_vec();
    text.extend_from_slice(&[0xFF, 0xFE, b'\n']);
    text.extend_from_slice(b"third\r\nlast");
    assert_eq!(Stdin {}.decode_text(&text), strings(&["first", "third", "last"]));
}

#[test]
fn decode_text_of_empty_input() {
    assert_eq!(Stdin {}.decode_text(&Vec::new()), Vec::<String>::new());
    assert_eq!(Stdin {}.decode_text(&b"\n\n".to_vec()), strings(&["", ""]));
}

#[test]
fn trailing_carriage_return_does_not_survive() {
    let bytes = Stdout {}.encode_all(&strings(&["x\r"]));
    assert_eq!(Stdin {}.decode_text(&bytes), strings(&["x"]));
}
