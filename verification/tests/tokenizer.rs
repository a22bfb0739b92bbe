use scry_asm::text::{chars_of, same_text, space, string_of};
use scry_asm::tokenize;

fn tokens_of(source: &[&str]) -> Vec<String> {
    let tokens = tokenize(source);
    let mut out = Vec::new();
    for i in 0..tokens.len() {
        out.push(tokens.get(i).iter().collect::<String>());
    }
    out
}

#[test]
fn splits_on_white_space() {
    assert_eq!(
        tokens_of(&["add =>4\tsub\n=>21\r\n echo"]),
        vec!["add", "=>4", "sub", "=>21", "echo"]
    );
}

#[test]
fn splits_on_unicode_white_space() {
    assert_eq!(tokens_of(&["a\u{a0}b\u{2003}c\u{3000}d\u{85}e\u{b}f"]), vec!["a", "b", "c", "d", "e", "f"]);
    assert!(space('\u{2028}'));
    assert!(space('\u{1680}'));
    assert!(!space('\u{200b}'));
    assert!(!space('a'));
}

#[test]
fn empty_source_has_no_tokens() {
    assert_eq!(tokens_of(&[]), Vec::<String>::new());
    assert_eq!(tokens_of(&["", "  \t", ";only a comment"]), Vec::<String>::new());
}

#[test]
fn comment_runs_to_line_feed() {
    assert_eq!(tokens_of(&["add ;one two\nsub"]), vec!["add", "sub"]);
}

#[test]
fn comment_runs_to_carriage_return() {
    assert_eq!(tokens_of(&["add ;one two\rsub"]), vec!["add", "sub"]);
    assert_eq!(tokens_of(&["add ;one two\r\nsub"]), vec!["add", "sub"]);
}

#[test]
fn comment_without_line_end_runs_to_end_of_piece() {
    assert_eq!(tokens_of(&["add ;one two", "sub"]), vec!["add", "sub"]);
    assert_eq!(tokens_of(&["add ;one two sub"]), vec!["add"]);
}

#[test]
fn comment_separates_tokens() {
    assert_eq!(tokens_of(&["add;comment\nsub"]), vec!["add", "sub"]);
}

#[test]
fn comment_marker_inside_comment_is_dropped() {
    assert_eq!(tokens_of(&["a ;x;y:z\nb ;;\nc"]), vec!["a", "b", "c"]);
}

#[test]
fn label_marker_closes_its_token() {
    assert_eq!(tokens_of(&["foo:bar"]), vec!["foo:", "bar"]);
    assert_eq!(tokens_of(&["foo: bar"]), vec!["foo:", "bar"]);
    assert_eq!(tokens_of(&["a::b"]), vec!["a:", ":", "b"]);
    assert_eq!(tokens_of(&[":"]), vec![":"]);
    assert_eq!(tokens_of(&["foo :"]), vec!["foo", ":"]);
}

#[test]
fn pieces_separate_tokens() {
    assert_eq!(tokens_of(&["add", "=>4", "lab", ":"]), vec!["add", "=>4", "lab", ":"]);
}

#[test]
fn source_size_counts_pieces_and_their_line_feeds() {
    assert_eq!(tokenize(&[]).source_size(), 0);
    assert_eq!(tokenize(&["ab", "", "c\u{3000}"]).source_size(), 7);
}

#[test]
fn filler_between_tokens_does_not_matter() {
    let plain = tokens_of(&["inc =>a lab: .bytes u0, 1"]);
    assert_eq!(plain, vec!["inc", "=>a", "lab:", ".bytes", "u0,", "1"]);
    assert_eq!(tokens_of(&["inc\t\t=>a\nlab:\r\n.bytes  u0,\u{a0}1"]), plain);
    assert_eq!(tokens_of(&["inc;c\n=>a ;; c ; c\r lab:;\n.bytes;x\r\nu0,;:\n1;end"]), plain);
    assert_eq!(tokens_of(&["  inc", "=>a", "", "lab:.bytes", ";", "u0, 1  "]), plain);
}

#[test]
fn characters_and_strings_convert_both_ways() {
    let chars = chars_of("a\u{e9}\u{1f600}:");
    assert_eq!(chars, vec!['a', '\u{e9}', '\u{1f600}', ':']);
    assert_eq!(string_of(&chars), "a\u{e9}\u{1f600}:");
    assert_eq!(string_of(&[]), "");
    assert!(same_text(&chars, &['a', '\u{e9}', '\u{1f600}', ':']));
    assert!(!same_text(&chars, &['a', '\u{e9}', '\u{1f600}']));
    assert!(!same_text(&chars, &['a', '\u{e9}', '\u{1f600}', ';']));
}

#[test]
fn tokens_keep_every_visible_character_once() {
    let source = "lab:inc =>a;gone: too\n\t.bytes\ru0,\u{2003}12:;\r\n:x";
    assert_eq!(tokens_of(&[source]).concat(), "lab:inc=>a.bytesu0,12::x");
    assert_eq!(
        tokens_of(&[source]),
        vec!["lab:", "inc", "=>a", ".bytes", "u0,", "12:", ":", "x"]
    );
}

#[test]
fn tokens_of_a_source_are_those_of_its_pieces() {
    let pieces = ["a b;c", "", "d:e ;", ";f", "g"];
    let mut each = Vec::new();
    for piece in pieces {
        each.extend(tokens_of(&[piece]));
    }
    assert_eq!(tokens_of(&pieces), each);
    assert_eq!(each, vec!["a", "b", "d:", "e", "g"]);
}
