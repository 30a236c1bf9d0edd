use batchpipe::executor::Executor;
use batchpipe::executor::ExecutorError;
use batchpipe::text::join_lines;
use batchpipe::text::replace_all;

fn bytes(s: &str) -> Vec<u8> {
    s.as_bytes().to_vec()
}

fn string(v: Vec<u8>) -> String {
    String::from_utf8(v).unwrap()
}

#[test]
fn join_with_delimiter() {
    let parts = vec![bytes("a"), bytes("b"), bytes("c")];
    assert_eq!(string(join_lines(&parts, &bytes("|"))), "a|b|c");
}

#[test]
fn join_single_part_has_no_delimiter() {
    let parts = vec![bytes("a")];
    assert_eq!(string(join_lines(&parts, &bytes(","))), "a");
}

#[test]
fn join_empty_list_is_empty() {
    let parts: Vec<Vec<u8>> = Vec::new();
    assert_eq!(string(join_lines(&parts, &bytes(","))), "");
}

#[test]
fn join_with_multi_byte_delimiter() {
    let parts = vec![bytes("a"), bytes("b")];
    assert_eq!(string(join_lines(&parts, &bytes(", "))), "a, b");
}

#[test]
fn replace_substitutes_every_occurrence() {
    assert_eq!(
        string(replace_all(&bytes("{}-{}"), &bytes("{}"), &bytes("A"))),
        "A-A"
    );
}

#[test]
fn replace_inside_argument() {
    assert_eq!(
        string(replace_all(&bytes("val={}"), &bytes("{}"), &bytes("A,B"))),
        "val=A,B"
    );
}

#[test]
fn replace_tag_alone_gives_payload() {
    assert_eq!(
        string(replace_all(&bytes("{}"), &bytes("{}"), &bytes("A,B"))),
        "A,B"
    );
}

#[test]
fn replace_without_occurrence_is_identity() {
    assert_eq!(
        string(replace_all(&bytes("plain"), &bytes("{}"), &bytes("A"))),
        "plain"
    );
}

#[test]
fn replace_matches_str_replace_on_empty_pattern() {
    let expected = "ab".replace("", "x");
    assert_eq!(
        string(replace_all(&bytes("ab"), &bytes(""), &bytes("x"))),
        expected
    );
}

#[test]
fn replace_empty_pattern_respects_character_boundaries() {
    let expected = "a\u{e9}b".replace("", "x");
    assert_eq!(
        string(replace_all(&bytes("a\u{e9}b"), &bytes(""), &bytes("x"))),
        expected
    );
}

#[test]
fn replace_finds_occurrences_left_to_right() {
    let expected = "aaa".replace("aa", "b");
    assert_eq!(
        string(replace_all(&bytes("aaa"), &bytes("aa"), &bytes("b"))),
        expected
    );
}

#[test]
fn from_command_without_tokens_is_missing() {
    let mut command: Vec<Vec<u8>> = Vec::new();
    let r = Executor::from_command(&mut command, bytes("{}"));
    assert!(matches!(r, Err(ExecutorError::Missing)));
}

#[test]
fn from_command_with_empty_program_name_is_invalid() {
    let mut command = vec![bytes(""), bytes("arg")];
    let r = Executor::from_command(&mut command, bytes("{}"));
    assert!(matches!(r, Err(ExecutorError::Invalid)));
}

#[test]
fn from_command_splits_program_and_arguments() {
    let mut command = vec![bytes("echo"), bytes("-n"), bytes("{}")];
    let e = Executor::from_command(&mut command, bytes("{}")).ok().unwrap();
    assert_eq!(e.program_name, bytes("echo"));
    assert_eq!(e.arguments, vec![bytes("-n"), bytes("{}")]);
    assert_eq!(e.tag, bytes("{}"));
    assert_eq!(command, vec![bytes("-n"), bytes("{}")]);
}

#[test]
fn render_replaces_tag_in_each_argument() {
    let mut command = vec![bytes("cmd"), bytes("a={}"), bytes("plain"), bytes("{}")];
    let e = Executor::from_command(&mut command, bytes("{}")).ok().unwrap();
    let rendered = e.render(&bytes("1,2"));
    let rendered: Vec<String> = rendered.into_iter().map(string).collect();
    assert_eq!(rendered, vec!["a=1,2", "plain", "1,2"]);
}

#[test]
fn render_with_custom_tag() {
    let mut command = vec![bytes("cmd"), bytes("x=%v")];
    let e = Executor::from_command(&mut command, bytes("%v")).ok().unwrap();
    let rendered = e.render(&bytes("7"));
    assert_eq!(string(rendered.into_iter().next().unwrap()), "x=7");
}
