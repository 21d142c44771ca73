use vn_script::LineType;
use vn_script::Reader;

fn parsed(input: &str) -> Reader {
    let mut reader = Reader::from_text(input);
    reader.parse_all_lines();
    reader
}

#[test]
fn test_parse_text_line_one() {
    let reader = parsed(r#"Hello world"#);

    assert_eq!(reader.lines.len(), 1);

    assert_eq!(reader.lines[0].text, "Hello world".as_bytes());
    assert_eq!(reader.lines[0].type_, LineType::Text);
}

#[test]
fn test_parse_text_line_two() {
    let reader = parsed(
        r#"Hello world
Ciao mondo"#,
    );

    assert_eq!(reader.lines.len(), 2);

    assert_eq!(reader.lines[0].text, "Hello world".as_bytes());
    assert_eq!(reader.lines[1].text, "Ciao mondo".as_bytes());

    assert_eq!(reader.lines[0].type_, LineType::Text);
    assert_eq!(reader.lines[1].type_, LineType::Text);
}

#[test]
fn test_parse_text_line_three() {
    let reader = parsed(
        r#"Hello world
Ciao mondo
Bonjour monde"#,
    );

    assert_eq!(reader.lines.len(), 3);

    assert_eq!(reader.lines[0].text, "Hello world".as_bytes());
    assert_eq!(reader.lines[1].text, "Ciao mondo".as_bytes());
    assert_eq!(reader.lines[2].text, "Bonjour monde".as_bytes());

    assert_eq!(reader.lines[0].type_, LineType::Text);
    assert_eq!(reader.lines[1].type_, LineType::Text);
    assert_eq!(reader.lines[2].type_, LineType::Text);
}

#[test]
fn test_parse_empty_line_one() {
    let reader = parsed(r#""#);

    assert_eq!(reader.lines.len(), 0);
}

#[test]
fn test_parse_empty_line_two() {
    let reader = parsed(
        r#"
"#,
    );

    assert_eq!(reader.lines.len(), 0);
}

#[test]
fn test_parse_empty_line_three() {
    let reader = parsed(
        r#"

"#,
    );

    assert_eq!(reader.lines.len(), 0);
}

#[test]
fn test_parse_empty_line_multiple_one() {
    let reader = parsed(
        r#"Hello
"#,
    );

    assert_eq!(reader.lines.len(), 1);
    assert_eq!(reader.lines[0].text, "Hello".as_bytes());
    assert_eq!(reader.lines[0].type_, LineType::Text);
}

#[test]
fn test_parse_empty_line_multiple_two() {
    let reader = parsed(
        r#"Hello

World"#,
    );

    assert_eq!(reader.lines.len(), 2);

    assert_eq!(reader.lines[0].text, "Hello".as_bytes());
    assert_eq!(reader.lines[1].text, "World".as_bytes());

    assert_eq!(reader.lines[0].type_, LineType::Text);
    assert_eq!(reader.lines[1].type_, LineType::Text);
}

#[test]
fn test_parse_question_one() {
    let reader = parsed(r#"+ [Hello!] -> hello"#);

    assert_eq!(reader.lines.len(), 1);
    assert_eq!(reader.lines[0].type_, LineType::Question);
}

#[test]
fn test_parse_question_two() {
    let reader = parsed(
        r#"+ [Hello!] -> hello
+ [World!] -> world"#,
    );

    assert_eq!(reader.lines.len(), 2);

    assert_eq!(reader.lines[0].type_, LineType::Question);
    assert_eq!(reader.lines[1].type_, LineType::Question);
}

#[test]
fn test_parse_bookmark_one() {
    let reader = parsed(r#"=== hello"#);

    assert_eq!(reader.lines.len(), 1);

    assert_eq!(reader.lines[0].type_, LineType::Bookmark);
}

#[test]
fn test_parse_bookmark_two() {
    let reader = parsed(
        r#"=== hello
=== world"#,
    );

    assert_eq!(reader.lines.len(), 2);

    assert_eq!(reader.lines[0].type_, LineType::Bookmark);
    assert_eq!(reader.lines[1].type_, LineType::Bookmark);
}

#[test]
fn test_parse_end_one() {
    let reader = parsed(r#"-> END"#);

    assert_eq!(reader.lines.len(), 1);

    assert_eq!(reader.lines[0].type_, LineType::End);
}

#[test]
fn test_parse_end_two() {
    let reader = parsed(
        r#"Hello
-> END"#,
    );

    assert_eq!(reader.lines.len(), 2);

    assert_eq!(reader.lines[0].type_, LineType::Text);
    assert_eq!(reader.lines[1].type_, LineType::End);
}

#[test]
fn test_parse_digit_leading_text() {
    let reader = parsed("42 is the answer");

    assert_eq!(reader.lines.len(), 1);
    assert_eq!(reader.lines[0].type_, LineType::Text);
}

#[test]
fn test_parse_crlf_lines() {
    let reader = parsed("Hello\r\nWorld\r\n");

    assert_eq!(reader.lines.len(), 2);
    assert_eq!(reader.lines[0].text, "Hello".as_bytes());
    assert_eq!(reader.lines[1].text, "World".as_bytes());
}

#[test]
fn test_parse_unknown_leading_byte() {
    let reader = parsed("?what");

    assert_eq!(reader.lines.len(), 1);
    assert_eq!(reader.lines[0].type_, LineType::Undefined);
}
