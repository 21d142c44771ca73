use vn_script::Reader;
use vn_script::Writer;

fn compiled(input: &str) -> Writer {
    let mut reader = Reader::from_text(input);
    reader.parse_all_lines();

    let mut writer = Writer::new();
    writer.process_lines(&reader).unwrap();
    writer
}

fn offset_of(writer: &Writer, name: &str) -> usize {
    writer.symbols.get(&name.as_bytes().to_vec()).unwrap()
}

#[test]
fn test_writer_print_one() {
    let writer = compiled("Hello world");

    assert_eq!(writer.output, "P;Hello world".as_bytes());
}

#[test]
fn test_writer_print_two() {
    let writer = compiled(
        r#"Hello world
Ciao mondo"#,
    );

    assert_eq!(writer.output, "P;Hello world|P;Ciao mondo".as_bytes());
}

#[test]
fn test_writer_print_three() {
    let writer = compiled(
        r#"Hello world
Ciao mondo
Bonjour monde"#,
    );

    assert_eq!(writer.output, "P;Hello world|P;Ciao mondo|P;Bonjour monde".as_bytes());
}

#[test]
fn test_writer_question_fake_jump_one() {
    let mut writer = compiled("+ [Hello world] -> example");

    writer.symbols.insert("example".as_bytes().to_vec(), 1);

    assert_eq!(writer.output, "Q;Hello world;00000".as_bytes());
}

#[test]
fn test_writer_question_fake_jump_two() {
    let mut writer = compiled(
        "+ [Hello world] -> example
+ [Ciao mondo] -> sample",
    );

    writer.symbols.insert("example".as_bytes().to_vec(), 1);
    writer.symbols.insert("sample".as_bytes().to_vec(), 2);

    assert_eq!(writer.output, "Q;Hello world;00000;Ciao mondo;00000".as_bytes());
}

#[test]
fn test_writer_question_fake_jump_and_print() {
    let mut writer = compiled(
        "+ [Hello world] -> example
+ [Ciao mondo] -> sample
Bonjour monde",
    );

    writer.symbols.insert("example".as_bytes().to_vec(), 1);
    writer.symbols.insert("sample".as_bytes().to_vec(), 2);

    assert_eq!(
        writer.output,
        "Q;Hello world;00000;Ciao mondo;00000|P;Bonjour monde".as_bytes()
    );
}

#[test]
fn test_writer_question_fake_jump_multiple() {
    let mut writer = compiled(
        "+ [Hello world] -> example
+ [Ciao mondo] -> sample
Bonjour monde
+ [Hello world] -> example
+ [Ciao mondo] -> sample
",
    );

    writer.symbols.insert("example".as_bytes().to_vec(), 1);
    writer.symbols.insert("sample".as_bytes().to_vec(), 2);

    assert_eq!(
        writer.output,
        "Q;Hello world;00000;Ciao mondo;00000|P;Bonjour monde|Q;Hello world;00000;Ciao mondo;00000"
            .as_bytes()
    );
}

#[test]
fn test_writer_end_one() {
    let writer = compiled("-> END");

    assert_eq!(writer.output, "E;".as_bytes());
}

#[test]
fn test_writer_end_two() {
    let writer = compiled(
        "Hello world
-> END",
    );

    assert_eq!(writer.output, "P;Hello world|E;".as_bytes());
}

#[test]
fn test_writer_bookmark_position_zero_one() {
    let writer = compiled("=== hello");

    assert_eq!(offset_of(&writer, "hello"), 0);
}

#[test]
fn test_writer_bookmark_position_zero_two() {
    let writer = compiled(
        "=== hello
=== world",
    );

    assert_eq!(offset_of(&writer, "hello"), 0);
    assert_eq!(offset_of(&writer, "world"), 0);
}

#[test]
fn test_writer_bookmark_one() {
    let writer = compiled(
        "Hello world
=== hello
Ciao mondo",
    );

    assert_eq!(writer.output, "P;Hello world|P;Ciao mondo".as_bytes());
    assert_eq!(offset_of(&writer, "hello"), 14);
}

#[test]
fn test_writer_bookmark_two() {
    let writer = compiled(
        "Hello world
=== hello
Ciao mondo
=== world
Bonjour monde",
    );

    assert_eq!(writer.output, "P;Hello world|P;Ciao mondo|P;Bonjour monde".as_bytes());
    assert_eq!(offset_of(&writer, "hello"), 14);
    assert_eq!(offset_of(&writer, "world"), 27);
}

#[test]
fn functional_test_one() {
    let mut writer = compiled(
        "Hello there

I'm a VN written in the Ink format

Do you like it?

+ [Yes, I like it!] -> like
+ [No, I do not like it] -> hate

=== like

Thank you!

-> END

=== hate

Oh, I see

-> END",
    );

    writer.replace_branch_table().unwrap();

    assert_eq!(writer.output, "P;Hello there|P;I'm a VN written in the Ink format|P;Do you like it?|Q;Yes, I like it!;00120;No, I do not like it;00136|P;Thank you!|E;|P;Oh, I see|E;".as_bytes());
}
