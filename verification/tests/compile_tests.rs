use vn_script::PatchError;
use vn_script::Reader;
use vn_script::Writer;

fn compiled(input: &str) -> Writer {
    let mut reader = Reader::from_text(input);
    reader.parse_all_lines();

    let mut writer = Writer::new();
    writer.process_lines(&reader).unwrap();
    writer
}

#[test]
fn test_empty_source_compiles_empty() {
    let writer = compiled("");

    assert_eq!(writer.output.len(), 0);
    assert_eq!(writer.index, 0);
    assert_eq!(writer.symbols.entries.len(), 0);
    assert_eq!(writer.branch_table.entries.len(), 0);
}

#[test]
fn test_backpatch_resolves_targets() {
    let mut writer = compiled(
        "+ [Hello world] -> example
+ [Ciao mondo] -> sample
=== example
Hello world
=== sample
Ciao mondo",
    );

    assert_eq!(
        writer.output,
        "Q;Hello world;00000;Ciao mondo;00000|P;Hello world|P;Ciao mondo".as_bytes()
    );

    writer.replace_branch_table().unwrap();

    assert_eq!(
        writer.output,
        "Q;Hello world;00037;Ciao mondo;00051|P;Hello world|P;Ciao mondo".as_bytes()
    );
    assert_eq!(writer.symbols.get(&"example".as_bytes().to_vec()), Some(37));
    assert_eq!(writer.symbols.get(&"sample".as_bytes().to_vec()), Some(51));

    // the decoded field lands exactly on the label's target content
    assert_eq!(&writer.output[37..], "P;Hello world|P;Ciao mondo".as_bytes());
    assert_eq!(&writer.output[51..], "P;Ciao mondo".as_bytes());
}

#[test]
fn test_backpatch_is_idempotent() {
    let mut writer = compiled(
        "+ [Hello world] -> example
+ [Ciao mondo] -> sample
=== example
Hello world
=== sample
Ciao mondo",
    );

    writer.replace_branch_table().unwrap();
    let first = writer.output.clone();
    writer.replace_branch_table().unwrap();

    assert_eq!(writer.output, first);
}

#[test]
fn test_unresolved_reference_reported() {
    let mut writer = compiled("+ [Hi] -> nowhere");

    assert_eq!(writer.output, "Q;Hi;00000".as_bytes());

    match writer.replace_branch_table() {
        Err(PatchError::Unresolved(u)) => {
            assert_eq!(u.len(), 1);
            assert_eq!(u[0].name, "nowhere".as_bytes());
            assert_eq!(u[0].sites, vec![5]);
        },
        other => panic!("expected an unresolved reference, got {:?}", other),
    }

    // nothing was patched
    assert_eq!(writer.output, "Q;Hi;00000".as_bytes());
}

#[test]
fn test_unresolved_references_all_collected() {
    let mut writer = compiled(
        "+ [a] -> foo
+ [b] -> bar",
    );

    match writer.replace_branch_table() {
        Err(PatchError::Unresolved(u)) => {
            assert_eq!(u.len(), 2);
            assert_eq!(u[0].name, "foo".as_bytes());
            assert_eq!(u[0].sites, vec![4]);
            assert_eq!(u[1].name, "bar".as_bytes());
            assert_eq!(u[1].sites, vec![12]);
        },
        other => panic!("expected unresolved references, got {:?}", other),
    }
}

#[test]
fn test_placeholder_overflow_reported() {
    let mut source = String::from("+ [a] -> far\n");
    source.push_str(&"x".repeat(100000));
    source.push_str("\n=== far\nend");

    let mut writer = compiled(&source);

    match writer.replace_branch_table() {
        Err(PatchError::Overflow { name, offset }) => {
            assert_eq!(name, "far".as_bytes());
            assert_eq!(offset, 100013);
        },
        other => panic!("expected a placeholder overflow, got {:?}", other),
    }

    // nothing was patched
    assert_eq!(&writer.output[4..9], "00000".as_bytes());
}

#[test]
fn test_malformed_choice_missing_prompt() {
    let mut reader = Reader::from_text("+ no brackets -> x");
    reader.parse_all_lines();

    let mut writer = Writer::new();
    match writer.process_lines(&reader) {
        Err(e) => assert_eq!(e.line, "+ no brackets -> x".as_bytes()),
        Ok(_) => panic!("expected a parse error"),
    }

    // compilation aborted with no partial output
    assert_eq!(writer.output.len(), 0);
}

#[test]
fn test_malformed_choice_missing_target() {
    let mut reader = Reader::from_text("+ [Hi] nothing follows");
    reader.parse_all_lines();

    let mut writer = Writer::new();
    assert!(writer.process_lines(&reader).is_err());
    assert_eq!(writer.output.len(), 0);
}

#[test]
fn test_unclassified_line_truncates_output() {
    let writer = compiled(
        "Hello
?junk
World",
    );

    assert_eq!(writer.output, "P;Hello|".as_bytes());
}

#[test]
fn test_bookmark_name_trimmed_of_equals_and_spaces() {
    let writer = compiled("===   hello  ===");

    assert_eq!(writer.symbols.get(&"hello".as_bytes().to_vec()), Some(0));
}

#[test]
fn test_duplicate_label_overwrites() {
    let writer = compiled(
        "=== x
Hello
=== x
World",
    );

    assert_eq!(writer.symbols.get(&"x".as_bytes().to_vec()), Some(8));
    assert_eq!(writer.symbols.entries.len(), 1);
}

#[test]
fn test_choice_prompt_stops_at_first_closing_bracket() {
    let writer = compiled("+ [a[b]c] -> t");

    assert_eq!(writer.output, "Q;a[b;00000".as_bytes());
}

#[test]
fn test_choice_target_trimmed() {
    let mut writer = compiled("+ [Hi] ->   spaced   ");

    match writer.replace_branch_table() {
        Err(PatchError::Unresolved(u)) => {
            assert_eq!(u.len(), 1);
            assert_eq!(u[0].name, "spaced".as_bytes());
        },
        other => panic!("expected an unresolved reference, got {:?}", other),
    }
}

#[test]
fn test_shared_target_patches_all_sites() {
    let mut writer = compiled(
        "+ [a] -> same
+ [b] -> same
=== same
Done",
    );

    writer.replace_branch_table().unwrap();

    // both fields hold the same resolved offset
    assert_eq!(writer.output, "Q;a;00018;b;00018|P;Done".as_bytes());
    assert_eq!(&writer.output[18..], "P;Done".as_bytes());
}
