use template_engine::sql::{
    is_whitespace, requested_sources, split_statements, sse_event, StatementCollection,
    StatementFile,
};

fn file(name: &str, content: &str) -> StatementFile {
    StatementFile { name: name.to_string(), content: content.to_string() }
}

fn reference_split(content: &str) -> Vec<String> {
    content.split(';').map(|s| s.trim().to_string()).filter(|s| !s.is_empty()).collect()
}

#[test]
fn statements_are_split_at_semicolons_and_trimmed() {
    assert_eq!(
        split_statements("select 1;\n  select 2 ;\n\n;select 3"),
        vec!["select 1", "select 2", "select 3"]
    );
}

#[test]
fn empty_statements_are_left_out() {
    assert_eq!(split_statements(""), Vec::<String>::new());
    assert_eq!(split_statements(";"), Vec::<String>::new());
    assert_eq!(split_statements(" ; ;\t;\n"), Vec::<String>::new());
    assert_eq!(split_statements(";;a;;"), vec!["a"]);
}

#[test]
fn a_text_without_semicolon_is_one_statement() {
    assert_eq!(split_statements("  select * from t  "), vec!["select * from t"]);
}

#[test]
fn inner_white_space_is_kept() {
    assert_eq!(split_statements("a  b\n c ; d\te"), vec!["a  b\n c", "d\te"]);
}

#[test]
fn splitting_agrees_with_split_trim_and_filter() {
    for content in [
        "",
        ";",
        "a",
        "a;",
        ";a",
        " a ; b ",
        "\u{a0}a\u{2003};\u{3000}b\u{85}",
        "select 1;\r\nselect 2;\r\n",
        "x;;y;;;z",
        "caf\u{e9} ; \u{1f600} ;",
        "   ",
        "\u{200b}a\u{200b};b",
        "a\u{feff};b",
    ] {
        assert_eq!(split_statements(content), reference_split(content), "{:?}", content);
    }
}

#[test]
fn white_space_is_the_unicode_property() {
    for code in 0..=0x10ffffu32 {
        if let Some(c) = char::from_u32(code) {
            assert_eq!(is_whitespace(c), c.is_whitespace(), "U+{:04X}", code);
        }
    }
}

#[test]
fn a_new_statement_collection_is_empty() {
    let statements = StatementCollection::new("sql".to_string());
    assert_eq!(statements.cache_key(), 0);
    assert_eq!(statements.directory(), "sql");
    assert!(statements.get(&"a.sql".to_string()).is_none());
    assert!(!statements.check(0));
    assert!(statements.check(7));
}

#[test]
fn a_refresh_splits_every_file() {
    let mut statements = StatementCollection::new("sql".to_string());
    let files = vec![file("a.sql", "select 1; select 2;"), file("b.sql", "select 3")];
    statements.recompile(5, &files);
    assert_eq!(statements.cache_key(), 5);
    assert!(!statements.check(5));
    assert_eq!(
        statements.get(&"a.sql".to_string()),
        Some(&vec!["select 1".to_string(), "select 2".to_string()])
    );
    assert_eq!(statements.get(&"b.sql".to_string()), Some(&vec!["select 3".to_string()]));
    assert_eq!(statements.get(&"c.sql".to_string()), None);
}

#[test]
fn a_refresh_with_the_stored_digest_keeps_the_statements() {
    let mut statements = StatementCollection::new("sql".to_string());
    statements.recompile(5, &vec![file("a.sql", "select 1")]);
    statements.recompile(5, &vec![file("a.sql", "select 2"), file("b.sql", "select 3")]);
    assert_eq!(statements.get(&"a.sql".to_string()), Some(&vec!["select 1".to_string()]));
    assert_eq!(statements.get(&"b.sql".to_string()), None);
    statements.recompile(6, &vec![file("b.sql", "select 3")]);
    assert_eq!(statements.cache_key(), 6);
    assert_eq!(statements.get(&"a.sql".to_string()), None);
    assert_eq!(statements.get(&"b.sql".to_string()), Some(&vec!["select 3".to_string()]));
}

#[test]
fn prepare_statements_replaces_the_statements_and_keeps_the_digest() {
    let mut statements = StatementCollection::new("sql".to_string());
    statements.recompile(5, &vec![file("a.sql", "select 1")]);
    statements.prepare_statements(&vec![file("b.sql", "x;y"), file("b.sql", "z")]);
    assert_eq!(statements.cache_key(), 5);
    assert_eq!(statements.get(&"a.sql".to_string()), None);
    assert_eq!(statements.get(&"b.sql".to_string()), Some(&vec!["z".to_string()]));
}

#[test]
fn source_parameters_are_picked_in_order() {
    let params = vec![
        ("source".to_string(), "a.sql".to_string()),
        ("limit".to_string(), "3".to_string()),
        ("source".to_string(), "b.sql".to_string()),
        ("Source".to_string(), "c.sql".to_string()),
        ("source".to_string(), "a.sql".to_string()),
    ];
    assert_eq!(requested_sources(&params), vec!["a.sql", "b.sql", "a.sql"]);
    assert_eq!(requested_sources(&vec![]), Vec::<String>::new());
}

#[test]
fn an_event_is_framed_by_name_and_data() {
    assert_eq!(sse_event("a.sql", "{\"n\":1}"), "event: a.sql\ndata: {\"n\":1}\n\n");
    assert_eq!(sse_event("", ""), "event: \ndata: \n\n");
}
