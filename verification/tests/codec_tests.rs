use projexts::codec::{parse_shortcuts, serialize_shortcuts};
use projexts::errors::Error;
use projexts::shortcut::Shortcut;

fn sample() -> Vec<Shortcut> {
    vec![Shortcut {
        project_name: "proj1".to_string(),
        run_command: vec!["echo".to_string(), "Hello".to_string()],
    }]
}

#[test]
fn test_serialize_exact_form() {
    let document = serialize_shortcuts(&sample());
    assert_eq!(
        document,
        "[{\"project_name\":\"proj1\",\"run_command\":[\"echo\",\"Hello\"]}]"
    );
    let empty: Vec<Shortcut> = Vec::new();
    assert_eq!(serialize_shortcuts(&empty), "[]");
}

#[test]
fn test_parse_pretty_document() {
    // Blank space between structural tokens is accepted.
    let document = "[\n  {\"project_name\": \"proj1\",\n   \"run_command\": [\n     \"echo\",\n     \"Hello\"\n   ]}\n]\n";
    let loaded = parse_shortcuts(document).unwrap();
    assert_eq!(loaded.len(), 1);
    assert_eq!(loaded[0].project_name, "proj1");
    assert_eq!(loaded[0].run_command, vec!["echo".to_string(), "Hello".to_string()]);
}

#[test]
fn test_escape_round_trip() {
    let shortcuts = vec![Shortcut {
        project_name: "has \"quotes\" and \\slashes\\".to_string(),
        run_command: vec!["line\nbreak".to_string(), "tab\there".to_string(), "cr\rend".to_string()],
    }];
    let document = serialize_shortcuts(&shortcuts);
    assert_eq!(
        document,
        "[{\"project_name\":\"has \\\"quotes\\\" and \\\\slashes\\\\\",\"run_command\":[\"line\\nbreak\",\"tab\\there\",\"cr\\rend\"]}]"
    );
    let loaded = parse_shortcuts(&document).unwrap();
    assert_eq!(loaded.len(), 1);
    assert_eq!(loaded[0].project_name, shortcuts[0].project_name);
    assert_eq!(loaded[0].run_command, shortcuts[0].run_command);
}

#[test]
fn test_round_trip_many() {
    let shortcuts = vec![
        Shortcut { project_name: String::new(), run_command: Vec::new() },
        Shortcut {
            project_name: "p".to_string(),
            run_command: vec![String::new(), " ".to_string()],
        },
        Shortcut {
            project_name: "unicode \u{e9}\u{4e16}".to_string(),
            run_command: vec!["caf\u{e9}".to_string()],
        },
    ];
    let loaded = parse_shortcuts(&serialize_shortcuts(&shortcuts)).unwrap();
    assert_eq!(loaded.len(), shortcuts.len());
    for (a, b) in shortcuts.iter().zip(loaded.iter()) {
        assert_eq!(a.project_name, b.project_name);
        assert_eq!(a.run_command, b.run_command);
    }
}

#[test]
fn test_parse_malformed_inputs() {
    let bad = [
        "",
        "[",
        "]",
        "{",
        "[{]",
        "[{}]",
        "[{\"project_name\":\"a\"}]",
        "[{\"run_command\":[],\"project_name\":\"a\"}]",
        "[{\"project_name\":\"a\",\"run_command\":[}]",
        "[{\"project_name\":\"a\",\"run_command\":[\"x\"]}",
        "[{\"project_name\":\"a\",\"run_command\":[\"x\\q\"]}]",
        "not json at all",
        "[,]",
    ];
    for document in bad.iter() {
        assert!(matches!(parse_shortcuts(document), Err(Error::StorageError)));
    }
}

#[test]
fn test_parse_trailing_junk() {
    let good = "[{\"project_name\":\"a\",\"run_command\":[\"x\"]}]";
    assert!(parse_shortcuts(good).is_ok());
    let with_junk = "[{\"project_name\":\"a\",\"run_command\":[\"x\"]}] extra";
    assert!(matches!(parse_shortcuts(with_junk), Err(Error::StorageError)));
}
