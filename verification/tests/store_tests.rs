use projexts::codec::{parse_shortcuts, serialize_shortcuts};
use projexts::errors::Error;
use projexts::shortcut::Shortcut;
use projexts::store::{
    add_shortcut, find_shortcut, initial_collection, list_shortcuts, remove_shortcut,
    update_shortcut,
};

fn no_canon(n: usize) -> Vec<Option<String>> {
    let mut v = Vec::new();
    for _ in 0..n {
        v.push(None);
    }
    v
}

#[test]
fn test_load_shortcuts() {
    // A fresh (or just reset) store loads as the empty collection.
    let shortcuts = initial_collection();
    assert!(shortcuts.is_empty());
    let loaded = parse_shortcuts("[]").unwrap();
    assert!(loaded.is_empty());
}

#[test]
fn test_save_shortcuts() {
    let shortcuts = vec![
        Shortcut {
            project_name: "proj1".to_string(),
            run_command: vec!["echo".to_string(), "Hello".to_string()],
        },
        Shortcut {
            project_name: "proj2".to_string(),
            run_command: vec!["echo".to_string(), "World".to_string()],
        },
    ];
    let saved = serialize_shortcuts(&shortcuts);
    let loaded = parse_shortcuts(&saved).unwrap();
    assert_eq!(loaded.len(), shortcuts.len());
    for (a, b) in shortcuts.iter().zip(loaded.iter()) {
        assert_eq!(a.project_name, b.project_name);
        assert_eq!(a.run_command, b.run_command);
    }
}

#[test]
fn test_add_shortcut() {
    let mut shortcuts = initial_collection();
    let command = vec!["echo".to_string(), "Hello".to_string()];
    let result = add_shortcut(&mut shortcuts, "proj1", command, no_canon(2));
    assert!(result.is_ok());
    if shortcuts.len() != 1 {
        panic!("Expected 1 shortcut, found {}: {:?}", shortcuts.len(), shortcuts);
    }
    assert_eq!(shortcuts[0].project_name, "proj1");
    assert_eq!(shortcuts[0].run_command, vec!["echo".to_string(), "Hello".to_string()]);
}

#[test]
fn test_remove_shortcut() {
    let mut shortcuts = initial_collection();
    let command = vec!["echo".to_string(), "Hello".to_string()];
    add_shortcut(&mut shortcuts, "proj1", command, no_canon(2)).unwrap();
    let found = remove_shortcut(&mut shortcuts, "proj1");
    assert!(found);
    assert!(shortcuts.is_empty());
}

#[test]
fn test_list_shortcuts() {
    let mut shortcuts = initial_collection();
    add_shortcut(
        &mut shortcuts,
        "proj1",
        vec!["echo".to_string(), "Hello".to_string()],
        no_canon(2),
    )
    .unwrap();
    add_shortcut(
        &mut shortcuts,
        "proj2",
        vec!["echo".to_string(), "World".to_string()],
        no_canon(2),
    )
    .unwrap();
    let listed = list_shortcuts(&shortcuts);
    assert_eq!(listed.len(), 2);
    assert_eq!(listed[0].project_name, "proj1");
    assert_eq!(listed[1].project_name, "proj2");
}

#[test]
fn test_update_shortcut() {
    let mut shortcuts = initial_collection();
    add_shortcut(
        &mut shortcuts,
        "proj1",
        vec!["echo".to_string(), "Hello".to_string()],
        no_canon(2),
    )
    .unwrap();
    let found = update_shortcut(
        &mut shortcuts,
        "proj1",
        Some(vec!["echo".to_string(), "World".to_string()]),
        no_canon(2),
    );
    assert!(found);
    assert_eq!(shortcuts[0].run_command, vec!["echo".to_string(), "World".to_string()]);
}

#[test]
fn test_add_empty_command_rejected() {
    // An empty command always fails validation, and nothing changes.
    let mut shortcuts = initial_collection();
    let result = add_shortcut(&mut shortcuts, "anything", Vec::new(), Vec::new());
    assert_eq!(result, Err(Error::ValidationError));
    assert!(shortcuts.is_empty());
}

#[test]
fn test_add_nonempty_never_fails() {
    let mut shortcuts = initial_collection();
    assert!(add_shortcut(&mut shortcuts, "a", vec!["x".to_string()], no_canon(1)).is_ok());
    assert!(add_shortcut(&mut shortcuts, "", vec!["/".to_string()], no_canon(1)).is_ok());
    assert!(add_shortcut(
        &mut shortcuts,
        "weird \"name\"",
        vec!["tok one".to_string(), String::new()],
        no_canon(2),
    )
    .is_ok());
    assert_eq!(shortcuts.len(), 3);
}

#[test]
fn test_remove_nonexistent_unchanged() {
    // Removing an unknown name reports "not found" and changes nothing.
    let mut shortcuts = initial_collection();
    add_shortcut(&mut shortcuts, "proj1", vec!["echo".to_string()], no_canon(1)).unwrap();
    let found = remove_shortcut(&mut shortcuts, "nonexistent");
    assert!(!found);
    assert_eq!(shortcuts.len(), 1);
    assert_eq!(shortcuts[0].project_name, "proj1");
    assert_eq!(shortcuts[0].run_command, vec!["echo".to_string()]);
}

#[test]
fn test_remove_duplicates_all_gone() {
    // Every entry with the name goes; the length drops by the match count.
    let mut shortcuts = initial_collection();
    add_shortcut(&mut shortcuts, "proj1", vec!["a".to_string()], no_canon(1)).unwrap();
    add_shortcut(&mut shortcuts, "proj2", vec!["b".to_string()], no_canon(1)).unwrap();
    add_shortcut(&mut shortcuts, "proj1", vec!["c".to_string()], no_canon(1)).unwrap();
    let before = shortcuts.len();
    let found = remove_shortcut(&mut shortcuts, "proj1");
    assert!(found);
    assert_eq!(shortcuts.len(), before - 2);
    assert!(find_shortcut(&shortcuts, "proj1").is_none());
    assert_eq!(shortcuts[0].project_name, "proj2");
}

#[test]
fn test_find_first_of_duplicates() {
    // Lookups resolve to the first match in storage order.
    let mut shortcuts = initial_collection();
    add_shortcut(&mut shortcuts, "proj1", vec!["first".to_string()], no_canon(1)).unwrap();
    add_shortcut(&mut shortcuts, "proj1", vec!["second".to_string()], no_canon(1)).unwrap();
    let hit = find_shortcut(&shortcuts, "proj1").unwrap();
    assert_eq!(hit.run_command, vec!["first".to_string()]);
    assert!(find_shortcut(&shortcuts, "proj3").is_none());
}

#[test]
fn test_update_none_keeps_command() {
    // update with no new command changes nothing, yet still succeeds.
    let mut shortcuts = initial_collection();
    add_shortcut(
        &mut shortcuts,
        "proj1",
        vec!["echo".to_string(), "Hello".to_string()],
        no_canon(2),
    )
    .unwrap();
    let found = update_shortcut(&mut shortcuts, "proj1", None, Vec::new());
    assert!(found);
    assert_eq!(shortcuts[0].run_command, vec!["echo".to_string(), "Hello".to_string()]);
    // Updating an unknown name reports failure and changes nothing.
    let missing =
        update_shortcut(&mut shortcuts, "proj9", Some(vec!["x".to_string()]), no_canon(1));
    assert!(!missing);
    assert_eq!(shortcuts[0].run_command, vec!["echo".to_string(), "Hello".to_string()]);
}

#[test]
fn test_update_normalizes_tokens() {
    // An update normalizes the replacement command exactly as an add does.
    let mut shortcuts = initial_collection();
    add_shortcut(&mut shortcuts, "proj1", vec!["/bin/echo".to_string()], no_canon(1)).unwrap();
    let canonical = vec![Some("/repo/src".to_string()), None];
    let found = update_shortcut(
        &mut shortcuts,
        "proj1",
        Some(vec!["src".to_string(), "/abs/kept".to_string()]),
        canonical,
    );
    assert!(found);
    assert_eq!(
        shortcuts[0].run_command,
        vec!["/repo/src".to_string(), "/abs/kept".to_string()]
    );
}

#[test]
fn test_add_normalizes_tokens() {
    // An absolute token is kept verbatim; a resolvable relative one is
    // rewritten; an unresolvable one is kept unchanged.
    let mut shortcuts = initial_collection();
    let command = vec!["/usr/bin/env".to_string(), "src".to_string(), "npm".to_string()];
    let canonical = vec![None, Some("/repo/src".to_string()), None];
    add_shortcut(&mut shortcuts, "proj1", command, canonical).unwrap();
    assert_eq!(
        shortcuts[0].run_command,
        vec!["/usr/bin/env".to_string(), "/repo/src".to_string(), "npm".to_string()]
    );
}

#[test]
fn test_reset_then_load_empty() {
    // After a reset the backing resource is gone; the next load materializes
    // the empty document and yields the empty collection.
    let shortcuts = initial_collection();
    assert!(shortcuts.is_empty());
    let document = serialize_shortcuts(&shortcuts);
    assert_eq!(document, "[]");
    let loaded = parse_shortcuts(&document).unwrap();
    assert!(loaded.is_empty());
}
