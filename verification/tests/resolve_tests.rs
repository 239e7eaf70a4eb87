use projexts::errors::Error;
use projexts::resolve::{
    dir_or_parent, files_to_open, git_push_commands, is_absolute, normalize_token,
    opener_program, path_parent, resolve_project_dir, resolve_run, Platform,
};
use projexts::shortcut::Shortcut;

fn shortcut(name: &str, command: &[&str]) -> Shortcut {
    Shortcut {
        project_name: name.to_string(),
        run_command: command.iter().map(|t| t.to_string()).collect(),
    }
}

#[test]
fn test_open_project_folder() {
    // "." is a directory, so the folder to open is "." itself.
    let sc = shortcut("proj1", &["."]);
    let dir = resolve_project_dir(&sc, true).unwrap();
    assert_eq!(dir, ".");
}

#[test]
fn test_run_shortcut() {
    let sc = shortcut("proj1", &["echo", "Hello"]);
    let inv = resolve_run(&sc, Vec::new()).unwrap();
    assert_eq!(inv.program, "echo");
    assert_eq!(inv.args, vec!["Hello".to_string()]);
}

#[test]
fn test_open_file_from_shortcut() {
    // Only the tokens the filesystem reports as regular files are opened.
    let sc = shortcut("proj1", &["Cargo.toml"]);
    let files = files_to_open(&sc.run_command, &vec![true]);
    assert_eq!(files, vec!["Cargo.toml".to_string()]);
    assert_eq!(opener_program(Platform::Linux).unwrap(), "xdg-open");
}

#[test]
fn test_git_push() {
    let sc = shortcut("proj1", &["."]);
    let dir = resolve_project_dir(&sc, true).unwrap();
    assert_eq!(dir, ".");
    let commands = git_push_commands("Initial commit");
    assert_eq!(commands.len(), 3);
    assert_eq!(commands[0].program, "git");
    assert_eq!(commands[0].args, vec!["add".to_string(), ".".to_string()]);
    assert_eq!(commands[1].program, "git");
    assert_eq!(
        commands[1].args,
        vec!["commit".to_string(), "-m".to_string(), "Initial commit".to_string()]
    );
    assert_eq!(commands[2].program, "git");
    assert_eq!(commands[2].args, vec!["push".to_string()]);
}

#[test]
fn test_run_build_scenario() {
    // add "build" -> ["echo", "hi"], then run it with no extra arguments:
    // the invocation is exactly `echo hi`.
    let sc = shortcut("build", &["echo", "hi"]);
    let inv = resolve_run(&sc, Vec::new()).unwrap();
    assert_eq!(inv.program, "echo");
    assert_eq!(inv.args, vec!["hi".to_string()]);
}

#[test]
fn test_run_empty_command_error() {
    let sc = shortcut("empty", &[]);
    let r = resolve_run(&sc, Vec::new());
    assert!(matches!(r, Err(Error::ExecutionError)));
}

#[test]
fn test_run_extra_args_order() {
    // Stored arguments come first, extras after, in order.
    let sc = shortcut("proj", &["cargo", "run", "--release"]);
    let extras = vec!["--".to_string(), "input.txt".to_string()];
    let inv = resolve_run(&sc, extras).unwrap();
    assert_eq!(inv.program, "cargo");
    assert_eq!(
        inv.args,
        vec![
            "run".to_string(),
            "--release".to_string(),
            "--".to_string(),
            "input.txt".to_string(),
        ]
    );
}

#[test]
fn test_path_parent_cases() {
    assert_eq!(path_parent("a/b"), Some("a".to_string()));
    assert_eq!(path_parent("/a/b"), Some("/a".to_string()));
    assert_eq!(path_parent("/a"), Some("/".to_string()));
    assert_eq!(path_parent("foo"), Some("".to_string()));
    assert_eq!(path_parent("a//b"), Some("a".to_string()));
    assert_eq!(path_parent("a/b/"), Some("a".to_string()));
    assert_eq!(path_parent("/"), None);
    assert_eq!(path_parent(""), None);
}

#[test]
fn test_dir_or_parent_file() {
    // A token that is not itself a directory resolves to its parent.
    assert_eq!(dir_or_parent("/home/user/project/run.sh", false).unwrap(), "/home/user/project");
    assert_eq!(dir_or_parent("/home/user/project", true).unwrap(), "/home/user/project");
    assert!(matches!(dir_or_parent("/", false), Err(Error::NotFoundError)));
}

#[test]
fn test_resolve_project_dir_empty_command() {
    let sc = shortcut("empty", &[]);
    assert!(matches!(resolve_project_dir(&sc, false), Err(Error::NotFoundError)));
}

#[test]
fn test_opener_programs() {
    assert_eq!(opener_program(Platform::Windows).unwrap(), "explorer");
    assert_eq!(opener_program(Platform::MacOs).unwrap(), "open");
    assert_eq!(opener_program(Platform::Linux).unwrap(), "xdg-open");
    assert!(matches!(opener_program(Platform::Other), Err(Error::UnsupportedPlatformError)));
}

#[test]
fn test_files_to_open_none_match() {
    let command = vec!["echo".to_string(), "Hello".to_string()];
    let flags = vec![false, false];
    let files = files_to_open(&command, &flags);
    assert!(files.is_empty());
    let mixed = files_to_open(&command, &vec![false, true]);
    assert_eq!(mixed, vec!["Hello".to_string()]);
}

#[test]
fn test_normalize_absolute_unchanged() {
    // Normalizing an absolute path keeps it; doing it twice changes nothing.
    assert!(is_absolute("/usr/bin/ls"));
    let once = normalize_token(&"/usr/bin/ls".to_string(), Some(&"/other".to_string()));
    assert_eq!(once, "/usr/bin/ls");
    let twice = normalize_token(&once, None);
    assert_eq!(twice, once);
}

#[test]
fn test_normalize_relative() {
    // A relative token the filesystem resolves is rewritten to its
    // canonical form; an unresolvable one is kept as it is.
    assert!(!is_absolute("src"));
    let resolved = normalize_token(&"src".to_string(), Some(&"/repo/src".to_string()));
    assert_eq!(resolved, "/repo/src");
    // Normalizing the (absolute) result again is a no-op.
    let again = normalize_token(&resolved, None);
    assert_eq!(again, "/repo/src");
    let kept = normalize_token(&"npm".to_string(), None);
    assert_eq!(kept, "npm");
}
