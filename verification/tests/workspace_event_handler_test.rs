use context_loader::selection::SelectionSet;
use context_loader::workspace_event_handler::handle_workspace_opened;
use context_loader::workspace_event_handler::to_absolute;
use context_loader::workspace_event_handler::GitignoreSource;
use context_loader::workspace_event_handler::WorkspaceError;

fn listing() -> Vec<String> {
    vec![
        "src/main.rs".to_string(),
        "README.md".to_string(),
        "target/debug.log".to_string(),
    ]
}

#[test]
fn test_handle_workspace_opened_scenario() {
    let selected_none =
        handle_workspace_opened("/ws".to_string(), listing(), GitignoreSource::Missing).unwrap();
    assert!(selected_none.is_empty(), "Expected empty set without .gitignore");

    let lines = vec!["target/".to_string(), "*.log".to_string()];
    let selected_with =
        handle_workspace_opened("/ws".to_string(), listing(), GitignoreSource::Lines(lines))
            .unwrap();
    assert_eq!(selected_with.len(), 2, "Expected 2 files selected");
    assert!(selected_with.contains("src/main.rs"));
    assert!(selected_with.contains("README.md"));
    assert!(!selected_with.contains("target/debug.log"));
    assert!(!selected_with.contains(".git/config"));
}

#[test]
fn gitignore_default_deny() {
    let files = vec!["a.txt".to_string(), "b.txt".to_string()];
    let selected =
        handle_workspace_opened("/ws".to_string(), files, GitignoreSource::Missing).unwrap();
    assert!(selected.is_empty());
    assert_eq!(selected.len(), 0);
}

#[test]
fn gitignore_filtering() {
    let files = vec!["src/main.rs".to_string(), "build/out.o".to_string()];
    let lines = vec!["build/".to_string()];
    let selected =
        handle_workspace_opened("/ws".to_string(), files, GitignoreSource::Lines(lines)).unwrap();
    assert_eq!(selected.to_vec(), vec!["src/main.rs".to_string()]);
}

#[test]
fn unreadable_gitignore_is_an_error() {
    let r = handle_workspace_opened("/ws".to_string(), listing(), GitignoreSource::Unreadable);
    assert!(matches!(r, Err(WorkspaceError::GitignoreUnreadable)));
}

#[test]
fn comments_and_blank_lines_do_not_count() {
    let lines = vec![
        "# build output".to_string(),
        "".to_string(),
        "  target/  ".to_string(),
        "!target/keep.txt".to_string(),
    ];
    let files = vec![
        "target/a.o".to_string(),
        "target/keep.txt".to_string(),
        "#notes".to_string(),
    ];
    let selected =
        handle_workspace_opened("/ws".to_string(), files, GitignoreSource::Lines(lines)).unwrap();
    assert!(!selected.contains("target/a.o"));
    assert!(selected.contains("target/keep.txt"));
    assert!(selected.contains("#notes"));
}

#[test]
fn relative_paths_become_absolute() {
    let mut relative = SelectionSet::new();
    relative.insert("src/main.rs".to_string());
    relative.insert("README.md".to_string());
    let absolute = to_absolute("/ws", &relative);
    assert_eq!(absolute.len(), 2);
    assert!(absolute.contains("/ws/src/main.rs"));
    assert!(absolute.contains("/ws/README.md"));
    assert!(!absolute.contains("src/main.rs"));
}

#[test]
fn rules_without_patterns_keep_every_file() {
    for lines in [vec![], vec!["# nothing".to_string(), "   ".to_string()]] {
        let selected =
            handle_workspace_opened("/ws".to_string(), listing(), GitignoreSource::Lines(lines))
                .unwrap();
        assert_eq!(selected.len(), 3);
        assert!(selected.contains("target/debug.log"));
    }
}
