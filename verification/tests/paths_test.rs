use context_loader::paths::file_name_of;
use context_loader::paths::has_root;
use context_loader::paths::join;
use context_loader::paths::key_precedes;
use context_loader::paths::parent_of;
use context_loader::paths::relative_to;
use context_loader::paths::sort_key;
use context_loader::paths::split_all_components;
use context_loader::paths::split_components;
use context_loader::paths::starts_with;
use context_loader::selection::SelectionSet;
use context_loader::text::decimal_chars;
use context_loader::text::trim;

fn some(s: &str) -> Option<String> {
    Some(s.to_string())
}

#[test]
fn components_of_a_path() {
    assert_eq!(split_components("/a//b/"), vec!["a", "b"]);
    assert_eq!(split_components("a/b.txt"), vec!["a", "b.txt"]);
    assert_eq!(split_components(""), Vec::<String>::new());
    assert_eq!(split_components("///"), Vec::<String>::new());
    assert_eq!(split_components("é/日本"), vec!["é", "日本"]);
    assert_eq!(split_all_components("/a/b"), vec!["/", "a", "b"]);
    assert_eq!(split_all_components("a/b"), vec!["a", "b"]);
    assert!(has_root("/a"));
    assert!(!has_root("a/"));
    assert!(!has_root(""));
}

#[test]
fn joining_paths() {
    assert_eq!(join("/ws", "src"), "/ws/src");
    assert_eq!(join("/ws/", "src"), "/ws/src");
    assert_eq!(join("", "src"), "src");
    assert_eq!(join("/ws", "/abs"), "/abs");
    assert_eq!(join("/ws", ""), "/ws/");
    assert_eq!(join("/", "a"), "/a");
}

#[test]
fn relative_paths_and_prefixes() {
    assert_eq!(relative_to("/ws/src/main.rs", "/ws"), some("src/main.rs"));
    assert_eq!(relative_to("/ws//src/main.rs", "/ws/"), some("src/main.rs"));
    assert_eq!(relative_to("/ws", "/ws"), some(""));
    assert_eq!(relative_to("/wsx/a", "/ws"), None);
    assert_eq!(relative_to("a/b", ""), some("a/b"));
    assert_eq!(relative_to("/a/b", ""), some("/a/b"));
    assert_eq!(relative_to("a/b", "/"), None);
    assert_eq!(relative_to("/a/b", "/"), some("a/b"));
    assert_eq!(relative_to("a/b/c", "a/b"), some("c"));
    assert!(starts_with("/ws/src", "/ws"));
    assert!(starts_with("/ws/src", ""));
    assert!(!starts_with("/wsx", "/ws"));
    assert!(!starts_with("ws/src", "/ws"));
}

#[test]
fn parents_and_file_names() {
    assert_eq!(parent_of("/a/b"), some("/a"));
    assert_eq!(parent_of("/a"), some("/"));
    assert_eq!(parent_of("a"), some(""));
    assert_eq!(parent_of("a/b/"), some("a"));
    assert_eq!(parent_of("a//b"), some("a"));
    assert_eq!(parent_of("/"), None);
    assert_eq!(parent_of(""), None);
    assert_eq!(file_name_of("/a/b.txt"), some("b.txt"));
    assert_eq!(file_name_of("b.txt"), some("b.txt"));
    assert_eq!(file_name_of("/a/b/"), some("b"));
    assert_eq!(file_name_of("/"), None);
    assert_eq!(file_name_of(".."), None);
    assert_eq!(file_name_of("."), None);
    assert_eq!(file_name_of(".hidden"), some(".hidden"));
}

#[test]
fn the_order_of_paths() {
    let le = |a: &str, b: &str| key_precedes(&sort_key(a), &sort_key(b));
    assert!(le("a/b", "a-b"));
    assert!(!le("a-b", "a/b"));
    assert!(le("a", "a/b"));
    assert!(le("/z", "a"));
    assert!(!le("a", "/z"));
    assert!(le("a//b", "a/b"));
    assert!(le("a/b", "a//b"));
    assert!(le("", "a"));
    assert!(le("B", "a"));
    assert!(le("a/é", "a/日"));
}

#[test]
fn trimming_and_digits() {
    assert_eq!(trim("  a b \t\n"), "a b");
    assert_eq!(trim(""), "");
    assert_eq!(trim(" \u{2028} "), "");
    assert_eq!(trim("x"), "x");
    assert_eq!(decimal_chars(0), vec!['0']);
    assert_eq!(decimal_chars(907), vec!['9', '0', '7']);
    assert_eq!(decimal_chars(u64::MAX).iter().collect::<String>(), "18446744073709551615");
}

#[test]
fn the_selection_is_a_set() {
    let mut set = SelectionSet::new();
    assert!(set.is_empty());
    assert!(set.insert("a".to_string()));
    assert!(!set.insert("a".to_string()));
    assert!(set.insert("b".to_string()));
    assert_eq!(set.len(), 2);
    assert!(set.contains("a"));
    assert!(!set.contains("c"));
    assert!(set.remove("a"));
    assert!(!set.remove("a"));
    assert_eq!(set.to_vec(), vec!["b".to_string()]);
    set.insert_all(&vec!["c".to_string(), "b".to_string(), "c".to_string()]);
    assert_eq!(set.len(), 2);
    set.remove_all(&vec!["b".to_string(), "x".to_string()]);
    assert_eq!(set.to_vec(), vec!["c".to_string()]);
    set.clear();
    assert!(set.is_empty());
}
