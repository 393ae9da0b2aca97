use context_loader::gitignore_handler::check_for_gitignore;
use context_loader::gitignore_handler::gitignore_file_path;
use context_loader::gitignore_handler::is_file_ignored;
use context_loader::gitignore_handler::is_matchable_path;
use context_loader::gitignore_handler::is_plain_relative_path;
use context_loader::gitignore_handler::preprocess_gitignore_lines;
use context_loader::gitignore_handler::read_gitignore_patterns;

#[test]
fn test_preprocess_gitignore_lines_basic() {
    let raw_lines = vec![
        "  node_modules/  ".to_string(),
        "*.log".to_string(),
        " ".to_string(),
        "# This is a comment".to_string(),
        "build/".to_string(),
        "   # Another comment with leading spaces".to_string(),
        "another/pattern # with trailing comment".to_string(),
        "!important_file.txt".to_string(),
        "trailing_space   ".to_string(),
    ];
    let processed = preprocess_gitignore_lines(raw_lines);
    assert_eq!(
        processed,
        vec![
            "node_modules/".to_string(),
            "*.log".to_string(),
            "build/".to_string(),
            "another/pattern # with trailing comment".to_string(),
            "!important_file.txt".to_string(),
            "trailing_space".to_string(),
        ]
    );
}

#[test]
fn test_preprocess_gitignore_lines_empty_input() {
    let raw_lines: Vec<String> = vec![];
    let processed = preprocess_gitignore_lines(raw_lines);
    assert!(processed.is_empty());
}

#[test]
fn test_preprocess_gitignore_lines_all_comments_or_empty() {
    let raw_lines = vec![
        "# comment 1".to_string(),
        "   ".to_string(),
        " # comment 2".to_string(),
        "\t# comment 3 with tab".to_string(),
    ];
    let processed = preprocess_gitignore_lines(raw_lines);
    assert!(processed.is_empty());
}

#[test]
fn test_preprocess_gitignore_lines_no_changes_needed() {
    let raw_lines = vec!["src/".to_string(), "*.o".to_string(), "a/b/c".to_string()];
    let processed = preprocess_gitignore_lines(raw_lines.clone());
    assert_eq!(processed, raw_lines);
}

#[test]
fn test_preprocess_gitignore_line_with_hash_not_at_start() {
    let raw_lines = vec!["file#withhash.txt".to_string()];
    let processed = preprocess_gitignore_lines(raw_lines);
    assert_eq!(processed, vec!["file#withhash.txt".to_string()]);
}

#[test]
fn preprocess_trims_unicode_whitespace() {
    let raw_lines = vec!["\u{2003}*.tmp\u{00A0}".to_string(), "\u{3000}".to_string()];
    let processed = preprocess_gitignore_lines(raw_lines);
    assert_eq!(processed, vec!["*.tmp".to_string()]);
}

#[test]
fn gitignore_path_is_under_the_root() {
    assert_eq!(gitignore_file_path("/ws"), "/ws/.gitignore");
    assert_eq!(gitignore_file_path("/ws/"), "/ws/.gitignore");
    assert_eq!(check_for_gitignore("/ws", true), Some("/ws/.gitignore".to_string()));
    assert_eq!(check_for_gitignore("/ws", false), None);
}

fn test_is_ignored_case(path_str: &str, patterns: &[&str], expected: bool, case_name: &str) {
    let workspace_root = "/tmp/workspace_under_test";
    let processed_patterns_vec: Vec<String> = patterns.iter().map(|s| s.to_string()).collect();
    assert!(is_matchable_path(workspace_root, path_str));
    let actual = is_file_ignored(
        path_str,
        &processed_patterns_vec,
        workspace_root,
    );
    assert_eq!(
        actual, expected,
        "Test failed for [{}]: path '{}' with patterns {:?}. Expected {}, got {}",
        case_name, path_str, patterns, expected, actual
    );
}

#[test]
fn test_is_file_ignored_simple_file_match() {
    test_is_ignored_case("file.log", &["*.log"], true, "simple_log");
    test_is_ignored_case("file.txt", &["*.log"], false, "simple_txt_no_match");
    test_is_ignored_case("file.log", &["file.log"], true, "exact_file_log");
    test_is_ignored_case("sub/file.log", &["file.log"], true, "exact_file_log_in_subdir");
    test_is_ignored_case("sub/file.log", &["sub/file.log"], true, "exact_path_in_subdir");
}

#[test]
fn test_is_file_ignored_directory_match() {
    test_is_ignored_case("build/output.txt", &["build/"], true, "dir_match_file_inside");
    test_is_ignored_case("logs/errors.txt", &["logs/"], true, "logs_dir_file_inside");
    test_is_ignored_case("src/main.rs", &["build/"], false, "dir_no_match");
    test_is_ignored_case("output/file.txt", &["output"], true, "implicit_dir_match_output");
    test_is_ignored_case("other_output/file.txt", &["output"], false, "implicit_dir_no_match_other");
}

#[test]
fn test_is_file_ignored_wildcard() {
    test_is_ignored_case("temp.tmp", &["*.tmp"], true, "wildcard_tmp");
    test_is_ignored_case("src/temp.tmp", &["*.tmp"], true, "wildcard_in_subdir_tmp");
    test_is_ignored_case("data.txt", &["d*a.txt"], true, "wildcard_middle");
    test_is_ignored_case("src/data.txt", &["d*a.txt"], true, "wildcard_middle_subdir");
}

#[test]
fn test_is_file_ignored_anchored() {
    test_is_ignored_case("root.file", &["/root.file"], true, "anchored_match");
    test_is_ignored_case("src/root.file", &["/root.file"], false, "anchored_no_match_subdir");
    test_is_ignored_case("src/another.file", &["another.file"], true, "non_anchored_match_subdir");
    test_is_ignored_case("another.file", &["another.file"], true, "non_anchored_match_root");
}

#[test]
fn test_is_file_ignored_path_specific() {
    test_is_ignored_case("docs/README.md", &["docs/README.md"], true, "path_specific_match");
    test_is_ignored_case("README.md", &["docs/README.md"], false, "path_specific_no_match_root");
    test_is_ignored_case(
        "other/docs/README.md",
        &["docs/README.md"],
        false,
        "path_specific_no_match_elsewhere",
    );
}

#[test]
fn test_is_file_ignored_negation() {
    test_is_ignored_case("important.md", &["*.md", "!important.md"], false, "negation_target");
    test_is_ignored_case("other.md", &["*.md", "!important.md"], true, "negation_other_md");
    test_is_ignored_case("data.txt", &["*.md", "!important.md"], false, "negation_no_match_txt");
    test_is_ignored_case("important.md", &["!important.md", "*.md"], true, "negation_order_matters1");
    test_is_ignored_case(
        "foo/file.txt",
        &["foo/", "!foo/file.txt"],
        false,
        "negation_specific_file_in_ignored_dir",
    );
    test_is_ignored_case(
        "foo/other.txt",
        &["foo/", "!foo/file.txt"],
        true,
        "negation_other_file_in_ignored_dir",
    );
}

#[test]
fn test_is_file_ignored_globstar() {
    test_is_ignored_case("foo/bar.txt", &["foo/**/bar.txt"], true, "globstar_simple");
    test_is_ignored_case("foo/a/b/bar.txt", &["foo/**/bar.txt"], true, "globstar_deep");
    test_is_ignored_case("foo/a/b/other.txt", &["foo/**/bar.txt"], false, "globstar_no_match");
    test_is_ignored_case("foo/baz/bar.config", &["foo/**/bar.*"], true, "globstar_with_wildcard_ext");
    test_is_ignored_case("deep/logs/error.log", &["**/logs"], true, "globstar_dir_match1");
    test_is_ignored_case("deep/logs/error.log", &["**/logs/"], true, "globstar_dir_match2");
    test_is_ignored_case("other/file.txt", &["**/logs"], false, "globstar_dir_no_match");
    test_is_ignored_case("logs/error.log", &["**/logs/"], true, "globstar_dir_match_root_logs");
}

#[test]
fn test_is_file_ignored_precedence() {
    test_is_ignored_case("debug.log", &["*.log", "!debug.log"], false, "precedence_negate");
    test_is_ignored_case("debug.log", &["!debug.log", "*.log"], true, "precedence_ignore_after_negate");
    test_is_ignored_case(
        "foo/debug.log",
        &["*.log", "!foo/debug.log", "foo/*"],
        true,
        "precedence_complex1",
    );
    test_is_ignored_case("foo/debug.log", &["foo/*", "!foo/debug.log"], false, "precedence_complex2");
}

#[test]
fn test_is_file_ignored_files_in_ignored_dir() {
    test_is_ignored_case("build/app.exe", &["build/"], true, "file_in_ignored_dir");
    test_is_ignored_case("build/subdir/data", &["build/"], true, "nested_file_in_ignored_dir");
}

#[test]
fn test_is_file_ignored_negated_file_in_ignored_dir() {
    test_is_ignored_case(
        "build/special.dll",
        &["build/", "!build/special.dll"],
        false,
        "negated_file_in_ignored_dir",
    );
    test_is_ignored_case(
        "build/other.dll",
        &["build/", "!build/special.dll"],
        true,
        "other_file_in_ignored_dir_still_ignored",
    );
}

#[test]
fn test_is_file_ignored_unicode_paths_and_patterns() {
    test_is_ignored_case("résumé.pdf", &["*.pdf"], true, "unicode_filename_pdf");
    test_is_ignored_case("Фото/image.jpg", &["Фото/"], true, "unicode_dirname_photo");
    test_is_ignored_case("你好世界.txt", &["你好世界.txt"], true, "unicode_exact_match");
    test_is_ignored_case("café/menu.txt", &["café/*"], true, "unicode_pattern_wildcard");
}

#[test]
fn a_pattern_that_is_no_glob_is_passed_over() {
    test_is_ignored_case("a.log", &["[z-a]", "*.log"], true, "bad_glob_then_good");
    test_is_ignored_case("a.txt", &["[z-a]", "*.log"], false, "bad_glob_no_match");
}

#[test]
fn matchable_paths() {
    assert!(is_matchable_path("/ws", "src/main.rs"));
    assert!(is_matchable_path("/ws/", "src/main.rs"));
    assert!(is_matchable_path("", "src/main.rs"));
    assert!(is_matchable_path(".", "src/main.rs"));
    assert!(is_matchable_path("./ws", "a"));
    assert!(is_matchable_path("/ws", "/ws/a"));
    assert!(!is_matchable_path("/ws", "/elsewhere/a"));
    assert!(!is_matchable_path("", ".///a"));
    assert!(is_plain_relative_path("src/main.rs"));
    assert!(is_plain_relative_path(""));
    assert!(!is_plain_relative_path("/src"));
    assert!(!is_plain_relative_path("./src"));
}

#[test]
fn every_matchable_path_is_matched_without_panic() {
    let roots = ["", ".", "./", "./.", "/", "/ws", "/ws/", "ws", "./ws", "././ws", "..", "ws//"];
    let paths = ["", "a", "a/b", "./a", ".//a", ".///a", "/a", "/ws/a", "//a", "..", "../a", ".a", "a/", "ws", "ws/a"];
    let patterns = vec!["*.log".to_string(), "a".to_string()];
    for root in roots.iter() {
        for path in paths.iter() {
            if is_matchable_path(root, path) {
                let _ = is_file_ignored(path, &patterns, root);
            }
        }
    }
}

#[test]
fn test_read_gitignore_patterns_valid_file() {
    let patterns = read_gitignore_patterns("node_modules/\n*.log\n\n # A comment\nbuild/\n");
    assert_eq!(patterns.len(), 5);
    assert_eq!(patterns[0], "node_modules/");
    assert_eq!(patterns[1], "*.log");
    assert_eq!(patterns[2], "");
    assert_eq!(patterns[3], " # A comment");
    assert_eq!(patterns[4], "build/");
}

#[test]
fn test_read_gitignore_patterns_empty_file() {
    let patterns = read_gitignore_patterns("");
    assert!(patterns.is_empty());
}

#[test]
fn test_read_gitignore_patterns_file_with_final_newline() {
    let patterns = read_gitignore_patterns("line1\nline2\n");
    assert_eq!(patterns, vec!["line1".to_string(), "line2".to_string()]);
}

#[test]
fn test_read_gitignore_patterns_file_with_only_newline() {
    let patterns = read_gitignore_patterns("\n");
    assert_eq!(patterns, vec!["".to_string()]);
}

#[test]
fn lines_end_with_line_feed_or_carriage_return_and_line_feed() {
    for text in ["a\r\nb\rc\n\r\nd", "a", "a\r", "\r\n", "\n\n", "a\n\nb", "ä\r\r\n", "x\ny\r"] {
        let expected: Vec<String> = text.lines().map(String::from).collect();
        assert_eq!(read_gitignore_patterns(text), expected, "for {:?}", text);
    }
}

fn small_paths() -> Vec<String> {
    let alphabet = ['a', '/', '.'];
    let mut all = vec![String::new()];
    let mut last = vec![String::new()];
    for _ in 0..4 {
        let mut next = Vec::new();
        for s in &last {
            for c in alphabet {
                let mut t = s.clone();
                t.push(c);
                next.push(t);
            }
        }
        all.extend(next.iter().cloned());
        last = next;
    }
    all
}

#[test]
fn no_matchable_path_makes_the_matcher_panic() {
    let patterns = vec!["a".to_string(), "!a/a".to_string(), "*.x".to_string()];
    let all = small_paths();
    let mut matched = 0;
    for root in &all {
        for path in &all {
            if is_matchable_path(root, path) {
                let _ = is_file_ignored(path, &patterns, root);
                matched += 1;
            }
        }
    }
    assert!(matched > 5000);
}

#[test]
fn plain_relative_paths_are_matchable_under_every_root() {
    let all = small_paths();
    for root in &all {
        for path in &all {
            if is_plain_relative_path(path) {
                assert!(is_matchable_path(root, path), "{:?} under {:?}", path, root);
            }
        }
    }
}

#[test]
fn test_gitignore_exists() {
    let workspace_path = "/tmp/workspace_with_rules";
    let result = check_for_gitignore(workspace_path, true);
    assert!(result.is_some());
    assert_eq!(result.unwrap(), format!("{}/{}", workspace_path, ".gitignore"));
}

#[test]
fn test_gitignore_does_not_exist() {
    let workspace_path = "/tmp/workspace_without_rules";
    let result = check_for_gitignore(workspace_path, false);
    assert!(result.is_none());
}

#[test]
fn test_gitignore_is_a_directory() {
    let workspace_path = "/tmp/workspace_with_rules_directory";
    let is_file = false;
    let result = check_for_gitignore(workspace_path, is_file);
    assert!(result.is_none());
}
