use context_loader::file_list::exceeds_token_limit;
use context_loader::file_list::filter_files;
use context_loader::file_list::passes_filter;
use context_loader::file_list::sort_files;
use context_loader::file_list::toggle_sort;
use context_loader::file_list::total_selected_tokens;
use context_loader::file_list::FilterType;
use context_loader::file_list::SortColumn;
use context_loader::file_list::SortDirection;
use context_loader::fs_utils::FileInfo;
use context_loader::selection::SelectionSet;

fn info(name: &str, size: u64, token_count: usize) -> FileInfo {
    FileInfo { name: name.to_string(), path: name.to_string(), size, token_count }
}

fn names(files: &[FileInfo]) -> Vec<&str> {
    files.iter().map(|f| f.name.as_str()).collect()
}

#[test]
fn test_sorting_by_size() {
    let files = vec![info("small.txt", 100, 10), info("medium.txt", 1000, 100), info("large.txt", 10000, 1000)];

    let files = sort_files(&files, SortColumn::Size, SortDirection::Ascending);
    assert_eq!(files[0].name, "small.txt");
    assert_eq!(files[1].name, "medium.txt");
    assert_eq!(files[2].name, "large.txt");

    let files = sort_files(&files, SortColumn::Size, SortDirection::Descending);
    assert_eq!(files[0].name, "large.txt");
    assert_eq!(files[1].name, "medium.txt");
    assert_eq!(files[2].name, "small.txt");
}

#[test]
fn test_sorting_by_name() {
    let files = vec![info("c.txt", 100, 10), info("a.txt", 1000, 100), info("b.txt", 10000, 1000)];

    let files = sort_files(&files, SortColumn::Name, SortDirection::Ascending);
    assert_eq!(files[0].name, "a.txt");
    assert_eq!(files[1].name, "b.txt");
    assert_eq!(files[2].name, "c.txt");

    let files = sort_files(&files, SortColumn::Name, SortDirection::Descending);
    assert_eq!(files[0].name, "c.txt");
    assert_eq!(files[1].name, "b.txt");
    assert_eq!(files[2].name, "a.txt");
}

#[test]
fn test_sorting_by_tokens() {
    let files = vec![info("few.txt", 100, 10), info("some.txt", 1000, 100), info("many.txt", 10000, 1000)];

    let files = sort_files(&files, SortColumn::Tokens, SortDirection::Ascending);
    assert_eq!(files[0].name, "few.txt");
    assert_eq!(files[1].name, "some.txt");
    assert_eq!(files[2].name, "many.txt");

    let files = sort_files(&files, SortColumn::Tokens, SortDirection::Descending);
    assert_eq!(files[0].name, "many.txt");
    assert_eq!(files[1].name, "some.txt");
    assert_eq!(files[2].name, "few.txt");
}

#[test]
fn numbers_are_ordered_by_their_digits() {
    let files = vec![info("nine", 9, 0), info("ten", 10, 0), info("zero", 0, 0), info("hundred", 100, 0)];
    let sorted = sort_files(&files, SortColumn::Size, SortDirection::Ascending);
    assert_eq!(names(&sorted), vec!["zero", "ten", "hundred", "nine"]);
}

#[test]
fn equal_keys_keep_their_order() {
    let files = vec![info("b", 5, 1), info("a", 5, 2), info("c", 5, 3), info("a", 4, 4)];
    let sorted = sort_files(&files, SortColumn::Size, SortDirection::Ascending);
    assert_eq!(sorted.iter().map(|f| f.token_count).collect::<Vec<_>>(), vec![4, 1, 2, 3]);
    let sorted = sort_files(&files, SortColumn::Name, SortDirection::Ascending);
    assert_eq!(sorted.iter().map(|f| f.token_count).collect::<Vec<_>>(), vec![2, 4, 1, 3]);
    let sorted = sort_files(&files, SortColumn::Name, SortDirection::Descending);
    assert_eq!(sorted.iter().map(|f| f.token_count).collect::<Vec<_>>(), vec![3, 1, 4, 2]);
    assert!(sort_files(&[], SortColumn::Name, SortDirection::Descending).is_empty());
}

#[test]
fn clicking_a_column_head() {
    assert_eq!(
        toggle_sort(SortColumn::Name, SortDirection::Ascending, SortColumn::Name),
        (SortColumn::Name, SortDirection::Descending)
    );
    assert_eq!(
        toggle_sort(SortColumn::Name, SortDirection::Descending, SortColumn::Name),
        (SortColumn::Name, SortDirection::Ascending)
    );
    assert_eq!(
        toggle_sort(SortColumn::Name, SortDirection::Descending, SortColumn::Size),
        (SortColumn::Size, SortDirection::Ascending)
    );
}

#[test]
fn test_filter_type_from_str() {
    assert_eq!("Substring".parse::<FilterType>().unwrap(), FilterType::Substring);
    assert_eq!("Extension".parse::<FilterType>().unwrap(), FilterType::Extension);
    assert_eq!("Regex".parse::<FilterType>().unwrap(), FilterType::Regex);

    assert!("Unknown".parse::<FilterType>().is_err());
}

#[test]
fn an_unknown_filter_type_is_named_in_the_error() {
    assert_eq!(FilterType::from_str("Unknown"), Err("Unknown filter type: Unknown".to_string()));
    assert_eq!(FilterType::from_str("regex"), Err("Unknown filter type: regex".to_string()));
}

#[test]
fn test_filter_type_display() {
    assert_eq!(FilterType::Substring.to_string(), "Substring");
    assert_eq!(FilterType::Extension.to_string(), "Extension");
    assert_eq!(FilterType::Regex.to_string(), "Regex");
}

#[test]
fn filtering_by_substring_extension_and_regex() {
    let files = vec![info("Main.RS", 1, 1), info("lib.rs", 1, 1), info("notes.txt", 1, 1), info("rs", 1, 1)];
    assert_eq!(names(&filter_files(&files, "", FilterType::Substring)), vec!["Main.RS", "lib.rs", "notes.txt", "rs"]);
    assert_eq!(names(&filter_files(&files, "MAIN", FilterType::Substring)), vec!["Main.RS"]);
    assert_eq!(names(&filter_files(&files, "rs", FilterType::Extension)), vec!["Main.RS", "lib.rs"]);
    assert_eq!(names(&filter_files(&files, ".RS", FilterType::Extension)), vec!["Main.RS", "lib.rs"]);
    assert_eq!(names(&filter_files(&files, "^l.*\\.rs$", FilterType::Regex)), vec!["lib.rs"]);
    assert_eq!(names(&filter_files(&files, "^main", FilterType::Regex)), Vec::<&str>::new());
    assert_eq!(names(&filter_files(&files, "(in", FilterType::Regex)), Vec::<&str>::new());
    assert_eq!(names(&filter_files(&files, "[n", FilterType::Regex)), Vec::<&str>::new());
    assert_eq!(names(&filter_files(&[info("a(in)b", 1, 1)], "(in", FilterType::Regex)), vec!["a(in)b"]);
}

#[test]
fn what_the_regular_expression_says_decides() {
    assert!(passes_filter("abc", "zzz", FilterType::Regex, Some(true)));
    assert!(!passes_filter("abc", "b", FilterType::Regex, Some(false)));
    assert!(passes_filter("abc", "b", FilterType::Regex, None));
    assert!(!passes_filter("abc", "x", FilterType::Regex, None));
    assert!(passes_filter("abc", "b", FilterType::Substring, Some(false)));
    assert!(passes_filter("a.rs", "rs", FilterType::Extension, None));
    assert!(!passes_filter("ars", "rs", FilterType::Extension, None));
    assert!(passes_filter("ars", "", FilterType::Substring, None));
}

#[test]
fn footer_test_test_footer_token_sum() {
    let files = vec![
        FileInfo { name: "file1.txt".to_string(), path: "/test/file1.txt".to_string(), size: 100, token_count: 10 },
        FileInfo { name: "file2.txt".to_string(), path: "/test/file2.txt".to_string(), size: 200, token_count: 20 },
        FileInfo { name: "file3.txt".to_string(), path: "/test/file3.txt".to_string(), size: 300, token_count: 30 },
    ];

    let mut selected = SelectionSet::new();
    selected.insert("/test/file1.txt".to_string());
    selected.insert("/test/file2.txt".to_string());

    let expected_total: usize = total_selected_tokens(&files, &selected).unwrap();

    assert_eq!(expected_total, 30);
}

#[test]
fn footer_test_footer_token_sum() {
    let files = vec![
        FileInfo { name: "file1.txt".to_string(), path: "/test/file1.txt".to_string(), size: 100, token_count: 10 },
        FileInfo { name: "file2.txt".to_string(), path: "/test/file2.txt".to_string(), size: 200, token_count: 20 },
        FileInfo { name: "file3.txt".to_string(), path: "/test/file3.txt".to_string(), size: 300, token_count: 30 },
    ];
    let mut selected = SelectionSet::new();
    selected.insert("/test/file1.txt".to_string());
    selected.insert("/test/file2.txt".to_string());
    assert_eq!(total_selected_tokens(&files, &selected), Some(30));
}

#[test]
fn the_total_and_its_limit() {
    let files = vec![info("a", 0, usize::MAX), info("b", 0, 1), info("c", 0, 5)];
    let mut selected = SelectionSet::new();
    assert_eq!(total_selected_tokens(&files, &selected), Some(0));
    selected.insert("a".to_string());
    selected.insert("c".to_string());
    assert_eq!(total_selected_tokens(&files, &selected), None);
    selected.remove("c");
    assert_eq!(total_selected_tokens(&files, &selected), Some(usize::MAX));
    assert!(!exceeds_token_limit(32_000));
    assert!(exceeds_token_limit(32_001));
}

#[test]
fn parsing_a_filter_type_names_an_unknown_text() {
    assert_eq!("Regex".parse::<FilterType>(), Ok(FilterType::Regex));
    assert_eq!("regex".parse::<FilterType>(), Err("Unknown filter type: regex".to_string()));
    assert_eq!("".parse::<FilterType>(), Err("Unknown filter type: ".to_string()));
}
