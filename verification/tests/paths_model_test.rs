use context_loader::paths::file_name_of;
use context_loader::paths::has_root;
use context_loader::paths::join;
use context_loader::paths::key_precedes;
use context_loader::paths::parent_of;
use context_loader::paths::relative_to;
use context_loader::paths::sort_key;
use context_loader::paths::split_components;
use context_loader::paths::starts_with;
use context_loader::text::char_is_whitespace;
use context_loader::text::lex_le_chars;
use std::path::Component;
use std::path::Path;

/// All texts of at most `len` characters over a small alphabet with a
/// separator.
fn samples(len: usize) -> Vec<String> {
    let alphabet = ['a', 'b', '/', '-'];
    let mut all = vec![String::new()];
    let mut last = vec![String::new()];
    for _ in 0..len {
        let mut next = Vec::new();
        for s in &last {
            for c in alphabet {
                let mut t = s.clone();
                t.push(c);
                next.push(t);
            }
        }
        all.extend(next.iter().cloned());
        last = next;
    }
    all
}

fn text(path: &Path) -> String {
    path.to_string_lossy().into_owned()
}

#[test]
fn one_path_is_read_as_the_standard_library_reads_it() {
    for p in samples(5) {
        let std_path = Path::new(&p);
        assert_eq!(has_root(&p), std_path.has_root(), "root of {:?}", p);
        let names: Vec<String> = std_path
            .components()
            .filter_map(|c| match c {
                Component::Normal(n) => Some(n.to_string_lossy().into_owned()),
                _ => None,
            })
            .collect();
        assert_eq!(split_components(&p), names, "components of {:?}", p);
        assert_eq!(parent_of(&p), std_path.parent().map(text), "parent of {:?}", p);
        assert_eq!(
            file_name_of(&p),
            std_path.file_name().map(|n| n.to_string_lossy().into_owned()),
            "file name of {:?}",
            p
        );
    }
}

#[test]
fn two_paths_are_related_as_the_standard_library_relates_them() {
    let all = samples(4);
    for a in &all {
        for b in &all {
            let pa = Path::new(a);
            let pb = Path::new(b);
            assert_eq!(join(a, b), text(&pa.join(pb)), "join of {:?} and {:?}", a, b);
            assert_eq!(starts_with(a, b), pa.starts_with(pb), "{:?} starts with {:?}", a, b);
            assert_eq!(
                relative_to(a, b),
                pa.strip_prefix(pb).ok().map(text),
                "{:?} relative to {:?}",
                a,
                b
            );
            assert_eq!(
                key_precedes(&sort_key(a), &sort_key(b)),
                pa <= pb,
                "order of {:?} and {:?}",
                a,
                b
            );
        }
    }
}

#[test]
fn a_single_dot_and_two_dots_are_names_like_others() {
    assert_eq!(split_components("./a/../b/."), vec![".", "a", "..", "b", "."]);
    assert!(!starts_with("a", "a/."));
    assert_eq!(relative_to("./a", "."), Some("a".to_string()));
}

#[test]
fn whitespace_is_what_the_standard_library_calls_whitespace() {
    for code in 0..=0x10FFFFu32 {
        if let Some(c) = char::from_u32(code) {
            assert_eq!(char_is_whitespace(c), c.is_whitespace(), "U+{:04X}", code);
        }
    }
}

#[test]
fn texts_are_ordered_as_the_standard_library_orders_them() {
    let words = ["", "a", "A", "ab", "b", "é", "日本", "𝄞", "a\u{0}", "\u{10FFFF}", "z"];
    for a in words {
        for b in words {
            let x: Vec<char> = a.chars().collect();
            let y: Vec<char> = b.chars().collect();
            assert_eq!(lex_le_chars(&x, &y), a <= b, "order of {:?} and {:?}", a, b);
        }
    }
}
