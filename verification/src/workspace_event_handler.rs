//! What is selected when a workspace is opened: the files that its ignore
//! rules do not leave out. Without rules nothing is selected.
use vstd::prelude::*;
use crate::gitignore_handler::effective_patterns;
use crate::gitignore_handler::is_file_ignored;
use crate::gitignore_handler::is_ignored;
use crate::gitignore_handler::is_matchable;
use crate::gitignore_handler::lemma_no_patterns_ignore_nothing;
use crate::gitignore_handler::patterns_view;
use crate::gitignore_handler::preprocess_gitignore_lines;
use crate::paths::join;
use crate::paths::path_join;
use crate::selection::lemma_take_to_set_step;
use crate::selection::SelectionSet;

verus! {

/// What was found of the rules file of a workspace.
#[derive(Debug, Clone)]
pub enum GitignoreSource {
    /// The workspace has no rules file.
    Missing,
    /// There is a rules file, and it could not be read.
    Unreadable,
    /// The lines of the rules file, as they stand in it.
    Lines(Vec<String>),
}

/// Why no selection could be made for a workspace.
#[derive(Debug, Clone, Copy, PartialEq, Eq, Structural)]
pub enum WorkspaceError {
    /// The rules file is there and could not be read.
    GitignoreUnreadable,
}

/// The files of `files` that `patterns` do not leave out under `root`.
pub open spec fn kept_files(
    root: Seq<char>,
    files: Seq<Seq<char>>,
    patterns: Seq<Seq<char>>,
) -> Set<Seq<char>> {
    Set::new(|p: Seq<char>| files.contains(p) && !is_ignored(root, patterns, p))
}

/// A rules file without patterns keeps every file.
pub proof fn lemma_no_patterns_keep_all(root: Seq<char>, files: Seq<Seq<char>>)
    ensures
        kept_files(root, files, Seq::empty()) == files.to_set(),
{
    assert forall|p: Seq<char>| kept_files(root, files, Seq::empty()).contains(p)
        == files.to_set().contains(p) by {
        lemma_no_patterns_ignore_nothing(root, p);
    }
    assert(kept_files(root, files, Seq::empty()) =~= files.to_set());
}

/// The set of the paths of `relative`, each joined to `root`.
pub open spec fn joined_to(root: Seq<char>, relative: Set<Seq<char>>) -> Set<Seq<char>> {
    Set::new(|p: Seq<char>| exists|r: Seq<char>| relative.contains(r) && p == path_join(root, r))
}

/// The selection with which the workspace at `workspace_path_str` opens,
/// as paths relative to it. `all_files` are the files of the workspace,
/// relative to it. Without a rules file nothing is selected; with one,
/// every file that its patterns do not leave out; a rules file that could
/// not be read is an error.
pub fn handle_workspace_opened(
    workspace_path_str: String,
    all_files: Vec<String>,
    gitignore: GitignoreSource,
) -> (r: Result<SelectionSet, WorkspaceError>)
    requires
        forall|i: int|
            0 <= i < all_files.len() ==> is_matchable(
                workspace_path_str@,
                (#[trigger] all_files@[i])@,
            ),
    ensures
        match gitignore {
            GitignoreSource::Missing => r matches Ok(selected) && selected@ == Set::<
                Seq<char>,
            >::empty(),
            GitignoreSource::Unreadable => r == Err::<SelectionSet, WorkspaceError>(
                WorkspaceError::GitignoreUnreadable,
            ),
            GitignoreSource::Lines(lines) => r matches Ok(selected) && selected@ == kept_files(
                workspace_path_str@,
                all_files.deep_view(),
                effective_patterns(lines.deep_view()),
            ),
        },
{
    match gitignore {
        GitignoreSource::Missing => Ok(SelectionSet::new()),
        GitignoreSource::Unreadable => Err(WorkspaceError::GitignoreUnreadable),
        GitignoreSource::Lines(lines) => {
            let patterns = preprocess_gitignore_lines(lines);
            let ghost files = all_files.deep_view();
            let ghost root = workspace_path_str@;
            let ghost globs = patterns.deep_view();
            let mut selected = SelectionSet::new();
            let mut i: usize = 0;
            proof {
                assert(patterns_view(patterns@) =~= globs);
                assert(kept_files(root, files.take(0), globs) =~= Set::<Seq<char>>::empty());
            }
            while i < all_files.len()
                invariant
                    i <= all_files.len(),
                    files == all_files.deep_view(),
                    root == workspace_path_str@,
                    globs == patterns.deep_view(),
                    patterns_view(patterns@) == globs,
                    forall|k: int|
                        0 <= k < all_files.len() ==> is_matchable(root, (#[trigger] all_files@[k])@),
                    selected@ == kept_files(root, files.take(i as int), globs),
                decreases all_files.len() - i,
            {
                let ignored = is_file_ignored(
                    all_files[i].as_str(),
                    patterns.as_slice(),
                    workspace_path_str.as_str(),
                );
                if !ignored {
                    selected.insert(all_files[i].clone());
                }
                proof {
                    let file = all_files@[i as int]@;
                    let before = files.take(i as int);
                    let after = files.take(i + 1);
                    assert(after =~= before.push(file));
                    assert forall|p: Seq<char>| after.contains(p) <==> before.contains(p) || p
                        == file by {
                        if after.contains(p) {
                            let k = choose|k: int| 0 <= k < after.len() && after[k] == p;
                            if k < before.len() {
                                assert(before[k] == p);
                            }
                        }
                        if before.contains(p) {
                            let k = choose|k: int| 0 <= k < before.len() && before[k] == p;
                            assert(after[k] == p);
                        }
                        if p == file {
                            assert(after[i as int] == p);
                        }
                    }
                    if ignored {
                        assert(kept_files(root, after, globs) =~= kept_files(root, before, globs));
                    } else {
                        assert(kept_files(root, after, globs) =~= kept_files(
                            root,
                            before,
                            globs,
                        ).insert(file));
                    }
                }
                i += 1;
            }
            proof {
                assert(files.take(all_files.len() as int) =~= files);
            }
            Ok(selected)
        },
    }
}

/// The paths of `relative`, each joined to `workspace_root`.
pub fn to_absolute(workspace_root: &str, relative: &SelectionSet) -> (absolute: SelectionSet)
    ensures
        absolute@ == joined_to(workspace_root@, relative@),
{
    let paths = relative.to_vec();
    let ghost held = paths.deep_view();
    let mut absolute = SelectionSet::new();
    let mut i: usize = 0;
    proof {
        assert(joined_to(workspace_root@, held.take(0).to_set()) =~= Set::<Seq<char>>::empty());
    }
    while i < paths.len()
        invariant
            i <= paths.len(),
            held == paths.deep_view(),
            absolute@ == joined_to(workspace_root@, held.take(i as int).to_set()),
        decreases paths.len() - i,
    {
        absolute.insert(join(workspace_root, paths[i].as_str()));
        proof {
            let root = workspace_root@;
            lemma_take_to_set_step(held, i as int);
            assert(held[i as int] == paths@[i as int]@);
            let before = held.take(i as int).to_set();
            let after = held.take(i + 1).to_set();
            assert(after.contains(held[i as int]));
            assert(joined_to(root, after) =~= joined_to(root, before).insert(
                path_join(root, held[i as int]),
            )) by {
                assert forall|p: Seq<char>| joined_to(root, after).contains(p) implies joined_to(
                    root,
                    before,
                ).insert(path_join(root, held[i as int])).contains(p) by {
                    let r = choose|r: Seq<char>| after.contains(r) && p == path_join(root, r);
                    if r != held[i as int] {
                        assert(before.contains(r));
                    }
                }
                assert forall|p: Seq<char>|
                    joined_to(root, before).insert(path_join(root, held[i as int])).contains(
                        p,
                    ) implies joined_to(root, after).contains(p) by {
                    if p == path_join(root, held[i as int]) {
                        assert(after.contains(held[i as int]));
                    } else {
                        let r = choose|r: Seq<char>| before.contains(r) && p == path_join(root, r);
                        assert(after.contains(r));
                    }
                }
            }
        }
        i += 1;
    }
    proof {
        assert(held.take(paths.len() as int) =~= held);
    }
    absolute
}

} // verus!
