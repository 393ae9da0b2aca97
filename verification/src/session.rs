//! An open workspace: its files, the set of selected paths, and the forest
//! that is shown for them. Every change of the selection goes through the
//! set, and the forest is built anew from it.
use vstd::prelude::*;
use crate::file_tree::build_tree_from_file_info;
use crate::file_tree::convert_forest;
use crate::file_tree::all_in_state;
use crate::file_tree::build_tree;
use crate::file_tree::file_paths;
use crate::file_tree::forest_file_paths;
use crate::file_tree::is_consistent_forest;
use crate::file_tree::lemma_node_children;
use crate::file_tree::node_budget;
use crate::file_tree::node_views;
use crate::file_tree::with_children;
use crate::file_tree::FileTreeNode;
use crate::file_tree::NodeSelectionState;
use crate::file_tree::TreeNodeType;
use crate::file_tree::TreeNodeView;
use crate::fs_utils::file_views;
use crate::fs_utils::FileInfo;
use crate::fs_utils::FileInfoView;
use crate::selection::lemma_take_to_set_step;
use crate::selection::SelectionSet;
use crate::tree_laws::is_shown;
use crate::tree_laws::is_shown_forest;
use crate::tree_laws::lemma_all_selected;
use crate::tree_laws::lemma_build_tree_files;
use crate::tree_laws::lemma_file_paths_shape;
use crate::tree_laws::lemma_forest_file_paths_hold;
use crate::tree_laws::lemma_forest_file_paths_shape;
use crate::tree_laws::lemma_recompute_forest_shape;
use crate::tree_laws::lemma_none_selected;
use crate::tree_laws::lemma_shape_children;
use crate::tree_laws::lemma_shown_forest_is_shown;
use crate::tree_laws::lemma_shown_forest_shape;
use crate::tree_laws::lemma_shown_is_consistent;
use crate::tree_laws::shape;
use crate::tree_laws::shape_forest;
use crate::tree_laws::shown_forest;
use crate::workspace_event_handler::joined_to;
use crate::workspace_event_handler::to_absolute;
use crate::workspace_event_handler::WorkspaceError;

verus! {

/// The first node with id `id` in the tree of `node`, the node itself
/// before the nodes beneath it, those from left to right.
pub open spec fn find_node(node: TreeNodeView, id: nat) -> Option<TreeNodeView>
    decreases node,
{
    if node.id == id {
        Some(node)
    } else {
        find_in_forest(node.children, id)
    }
}

/// The first node with id `id` in the trees of `forest`.
pub open spec fn find_in_forest(forest: Seq<TreeNodeView>, id: nat) -> Option<TreeNodeView>
    decreases forest,
{
    if forest.len() == 0 {
        None
    } else {
        match find_node(forest[0], id) {
            Some(node) => Some(node),
            None => find_in_forest(forest.skip(1), id),
        }
    }
}

/// The selection after the box of `node` was set to `checked`: with the
/// paths of all files of `node` where it was checked, without them where
/// it was unchecked.
pub open spec fn toggled(
    selected: Set<Seq<char>>,
    node: TreeNodeView,
    checked: bool,
) -> Set<Seq<char>> {
    if checked {
        selected.union(file_paths(node).to_set())
    } else {
        selected.difference(file_paths(node).to_set())
    }
}

/// The selection after the box of the node with id `id` of the forest that
/// is shown was set to `checked`. Without such a node nothing changes.
pub open spec fn toggled_by_id(
    files: Seq<FileInfoView>,
    selected: Set<Seq<char>>,
    root: Seq<char>,
    id: nat,
    checked: bool,
) -> Set<Seq<char>> {
    match find_in_forest(shown_forest(files, selected, root), id) {
        Some(node) => toggled(selected, node, checked),
        None => selected,
    }
}

/// The paths of `files`.
pub open spec fn file_path_set(files: Seq<FileInfoView>) -> Set<Seq<char>> {
    Set::new(|p: Seq<char>| exists|i: int| 0 <= i < files.len() && (#[trigger] files[i]).path == p)
}

/// `node` shown the other way, open or closed, where it is a folder.
pub open spec fn flipped(node: TreeNodeView) -> TreeNodeView {
    if node.node_type == TreeNodeType::Folder {
        TreeNodeView { is_expanded: !node.is_expanded, ..node }
    } else {
        node
    }
}

/// The tree of `node` with the first node of id `id` flipped, and whether
/// there is such a node.
pub open spec fn flip_in_node(node: TreeNodeView, id: nat) -> (TreeNodeView, bool)
    decreases node,
{
    if node.id == id {
        (flipped(node), true)
    } else {
        let (children, done) = flip_in_forest(node.children, id);
        (with_children(node, children), done)
    }
}

/// `forest` with the first node of id `id` flipped, and whether there is
/// such a node.
pub open spec fn flip_in_forest(forest: Seq<TreeNodeView>, id: nat) -> (Seq<TreeNodeView>, bool)
    decreases forest,
{
    if forest.len() == 0 {
        (forest, false)
    } else {
        let (first, done) = flip_in_node(forest[0], id);
        if done {
            (seq![first] + forest.skip(1), true)
        } else {
            let (rest, found) = flip_in_forest(forest.skip(1), id);
            (seq![forest[0]] + rest, found)
        }
    }
}

/// `node` with every folder of its tree closed: what is left of a tree when
/// it is put aside which folders are open.
pub open spec fn collapsed(node: TreeNodeView) -> TreeNodeView
    decreases node,
{
    TreeNodeView {
        is_expanded: false,
        children: Seq::new(
            node.children.len(),
            |i: int|
                if 0 <= i < node.children.len() {
                    collapsed(node.children[i])
                } else {
                    arbitrary()
                },
        ),
        ..node
    }
}

pub open spec fn collapsed_forest(forest: Seq<TreeNodeView>) -> Seq<TreeNodeView> {
    Seq::new(forest.len(), |i: int| collapsed(forest[i]))
}

pub proof fn lemma_collapsed_children(node: TreeNodeView)
    ensures
        collapsed(node).children == collapsed_forest(node.children),
{
    assert(collapsed(node).children =~= collapsed_forest(node.children));
}

/// Flipping a folder changes nothing but which folders are open.
pub proof fn lemma_flip_keeps_collapsed(node: TreeNodeView, id: nat)
    ensures
        collapsed(flip_in_node(node, id).0) == collapsed(node),
    decreases node,
{
    if node.id == id {
        assert(collapsed(flipped(node)).children =~= collapsed(node).children);
    } else {
        lemma_flip_forest_keeps_collapsed(node.children, id);
        let (children, done) = flip_in_forest(node.children, id);
        lemma_collapsed_children(with_children(node, children));
        lemma_collapsed_children(node);
    }
}

pub proof fn lemma_flip_forest_keeps_collapsed(forest: Seq<TreeNodeView>, id: nat)
    ensures
        collapsed_forest(flip_in_forest(forest, id).0) == collapsed_forest(forest),
        flip_in_forest(forest, id).0.len() == forest.len(),
    decreases forest,
{
    if forest.len() > 0 {
        let (first, done) = flip_in_node(forest[0], id);
        lemma_flip_keeps_collapsed(forest[0], id);
        if done {
            assert(collapsed_forest(seq![first] + forest.skip(1)) =~= collapsed_forest(forest));
        } else {
            lemma_flip_forest_keeps_collapsed(forest.skip(1), id);
            let (rest, found) = flip_in_forest(forest.skip(1), id);
            assert(collapsed_forest(rest) == collapsed_forest(forest.skip(1)));
            assert forall|i: int| 0 <= i < forest.len() implies collapsed_forest(
                seq![forest[0]] + rest,
            )[i] == collapsed_forest(forest)[i] by {
                if i > 0 {
                    assert((seq![forest[0]] + rest)[i] == rest[i - 1]);
                    assert(collapsed_forest(rest)[i - 1] == collapsed(rest[i - 1]));
                    assert(collapsed_forest(forest.skip(1))[i - 1] == collapsed(forest[i]));
                }
            }
            assert(collapsed_forest(seq![forest[0]] + rest) =~= collapsed_forest(forest));
        }
    }
}

/// The node that is found in a tree with all folders closed is the node
/// that is found in the tree, with its folders closed.
pub proof fn lemma_find_node_collapsed(node: TreeNodeView, id: nat)
    ensures
        find_node(collapsed(node), id) == match find_node(node, id) {
            Some(found) => Some(collapsed(found)),
            None => None,
        },
    decreases node,
{
    if node.id != id {
        lemma_collapsed_children(node);
        lemma_find_in_forest_collapsed(node.children, id);
    }
}

pub proof fn lemma_find_in_forest_collapsed(forest: Seq<TreeNodeView>, id: nat)
    ensures
        find_in_forest(collapsed_forest(forest), id) == match find_in_forest(forest, id) {
            Some(found) => Some(collapsed(found)),
            None => None,
        },
    decreases forest,
{
    if forest.len() > 0 {
        lemma_find_node_collapsed(forest[0], id);
        lemma_find_in_forest_collapsed(forest.skip(1), id);
        assert(collapsed_forest(forest)[0] == collapsed(forest[0]));
        assert(collapsed_forest(forest).skip(1) =~= collapsed_forest(forest.skip(1)));
    }
}

/// The paths of the files of a tree do not depend on which folders are
/// open.
pub proof fn lemma_file_paths_collapsed(node: TreeNodeView)
    ensures
        file_paths(collapsed(node)) == file_paths(node),
    decreases node,
{
    if node.node_type != TreeNodeType::File {
        lemma_collapsed_children(node);
        lemma_forest_file_paths_collapsed(node.children);
    }
}

pub proof fn lemma_forest_file_paths_collapsed(forest: Seq<TreeNodeView>)
    ensures
        forest_file_paths(collapsed_forest(forest)) == forest_file_paths(forest),
    decreases forest,
{
    if forest.len() > 0 {
        lemma_forest_file_paths_collapsed(forest.drop_last());
        lemma_file_paths_collapsed(forest.last());
        assert(collapsed_forest(forest).drop_last() =~= collapsed_forest(forest.drop_last()));
        assert(collapsed_forest(forest).last() == collapsed(forest.last()));
    }
}

/// Two forests that differ only in which folders are open hold the same
/// files under every id.
pub proof fn lemma_same_files_when_collapsed(one: Seq<TreeNodeView>, two: Seq<TreeNodeView>, id: nat)
    requires
        collapsed_forest(one) == collapsed_forest(two),
    ensures
        match find_in_forest(one, id) {
            Some(a) => find_in_forest(two, id) matches Some(b) && file_paths(a) == file_paths(b),
            None => find_in_forest(two, id) is None,
        },
{
    lemma_find_in_forest_collapsed(one, id);
    lemma_find_in_forest_collapsed(two, id);
    match find_in_forest(one, id) {
        Some(a) => {
            let b = find_in_forest(two, id)->0;
            lemma_file_paths_collapsed(a);
            lemma_file_paths_collapsed(b);
        },
        None => {},
    }
}

/// A tree that differs from a tree that is shown only in which folders are
/// open is shown as well.
pub proof fn lemma_shown_when_collapsed(
    node: TreeNodeView,
    other: TreeNodeView,
    selected: Set<Seq<char>>,
)
    requires
        collapsed(node) == collapsed(other),
        is_shown(other, selected),
    ensures
        is_shown(node, selected),
    decreases node,
{
    lemma_collapsed_children(node);
    lemma_collapsed_children(other);
    assert(collapsed_forest(node.children) == collapsed_forest(other.children));
    assert(collapsed_forest(node.children).len() == node.children.len());
    assert(collapsed_forest(other.children).len() == other.children.len());
    assert(node.children.len() == other.children.len());
    assert(node.node_type == other.node_type && node.path == other.path && node.selection_state
        == other.selection_state) by {
        assert(collapsed(node).node_type == collapsed(other).node_type);
        assert(collapsed(node).path == collapsed(other).path);
        assert(collapsed(node).selection_state == collapsed(other).selection_state);
    }
    assert forall|i: int| 0 <= i < node.children.len() implies collapsed(node.children[i])
        == collapsed(other.children[i]) by {
        assert(collapsed_forest(node.children)[i] == collapsed_forest(other.children)[i]);
    }
    if node.node_type != TreeNodeType::File {
        assert forall|i: int| 0 <= i < node.children.len() implies is_shown(
            #[trigger] node.children[i],
            selected,
        ) by {
            assert(is_shown(other.children[i], selected));
            lemma_shown_when_collapsed(node.children[i], other.children[i], selected);
        }
        assert forall|i: int| 0 <= i < node.children.len() implies (#[trigger] node.children[i]).selection_state
            == other.children[i].selection_state by {
            assert(collapsed(node.children[i]).selection_state == collapsed(
                other.children[i],
            ).selection_state);
        }
        assert(all_in_state(node.children, NodeSelectionState::Selected) == all_in_state(
            other.children,
            NodeSelectionState::Selected,
        )) by {
            if all_in_state(node.children, NodeSelectionState::Selected) {
                assert forall|i: int| 0 <= i < other.children.len() implies (#[trigger] other.children[i]).selection_state
                    == NodeSelectionState::Selected by {
                    assert(node.children[i].selection_state == NodeSelectionState::Selected);
                }
            }
            if all_in_state(other.children, NodeSelectionState::Selected) {
                assert forall|i: int| 0 <= i < node.children.len() implies (#[trigger] node.children[i]).selection_state
                    == NodeSelectionState::Selected by {
                    assert(other.children[i].selection_state == NodeSelectionState::Selected);
                }
            }
        }
        assert(all_in_state(node.children, NodeSelectionState::NotSelected) == all_in_state(
            other.children,
            NodeSelectionState::NotSelected,
        )) by {
            if all_in_state(node.children, NodeSelectionState::NotSelected) {
                assert forall|i: int| 0 <= i < other.children.len() implies (#[trigger] other.children[i]).selection_state
                    == NodeSelectionState::NotSelected by {
                    assert(node.children[i].selection_state == NodeSelectionState::NotSelected);
                }
            }
            if all_in_state(other.children, NodeSelectionState::NotSelected) {
                assert forall|i: int| 0 <= i < node.children.len() implies (#[trigger] node.children[i]).selection_state
                    == NodeSelectionState::NotSelected by {
                    assert(other.children[i].selection_state == NodeSelectionState::NotSelected);
                }
            }
        }
    }
}

/// Where there is no node of id `id`, nothing is flipped.
pub proof fn lemma_flip_without_node(node: TreeNodeView, id: nat)
    ensures
        !flip_in_node(node, id).1 ==> flip_in_node(node, id).0 == node,
    decreases node,
{
    if node.id != id {
        lemma_flip_forest_without_node(node.children, id);
    }
}

pub proof fn lemma_flip_forest_without_node(forest: Seq<TreeNodeView>, id: nat)
    ensures
        !flip_in_forest(forest, id).1 ==> flip_in_forest(forest, id).0 == forest,
    decreases forest,
{
    if forest.len() > 0 {
        lemma_flip_without_node(forest[0], id);
        lemma_flip_forest_without_node(forest.skip(1), id);
        if !flip_in_forest(forest, id).1 {
            assert(seq![forest[0]] + forest.skip(1) =~= forest);
        }
    }
}

/// The node that is found in the shape of a tree is the shape of the node
/// that is found in the tree.
pub proof fn lemma_find_node_shape(node: TreeNodeView, id: nat)
    ensures
        find_node(shape(node), id) == match find_node(node, id) {
            Some(found) => Some(shape(found)),
            None => None,
        },
    decreases node,
{
    if node.id != id {
        lemma_shape_children(node);
        lemma_find_in_forest_shape(node.children, id);
    }
}

pub proof fn lemma_find_in_forest_shape(forest: Seq<TreeNodeView>, id: nat)
    ensures
        find_in_forest(shape_forest(forest), id) == match find_in_forest(forest, id) {
            Some(found) => Some(shape(found)),
            None => None,
        },
    decreases forest,
{
    if forest.len() > 0 {
        lemma_find_node_shape(forest[0], id);
        lemma_find_in_forest_shape(forest.skip(1), id);
        assert(shape_forest(forest)[0] == shape(forest[0]));
        assert(shape_forest(forest).skip(1) =~= shape_forest(forest.skip(1)));
    }
}

/// A node that is found in a tree that is shown is shown.
pub proof fn lemma_find_node_shown(node: TreeNodeView, id: nat, selected: Set<Seq<char>>)
    requires
        is_shown(node, selected),
    ensures
        find_node(node, id) matches Some(found) ==> is_shown(found, selected),
    decreases node,
{
    if node.id != id {
        if node.node_type != TreeNodeType::File {
            lemma_find_in_forest_shown(node.children, id, selected);
        }
    }
}

pub proof fn lemma_find_in_forest_shown(forest: Seq<TreeNodeView>, id: nat, selected: Set<Seq<char>>)
    requires
        is_shown_forest(forest, selected),
    ensures
        find_in_forest(forest, id) matches Some(found) ==> is_shown(found, selected),
    decreases forest,
{
    if forest.len() > 0 {
        assert(is_shown(forest[0], selected));
        lemma_find_node_shown(forest[0], id, selected);
        assert forall|i: int| 0 <= i < forest.skip(1).len() implies is_shown(
            #[trigger] forest.skip(1)[i],
            selected,
        ) by {
            assert(forest.skip(1)[i] == forest[i + 1]);
        }
        lemma_find_in_forest_shown(forest.skip(1), id, selected);
    }
}

/// Under every selection the node with id `id` of the forest that is shown
/// for `files` is the same node, but for its state: it has the same name,
/// path, kind and depth, and holds the same files.
pub proof fn lemma_same_files_under_id(
    files: Seq<FileInfoView>,
    first: Set<Seq<char>>,
    second: Set<Seq<char>>,
    root: Seq<char>,
    id: nat,
)
    ensures
        match find_in_forest(shown_forest(files, first, root), id) {
            Some(a) => find_in_forest(shown_forest(files, second, root), id) matches Some(b)
                && file_paths(a) == file_paths(b) && a.node_type == b.node_type && a.name
                == b.name && a.path == b.path && a.depth == b.depth && a.id == b.id,
            None => find_in_forest(shown_forest(files, second, root), id) is None,
        },
{
    let one = shown_forest(files, first, root);
    let two = shown_forest(files, second, root);
    lemma_shown_forest_shape(files, first, second, root);
    lemma_find_in_forest_shape(one, id);
    lemma_find_in_forest_shape(two, id);
    match find_in_forest(one, id) {
        Some(a) => {
            let b = find_in_forest(two, id)->0;
            assert(shape(a) == shape(b));
            lemma_file_paths_shape(a);
            lemma_file_paths_shape(b);
        },
        None => {},
    }
}

/// Checking a box and then unchecking it gives back the selection, and
/// with it the forest that is shown, where none of the files under the box
/// was selected before. It makes no difference whether the box is that of
/// a file or of a folder.
pub proof fn lemma_toggle_round_trip(
    files: Seq<FileInfoView>,
    selected: Set<Seq<char>>,
    root: Seq<char>,
    id: nat,
)
    requires
        find_in_forest(shown_forest(files, selected, root), id) matches Some(node) ==> forall|
            p: Seq<char>,
        |
            file_paths(node).contains(p) ==> !selected.contains(p),
    ensures
        toggled_by_id(files, toggled_by_id(files, selected, root, id, true), root, id, false)
            == selected,
        shown_forest(
            files,
            toggled_by_id(files, toggled_by_id(files, selected, root, id, true), root, id, false),
            root,
        ) == shown_forest(files, selected, root),
{
    let once = toggled_by_id(files, selected, root, id, true);
    let twice = toggled_by_id(files, once, root, id, false);
    lemma_same_files_under_id(files, selected, once, root, id);
    match find_in_forest(shown_forest(files, selected, root), id) {
        Some(node) => {
            let paths = file_paths(node).to_set();
            assert(twice =~= selected) by {
                assert forall|p: Seq<char>| paths.contains(p) implies !selected.contains(p) by {
                    assert(file_paths(node).contains(p));
                }
            }
        },
        None => {},
    }
}

/// After the box of a node was checked, every file under the node is
/// selected and the node itself is shown as selected; after it was
/// unchecked, no file under the node is selected and the node is shown as
/// unselected. The node holds the same files as before.
pub proof fn lemma_toggle_is_complete(
    files: Seq<FileInfoView>,
    selected: Set<Seq<char>>,
    root: Seq<char>,
    id: nat,
    checked: bool,
)
    requires
        find_in_forest(shown_forest(files, selected, root), id) is Some,
    ensures
        ({
            let before = find_in_forest(shown_forest(files, selected, root), id)->0;
            let after = toggled_by_id(files, selected, root, id, checked);
            let node = find_in_forest(shown_forest(files, after, root), id);
            &&& node matches Some(now)
            &&& file_paths(now) == file_paths(before)
            &&& is_shown(now, after)
            &&& forall|p: Seq<char>| file_paths(now).contains(p) ==> after.contains(p) == checked
            &&& now.selection_state == if checked {
                NodeSelectionState::Selected
            } else {
                NodeSelectionState::NotSelected
            }
        }),
{
    let before = find_in_forest(shown_forest(files, selected, root), id)->0;
    let after = toggled_by_id(files, selected, root, id, checked);
    lemma_same_files_under_id(files, selected, after, root, id);
    let now = find_in_forest(shown_forest(files, after, root), id)->0;
    lemma_shown_forest_is_shown(files, after, root);
    lemma_find_in_forest_shown(shown_forest(files, after, root), id, after);
    assert forall|p: Seq<char>| file_paths(now).contains(p) implies after.contains(p)
        == checked by {
        assert(file_paths(before).to_set().contains(p));
    }
    if checked {
        lemma_all_selected(now, after);
    } else {
        lemma_none_selected(now, after);
    }
}

/// With every file of the workspace selected, every tree of the forest
/// that is shown is selected.
pub proof fn lemma_select_all(files: Seq<FileInfoView>, root: Seq<char>)
    ensures
        all_in_state(shown_forest(files, file_path_set(files), root), NodeSelectionState::Selected),
{
    let all = file_path_set(files);
    let forest = shown_forest(files, all, root);
    let built = build_tree(files, all, root);
    lemma_shown_forest_is_shown(files, all, root);
    lemma_recompute_forest_shape(built);
    lemma_forest_file_paths_shape(forest);
    lemma_forest_file_paths_shape(built);
    assert forall|i: int| 0 <= i < forest.len() implies (#[trigger] forest[i]).selection_state
        == NodeSelectionState::Selected by {
        assert forall|p: Seq<char>| file_paths(forest[i]).contains(p) implies all.contains(p) by {
            lemma_forest_file_paths_hold(forest, i, p);
            assert(forest_file_paths(built).contains(p));
            lemma_build_tree_files(files, all, root, p);
        }
        lemma_all_selected(forest[i], all);
    }
}

/// With nothing selected, every tree of the forest that is shown is
/// unselected.
pub proof fn lemma_deselect_all(files: Seq<FileInfoView>, root: Seq<char>)
    ensures
        all_in_state(
            shown_forest(files, Set::empty(), root),
            NodeSelectionState::NotSelected,
        ),
{
    let none = Set::<Seq<char>>::empty();
    let forest = shown_forest(files, none, root);
    lemma_shown_forest_is_shown(files, none, root);
    assert forall|i: int| 0 <= i < forest.len() implies (#[trigger] forest[i]).selection_state
        == NodeSelectionState::NotSelected by {
        lemma_none_selected(forest[i], none);
    }
}

/// The first node with id `id` in the tree of `node`.
fn find_in_tree<'a>(node: &'a FileTreeNode, id: usize) -> (found: Option<&'a FileTreeNode>)
    ensures
        match found {
            Some(n) => find_node(node@, id as nat) == Some(n@),
            None => find_node(node@, id as nat) is None,
        },
    decreases node,
{
    if node.id == id {
        Some(node)
    } else {
        proof {
            lemma_node_children(*node);
        }
        find_by_id(&node.children, id)
    }
}

/// The first node with id `id` in the trees of `forest`.
pub fn find_by_id<'a>(
    forest: &'a Vec<FileTreeNode>,
    id: usize,
) -> (found: Option<&'a FileTreeNode>)
    ensures
        match found {
            Some(n) => find_in_forest(node_views(forest@), id as nat) == Some(n@),
            None => find_in_forest(node_views(forest@), id as nat) is None,
        },
    decreases forest,
{
    let ghost views = node_views(forest@);
    let mut i: usize = 0;
    proof {
        assert(views.skip(0) =~= views);
    }
    while i < forest.len()
        invariant
            i <= forest.len(),
            views == node_views(forest@),
            find_in_forest(views, id as nat) == find_in_forest(views.skip(i as int), id as nat),
        decreases forest.len() - i,
    {
        proof {
            assert(views.skip(i as int)[0] == forest@[i as int]@);
            assert(views.skip(i as int).skip(1) =~= views.skip(i + 1));
        }
        match find_in_tree(&forest[i], id) {
            Some(n) => {
                return Some(n);
            },
            None => {},
        }
        i += 1;
    }
    None
}

/// Sets the box of `node` to `checked`: selects the files of `node`, or
/// takes them out of the selection. Folders are never held in the
/// selection; the box of a folder stands for the files beneath it.
pub fn toggle(selected_paths: &mut SelectionSet, node: &FileTreeNode, checked: bool)
    ensures
        final(selected_paths)@ == toggled(old(selected_paths)@, node@, checked),
{
    let paths = node.collect_all_file_paths_recursive();
    if checked {
        selected_paths.insert_all(&paths);
    } else {
        selected_paths.remove_all(&paths);
    }
}

/// Flips the first node with id `id` in the tree of `node`.
fn flip_in_tree(node: &mut FileTreeNode, id: usize) -> (done: bool)
    ensures
        (final(node)@, done) == flip_in_node(old(node)@, id as nat),
    decreases *old(node),
{
    if node.id == id {
        if node.node_type == TreeNodeType::Folder {
            node.is_expanded = !node.is_expanded;
        }
        proof {
            lemma_node_children(*node);
            lemma_node_children(*old(node));
            assert(node@.children =~= old(node)@.children);
        }
        true
    } else {
        proof {
            lemma_node_children(*old(node));
        }
        let done = flip_in_vec(&mut node.children, id);
        proof {
            lemma_node_children(*node);
        }
        done
    }
}

/// Flips the first node with id `id` in the trees of `forest`.
fn flip_in_vec(forest: &mut Vec<FileTreeNode>, id: usize) -> (done: bool)
    ensures
        (node_views(final(forest)@), done) == flip_in_forest(node_views(old(forest)@), id as nat),
    decreases *old(forest),
{
    let ghost views = node_views(forest@);
    let mut i: usize = 0;
    proof {
        assert(views.skip(0) =~= views);
        assert(views.take(0) + flip_in_forest(views.skip(0), id as nat).0 =~= flip_in_forest(
            views,
            id as nat,
        ).0);
    }
    while i < forest.len()
        invariant
            i <= forest.len(),
            forest.len() == old(forest).len(),
            forall|k: int| i <= k < forest.len() ==> #[trigger] forest@[k] == old(forest)@[k],
            views == node_views(forest@),
            views == node_views(old(forest)@),
            flip_in_forest(views, id as nat).0 == views.take(i as int) + flip_in_forest(
                views.skip(i as int),
                id as nat,
            ).0,
            flip_in_forest(views, id as nat).1 == flip_in_forest(views.skip(i as int), id as nat).1,
        decreases forest.len() - i,
    {
        let ghost rest = views.skip(i as int);
        proof {
            assert(rest[0] == forest@[i as int]@);
            assert(rest.skip(1) =~= views.skip(i + 1));
            assert(decreases_to!(*old(forest) => old(forest)@[i as int]));
        }
        let done = flip_in_tree(&mut forest[i], id);
        if done {
            proof {
                let first = forest@[i as int]@;
                assert(node_views(forest@) =~= views.take(i as int) + (seq![first] + rest.skip(1)));
            }
            return true;
        }
        proof {
            let after = flip_in_forest(rest.skip(1), id as nat).0;
            lemma_flip_without_node(views[i as int], id as nat);
            assert(forest@[i as int]@ == views[i as int]);
            assert(node_views(forest@) =~= views);
            assert(views.take(i as int) + (seq![rest[0]] + after) =~= views.take(i + 1) + after);
        }
        i += 1;
    }
    proof {
        assert(views.take(forest.len() as int) =~= views);
        assert(views.skip(forest.len() as int) =~= Seq::<TreeNodeView>::empty());
        assert(views + Seq::<TreeNodeView>::empty() =~= views);
    }
    false
}

/// An open workspace.
#[derive(Debug)]
pub struct WorkspaceSession {
    workspace_root: String,
    files: Vec<FileInfo>,
    selected: SelectionSet,
    forest: Vec<FileTreeNode>,
}

impl WorkspaceSession {
    /// The path of the workspace.
    pub closed spec fn root_view(&self) -> Seq<char> {
        self.workspace_root@
    }

    /// The files of the workspace.
    pub closed spec fn files_view(&self) -> Seq<FileInfoView> {
        file_views(self.files@)
    }

    /// The selected paths.
    pub closed spec fn selection_view(&self) -> Set<Seq<char>> {
        self.selected@
    }

    /// The forest that is shown.
    pub closed spec fn forest_view(&self) -> Seq<TreeNodeView> {
        node_views(self.forest@)
    }

    /// The forest is the one that is shown for the files under the
    /// selection, but for which folders are open, and there is an id for
    /// every node.
    pub open spec fn wf(&self) -> bool {
        &&& node_budget(self.files_view(), self.root_view()) <= usize::MAX
        &&& collapsed_forest(self.forest_view()) == collapsed_forest(
            shown_forest(self.files_view(), self.selection_view(), self.root_view()),
        )
    }

    /// In every state of a session each file of the forest has the state
    /// that the selection gives its path, and each folder has children and
    /// the state that they give it.
    pub proof fn lemma_forest_is_shown(&self)
        requires
            self.wf(),
        ensures
            is_shown_forest(self.forest_view(), self.selection_view()),
            is_consistent_forest(self.forest_view()),
    {
        let held = self.forest_view();
        let shown = shown_forest(self.files_view(), self.selection_view(), self.root_view());
        lemma_shown_forest_is_shown(self.files_view(), self.selection_view(), self.root_view());
        assert(held.len() == shown.len()) by {
            assert(collapsed_forest(held).len() == collapsed_forest(shown).len());
        }
        assert forall|i: int| 0 <= i < held.len() implies is_shown(
            #[trigger] held[i],
            self.selection_view(),
        ) && crate::file_tree::is_consistent(held[i]) by {
            assert(collapsed_forest(held)[i] == collapsed_forest(shown)[i]);
            assert(is_shown(shown[i], self.selection_view()));
            lemma_shown_when_collapsed(held[i], shown[i], self.selection_view());
            lemma_shown_is_consistent(held[i], self.selection_view());
        }
    }

    /// Builds the forest anew from the files and the selection.
    fn rebuild(&mut self)
        requires
            node_budget(old(self).files_view(), old(self).root_view()) <= usize::MAX,
        ensures
            final(self).root_view() == old(self).root_view(),
            final(self).files_view() == old(self).files_view(),
            final(self).selection_view() == old(self).selection_view(),
            final(self).forest_view() == shown_forest(
                old(self).files_view(),
                old(self).selection_view(),
                old(self).root_view(),
            ),
            final(self).wf(),
    {
        let blueprints = build_tree_from_file_info(
            self.files.as_slice(),
            &self.selected,
            self.workspace_root.as_str(),
        );
        self.forest = convert_forest(&blueprints);
    }

    /// The session for the workspace at `workspace_root` with `files`, of
    /// which `selected` are selected.
    pub fn new(
        workspace_root: String,
        files: Vec<FileInfo>,
        selected: SelectionSet,
    ) -> (session: Self)
        requires
            node_budget(file_views(files@), workspace_root@) <= usize::MAX,
        ensures
            session.wf(),
            session.root_view() == workspace_root@,
            session.files_view() == file_views(files@),
            session.selection_view() == selected@,
            session.forest_view() == shown_forest(file_views(files@), selected@, workspace_root@),
    {
        let mut session = WorkspaceSession { workspace_root, files, selected, forest: Vec::new() };
        session.rebuild();
        session
    }

    /// Opens the workspace at `workspace_root`. `listing` holds its files,
    /// or nothing where they could not be listed: the workspace then opens
    /// without files. `seed` is the selection to start with, as paths
    /// relative to the workspace; where none could be made, nothing is
    /// selected.
    pub fn open_workspace(
        workspace_root: String,
        listing: Option<Vec<FileInfo>>,
        seed: Result<SelectionSet, WorkspaceError>,
    ) -> (session: Self)
        requires
            listing matches Some(files) ==> node_budget(file_views(files@), workspace_root@)
                <= usize::MAX,
        ensures
            session.wf(),
            session.root_view() == workspace_root@,
            session.files_view() == match listing {
                Some(files) => file_views(files@),
                None => Seq::empty(),
            },
            session.selection_view() == match seed {
                Ok(relative) => joined_to(workspace_root@, relative@),
                Err(_) => Set::empty(),
            },
            session.forest_view() == shown_forest(
                session.files_view(),
                session.selection_view(),
                session.root_view(),
            ),
    {
        let files = match listing {
            Some(files) => files,
            None => {
                let none: Vec<FileInfo> = Vec::new();
                proof {
                    assert(file_views(none@) =~= Seq::<FileInfoView>::empty());
                }
                none
            },
        };
        let selected = match seed {
            Ok(relative) => to_absolute(workspace_root.as_str(), &relative),
            Err(_) => SelectionSet::new(),
        };
        WorkspaceSession::new(workspace_root, files, selected)
    }

    /// Sets the box of the node with id `node_id` to `checked` and builds
    /// the forest anew. Without such a node the selection stays.
    pub fn toggle_node(&mut self, node_id: usize, checked: bool)
        requires
            old(self).wf(),
        ensures
            final(self).wf(),
            final(self).root_view() == old(self).root_view(),
            final(self).files_view() == old(self).files_view(),
            final(self).selection_view() == toggled_by_id(
                old(self).files_view(),
                old(self).selection_view(),
                old(self).root_view(),
                node_id as nat,
                checked,
            ),
            final(self).forest_view() == shown_forest(
                final(self).files_view(),
                final(self).selection_view(),
                final(self).root_view(),
            ),
    {
        proof {
            lemma_same_files_when_collapsed(
                self.forest_view(),
                shown_forest(self.files_view(), self.selection_view(), self.root_view()),
                node_id as nat,
            );
        }
        match find_by_id(&self.forest, node_id) {
            Some(node) => {
                toggle(&mut self.selected, node, checked);
            },
            None => {},
        }
        self.rebuild();
    }

    /// Selects every file of the workspace, and nothing else.
    pub fn select_all(&mut self)
        requires
            old(self).wf(),
        ensures
            final(self).wf(),
            final(self).root_view() == old(self).root_view(),
            final(self).files_view() == old(self).files_view(),
            final(self).selection_view() == file_path_set(old(self).files_view()),
            final(self).forest_view() == shown_forest(
                final(self).files_view(),
                final(self).selection_view(),
                final(self).root_view(),
            ),
            all_in_state(final(self).forest_view(), NodeSelectionState::Selected),
    {
        proof {
            lemma_select_all(self.files_view(), self.root_view());
        }
        let ghost views = file_views(self.files@);
        let mut selected = SelectionSet::new();
        let mut i: usize = 0;
        proof {
            assert(file_path_set(views.take(0)) =~= Set::<Seq<char>>::empty());
        }
        while i < self.files.len()
            invariant
                i <= self.files.len(),
                *self == *old(self),
                views == file_views(self.files@),
                selected@ == file_path_set(views.take(i as int)),
            decreases self.files.len() - i,
        {
            selected.insert(self.files[i].path.clone());
            proof {
                let before = views.take(i as int);
                let after = views.take(i + 1);
                assert(after[i as int].path == self.files@[i as int].path@);
                assert forall|p: Seq<char>| file_path_set(after).contains(p) implies file_path_set(
                    before,
                ).insert(after[i as int].path).contains(p) by {
                    let k = choose|k: int| 0 <= k < after.len() && (#[trigger] after[k]).path == p;
                    if k < i {
                        assert(before[k].path == p);
                    }
                }
                assert forall|p: Seq<char>|
                    file_path_set(before).insert(after[i as int].path).contains(
                        p,
                    ) implies file_path_set(after).contains(p) by {
                    if p == after[i as int].path {
                    } else {
                        let k = choose|k: int|
                            0 <= k < before.len() && (#[trigger] before[k]).path == p;
                        assert(after[k].path == p);
                    }
                }
                assert(file_path_set(after) =~= file_path_set(before).insert(after[i as int].path));
            }
            i += 1;
        }
        proof {
            assert(views.take(self.files.len() as int) =~= views);
        }
        self.selected = selected;
        self.rebuild();
    }

    /// Empties the selection.
    pub fn deselect_all(&mut self)
        requires
            old(self).wf(),
        ensures
            final(self).wf(),
            final(self).root_view() == old(self).root_view(),
            final(self).files_view() == old(self).files_view(),
            final(self).selection_view() == Set::<Seq<char>>::empty(),
            final(self).forest_view() == shown_forest(
                final(self).files_view(),
                final(self).selection_view(),
                final(self).root_view(),
            ),
            all_in_state(final(self).forest_view(), NodeSelectionState::NotSelected),
    {
        proof {
            lemma_deselect_all(self.files_view(), self.root_view());
        }
        self.selected = SelectionSet::new();
        self.rebuild();
    }

    /// Shows the folder with id `node_id` the other way, open or closed.
    /// The selection and all else stay. Returns whether there is a node of
    /// that id.
    pub fn toggle_folder_expanded(&mut self, node_id: usize) -> (found: bool)
        requires
            old(self).wf(),
        ensures
            final(self).wf(),
            final(self).root_view() == old(self).root_view(),
            final(self).files_view() == old(self).files_view(),
            final(self).selection_view() == old(self).selection_view(),
            (final(self).forest_view(), found) == flip_in_forest(
                old(self).forest_view(),
                node_id as nat,
            ),
    {
        proof {
            lemma_flip_forest_keeps_collapsed(self.forest_view(), node_id as nat);
        }
        flip_in_vec(&mut self.forest, node_id)
    }

    /// Replaces the files of the workspace, as after a new listing, and
    /// builds the forest anew. The selection stays.
    pub fn set_files(&mut self, files: Vec<FileInfo>)
        requires
            node_budget(file_views(files@), old(self).root_view()) <= usize::MAX,
        ensures
            final(self).wf(),
            final(self).root_view() == old(self).root_view(),
            final(self).files_view() == file_views(files@),
            final(self).selection_view() == old(self).selection_view(),
            final(self).forest_view() == shown_forest(
                final(self).files_view(),
                final(self).selection_view(),
                final(self).root_view(),
            ),
    {
        self.files = files;
        self.rebuild();
    }

    /// The forest that is shown.
    pub fn forest(&self) -> (forest: &Vec<FileTreeNode>)
        ensures
            node_views(forest@) == self.forest_view(),
    {
        &self.forest
    }

    /// The selected paths.
    pub fn selected_paths(&self) -> (selected: &SelectionSet)
        ensures
            selected@ == self.selection_view(),
    {
        &self.selected
    }

    /// The files of the workspace.
    pub fn files(&self) -> (files: &Vec<FileInfo>)
        ensures
            file_views(files@) == self.files_view(),
    {
        &self.files
    }

    /// The path of the workspace.
    pub fn workspace_root(&self) -> (root: &str)
        ensures
            root@ == self.root_view(),
    {
        self.workspace_root.as_str()
    }
}

} // verus!
