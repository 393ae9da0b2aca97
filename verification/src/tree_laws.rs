//! What holds of every forest that the builder makes: its shape does not
//! depend on the selection, its files show the selection, and no folder is
//! empty.
use vstd::prelude::*;
use crate::file_tree::aggregate;
use crate::file_tree::all_in_state;
use crate::file_tree::build_from;
use crate::file_tree::build_tree;
use crate::file_tree::file_node;
use crate::file_tree::file_paths;
use crate::file_tree::find_or_create;
use crate::file_tree::forest_file_paths;
use crate::file_tree::has_file;
use crate::file_tree::insert_by_path;
use crate::file_tree::insert_path;
use crate::file_tree::is_consistent;
use crate::file_tree::is_node;
use crate::file_tree::new_node;
use crate::file_tree::position_of;
use crate::file_tree::recompute;
use crate::file_tree::recompute_forest;
use crate::file_tree::sorted_by_path;
use crate::file_tree::tree_components;
use crate::file_tree::with_children;
use crate::file_tree::NodeSelectionState;
use crate::file_tree::TreeNodeType;
use crate::file_tree::TreeNodeView;
use crate::fs_utils::FileInfoView;
use crate::paths::key_le;
use crate::paths::lemma_key_le_total;
use crate::paths::lemma_key_le_transitive;
use crate::paths::path_join;
use crate::paths::path_key;
use crate::paths::path_le;

verus! {

/// `node` with every state in its tree set to unselected: what is left of a
/// tree when the selection is put aside.
pub open spec fn shape(node: TreeNodeView) -> TreeNodeView
    decreases node,
{
    TreeNodeView {
        selection_state: NodeSelectionState::NotSelected,
        children: Seq::new(
            node.children.len(),
            |i: int|
                if 0 <= i < node.children.len() {
                    shape(node.children[i])
                } else {
                    arbitrary()
                },
        ),
        ..node
    }
}

/// The shapes of the trees of `forest`.
pub open spec fn shape_forest(forest: Seq<TreeNodeView>) -> Seq<TreeNodeView> {
    Seq::new(forest.len(), |i: int| shape(forest[i]))
}

pub proof fn lemma_shape_children(node: TreeNodeView)
    ensures
        shape(node).children == shape_forest(node.children),
{
    assert(shape(node).children =~= shape_forest(node.children));
}

/// The state that a file has under a selection that holds it or not.
pub open spec fn file_state(selected: bool) -> NodeSelectionState {
    if selected {
        NodeSelectionState::Selected
    } else {
        NodeSelectionState::NotSelected
    }
}

/// The forest that is shown for `files` under `selected`: the forest that
/// the builder makes, with the state of every folder derived.
pub open spec fn shown_forest(
    files: Seq<FileInfoView>,
    selected: Set<Seq<char>>,
    root: Seq<char>,
) -> Seq<TreeNodeView> {
    recompute_forest(build_tree(files, selected, root))
}

/// Where a node of the given name and kind stands, it is such a node, and
/// none stands before it.
pub proof fn lemma_position_of(forest: Seq<TreeNodeView>, name: Seq<char>, kind: TreeNodeType)
    ensures
        0 <= position_of(forest, name, kind) <= forest.len(),
        position_of(forest, name, kind) < forest.len() ==> is_node(
            forest[position_of(forest, name, kind)],
            name,
            kind,
        ),
        forall|k: int|
            0 <= k < position_of(forest, name, kind) ==> !is_node(#[trigger] forest[k], name, kind),
    decreases forest.len(),
{
    if forest.len() > 0 && !is_node(forest[0], name, kind) {
        lemma_position_of(forest.skip(1), name, kind);
        assert forall|k: int| 0 <= k < position_of(forest, name, kind) implies !is_node(
            #[trigger] forest[k],
            name,
            kind,
        ) by {
            if k > 0 {
                assert(forest.skip(1)[k - 1] == forest[k]);
            }
        }
    }
}

/// The position of a node depends on names and kinds only.
pub proof fn lemma_position_of_shape(forest: Seq<TreeNodeView>, name: Seq<char>, kind: TreeNodeType)
    ensures
        position_of(shape_forest(forest), name, kind) == position_of(forest, name, kind),
    decreases forest.len(),
{
    if forest.len() > 0 {
        assert(shape_forest(forest)[0] == shape(forest[0]));
        if !is_node(forest[0], name, kind) {
            lemma_position_of_shape(forest.skip(1), name, kind);
            assert(shape_forest(forest).skip(1) =~= shape_forest(forest.skip(1)));
        }
    }
}

/// Whether a file stands in a forest depends on paths and kinds only.
pub proof fn lemma_has_file_shape(forest: Seq<TreeNodeView>, path: Seq<char>)
    ensures
        has_file(shape_forest(forest), path) == has_file(forest, path),
{
    let shapes = shape_forest(forest);
    if has_file(forest, path) {
        let i = choose|i: int|
            0 <= i < forest.len() && (#[trigger] forest[i]).path == path && forest[i].node_type
                == TreeNodeType::File;
        assert(shapes[i].path == path && shapes[i].node_type == TreeNodeType::File);
    }
    if has_file(shapes, path) {
        let i = choose|i: int|
            0 <= i < shapes.len() && (#[trigger] shapes[i]).path == path && shapes[i].node_type
                == TreeNodeType::File;
        assert(forest[i].path == path && forest[i].node_type == TreeNodeType::File);
    }
}

/// Entering a file does to the shape of a forest what it does to the
/// forest, whether the file is selected or not, and uses the same ids.
pub proof fn lemma_insert_path_shape(
    forest: Seq<TreeNodeView>,
    comps: Seq<Seq<char>>,
    level: nat,
    folder_path: Seq<char>,
    file_path: Seq<char>,
    selected: bool,
    next_id: nat,
)
    ensures
        shape_forest(
            insert_path(forest, comps, level, folder_path, file_path, selected, next_id).0,
        ) == insert_path(
            shape_forest(forest),
            comps,
            level,
            folder_path,
            file_path,
            false,
            next_id,
        ).0,
        insert_path(forest, comps, level, folder_path, file_path, selected, next_id).1
            == insert_path(
            shape_forest(forest),
            comps,
            level,
            folder_path,
            file_path,
            false,
            next_id,
        ).1,
    decreases comps.len() - level,
{
    let shapes = shape_forest(forest);
    if level >= comps.len() {
    } else if level == comps.len() - 1 {
        lemma_has_file_shape(forest, file_path);
        if !has_file(forest, file_path) {
            let node = file_node(next_id, comps[level as int], file_path, level, selected);
            let plain = file_node(next_id, comps[level as int], file_path, level, false);
            assert(shape(node).children =~= plain.children);
            assert(shape(node) == plain);
            assert(shape_forest(forest.push(node)) =~= shapes.push(plain));
        }
    } else {
        let name = comps[level as int];
        let path = path_join(folder_path, name);
        let at = position_of(forest, name, TreeNodeType::Folder);
        lemma_position_of(forest, name, TreeNodeType::Folder);
        lemma_position_of_shape(forest, name, TreeNodeType::Folder);
        let (found, id) = find_or_create(
            forest,
            name,
            path,
            TreeNodeType::Folder,
            next_id,
            level,
            level == 0,
        );
        let (found_shapes, id_shapes) = find_or_create(
            shapes,
            name,
            path,
            TreeNodeType::Folder,
            next_id,
            level,
            level == 0,
        );
        let fresh = new_node(next_id, name, path, TreeNodeType::Folder, level, level == 0);
        assert(shape(fresh).children =~= fresh.children);
        assert(shape(fresh) == fresh);
        assert(found_shapes =~= shape_forest(found));
        assert(id_shapes == id);
        lemma_shape_children(found[at]);
        lemma_insert_path_shape(
            found[at].children,
            comps,
            level + 1,
            path,
            file_path,
            selected,
            id,
        );
        let (children, last_id) = insert_path(
            found[at].children,
            comps,
            level + 1,
            path,
            file_path,
            selected,
            id,
        );
        let grown = with_children(found[at], children);
        lemma_shape_children(grown);
        assert(shape(grown) == with_children(shape(found[at]), shape_forest(children)));
        assert(shape_forest(found.update(at, grown)) =~= shape_forest(found).update(
            at,
            shape(grown),
        ));
    }
}

/// The shape of a built forest is the forest built under the empty
/// selection, and the ids are the same.
pub proof fn lemma_build_from_shape(
    files: Seq<FileInfoView>,
    selected: Set<Seq<char>>,
    root: Seq<char>,
    count: nat,
)
    ensures
        shape_forest(build_from(files, selected, root, count).0) == build_from(
            files,
            Set::empty(),
            root,
            count,
        ).0,
        build_from(files, selected, root, count).1 == build_from(files, Set::empty(), root, count).1,
    decreases count,
{
    if count == 0 {
        assert(shape_forest(Seq::<TreeNodeView>::empty()) =~= Seq::<TreeNodeView>::empty());
    } else {
        lemma_build_from_shape(files, selected, root, (count - 1) as nat);
        let (forest, next_id) = build_from(files, selected, root, (count - 1) as nat);
        let file = files[count - 1];
        lemma_insert_path_shape(
            forest,
            tree_components(file, root),
            0,
            root,
            file.path,
            selected.contains(file.path),
            next_id,
        );
    }
}

/// The shape of the forest for `files` is the same under every selection.
pub proof fn lemma_build_tree_shape(
    files: Seq<FileInfoView>,
    first: Set<Seq<char>>,
    second: Set<Seq<char>>,
    root: Seq<char>,
)
    ensures
        shape_forest(build_tree(files, first, root)) == shape_forest(
            build_tree(files, second, root),
        ),
{
    lemma_build_from_shape(sorted_by_path(files), first, root, files.len());
    lemma_build_from_shape(sorted_by_path(files), second, root, files.len());
}

/// Deriving the states of the folders keeps the shape.
pub proof fn lemma_recompute_shape(node: TreeNodeView)
    ensures
        shape(recompute(node)) == shape(node),
    decreases node,
{
    let after = recompute(node);
    assert forall|i: int| 0 <= i < node.children.len() implies shape(after.children[i]) == shape(
        node.children[i],
    ) by {
        lemma_recompute_shape(node.children[i]);
    }
    assert(shape(after).children =~= shape(node).children);
}

pub proof fn lemma_recompute_forest_shape(forest: Seq<TreeNodeView>)
    ensures
        shape_forest(recompute_forest(forest)) == shape_forest(forest),
{
    assert forall|i: int| 0 <= i < forest.len() implies shape(recompute_forest(forest)[i])
        == shape(forest[i]) by {
        lemma_recompute_shape(forest[i]);
    }
    assert(shape_forest(recompute_forest(forest)) =~= shape_forest(forest));
}

/// The shape of the forest that is shown is the same under every
/// selection.
pub proof fn lemma_shown_forest_shape(
    files: Seq<FileInfoView>,
    first: Set<Seq<char>>,
    second: Set<Seq<char>>,
    root: Seq<char>,
)
    ensures
        shape_forest(shown_forest(files, first, root)) == shape_forest(
            shown_forest(files, second, root),
        ),
{
    lemma_build_tree_shape(files, first, second, root);
    lemma_recompute_forest_shape(build_tree(files, first, root));
    lemma_recompute_forest_shape(build_tree(files, second, root));
}

/// The paths of the files of a tree are those of its shape.
pub proof fn lemma_file_paths_shape(node: TreeNodeView)
    ensures
        file_paths(shape(node)) == file_paths(node),
    decreases node,
{
    if node.node_type != TreeNodeType::File {
        lemma_shape_children(node);
        lemma_forest_file_paths_shape(node.children);
    }
}

pub proof fn lemma_forest_file_paths_shape(forest: Seq<TreeNodeView>)
    ensures
        forest_file_paths(shape_forest(forest)) == forest_file_paths(forest),
    decreases forest,
{
    if forest.len() > 0 {
        lemma_forest_file_paths_shape(forest.drop_last());
        lemma_file_paths_shape(forest.last());
        assert(shape_forest(forest).drop_last() =~= shape_forest(forest.drop_last()));
        assert(shape_forest(forest).last() == shape(forest.last()));
    }
}

/// Whether the tree of `node` is one that the builder makes under
/// `selected`: a file has no children and the state that `selected` gives
/// its path; a folder has children and is unselected as yet.
pub open spec fn is_built(node: TreeNodeView, selected: Set<Seq<char>>) -> bool
    decreases node,
{
    if node.node_type == TreeNodeType::File {
        node.children.len() == 0 && node.selection_state == file_state(selected.contains(node.path))
    } else {
        &&& node.children.len() > 0
        &&& node.selection_state == NodeSelectionState::NotSelected
        &&& forall|i: int|
            0 <= i < node.children.len() ==> is_built(#[trigger] node.children[i], selected)
    }
}

pub open spec fn is_built_forest(forest: Seq<TreeNodeView>, selected: Set<Seq<char>>) -> bool {
    forall|i: int| 0 <= i < forest.len() ==> is_built(#[trigger] forest[i], selected)
}

/// Whether the tree of `node` is one that is shown under `selected`: a file
/// has no children and the state that `selected` gives its path; a folder
/// has children and the state that they give it.
pub open spec fn is_shown(node: TreeNodeView, selected: Set<Seq<char>>) -> bool
    decreases node,
{
    if node.node_type == TreeNodeType::File {
        node.children.len() == 0 && node.selection_state == file_state(selected.contains(node.path))
    } else {
        &&& node.children.len() > 0
        &&& node.selection_state == aggregate(node.children)
        &&& forall|i: int|
            0 <= i < node.children.len() ==> is_shown(#[trigger] node.children[i], selected)
    }
}

pub open spec fn is_shown_forest(forest: Seq<TreeNodeView>, selected: Set<Seq<char>>) -> bool {
    forall|i: int| 0 <= i < forest.len() ==> is_shown(#[trigger] forest[i], selected)
}

/// Entering a file keeps a forest one that the builder makes, and leaves
/// it with a node at least.
pub proof fn lemma_insert_path_built(
    forest: Seq<TreeNodeView>,
    comps: Seq<Seq<char>>,
    level: nat,
    folder_path: Seq<char>,
    file_path: Seq<char>,
    selected: Set<Seq<char>>,
    next_id: nat,
)
    requires
        is_built_forest(forest, selected),
    ensures
        is_built_forest(
            insert_path(
                forest,
                comps,
                level,
                folder_path,
                file_path,
                selected.contains(file_path),
                next_id,
            ).0,
            selected,
        ),
        level < comps.len() ==> insert_path(
            forest,
            comps,
            level,
            folder_path,
            file_path,
            selected.contains(file_path),
            next_id,
        ).0.len() > 0,
    decreases comps.len() - level,
{
    let chosen = selected.contains(file_path);
    if level >= comps.len() {
    } else if level == comps.len() - 1 {
        if !has_file(forest, file_path) {
            let node = file_node(next_id, comps[level as int], file_path, level, chosen);
            let after = forest.push(node);
            assert(is_built(node, selected));
            assert forall|i: int| 0 <= i < after.len() implies is_built(
                #[trigger] after[i],
                selected,
            ) by {
                if i < forest.len() {
                    assert(after[i] == forest[i]);
                }
            }
        } else {
            let i = choose|i: int|
                0 <= i < forest.len() && (#[trigger] forest[i]).path == file_path
                    && forest[i].node_type == TreeNodeType::File;
        }
    } else {
        let name = comps[level as int];
        let path = path_join(folder_path, name);
        let at = position_of(forest, name, TreeNodeType::Folder);
        lemma_position_of(forest, name, TreeNodeType::Folder);
        let (found, id) = find_or_create(
            forest,
            name,
            path,
            TreeNodeType::Folder,
            next_id,
            level,
            level == 0,
        );
        assert(found[at].node_type == TreeNodeType::Folder);
        assert(found[at].selection_state == NodeSelectionState::NotSelected) by {
            if at < forest.len() {
                assert(is_built(forest[at], selected));
            }
        }
        assert(is_built_forest(found[at].children, selected)) by {
            if at < forest.len() {
                assert(is_built(forest[at], selected));
            }
        }
        lemma_insert_path_built(
            found[at].children,
            comps,
            level + 1,
            path,
            file_path,
            selected,
            id,
        );
        let (children, last_id) = insert_path(
            found[at].children,
            comps,
            level + 1,
            path,
            file_path,
            chosen,
            id,
        );
        let grown = with_children(found[at], children);
        assert(is_built(grown, selected));
        let after = found.update(at, grown);
        assert forall|i: int| 0 <= i < after.len() implies is_built(#[trigger] after[i], selected) by {
            if i != at {
                assert(after[i] == forest[i]);
            }
        }
    }
}

/// Every forest that the builder makes is one that the builder makes.
pub proof fn lemma_build_from_built(
    files: Seq<FileInfoView>,
    selected: Set<Seq<char>>,
    root: Seq<char>,
    count: nat,
)
    ensures
        is_built_forest(build_from(files, selected, root, count).0, selected),
    decreases count,
{
    if count > 0 {
        lemma_build_from_built(files, selected, root, (count - 1) as nat);
        let (forest, next_id) = build_from(files, selected, root, (count - 1) as nat);
        let file = files[count - 1];
        lemma_insert_path_built(
            forest,
            tree_components(file, root),
            0,
            root,
            file.path,
            selected,
            next_id,
        );
    }
}

/// Deriving the states of the folders of a built tree gives a tree that is
/// shown.
pub proof fn lemma_recompute_built(node: TreeNodeView, selected: Set<Seq<char>>)
    requires
        is_built(node, selected),
    ensures
        is_shown(recompute(node), selected),
    decreases node,
{
    let after = recompute(node);
    if node.node_type == TreeNodeType::File {
        assert(after.children =~= node.children);
    } else {
        assert forall|i: int| 0 <= i < after.children.len() implies is_shown(
            #[trigger] after.children[i],
            selected,
        ) by {
            assert(is_built(node.children[i], selected));
            lemma_recompute_built(node.children[i], selected);
        }
    }
}

/// In the forest that is shown for `files` under `selected`, every file has
/// the state that `selected` gives its path, every folder has children and
/// the state that they give it.
pub proof fn lemma_shown_forest_is_shown(
    files: Seq<FileInfoView>,
    selected: Set<Seq<char>>,
    root: Seq<char>,
)
    ensures
        is_shown_forest(shown_forest(files, selected, root), selected),
{
    lemma_build_from_built(sorted_by_path(files), selected, root, files.len());
    let built = build_tree(files, selected, root);
    assert forall|i: int| 0 <= i < built.len() implies is_shown(
        #[trigger] shown_forest(files, selected, root)[i],
        selected,
    ) by {
        assert(is_built(built[i], selected));
        lemma_recompute_built(built[i], selected);
    }
}

/// A tree that is shown is consistent.
pub proof fn lemma_shown_is_consistent(node: TreeNodeView, selected: Set<Seq<char>>)
    requires
        is_shown(node, selected),
    ensures
        is_consistent(node),
    decreases node,
{
    assert forall|i: int| 0 <= i < node.children.len() implies is_consistent(
        #[trigger] node.children[i],
    ) by {
        if node.node_type != TreeNodeType::File {
            assert(is_shown(node.children[i], selected));
            lemma_shown_is_consistent(node.children[i], selected);
        }
    }
}

/// The paths of the files of a tree of the forest are among those of the
/// forest.
pub proof fn lemma_forest_file_paths_hold(forest: Seq<TreeNodeView>, i: int, path: Seq<char>)
    requires
        0 <= i < forest.len(),
        file_paths(forest[i]).contains(path),
    ensures
        forest_file_paths(forest).contains(path),
    decreases forest,
{
    let front = forest_file_paths(forest.drop_last());
    let back = file_paths(forest.last());
    if i == forest.len() - 1 {
        let k = choose|k: int| 0 <= k < back.len() && back[k] == path;
        assert((front + back)[front.len() + k] == path);
    } else {
        lemma_forest_file_paths_hold(forest.drop_last(), i, path);
        let k = choose|k: int| 0 <= k < front.len() && front[k] == path;
        assert((front + back)[k] == path);
    }
}

/// A tree that is shown, all of whose files are selected, is selected.
pub proof fn lemma_all_selected(node: TreeNodeView, selected: Set<Seq<char>>)
    requires
        is_shown(node, selected),
        forall|p: Seq<char>| file_paths(node).contains(p) ==> selected.contains(p),
    ensures
        node.selection_state == NodeSelectionState::Selected,
    decreases node,
{
    if node.node_type == TreeNodeType::File {
        assert(file_paths(node)[0] == node.path);
    } else {
        assert forall|i: int| 0 <= i < node.children.len() implies (#[trigger] node.children[i]).selection_state
            == NodeSelectionState::Selected by {
            let child = node.children[i];
            assert(is_shown(child, selected));
            assert forall|p: Seq<char>| file_paths(child).contains(p) implies selected.contains(
                p,
            ) by {
                lemma_forest_file_paths_hold(node.children, i, p);
            }
            lemma_all_selected(child, selected);
        }
    }
}

/// A tree that is shown, none of whose files is selected, is unselected.
pub proof fn lemma_none_selected(node: TreeNodeView, selected: Set<Seq<char>>)
    requires
        is_shown(node, selected),
        forall|p: Seq<char>| file_paths(node).contains(p) ==> !selected.contains(p),
    ensures
        node.selection_state == NodeSelectionState::NotSelected,
    decreases node,
{
    if node.node_type == TreeNodeType::File {
        assert(file_paths(node)[0] == node.path);
    } else {
        assert forall|i: int| 0 <= i < node.children.len() implies (#[trigger] node.children[i]).selection_state
            == NodeSelectionState::NotSelected by {
            let child = node.children[i];
            assert(is_shown(child, selected));
            assert forall|p: Seq<char>| file_paths(child).contains(p) implies !selected.contains(
                p,
            ) by {
                lemma_forest_file_paths_hold(node.children, i, p);
            }
            lemma_none_selected(child, selected);
        }
        assert(node.children[0].selection_state == NodeSelectionState::NotSelected);
    }
}

/// Whether the trees of `forest` are laid out as the builder lays them out
/// at nesting level `level` in the folder of path `folder_path`: every node
/// has depth `level`; a file is closed; a folder is open exactly at level
/// 0, has the path of its parent extended by its name, and holds trees laid
/// out one level further down.
pub open spec fn is_laid_out(forest: Seq<TreeNodeView>, level: nat, folder_path: Seq<char>) -> bool
    decreases forest, 1nat,
{
    forall|i: int| 0 <= i < forest.len() ==> is_laid_out_node(#[trigger] forest[i], level, folder_path)
}

pub open spec fn is_laid_out_node(node: TreeNodeView, level: nat, folder_path: Seq<char>) -> bool
    decreases node, 0nat,
{
    &&& node.depth == level
    &&& if node.node_type == TreeNodeType::File {
        !node.is_expanded
    } else {
        &&& node.is_expanded == (level == 0)
        &&& node.path == path_join(folder_path, node.name)
        &&& is_laid_out(node.children, level + 1, node.path)
    }
}

/// Entering a file under components keeps the layout.
pub proof fn lemma_insert_path_laid_out(
    forest: Seq<TreeNodeView>,
    comps: Seq<Seq<char>>,
    level: nat,
    folder_path: Seq<char>,
    file_path: Seq<char>,
    selected: bool,
    next_id: nat,
)
    requires
        is_laid_out(forest, level, folder_path),
    ensures
        is_laid_out(
            insert_path(forest, comps, level, folder_path, file_path, selected, next_id).0,
            level,
            folder_path,
        ),
    decreases comps.len() - level,
{
    if level >= comps.len() {
    } else if level == comps.len() - 1 {
        if !has_file(forest, file_path) {
            let node = file_node(next_id, comps[level as int], file_path, level, selected);
            let after = forest.push(node);
            assert forall|i: int| 0 <= i < after.len() implies is_laid_out_node(
                #[trigger] after[i],
                level,
                folder_path,
            ) by {
                if i < forest.len() {
                    assert(after[i] == forest[i]);
                }
            }
        }
    } else {
        let name = comps[level as int];
        let path = path_join(folder_path, name);
        let at = position_of(forest, name, TreeNodeType::Folder);
        lemma_position_of(forest, name, TreeNodeType::Folder);
        let (found, id) = find_or_create(
            forest,
            name,
            path,
            TreeNodeType::Folder,
            next_id,
            level,
            level == 0,
        );
        if at < forest.len() {
            assert(is_laid_out_node(forest[at], level, folder_path));
        }
        assert(is_laid_out_node(found[at], level, folder_path));
        assert(found[at].path == path);
        lemma_insert_path_laid_out(
            found[at].children,
            comps,
            level + 1,
            path,
            file_path,
            selected,
            id,
        );
        let (children, last_id) = insert_path(
            found[at].children,
            comps,
            level + 1,
            path,
            file_path,
            selected,
            id,
        );
        let grown = with_children(found[at], children);
        let after = found.update(at, grown);
        assert(is_laid_out_node(grown, level, folder_path));
        assert forall|i: int| 0 <= i < after.len() implies is_laid_out_node(
            #[trigger] after[i],
            level,
            folder_path,
        ) by {
            if i != at {
                assert(after[i] == forest[i]);
            }
        }
    }
}

/// Every forest that the builder makes is laid out from level 0 in the
/// root.
pub proof fn lemma_build_from_laid_out(
    files: Seq<FileInfoView>,
    selected: Set<Seq<char>>,
    root: Seq<char>,
    count: nat,
)
    ensures
        is_laid_out(build_from(files, selected, root, count).0, 0, root),
    decreases count,
{
    if count > 0 {
        lemma_build_from_laid_out(files, selected, root, (count - 1) as nat);
        let (forest, next_id) = build_from(files, selected, root, (count - 1) as nat);
        let file = files[count - 1];
        lemma_insert_path_laid_out(
            forest,
            tree_components(file, root),
            0,
            root,
            file.path,
            selected.contains(file.path),
            next_id,
        );
    }
}

/// A path is among the files of a forest exactly if it is among the files
/// of one of its trees.
pub proof fn lemma_forest_file_paths_spread(forest: Seq<TreeNodeView>, path: Seq<char>)
    ensures
        forest_file_paths(forest).contains(path) <==> exists|i: int|
            0 <= i < forest.len() && file_paths(#[trigger] forest[i]).contains(path),
    decreases forest,
{
    if forest.len() > 0 {
        let front = forest_file_paths(forest.drop_last());
        let back = file_paths(forest.last());
        lemma_forest_file_paths_spread(forest.drop_last(), path);
        if forest_file_paths(forest).contains(path) {
            let k = choose|k: int| 0 <= k < (front + back).len() && (front + back)[k] == path;
            if k < front.len() {
                assert(front[k] == path);
                let i = choose|i: int|
                    0 <= i < forest.drop_last().len() && file_paths(
                        #[trigger] forest.drop_last()[i],
                    ).contains(path);
                assert(forest[i] == forest.drop_last()[i]);
            } else {
                assert(back[k - front.len()] == path);
                assert(file_paths(forest[forest.len() - 1]).contains(path));
            }
        }
        if exists|i: int| 0 <= i < forest.len() && file_paths(#[trigger] forest[i]).contains(path) {
            let i = choose|i: int|
                0 <= i < forest.len() && file_paths(#[trigger] forest[i]).contains(path);
            lemma_forest_file_paths_hold(forest, i, path);
        }
    }
}

/// After a file is entered, the files of the forest are those that it held
/// and the file.
pub proof fn lemma_insert_path_files(
    forest: Seq<TreeNodeView>,
    comps: Seq<Seq<char>>,
    level: nat,
    folder_path: Seq<char>,
    file_path: Seq<char>,
    selected: Set<Seq<char>>,
    next_id: nat,
    path: Seq<char>,
)
    requires
        is_built_forest(forest, selected),
        level < comps.len(),
    ensures
        forest_file_paths(
            insert_path(
                forest,
                comps,
                level,
                folder_path,
                file_path,
                selected.contains(file_path),
                next_id,
            ).0,
        ).contains(path) <==> forest_file_paths(forest).contains(path) || path == file_path,
    decreases comps.len() - level,
{
    let chosen = selected.contains(file_path);
    let after = insert_path(forest, comps, level, folder_path, file_path, chosen, next_id).0;
    lemma_forest_file_paths_spread(forest, path);
    lemma_forest_file_paths_spread(after, path);
    if level == comps.len() - 1 {
        if has_file(forest, file_path) {
            let i = choose|i: int|
                0 <= i < forest.len() && (#[trigger] forest[i]).path == file_path
                    && forest[i].node_type == TreeNodeType::File;
            assert(file_paths(forest[i])[0] == file_path);
            assert(file_paths(forest[i]).contains(file_path));
            lemma_forest_file_paths_spread(forest, file_path);
        } else {
            let node = file_node(next_id, comps[level as int], file_path, level, chosen);
            assert(file_paths(node)[0] == file_path);
            if forest_file_paths(after).contains(path) {
                let i = choose|i: int|
                    0 <= i < after.len() && file_paths(#[trigger] after[i]).contains(path);
                if i < forest.len() {
                    assert(after[i] == forest[i]);
                } else {
                    assert(after[i] == node);
                    let k = choose|k: int| 0 <= k < file_paths(node).len() && file_paths(node)[k] == path;
                }
            }
            if forest_file_paths(forest).contains(path) {
                let i = choose|i: int|
                    0 <= i < forest.len() && file_paths(#[trigger] forest[i]).contains(path);
                assert(after[i] == forest[i]);
            }
            if path == file_path {
                assert(after[forest.len() as int] == node);
                assert(file_paths(after[forest.len() as int]).contains(path));
            }
        }
    } else {
        let name = comps[level as int];
        let joined = path_join(folder_path, name);
        let at = position_of(forest, name, TreeNodeType::Folder);
        lemma_position_of(forest, name, TreeNodeType::Folder);
        let (found, id) = find_or_create(
            forest,
            name,
            joined,
            TreeNodeType::Folder,
            next_id,
            level,
            level == 0,
        );
        assert(found[at].node_type == TreeNodeType::Folder);
        assert(is_built_forest(found[at].children, selected)) by {
            if at < forest.len() {
                assert(is_built(forest[at], selected));
            }
        }
        lemma_insert_path_files(
            found[at].children,
            comps,
            level + 1,
            joined,
            file_path,
            selected,
            id,
            path,
        );
        let (children, last_id) = insert_path(
            found[at].children,
            comps,
            level + 1,
            joined,
            file_path,
            chosen,
            id,
        );
        let grown = with_children(found[at], children);
        assert(after == found.update(at, grown));
        assert(file_paths(grown) == forest_file_paths(children));
        assert(file_paths(found[at]) == forest_file_paths(found[at].children));
        // The files of the grown folder are those that it held and the file.
        assert(file_paths(grown).contains(path) <==> file_paths(found[at]).contains(path) || path
            == file_path);
        if forest_file_paths(after).contains(path) {
            let i = choose|i: int|
                0 <= i < after.len() && file_paths(#[trigger] after[i]).contains(path);
            if i != at {
                assert(after[i] == forest[i]);
            } else if file_paths(found[at]).contains(path) {
                if at < forest.len() {
                    assert(file_paths(forest[at]).contains(path));
                } else {
                    assert(file_paths(found[at]) =~= Seq::<Seq<char>>::empty());
                }
            }
        }
        if forest_file_paths(forest).contains(path) {
            let i = choose|i: int|
                0 <= i < forest.len() && file_paths(#[trigger] forest[i]).contains(path);
            if i != at {
                assert(after[i] == forest[i]);
            } else {
                assert(file_paths(after[at]).contains(path));
            }
        }
        if path == file_path {
            assert(file_paths(after[at]).contains(path));
        }
    }
}

/// The files of a forest that the builder makes are the files that were
/// entered: the paths of the first `count` of `files`.
pub proof fn lemma_build_from_files(
    files: Seq<FileInfoView>,
    selected: Set<Seq<char>>,
    root: Seq<char>,
    count: nat,
    path: Seq<char>,
)
    requires
        count <= files.len(),
    ensures
        forest_file_paths(build_from(files, selected, root, count).0).contains(path) <==> exists|
            i: int,
        |
            0 <= i < count && (#[trigger] files[i]).path == path,
    decreases count,
{
    if count > 0 {
        lemma_build_from_files(files, selected, root, (count - 1) as nat, path);
        lemma_build_from_built(files, selected, root, (count - 1) as nat);
        let (forest, next_id) = build_from(files, selected, root, (count - 1) as nat);
        let file = files[count - 1];
        let comps = tree_components(file, root);
        assert(comps.len() > 0);
        lemma_insert_path_files(forest, comps, 0, root, file.path, selected, next_id, path);
        let after = build_from(files, selected, root, count).0;
        if forest_file_paths(after).contains(path) {
            if forest_file_paths(forest).contains(path) {
                let i = choose|i: int| 0 <= i < count - 1 && (#[trigger] files[i]).path == path;
                assert(0 <= i < count && files[i].path == path);
            } else {
                assert(files[count - 1].path == path);
            }
        }
        if exists|i: int| 0 <= i < count && (#[trigger] files[i]).path == path {
            let i = choose|i: int| 0 <= i < count && (#[trigger] files[i]).path == path;
            if i < count - 1 {
                assert(forest_file_paths(forest).contains(path));
            }
        }
    } else {
        assert(forest_file_paths(Seq::<TreeNodeView>::empty()) =~= Seq::<Seq<char>>::empty());
    }
}

/// Whether a node of id `id` stands in the tree of `node`.
pub open spec fn holds_id(node: TreeNodeView, id: nat) -> bool
    decreases node, 0nat,
{
    node.id == id || forest_holds_id(node.children, id)
}

/// Whether a node of id `id` stands in a tree of `forest`.
pub open spec fn forest_holds_id(forest: Seq<TreeNodeView>, id: nat) -> bool
    decreases forest, 1nat,
{
    exists|i: int| 0 <= i < forest.len() && holds_id(#[trigger] forest[i], id)
}

/// Whether no two nodes of the tree of `node` have the same id.
pub open spec fn has_distinct_ids(node: TreeNodeView) -> bool
    decreases node, 0nat,
{
    !forest_holds_id(node.children, node.id) && forest_has_distinct_ids(node.children)
}

/// Whether no two nodes of the trees of `forest` have the same id.
pub open spec fn forest_has_distinct_ids(forest: Seq<TreeNodeView>) -> bool
    decreases forest, 1nat,
{
    &&& forall|i: int| 0 <= i < forest.len() ==> has_distinct_ids(#[trigger] forest[i])
    &&& forall|i: int, j: int, id: nat|
        #![trigger holds_id(forest[i], id), holds_id(forest[j], id)]
        0 <= i < forest.len() && 0 <= j < forest.len() && i != j && holds_id(forest[i], id)
            ==> !holds_id(forest[j], id)
}

/// Whether the ids of the nodes of `forest` are the numbers below `count`,
/// each the id of one node.
pub open spec fn ids_count_nodes(forest: Seq<TreeNodeView>, count: nat) -> bool {
    &&& forest_has_distinct_ids(forest)
    &&& forall|id: nat| forest_holds_id(forest, id) <==> id < count
}

/// Entering a file gives the nodes that it creates the next free ids, each
/// to one node, and leaves the other ids where they are.
#[verifier::spinoff_prover]
pub proof fn lemma_insert_path_ids(
    forest: Seq<TreeNodeView>,
    comps: Seq<Seq<char>>,
    level: nat,
    folder_path: Seq<char>,
    file_path: Seq<char>,
    selected: bool,
    next_id: nat,
)
    requires
        forest_has_distinct_ids(forest),
        forall|id: nat| forest_holds_id(forest, id) ==> id < next_id,
    ensures
        ({
            let (after, last) = insert_path(
                forest,
                comps,
                level,
                folder_path,
                file_path,
                selected,
                next_id,
            );
            &&& next_id <= last
            &&& forest_has_distinct_ids(after)
            &&& forall|id: nat|
                forest_holds_id(after, id) <==> forest_holds_id(forest, id) || next_id <= id < last
        }),
    decreases comps.len() - level,
{
    let (after, last) = insert_path(forest, comps, level, folder_path, file_path, selected, next_id);
    if level >= comps.len() {
        assert(after == forest && last == next_id);
    } else if level == comps.len() - 1 {
        if !has_file(forest, file_path) {
            let node = file_node(next_id, comps[level as int], file_path, level, selected);
            lemma_push_ids(forest, node, next_id);
            assert(after == forest.push(node) && last == next_id + 1);
            assert forall|x: nat|
                forest_holds_id(after, x) <==> forest_holds_id(forest, x) || next_id <= x
                    < last by {}
        } else {
            assert(after == forest && last == next_id);
        }
    } else {
        let name = comps[level as int];
        let path = path_join(folder_path, name);
        let at = position_of(forest, name, TreeNodeType::Folder);
        lemma_position_of(forest, name, TreeNodeType::Folder);
        let (found, id) = find_or_create(
            forest,
            name,
            path,
            TreeNodeType::Folder,
            next_id,
            level,
            level == 0,
        );
        if at >= forest.len() {
            let fresh = new_node(next_id, name, path, TreeNodeType::Folder, level, level == 0);
            lemma_push_ids(forest, fresh, next_id);
        }
        // What holds of the forest in which the folder was found or created.
        assert(forest_has_distinct_ids(found));
        assert forall|x: nat| forest_holds_id(found, x) <==> forest_holds_id(forest, x) || next_id
            <= x < id by {}
        let folder = found[at];
        assert(has_distinct_ids(folder));
        assert forall|x: nat| forest_holds_id(folder.children, x) implies x < id by {
            assert(holds_id(found[at], x));
            assert(forest_holds_id(found, x));
        }
        lemma_insert_path_ids(folder.children, comps, level + 1, path, file_path, selected, id);
        let (children, last_id) = insert_path(
            folder.children,
            comps,
            level + 1,
            path,
            file_path,
            selected,
            id,
        );
        let grown = with_children(folder, children);
        assert(after == found.update(at, grown));
        assert(last == last_id);
        assert(folder.id < id) by {
            assert(holds_id(found[at], folder.id));
            assert(forest_holds_id(found, folder.id));
        }
        assert(has_distinct_ids(grown));
        assert(id <= last_id);
        assert(forest_has_distinct_ids(children));
        assert forall|x: nat| holds_id(grown, x) <==> holds_id(folder, x) || id <= x < last by {
            assert(forest_holds_id(children, x) <==> forest_holds_id(folder.children, x) || id <= x
                < last_id);
        }
        assert forall|i: int| 0 <= i < after.len() implies has_distinct_ids(#[trigger] after[i]) by {
            if i != at {
                assert(after[i] == found[i]);
            }
        }
        assert forall|i: int, j: int, x: nat|
            #![trigger holds_id(after[i], x), holds_id(after[j], x)]
            0 <= i < after.len() && 0 <= j < after.len() && i != j && holds_id(
                after[i],
                x,
            ) implies !holds_id(after[j], x) by {
            if i == at {
                assert(after[j] == found[j]);
                if holds_id(found[j], x) {
                    assert(forest_holds_id(found, x));
                    assert(holds_id(found[at], x));
                }
            } else if j == at {
                assert(after[i] == found[i]);
                assert(holds_id(found[i], x));
                assert(forest_holds_id(found, x));
                if holds_id(grown, x) {
                    assert(holds_id(found[at], x));
                }
            } else {
                assert(after[i] == found[i]);
                assert(after[j] == found[j]);
            }
        }
        assert forall|x: nat|
            forest_holds_id(after, x) <==> forest_holds_id(forest, x) || next_id <= x < last by {
            if forest_holds_id(after, x) {
                let i = choose|i: int| 0 <= i < after.len() && holds_id(#[trigger] after[i], x);
                if i != at {
                    assert(after[i] == found[i]);
                    assert(forest_holds_id(found, x));
                } else if holds_id(folder, x) {
                    assert(holds_id(found[at], x));
                    assert(forest_holds_id(found, x));
                }
            }
            if forest_holds_id(found, x) {
                let i = choose|i: int| 0 <= i < found.len() && holds_id(#[trigger] found[i], x);
                if i != at {
                    assert(after[i] == found[i]);
                    assert(holds_id(after[i], x));
                } else {
                    assert(holds_id(after[at], x));
                }
            }
            if id <= x < last {
                assert(holds_id(after[at], x));
            }
        }
        assert(next_id <= last);
        assert(forest_has_distinct_ids(after));
    }
}

/// Pushing a node without children under a fresh id keeps the ids
/// distinct and adds that id.
pub proof fn lemma_push_ids(forest: Seq<TreeNodeView>, node: TreeNodeView, next_id: nat)
    requires
        forest_has_distinct_ids(forest),
        forall|id: nat| forest_holds_id(forest, id) ==> id < next_id,
        node.id == next_id,
        node.children.len() == 0,
    ensures
        forest_has_distinct_ids(forest.push(node)),
        forall|id: nat|
            forest_holds_id(forest.push(node), id) <==> forest_holds_id(forest, id) || id == next_id,
{
    let after = forest.push(node);
    assert forall|id: nat| holds_id(node, id) <==> id == next_id by {}
    assert forall|i: int| 0 <= i < after.len() implies has_distinct_ids(#[trigger] after[i]) by {
        if i < forest.len() {
            assert(after[i] == forest[i]);
        }
    }
    assert forall|i: int, j: int, x: nat|
        #![trigger holds_id(after[i], x), holds_id(after[j], x)]
        0 <= i < after.len() && 0 <= j < after.len() && i != j && holds_id(
            after[i],
            x,
        ) implies !holds_id(after[j], x) by {
        if i < forest.len() && j < forest.len() {
            assert(after[i] == forest[i]);
            assert(after[j] == forest[j]);
        } else if i < forest.len() {
            assert(after[i] == forest[i]);
            assert(forest_holds_id(forest, x));
        } else {
            assert(after[j] == forest[j]);
            if holds_id(forest[j], x) {
                assert(forest_holds_id(forest, x));
            }
        }
    }
    assert forall|id: nat|
        forest_holds_id(after, id) <==> forest_holds_id(forest, id) || id == next_id by {
        if forest_holds_id(after, id) {
            let i = choose|i: int| 0 <= i < after.len() && holds_id(#[trigger] after[i], id);
            if i < forest.len() {
                assert(after[i] == forest[i]);
                assert(forest_holds_id(forest, id));
            }
        }
        if forest_holds_id(forest, id) {
            let i = choose|i: int| 0 <= i < forest.len() && holds_id(#[trigger] forest[i], id);
            assert(after[i] == forest[i]);
            assert(holds_id(after[i], id));
        }
        if id == next_id {
            assert(holds_id(after[forest.len() as int], id));
        }
    }
}

/// In a forest that the builder makes, the ids are the numbers from 0 to
/// the number of nodes, each the id of one node.
pub proof fn lemma_build_from_ids(
    files: Seq<FileInfoView>,
    selected: Set<Seq<char>>,
    root: Seq<char>,
    count: nat,
)
    ensures
        ids_count_nodes(
            build_from(files, selected, root, count).0,
            build_from(files, selected, root, count).1,
        ),
    decreases count,
{
    if count > 0 {
        lemma_build_from_ids(files, selected, root, (count - 1) as nat);
        let (forest, next_id) = build_from(files, selected, root, (count - 1) as nat);
        let file = files[count - 1];
        lemma_insert_path_ids(
            forest,
            tree_components(file, root),
            0,
            root,
            file.path,
            selected.contains(file.path),
            next_id,
        );
    }
}

/// Whether the paths of `files` do not go down in the order of paths.
pub open spec fn is_in_path_order(files: Seq<FileInfoView>) -> bool {
    forall|i: int, j: int|
        0 <= i <= j < files.len() ==> path_le((#[trigger] files[i]).path, (#[trigger] files[j]).path)
}

/// Entering a record keeps the order and adds the record, no more.
pub proof fn lemma_insert_by_path_keeps_order(sorted: Seq<FileInfoView>, file: FileInfoView)
    requires
        is_in_path_order(sorted),
    ensures
        is_in_path_order(insert_by_path(sorted, file)),
        insert_by_path(sorted, file).to_multiset() == sorted.to_multiset().insert(file),
    decreases sorted.len(),
{
    broadcast use vstd::seq_lib::group_to_multiset_ensures;

    let after = insert_by_path(sorted, file);
    if sorted.len() == 0 {
        assert(path_le(file.path, file.path)) by {
            lemma_key_le_total(path_key(file.path), path_key(file.path));
        }
        assert(after =~= sorted.push(file));
    } else if key_le(path_key(sorted.last().path), path_key(file.path)) {
        assert forall|i: int, j: int| 0 <= i <= j < after.len() implies path_le(
            (#[trigger] after[i]).path,
            (#[trigger] after[j]).path,
        ) by {
            if j < sorted.len() {
                assert(path_le(sorted[i].path, sorted[j].path));
            } else if i < sorted.len() {
                assert(path_le(sorted[i].path, sorted[sorted.len() - 1].path));
                lemma_key_le_transitive(
                    path_key(sorted[i].path),
                    path_key(sorted.last().path),
                    path_key(file.path),
                );
            } else {
                lemma_key_le_total(path_key(file.path), path_key(file.path));
            }
        }
    } else {
        let front = sorted.drop_last();
        let last = sorted.last();
        assert forall|i: int, j: int| 0 <= i <= j < front.len() implies path_le(
            (#[trigger] front[i]).path,
            (#[trigger] front[j]).path,
        ) by {
            assert(path_le(sorted[i].path, sorted[j].path));
        }
        lemma_insert_by_path_keeps_order(front, file);
        let entered = insert_by_path(front, file);
        lemma_key_le_total(path_key(last.path), path_key(file.path));
        assert forall|i: int| 0 <= i < entered.len() implies path_le(
            (#[trigger] entered[i]).path,
            last.path,
        ) by {
            // Every record of `entered` is `file` or one of `front`.
            assert(entered.to_multiset().count(entered[i]) > 0);
            if entered[i] != file {
                assert(front.to_multiset().count(entered[i]) > 0);
                let k = choose|k: int| 0 <= k < front.len() && front[k] == entered[i];
                assert(path_le(sorted[k].path, sorted[sorted.len() - 1].path));
            }
        }
        assert forall|i: int, j: int| 0 <= i <= j < after.len() implies path_le(
            (#[trigger] after[i]).path,
            (#[trigger] after[j]).path,
        ) by {
            if j < entered.len() {
                assert(path_le(entered[i].path, entered[j].path));
            } else if i < entered.len() {
                assert(path_le(entered[i].path, last.path));
            } else {
                lemma_key_le_total(path_key(last.path), path_key(last.path));
            }
        }
        assert(sorted =~= front.push(last));
        assert(after.to_multiset() =~= sorted.to_multiset().insert(file));
    }
}

/// The sorted records do not go down in the order of paths, and they are
/// the records that were given, each as often as it was given.
pub proof fn lemma_sorted_by_path_is_sorted(files: Seq<FileInfoView>)
    ensures
        is_in_path_order(sorted_by_path(files)),
        sorted_by_path(files).to_multiset() == files.to_multiset(),
    decreases files.len(),
{
    broadcast use vstd::seq_lib::group_to_multiset_ensures;

    if files.len() > 0 {
        lemma_sorted_by_path_is_sorted(files.drop_last());
        lemma_insert_by_path_keeps_order(sorted_by_path(files.drop_last()), files.last());
        assert(files =~= files.drop_last().push(files.last()));
    }
}

/// The files of the forest for `files` are the paths of `files`.
pub proof fn lemma_build_tree_files(
    files: Seq<FileInfoView>,
    selected: Set<Seq<char>>,
    root: Seq<char>,
    path: Seq<char>,
)
    ensures
        forest_file_paths(build_tree(files, selected, root)).contains(path) <==> exists|i: int|
            0 <= i < files.len() && (#[trigger] files[i]).path == path,
{
    broadcast use vstd::seq_lib::group_to_multiset_ensures;

    let sorted = sorted_by_path(files);
    lemma_sorted_by_path_is_sorted(files);
    crate::file_tree::lemma_sorted_budget(files, root);
    lemma_build_from_files(sorted, selected, root, files.len(), path);
    if forest_file_paths(build_tree(files, selected, root)).contains(path) {
        let i = choose|i: int| 0 <= i < sorted.len() && (#[trigger] sorted[i]).path == path;
        assert(sorted.to_multiset().count(sorted[i]) > 0);
        assert(files.to_multiset().count(sorted[i]) > 0);
        let k = choose|k: int| 0 <= k < files.len() && files[k] == sorted[i];
        assert(files[k].path == path);
    }
    if exists|i: int| 0 <= i < files.len() && (#[trigger] files[i]).path == path {
        let i = choose|i: int| 0 <= i < files.len() && (#[trigger] files[i]).path == path;
        assert(files.to_multiset().count(files[i]) > 0);
        assert(sorted.to_multiset().count(files[i]) > 0);
        let k = choose|k: int| 0 <= k < sorted.len() && sorted[k] == files[i];
        assert(sorted[k].path == path);
    }
}

/// Whether, among the nodes of `forest` itself and among the children of
/// every folder beneath, no two folders have one name and no two files
/// have one path.
pub open spec fn has_distinct_siblings(forest: Seq<TreeNodeView>) -> bool
    decreases forest, 1nat,
{
    &&& forall|i: int, j: int|
        #![trigger forest[i], forest[j]]
        0 <= i < j < forest.len() && forest[i].node_type == forest[j].node_type ==> if forest[i].node_type
            == TreeNodeType::Folder {
            forest[i].name != forest[j].name
        } else {
            forest[i].path != forest[j].path
        }
    &&& forall|i: int| 0 <= i < forest.len() ==> has_distinct_children(#[trigger] forest[i])
}

pub open spec fn has_distinct_children(node: TreeNodeView) -> bool
    decreases node, 0nat,
{
    has_distinct_siblings(node.children)
}

/// Entering a file keeps siblings distinct.
pub proof fn lemma_insert_path_distinct_siblings(
    forest: Seq<TreeNodeView>,
    comps: Seq<Seq<char>>,
    level: nat,
    folder_path: Seq<char>,
    file_path: Seq<char>,
    selected: bool,
    next_id: nat,
)
    requires
        has_distinct_siblings(forest),
    ensures
        has_distinct_siblings(
            insert_path(forest, comps, level, folder_path, file_path, selected, next_id).0,
        ),
    decreases comps.len() - level,
{
    if level >= comps.len() {
    } else if level == comps.len() - 1 {
        if !has_file(forest, file_path) {
            let node = file_node(next_id, comps[level as int], file_path, level, selected);
            let after = forest.push(node);
            assert(has_distinct_children(node));
            assert forall|i: int, j: int|
                #![trigger after[i], after[j]]
                0 <= i < j < after.len() && after[i].node_type
                    == after[j].node_type implies if after[i].node_type == TreeNodeType::Folder {
                after[i].name != after[j].name
            } else {
                after[i].path != after[j].path
            } by {
                if j < forest.len() {
                    assert(after[i] == forest[i] && after[j] == forest[j]);
                } else {
                    assert(after[i] == forest[i]);
                }
            }
            assert forall|i: int| 0 <= i < after.len() implies has_distinct_children(
                #[trigger] after[i],
            ) by {
                if i < forest.len() {
                    assert(after[i] == forest[i]);
                }
            }
        }
    } else {
        let name = comps[level as int];
        let path = path_join(folder_path, name);
        let at = position_of(forest, name, TreeNodeType::Folder);
        lemma_position_of(forest, name, TreeNodeType::Folder);
        let (found, id) = find_or_create(
            forest,
            name,
            path,
            TreeNodeType::Folder,
            next_id,
            level,
            level == 0,
        );
        assert(has_distinct_siblings(found)) by {
            if at >= forest.len() {
                let fresh = new_node(next_id, name, path, TreeNodeType::Folder, level, level == 0);
                assert(has_distinct_children(fresh));
                assert forall|i: int, j: int|
                    #![trigger found[i], found[j]]
                    0 <= i < j < found.len() && found[i].node_type
                        == found[j].node_type implies if found[i].node_type
                    == TreeNodeType::Folder {
                    found[i].name != found[j].name
                } else {
                    found[i].path != found[j].path
                } by {
                    if j < forest.len() {
                        assert(found[i] == forest[i] && found[j] == forest[j]);
                    } else {
                        assert(found[i] == forest[i]);
                        assert(!is_node(forest[i], name, TreeNodeType::Folder));
                    }
                }
                assert forall|i: int| 0 <= i < found.len() implies has_distinct_children(
                    #[trigger] found[i],
                ) by {
                    if i < forest.len() {
                        assert(found[i] == forest[i]);
                    }
                }
            }
        }
        assert(has_distinct_children(found[at]));
        lemma_insert_path_distinct_siblings(
            found[at].children,
            comps,
            level + 1,
            path,
            file_path,
            selected,
            id,
        );
        let (children, last_id) = insert_path(
            found[at].children,
            comps,
            level + 1,
            path,
            file_path,
            selected,
            id,
        );
        let grown = with_children(found[at], children);
        let after = found.update(at, grown);
        assert(has_distinct_children(grown));
        assert forall|i: int, j: int|
            #![trigger after[i], after[j]]
            0 <= i < j < after.len() && after[i].node_type
                == after[j].node_type implies if after[i].node_type == TreeNodeType::Folder {
            after[i].name != after[j].name
        } else {
            after[i].path != after[j].path
        } by {
            assert(after[i].name == found[i].name && after[i].path == found[i].path
                && after[i].node_type == found[i].node_type);
            assert(after[j].name == found[j].name && after[j].path == found[j].path
                && after[j].node_type == found[j].node_type);
        }
        assert forall|i: int| 0 <= i < after.len() implies has_distinct_children(
            #[trigger] after[i],
        ) by {
            if i != at {
                assert(after[i] == found[i]);
            }
        }
    }
}

/// In every forest that the builder makes siblings are distinct.
pub proof fn lemma_build_from_distinct_siblings(
    files: Seq<FileInfoView>,
    selected: Set<Seq<char>>,
    root: Seq<char>,
    count: nat,
)
    ensures
        has_distinct_siblings(build_from(files, selected, root, count).0),
    decreases count,
{
    if count > 0 {
        lemma_build_from_distinct_siblings(files, selected, root, (count - 1) as nat);
        let (forest, next_id) = build_from(files, selected, root, (count - 1) as nat);
        let file = files[count - 1];
        lemma_insert_path_distinct_siblings(
            forest,
            tree_components(file, root),
            0,
            root,
            file.path,
            selected.contains(file.path),
            next_id,
        );
    }
}

/// What holds of the forest that the builder makes for `files`: every file
/// has the state that the selection gives its path and no folder is empty;
/// depths, paths and open folders are laid out from the root; among
/// siblings no two folders have one name and no two files one path; the
/// ids are the numbers from 0 on, each the id of one node.
pub proof fn lemma_build_tree_is_sound(
    files: Seq<FileInfoView>,
    selected: Set<Seq<char>>,
    root: Seq<char>,
)
    ensures
        is_built_forest(build_tree(files, selected, root), selected),
        is_laid_out(build_tree(files, selected, root), 0, root),
        has_distinct_siblings(build_tree(files, selected, root)),
        ids_count_nodes(
            build_tree(files, selected, root),
            build_from(sorted_by_path(files), selected, root, files.len()).1,
        ),
{
    lemma_build_from_distinct_siblings(sorted_by_path(files), selected, root, files.len());
    lemma_build_from_built(sorted_by_path(files), selected, root, files.len());
    lemma_build_from_laid_out(sorted_by_path(files), selected, root, files.len());
    lemma_build_from_ids(sorted_by_path(files), selected, root, files.len());
}

} // verus!
