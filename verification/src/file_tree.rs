//! The tree of files and folders that is shown for a workspace, built from
//! the flat list of its files and the set of selected paths.
use vstd::prelude::*;
use crate::fs_utils::file_views;
use crate::fs_utils::FileInfo;
use crate::fs_utils::FileInfoView;
use crate::paths::all_components;
use crate::paths::join;
use crate::paths::key_le;
use crate::paths::key_precedes;
use crate::paths::path_join;
use crate::paths::path_key;
use crate::paths::relative_to;
use crate::paths::sort_key;
use crate::paths::split_all_components;
use crate::paths::strip_prefix;
use crate::selection::SelectionSet;
use crate::text::same_text;
use crate::tree_laws::forest_has_distinct_ids;
use crate::tree_laws::has_distinct_siblings;
use crate::tree_laws::is_built_forest;
use crate::tree_laws::is_laid_out;
use crate::tree_laws::lemma_build_tree_is_sound;

verus! {

#[derive(Debug, Clone, Copy, PartialEq, Eq, Structural)]
pub enum TreeNodeType {
    File,
    Folder,
}

#[derive(Debug, Clone, Copy, PartialEq, Eq, Structural)]
pub enum NodeSelectionState {
    Selected,
    NotSelected,
    PartiallySelected,
}

/// A node of the tree as a plain value: what both `FileTreeNodeBlueprint`
/// and `FileTreeNode` stand for.
pub struct TreeNodeView {
    pub id: nat,
    pub name: Seq<char>,
    pub path: Seq<char>,
    pub node_type: TreeNodeType,
    pub children: Seq<TreeNodeView>,
    pub is_expanded: bool,
    pub selection_state: NodeSelectionState,
    pub depth: nat,
}

/// A node as the builder leaves it: the state of a file is final, that of
/// a folder is not yet derived from its children.
#[derive(Debug, PartialEq)]
pub struct FileTreeNodeBlueprint {
    pub id: usize,
    pub name: String,
    pub path: String,
    pub node_type: TreeNodeType,
    pub children: Vec<FileTreeNodeBlueprint>,
    pub is_expanded: bool,
    pub selection_state: NodeSelectionState,
    pub depth: usize,
}

/// The plain value that a blueprint stands for.
pub open spec fn blueprint_view(node: FileTreeNodeBlueprint) -> TreeNodeView
    decreases node,
{
    TreeNodeView {
        id: node.id as nat,
        name: node.name@,
        path: node.path@,
        node_type: node.node_type,
        children: Seq::new(
            node.children@.len(),
            |i: int|
                if 0 <= i < node.children@.len() {
                    blueprint_view(node.children@[i])
                } else {
                    arbitrary()
                },
        ),
        is_expanded: node.is_expanded,
        selection_state: node.selection_state,
        depth: node.depth as nat,
    }
}

impl View for FileTreeNodeBlueprint {
    type V = TreeNodeView;

    open spec fn view(&self) -> TreeNodeView {
        blueprint_view(*self)
    }
}

/// The views of a sequence of blueprints.
pub open spec fn blueprint_views(nodes: Seq<FileTreeNodeBlueprint>) -> Seq<TreeNodeView> {
    Seq::new(nodes.len(), |i: int| nodes[i]@)
}

/// The children of a blueprint's view are the views of its children.
pub proof fn lemma_blueprint_children(node: FileTreeNodeBlueprint)
    ensures
        node@.children == blueprint_views(node.children@),
{
    let kids = node@.children;
    let views = blueprint_views(node.children@);
    assert(kids.len() == views.len());
    assert forall|i: int| 0 <= i < kids.len() implies kids[i] == views[i] by {
        assert(kids[i] == node.children@[i]@);
    }
    assert(kids =~= views);
}

/// Whether `node` has the given name and kind.
pub open spec fn is_node(node: TreeNodeView, name: Seq<char>, kind: TreeNodeType) -> bool {
    node.name == name && node.node_type == kind
}

/// Index of the first node of `forest` with the given name and kind, or the
/// length of `forest` where it has none.
pub open spec fn position_of(forest: Seq<TreeNodeView>, name: Seq<char>, kind: TreeNodeType) -> int
    decreases forest.len(),
{
    if forest.len() == 0 {
        0
    } else if is_node(forest[0], name, kind) {
        0
    } else {
        1 + position_of(forest.skip(1), name, kind)
    }
}

/// A node without children, as it is created: unselected, and expanded only
/// at depth 0 or where the caller asks for it.
pub open spec fn new_node(
    id: nat,
    name: Seq<char>,
    path: Seq<char>,
    kind: TreeNodeType,
    depth: nat,
    is_root_folder: bool,
) -> TreeNodeView {
    TreeNodeView {
        id,
        name,
        path,
        node_type: kind,
        children: Seq::empty(),
        is_expanded: depth == 0 || is_root_folder,
        selection_state: NodeSelectionState::NotSelected,
        depth,
    }
}

/// `forest` with a node of that name and kind at its end if it had none,
/// and the next free id.
pub open spec fn find_or_create(
    forest: Seq<TreeNodeView>,
    name: Seq<char>,
    path: Seq<char>,
    kind: TreeNodeType,
    next_id: nat,
    depth: nat,
    is_root_folder: bool,
) -> (Seq<TreeNodeView>, nat) {
    if position_of(forest, name, kind) < forest.len() {
        (forest, next_id)
    } else {
        (forest.push(new_node(next_id, name, path, kind, depth, is_root_folder)), next_id + 1)
    }
}

/// Whether a file node with that path stands in `forest` itself.
pub open spec fn has_file(forest: Seq<TreeNodeView>, path: Seq<char>) -> bool {
    exists|i: int|
        0 <= i < forest.len() && (#[trigger] forest[i]).path == path && forest[i].node_type
            == TreeNodeType::File
}

/// The node of a file.
pub open spec fn file_node(
    id: nat,
    name: Seq<char>,
    path: Seq<char>,
    depth: nat,
    selected: bool,
) -> TreeNodeView {
    TreeNodeView {
        id,
        name,
        path,
        node_type: TreeNodeType::File,
        children: Seq::empty(),
        is_expanded: false,
        selection_state: if selected {
            NodeSelectionState::Selected
        } else {
            NodeSelectionState::NotSelected
        },
        depth,
    }
}

/// `node` with other children.
pub open spec fn with_children(node: TreeNodeView, children: Seq<TreeNodeView>) -> TreeNodeView {
    TreeNodeView { children, ..node }
}

/// `forest` after the file at `file_path` is entered under the components
/// `comps[level..]`, and the next free id. Every component but the last
/// names a folder, found or created at its level; `folder_path` is the path
/// of the folder that holds `forest`. The last component names the file,
/// which is entered unless a file of that path stands there already.
pub open spec fn insert_path(
    forest: Seq<TreeNodeView>,
    comps: Seq<Seq<char>>,
    level: nat,
    folder_path: Seq<char>,
    file_path: Seq<char>,
    selected: bool,
    next_id: nat,
) -> (Seq<TreeNodeView>, nat)
    decreases comps.len() - level,
{
    if level >= comps.len() {
        (forest, next_id)
    } else if level == comps.len() - 1 {
        if has_file(forest, file_path) {
            (forest, next_id)
        } else {
            (forest.push(file_node(next_id, comps[level as int], file_path, level, selected)), next_id + 1)
        }
    } else {
        let name = comps[level as int];
        let path = path_join(folder_path, name);
        let at = position_of(forest, name, TreeNodeType::Folder);
        let (found, id) = find_or_create(
            forest,
            name,
            path,
            TreeNodeType::Folder,
            next_id,
            level,
            level == 0,
        );
        let (children, last_id) = insert_path(
            found[at].children,
            comps,
            level + 1,
            path,
            file_path,
            selected,
            id,
        );
        (found.update(at, with_children(found[at], children)), last_id)
    }
}

/// The components under which a file is entered: those of its path
/// relative to `root`, or, where the file lies outside `root` or is `root`
/// itself, its name as the one component.
pub open spec fn tree_components(file: FileInfoView, root: Seq<char>) -> Seq<Seq<char>> {
    match strip_prefix(file.path, root) {
        Some(rel) => if all_components(rel).len() > 0 {
            all_components(rel)
        } else {
            seq![file.name]
        },
        None => seq![file.name],
    }
}

/// `sorted` with `file` entered behind the last record that does not come
/// after it in the order of paths.
pub open spec fn insert_by_path(sorted: Seq<FileInfoView>, file: FileInfoView) -> Seq<FileInfoView>
    decreases sorted.len(),
{
    if sorted.len() == 0 {
        seq![file]
    } else if key_le(path_key(sorted.last().path), path_key(file.path)) {
        sorted.push(file)
    } else {
        insert_by_path(sorted.drop_last(), file).push(sorted.last())
    }
}

/// `files` in the order of their paths; records of equal rank keep their
/// order.
pub open spec fn sorted_by_path(files: Seq<FileInfoView>) -> Seq<FileInfoView>
    decreases files.len(),
{
    if files.len() == 0 {
        Seq::empty()
    } else {
        insert_by_path(sorted_by_path(files.drop_last()), files.last())
    }
}

/// The forest after the first `count` of `files` are entered in turn, and
/// the next free id.
pub open spec fn build_from(
    files: Seq<FileInfoView>,
    selected: Set<Seq<char>>,
    root: Seq<char>,
    count: nat,
) -> (Seq<TreeNodeView>, nat)
    decreases count,
{
    if count == 0 {
        (Seq::empty(), 0)
    } else {
        let (forest, next_id) = build_from(files, selected, root, (count - 1) as nat);
        let file = files[count - 1];
        insert_path(
            forest,
            tree_components(file, root),
            0,
            root,
            file.path,
            selected.contains(file.path),
            next_id,
        )
    }
}

/// The forest for `files`: the files are entered in the order of their
/// paths, ids are given from 0 in the order in which nodes are created.
pub open spec fn build_tree(
    files: Seq<FileInfoView>,
    selected: Set<Seq<char>>,
    root: Seq<char>,
) -> Seq<TreeNodeView> {
    build_from(sorted_by_path(files), selected, root, files.len()).0
}

/// An upper bound on the nodes that `files` give rise to: the number of
/// components under which they are entered.
pub open spec fn node_budget(files: Seq<FileInfoView>, root: Seq<char>) -> nat
    decreases files.len(),
{
    if files.len() == 0 {
        0
    } else {
        node_budget(files.drop_last(), root) + tree_components(files.last(), root).len()
    }
}

/// Pushing a node onto blueprints pushes its view onto their views.
pub proof fn lemma_blueprint_views_push(nodes: Seq<FileTreeNodeBlueprint>, node: FileTreeNodeBlueprint)
    ensures
        blueprint_views(nodes.push(node)) == blueprint_views(nodes).push(node@),
{
    assert(blueprint_views(nodes.push(node)) =~= blueprint_views(nodes).push(node@));
}

/// Finds the node of that name and kind among `children`, or adds one at
/// the end under the next id. Returns where the node stands.
pub fn find_or_create_blueprint_node(
    children: &mut Vec<FileTreeNodeBlueprint>,
    name: &str,
    full_path: &str,
    node_type: TreeNodeType,
    current_id_counter: &mut usize,
    depth: usize,
    is_root_folder: bool,
) -> (at: usize)
    requires
        *old(current_id_counter) < usize::MAX,
    ensures
        (blueprint_views(final(children)@), *final(current_id_counter) as nat) == find_or_create(
            blueprint_views(old(children)@),
            name@,
            full_path@,
            node_type,
            *old(current_id_counter) as nat,
            depth as nat,
            is_root_folder,
        ),
        at == position_of(blueprint_views(old(children)@), name@, node_type),
        at < final(children).len(),
{
    let ghost forest = blueprint_views(children@);
    let mut i: usize = 0;
    proof {
        assert(forest.skip(0) =~= forest);
    }
    while i < children.len()
        invariant
            i <= children.len(),
            children == old(children),
            forest == blueprint_views(children@),
            position_of(forest, name@, node_type) == i + position_of(
                forest.skip(i as int),
                name@,
                node_type,
            ),
        decreases children.len() - i,
    {
        proof {
            assert(forest.skip(i as int)[0] == children@[i as int]@);
            assert(forest.skip(i as int).skip(1) =~= forest.skip(i + 1));
        }
        if same_text(children[i].name.as_str(), name) && children[i].node_type == node_type {
            return i;
        }
        i += 1;
    }
    let id = *current_id_counter;
    *current_id_counter = id + 1;
    let node = FileTreeNodeBlueprint {
        id,
        name: name.to_owned(),
        path: full_path.to_owned(),
        node_type,
        children: Vec::new(),
        is_expanded: if depth == 0 {
            true
        } else {
            is_root_folder
        },
        selection_state: NodeSelectionState::NotSelected,
        depth,
    };
    proof {
        assert(node@.children =~= Seq::<TreeNodeView>::empty());
        assert(node@ == new_node(id as nat, name@, full_path@, node_type, depth as nat, is_root_folder));
        lemma_blueprint_views_push(children@, node);
    }
    children.push(node);
    i
}

/// Whether a file node with that path stands among `children`.
fn holds_file(children: &Vec<FileTreeNodeBlueprint>, path: &str) -> (r: bool)
    ensures
        r == has_file(blueprint_views(children@), path@),
{
    let ghost forest = blueprint_views(children@);
    let mut i: usize = 0;
    while i < children.len()
        invariant
            i <= children.len(),
            forest == blueprint_views(children@),
            forall|k: int|
                0 <= k < i ==> !((#[trigger] forest[k]).path == path@ && forest[k].node_type
                    == TreeNodeType::File),
        decreases children.len() - i,
    {
        if same_text(children[i].path.as_str(), path) && children[i].node_type == TreeNodeType::File {
            proof {
                assert(forest[i as int].path == path@);
            }
            return true;
        }
        i += 1;
    }
    false
}

/// Enters the file at `file_path` under the components `comps[level..]`.
fn insert_file(
    children: &mut Vec<FileTreeNodeBlueprint>,
    comps: &Vec<String>,
    level: usize,
    folder_path: &str,
    file_path: &str,
    selected: bool,
    counter: &mut usize,
)
    requires
        level <= comps.len(),
        *old(counter) + (comps.len() - level) <= usize::MAX,
    ensures
        (blueprint_views(final(children)@), *final(counter) as nat) == insert_path(
            blueprint_views(old(children)@),
            comps.deep_view(),
            level as nat,
            folder_path@,
            file_path@,
            selected,
            *old(counter) as nat,
        ),
        *old(counter) <= *final(counter) <= *old(counter) + (comps.len() - level),
    decreases comps.len() - level,
{
    if level >= comps.len() {
        return ;
    }
    proof {
        assert(comps.deep_view()[level as int] == comps@[level as int]@);
    }
    if level == comps.len() - 1 {
        if !holds_file(children, file_path) {
            let id = *counter;
            *counter = id + 1;
            let node = FileTreeNodeBlueprint {
                id,
                name: comps[level].clone(),
                path: file_path.to_owned(),
                node_type: TreeNodeType::File,
                children: Vec::new(),
                is_expanded: false,
                selection_state: if selected {
                    NodeSelectionState::Selected
                } else {
                    NodeSelectionState::NotSelected
                },
                depth: level,
            };
            proof {
                assert(node@.children =~= Seq::<TreeNodeView>::empty());
                assert(node@ == file_node(
                    id as nat,
                    comps@[level as int]@,
                    file_path@,
                    level as nat,
                    selected,
                ));
                lemma_blueprint_views_push(children@, node);
            }
            children.push(node);
        }
    } else {
        let path = join(folder_path, comps[level].as_str());
        let at = find_or_create_blueprint_node(
            children,
            comps[level].as_str(),
            path.as_str(),
            TreeNodeType::Folder,
            counter,
            level,
            level == 0,
        );
        let ghost found = children@;
        proof {
            lemma_blueprint_children(found[at as int]);
        }
        insert_file(
            &mut children[at].children,
            comps,
            level + 1,
            path.as_str(),
            file_path,
            selected,
            counter,
        );
        proof {
            let node = children@[at as int];
            lemma_blueprint_children(node);
            assert(node@ == with_children(found[at as int]@, blueprint_views(node.children@)));
            assert(blueprint_views(children@) =~= blueprint_views(found).update(
                at as int,
                with_children(found[at as int]@, blueprint_views(node.children@)),
            ));
        }
    }
}

/// Entering `file` at `at` is what `insert_by_path` does, where every
/// record from `at` on comes after `file` and the one before `at` does not.
pub proof fn lemma_insert_by_path_at(sorted: Seq<FileInfoView>, file: FileInfoView, at: int)
    requires
        0 <= at <= sorted.len(),
        forall|k: int|
            at <= k < sorted.len() ==> !key_le(
                path_key((#[trigger] sorted[k]).path),
                path_key(file.path),
            ),
        at > 0 ==> key_le(path_key(sorted[at - 1].path), path_key(file.path)),
    ensures
        insert_by_path(sorted, file) == sorted.insert(at, file),
    decreases sorted.len(),
{
    if sorted.len() == 0 {
        assert(seq![file] =~= sorted.insert(at, file));
    } else if at == sorted.len() {
        assert(sorted.push(file) =~= sorted.insert(at, file));
    } else {
        assert(!key_le(path_key(sorted[sorted.len() - 1].path), path_key(file.path)));
        lemma_insert_by_path_at(sorted.drop_last(), file, at);
        assert(sorted.drop_last().insert(at, file).push(sorted.last()) =~= sorted.insert(at, file));
    }
}

/// Entering a record adds its components to the budget.
pub proof fn lemma_insert_by_path_budget(sorted: Seq<FileInfoView>, file: FileInfoView, root: Seq<char>)
    ensures
        node_budget(insert_by_path(sorted, file), root) == node_budget(sorted, root)
            + tree_components(file, root).len(),
    decreases sorted.len(),
{
    if sorted.len() == 0 {
        assert(seq![file].drop_last() =~= sorted);
    } else if key_le(path_key(sorted.last().path), path_key(file.path)) {
        assert(sorted.push(file).drop_last() =~= sorted);
    } else {
        lemma_insert_by_path_budget(sorted.drop_last(), file, root);
        let entered = insert_by_path(sorted.drop_last(), file);
        assert(entered.push(sorted.last()).drop_last() =~= entered);
    }
}

/// Sorting keeps the budget.
pub proof fn lemma_sorted_budget(files: Seq<FileInfoView>, root: Seq<char>)
    ensures
        node_budget(sorted_by_path(files), root) == node_budget(files, root),
        sorted_by_path(files).len() == files.len(),
    decreases files.len(),
{
    if files.len() > 0 {
        lemma_sorted_budget(files.drop_last(), root);
        lemma_insert_by_path_budget(sorted_by_path(files.drop_last()), files.last(), root);
        lemma_insert_by_path_len(sorted_by_path(files.drop_last()), files.last());
    }
}

/// Entering a record makes the sequence one longer.
pub proof fn lemma_insert_by_path_len(sorted: Seq<FileInfoView>, file: FileInfoView)
    ensures
        insert_by_path(sorted, file).len() == sorted.len() + 1,
    decreases sorted.len(),
{
    if sorted.len() > 0 && !key_le(path_key(sorted.last().path), path_key(file.path)) {
        lemma_insert_by_path_len(sorted.drop_last(), file);
    }
}

/// The budget of the first records is no more than that of all.
pub proof fn lemma_budget_grows(files: Seq<FileInfoView>, root: Seq<char>, count: int)
    requires
        0 <= count <= files.len(),
    ensures
        node_budget(files.take(count), root) <= node_budget(files, root),
    decreases files.len(),
{
    if count == files.len() {
        assert(files.take(count) =~= files);
    } else {
        lemma_budget_grows(files.drop_last(), root, count);
        assert(files.drop_last().take(count) =~= files.take(count));
    }
}

/// A copy of `files` in the order of their paths.
fn sort_by_path(files: &[FileInfo]) -> (sorted: Vec<FileInfo>)
    ensures
        file_views(sorted@) == sorted_by_path(file_views(files@)),
{
    let mut sorted: Vec<FileInfo> = Vec::new();
    let mut keys: Vec<Vec<String>> = Vec::new();
    let mut i: usize = 0;
    proof {
        assert(file_views(files@).take(0) =~= Seq::<FileInfoView>::empty());
        assert(file_views(sorted@) =~= Seq::<FileInfoView>::empty());
    }
    while i < files.len()
        invariant
            i <= files.len(),
            keys.len() == sorted.len(),
            forall|k: int|
                0 <= k < keys.len() ==> (#[trigger] keys@[k]).deep_view() == path_key(sorted@[k].path@),
            file_views(sorted@) == sorted_by_path(file_views(files@).take(i as int)),
        decreases files.len() - i,
    {
        let key = sort_key(files[i].path.as_str());
        let mut at: usize = sorted.len();
        while at > 0 && !key_precedes(&keys[at - 1], &key)
            invariant
                at <= sorted.len(),
                keys.len() == sorted.len(),
                forall|k: int|
                    0 <= k < keys.len() ==> (#[trigger] keys@[k]).deep_view() == path_key(
                        sorted@[k].path@,
                    ),
                forall|k: int|
                    at <= k < keys.len() ==> !key_le((#[trigger] keys@[k]).deep_view(), key.deep_view()),
            decreases at,
        {
            at -= 1;
        }
        let copy = files[i].duplicate();
        proof {
            let before = file_views(sorted@);
            let views = file_views(files@);
            assert forall|k: int| at <= k < before.len() implies !key_le(
                path_key((#[trigger] before[k]).path),
                path_key(copy@.path),
            ) by {
                assert(keys@[k].deep_view() == path_key(sorted@[k].path@));
            }
            if at > 0 {
                assert(keys@[at - 1].deep_view() == path_key(sorted@[at - 1].path@));
            }
            lemma_insert_by_path_at(before, copy@, at as int);
            assert(views.take(i + 1).drop_last() =~= views.take(i as int));
            assert(views.take(i + 1).last() == copy@);
            assert(file_views(sorted@.insert(at as int, copy)) =~= before.insert(at as int, copy@));
        }
        sorted.insert(at, copy);
        keys.insert(at, key);
        i += 1;
    }
    proof {
        assert(file_views(files@).take(files.len() as int) =~= file_views(files@));
    }
    sorted
}

/// The name of `file` as the one component under which it is entered.
fn name_alone(file: &FileInfo) -> (comps: Vec<String>)
    ensures
        comps.deep_view() == seq![file.name@],
{
    let mut comps: Vec<String> = Vec::new();
    comps.push(file.name.clone());
    proof {
        assert(comps.deep_view() =~= seq![file.name@]);
    }
    comps
}

/// The components under which `file` is entered.
fn tree_components_of(file: &FileInfo, root: &str) -> (comps: Vec<String>)
    ensures
        comps.deep_view() == tree_components(file@, root@),
{
    match relative_to(file.path.as_str(), root) {
        Some(rel) => {
            let comps = split_all_components(rel.as_str());
            if comps.len() > 0 {
                comps
            } else {
                name_alone(file)
            }
        },
        None => name_alone(file),
    }
}

/// Whether there is an id for every node that `files` can give rise to.
pub fn fits_node_budget(files: &[FileInfo], workspace_root: &str) -> (fits: bool)
    ensures
        fits == (node_budget(file_views(files@), workspace_root@) <= usize::MAX),
{
    let ghost views = file_views(files@);
    let mut sum: usize = 0;
    let mut i: usize = 0;
    proof {
        assert(views.take(0) =~= Seq::<FileInfoView>::empty());
    }
    while i < files.len()
        invariant
            i <= files.len(),
            views == file_views(files@),
            sum == node_budget(views.take(i as int), workspace_root@),
        decreases files.len() - i,
    {
        let comps = tree_components_of(&files[i], workspace_root);
        proof {
            assert(views.take(i + 1).drop_last() =~= views.take(i as int));
            assert(views.take(i + 1).last() == files@[i as int]@);
            lemma_budget_grows(views, workspace_root@, i + 1);
        }
        match sum.checked_add(comps.len()) {
            Some(next) => {
                sum = next;
            },
            None => {
                return false;
            },
        }
        i += 1;
    }
    proof {
        assert(views.take(files.len() as int) =~= views);
    }
    true
}

/// Builds the forest for `files`. The files are entered in the order of
/// their paths; a file outside `workspace_root` stands at the top under its
/// name; a file and a folder of one name stand side by side; ids count the
/// nodes from 0 in the order of their creation. Folders are left unselected.
pub fn build_tree_from_file_info(
    files: &[FileInfo],
    selected_paths: &SelectionSet,
    workspace_root: &str,
) -> (tree: Vec<FileTreeNodeBlueprint>)
    requires
        node_budget(file_views(files@), workspace_root@) <= usize::MAX,
    ensures
        blueprint_views(tree@) == build_tree(
            file_views(files@),
            selected_paths@,
            workspace_root@,
        ),
        is_built_forest(blueprint_views(tree@), selected_paths@),
        is_laid_out(blueprint_views(tree@), 0, workspace_root@),
        has_distinct_siblings(blueprint_views(tree@)),
        forest_has_distinct_ids(blueprint_views(tree@)),
{
    proof {
        lemma_build_tree_is_sound(file_views(files@), selected_paths@, workspace_root@);
    }
    let sorted = sort_by_path(files);
    let ghost views = file_views(sorted@);
    proof {
        lemma_sorted_budget(file_views(files@), workspace_root@);
    }
    let mut roots: Vec<FileTreeNodeBlueprint> = Vec::new();
    let mut counter: usize = 0;
    let mut i: usize = 0;
    proof {
        assert(blueprint_views(roots@) =~= Seq::<TreeNodeView>::empty());
        assert(views.take(0) =~= Seq::<FileInfoView>::empty());
    }
    while i < sorted.len()
        invariant
            i <= sorted.len(),
            views == file_views(sorted@),
            node_budget(views, workspace_root@) <= usize::MAX,
            counter <= node_budget(views.take(i as int), workspace_root@),
            (blueprint_views(roots@), counter as nat) == build_from(
                views,
                selected_paths@,
                workspace_root@,
                i as nat,
            ),
        decreases sorted.len() - i,
    {
        let comps = tree_components_of(&sorted[i], workspace_root);
        let selected = selected_paths.contains(sorted[i].path.as_str());
        proof {
            lemma_budget_grows(views, workspace_root@, i + 1);
            assert(views.take(i + 1).drop_last() =~= views.take(i as int));
            assert(views.take(i + 1).last() == sorted@[i as int]@);
        }
        insert_file(
            &mut roots,
            &comps,
            0,
            workspace_root,
            sorted[i].path.as_str(),
            selected,
            &mut counter,
        );
        i += 1;
    }
    roots
}

/// A node as it is shown: the state of a folder follows from the states of
/// its children.
#[derive(Debug, PartialEq)]
pub struct FileTreeNode {
    pub id: usize,
    pub name: String,
    pub path: String,
    pub node_type: TreeNodeType,
    pub children: Vec<FileTreeNode>,
    pub is_expanded: bool,
    pub selection_state: NodeSelectionState,
    pub depth: usize,
}

/// The plain value that a node stands for.
pub open spec fn node_view(node: FileTreeNode) -> TreeNodeView
    decreases node,
{
    TreeNodeView {
        id: node.id as nat,
        name: node.name@,
        path: node.path@,
        node_type: node.node_type,
        children: Seq::new(
            node.children@.len(),
            |i: int|
                if 0 <= i < node.children@.len() {
                    node_view(node.children@[i])
                } else {
                    arbitrary()
                },
        ),
        is_expanded: node.is_expanded,
        selection_state: node.selection_state,
        depth: node.depth as nat,
    }
}

impl View for FileTreeNode {
    type V = TreeNodeView;

    open spec fn view(&self) -> TreeNodeView {
        node_view(*self)
    }
}

/// The views of a sequence of nodes.
pub open spec fn node_views(nodes: Seq<FileTreeNode>) -> Seq<TreeNodeView> {
    Seq::new(nodes.len(), |i: int| nodes[i]@)
}

/// The children of a node's view are the views of its children.
pub proof fn lemma_node_children(node: FileTreeNode)
    ensures
        node@.children == node_views(node.children@),
{
    let kids = node@.children;
    let views = node_views(node.children@);
    assert forall|i: int| 0 <= i < kids.len() implies kids[i] == views[i] by {
        assert(kids[i] == node.children@[i]@);
    }
    assert(kids =~= views);
}

/// Whether every node of `children` is in state `state`.
pub open spec fn all_in_state(children: Seq<TreeNodeView>, state: NodeSelectionState) -> bool {
    forall|i: int| 0 <= i < children.len() ==> (#[trigger] children[i]).selection_state == state
}

/// The state of a folder with these children: selected where it has
/// children and all are selected, unselected where none is selected in
/// whole or in part, else selected in part.
pub open spec fn aggregate(children: Seq<TreeNodeView>) -> NodeSelectionState {
    if children.len() > 0 && all_in_state(children, NodeSelectionState::Selected) {
        NodeSelectionState::Selected
    } else if all_in_state(children, NodeSelectionState::NotSelected) {
        NodeSelectionState::NotSelected
    } else {
        NodeSelectionState::PartiallySelected
    }
}

/// `node` with the state of every folder derived from its children, from
/// the leaves up. Files keep their state.
pub open spec fn recompute(node: TreeNodeView) -> TreeNodeView
    decreases node,
{
    let children = Seq::new(
        node.children.len(),
        |i: int|
            if 0 <= i < node.children.len() {
                recompute(node.children[i])
            } else {
                arbitrary()
            },
    );
    TreeNodeView {
        children,
        selection_state: if node.node_type == TreeNodeType::File {
            node.selection_state
        } else {
            aggregate(children)
        },
        ..node
    }
}

/// Every tree of `forest` recomputed.
pub open spec fn recompute_forest(forest: Seq<TreeNodeView>) -> Seq<TreeNodeView> {
    Seq::new(forest.len(), |i: int| recompute(forest[i]))
}

/// The children of a recomputed node are its children recomputed.
pub proof fn lemma_recompute_children(node: TreeNodeView)
    ensures
        recompute(node).children == recompute_forest(node.children),
{
    assert(recompute(node).children =~= recompute_forest(node.children));
}

/// Whether the state of every folder in the tree of `node` is the one that
/// its children give it.
pub open spec fn is_consistent(node: TreeNodeView) -> bool
    decreases node,
{
    &&& node.node_type == TreeNodeType::Folder ==> node.selection_state == aggregate(node.children)
    &&& forall|i: int| 0 <= i < node.children.len() ==> is_consistent(#[trigger] node.children[i])
}

/// Whether every tree of `forest` is consistent.
pub open spec fn is_consistent_forest(forest: Seq<TreeNodeView>) -> bool {
    forall|i: int| 0 <= i < forest.len() ==> is_consistent(#[trigger] forest[i])
}

/// A recomputed tree is consistent.
pub proof fn lemma_recompute_is_consistent(node: TreeNodeView)
    ensures
        is_consistent(recompute(node)),
    decreases node,
{
    let after = recompute(node);
    assert forall|i: int| 0 <= i < after.children.len() implies is_consistent(
        #[trigger] after.children[i],
    ) by {
        lemma_recompute_is_consistent(node.children[i]);
    }
}

/// Recomputing a consistent tree changes nothing.
pub proof fn lemma_recompute_keeps_consistent(node: TreeNodeView)
    requires
        is_consistent(node),
    ensures
        recompute(node) == node,
    decreases node,
{
    let after = recompute(node);
    assert forall|i: int| 0 <= i < node.children.len() implies after.children[i]
        == node.children[i] by {
        lemma_recompute_keeps_consistent(node.children[i]);
    }
    assert(after.children =~= node.children);
}

/// Recomputing twice gives what recomputing once gives.
pub proof fn lemma_recompute_idempotent(node: TreeNodeView)
    ensures
        recompute(recompute(node)) == recompute(node),
{
    lemma_recompute_is_consistent(node);
    lemma_recompute_keeps_consistent(recompute(node));
}

/// Recomputing a forest twice gives what recomputing it once gives.
pub proof fn lemma_recompute_forest_idempotent(forest: Seq<TreeNodeView>)
    ensures
        recompute_forest(recompute_forest(forest)) == recompute_forest(forest),
        is_consistent_forest(recompute_forest(forest)),
{
    let once = recompute_forest(forest);
    assert forall|i: int| 0 <= i < once.len() implies recompute(once[i]) == once[i]
        && is_consistent(#[trigger] once[i]) by {
        lemma_recompute_idempotent(forest[i]);
        lemma_recompute_is_consistent(forest[i]);
    }
    assert(recompute_forest(once) =~= once);
}

/// In a consistent tree the state of a folder is selected exactly where it
/// has children and all are selected, unselected exactly where all its
/// children are unselected, which holds of a folder without children, and
/// selected in part in every other case.
pub proof fn lemma_tri_state(node: TreeNodeView)
    requires
        is_consistent(node),
        node.node_type == TreeNodeType::Folder,
    ensures
        node.selection_state == NodeSelectionState::Selected <==> node.children.len() > 0
            && all_in_state(node.children, NodeSelectionState::Selected),
        node.selection_state == NodeSelectionState::NotSelected <==> all_in_state(
            node.children,
            NodeSelectionState::NotSelected,
        ),
        node.selection_state == NodeSelectionState::PartiallySelected <==> !(node.children.len() > 0
            && all_in_state(node.children, NodeSelectionState::Selected)) && !all_in_state(
            node.children,
            NodeSelectionState::NotSelected,
        ),
{
    if node.children.len() > 0 && all_in_state(node.children, NodeSelectionState::Selected) {
        assert(node.children[0].selection_state == NodeSelectionState::Selected);
        assert(!all_in_state(node.children, NodeSelectionState::NotSelected));
    }
}

/// The state that the states of `children` give their folder.
fn aggregate_state(children: &Vec<FileTreeNode>) -> (state: NodeSelectionState)
    ensures
        state == aggregate(node_views(children@)),
{
    let ghost views = node_views(children@);
    let mut all_selected = true;
    let mut none_selected = true;
    let mut i: usize = 0;
    while i < children.len()
        invariant
            i <= children.len(),
            views == node_views(children@),
            all_selected == all_in_state(views.take(i as int), NodeSelectionState::Selected),
            none_selected == all_in_state(views.take(i as int), NodeSelectionState::NotSelected),
        decreases children.len() - i,
    {
        proof {
            let before = views.take(i as int);
            let after = views.take(i + 1);
            assert(after[i as int] == views[i as int]);
            assert(views[i as int].selection_state == children@[i as int].selection_state);
            assert forall|k: int| 0 <= k < before.len() implies before[k] == after[k] by {}
            if all_in_state(after, NodeSelectionState::Selected) {
                assert forall|k: int| 0 <= k < before.len() implies (#[trigger] before[k]).selection_state
                    == NodeSelectionState::Selected by {
                    assert(after[k].selection_state == NodeSelectionState::Selected);
                }
            }
            if all_in_state(after, NodeSelectionState::NotSelected) {
                assert forall|k: int| 0 <= k < before.len() implies (#[trigger] before[k]).selection_state
                    == NodeSelectionState::NotSelected by {
                    assert(after[k].selection_state == NodeSelectionState::NotSelected);
                }
            }
        }
        match children[i].selection_state {
            NodeSelectionState::Selected => {
                none_selected = false;
            },
            NodeSelectionState::NotSelected => {
                all_selected = false;
            },
            NodeSelectionState::PartiallySelected => {
                all_selected = false;
                none_selected = false;
            },
        }
        i += 1;
    }
    proof {
        assert(views.take(children.len() as int) =~= views);
    }
    if children.len() > 0 && all_selected {
        NodeSelectionState::Selected
    } else if none_selected {
        NodeSelectionState::NotSelected
    } else {
        NodeSelectionState::PartiallySelected
    }
}

/// The node for `blueprint`, with the states of the folders derived.
fn node_of(blueprint: &FileTreeNodeBlueprint) -> (node: FileTreeNode)
    ensures
        node@ == recompute(blueprint@),
    decreases blueprint,
{
    let mut children: Vec<FileTreeNode> = Vec::new();
    let mut i: usize = 0;
    while i < blueprint.children.len()
        invariant
            i <= blueprint.children.len(),
            children.len() == i,
            forall|k: int|
                0 <= k < i ==> (#[trigger] children@[k])@ == recompute(blueprint.children@[k]@),
        decreases blueprint.children.len() - i,
    {
        let child = node_of(&blueprint.children[i]);
        children.push(child);
        i += 1;
    }
    let selection_state = match blueprint.node_type {
        TreeNodeType::File => blueprint.selection_state,
        TreeNodeType::Folder => aggregate_state(&children),
    };
    let node = FileTreeNode {
        id: blueprint.id,
        name: blueprint.name.clone(),
        path: blueprint.path.clone(),
        node_type: blueprint.node_type,
        children,
        is_expanded: blueprint.is_expanded,
        selection_state,
        depth: blueprint.depth,
    };
    proof {
        lemma_node_children(node);
        lemma_blueprint_children(*blueprint);
        lemma_recompute_children(blueprint@);
        assert(node_views(node.children@) =~= recompute_forest(blueprint@.children));
    }
    node
}

/// Turns a blueprint into the node that is shown: every folder gets the
/// state that its children give it, from the leaves up; all else is kept.
pub fn convert_blueprint_to_file_tree_node_recursive(
    blueprint: FileTreeNodeBlueprint,
) -> (node: FileTreeNode)
    ensures
        node@ == recompute(blueprint@),
        is_consistent(node@),
{
    proof {
        lemma_recompute_is_consistent(blueprint@);
    }
    node_of(&blueprint)
}

/// Turns a forest of blueprints into the forest that is shown.
pub fn convert_forest(blueprints: &Vec<FileTreeNodeBlueprint>) -> (forest: Vec<FileTreeNode>)
    ensures
        node_views(forest@) == recompute_forest(blueprint_views(blueprints@)),
        is_consistent_forest(node_views(forest@)),
{
    let mut forest: Vec<FileTreeNode> = Vec::new();
    let mut i: usize = 0;
    while i < blueprints.len()
        invariant
            i <= blueprints.len(),
            forest.len() == i,
            forall|k: int| 0 <= k < i ==> (#[trigger] forest@[k])@ == recompute(blueprints@[k]@),
        decreases blueprints.len() - i,
    {
        let node = node_of(&blueprints[i]);
        forest.push(node);
        i += 1;
    }
    proof {
        assert(node_views(forest@) =~= recompute_forest(blueprint_views(blueprints@)));
        lemma_recompute_forest_idempotent(blueprint_views(blueprints@));
    }
    forest
}

/// Derives the state of every folder of the tree of `node` anew.
fn recompute_node(node: &mut FileTreeNode)
    ensures
        final(node)@ == recompute(old(node)@),
    decreases *old(node),
{
    let ghost before = *node;
    let mut i: usize = 0;
    while i < node.children.len()
        invariant
            i <= node.children.len(),
            before == *old(node),
            node.children.len() == before.children.len(),
            node.id == before.id,
            node.name == before.name,
            node.path == before.path,
            node.node_type == before.node_type,
            node.is_expanded == before.is_expanded,
            node.selection_state == before.selection_state,
            node.depth == before.depth,
            forall|k: int|
                0 <= k < i ==> (#[trigger] node.children@[k])@ == recompute(before.children@[k]@),
            forall|k: int|
                i <= k < node.children.len() ==> #[trigger] node.children@[k] == before.children@[k],
        decreases node.children.len() - i,
    {
        proof {
            assert(node.children@[i as int] == before.children@[i as int]);
            assert(decreases_to!(before => before.children@[i as int]));
        }
        recompute_node(&mut node.children[i]);
        i += 1;
    }
    if node.node_type == TreeNodeType::Folder {
        node.selection_state = aggregate_state(&node.children);
    }
    proof {
        lemma_node_children(*node);
        lemma_node_children(before);
        lemma_recompute_children(before@);
        assert(node_views(node.children@) =~= recompute_forest(before@.children));
    }
}

/// Derives the state of every folder of `forest` from its children, from
/// the leaves up. Nothing else changes, and a second run changes nothing.
pub fn recompute_all(forest: &mut Vec<FileTreeNode>)
    ensures
        node_views(final(forest)@) == recompute_forest(node_views(old(forest)@)),
        is_consistent_forest(node_views(final(forest)@)),
{
    let mut i: usize = 0;
    while i < forest.len()
        invariant
            i <= forest.len(),
            forest.len() == old(forest).len(),
            forall|k: int| 0 <= k < i ==> (#[trigger] forest@[k])@ == recompute(old(forest)@[k]@),
            forall|k: int| i <= k < forest.len() ==> #[trigger] forest@[k] == old(forest)@[k],
        decreases forest.len() - i,
    {
        recompute_node(&mut forest[i]);
        i += 1;
    }
    proof {
        assert(node_views(forest@) =~= recompute_forest(node_views(old(forest)@)));
        lemma_recompute_forest_idempotent(node_views(old(forest)@));
    }
}

/// The paths of the files in the tree of `node`, from left to right: the
/// path of `node` itself where it is a file, else those of the files
/// beneath it.
pub open spec fn file_paths(node: TreeNodeView) -> Seq<Seq<char>>
    decreases node,
{
    if node.node_type == TreeNodeType::File {
        seq![node.path]
    } else {
        forest_file_paths(node.children)
    }
}

/// The paths of the files in the trees of `forest`, from left to right.
pub open spec fn forest_file_paths(forest: Seq<TreeNodeView>) -> Seq<Seq<char>>
    decreases forest,
{
    if forest.len() == 0 {
        Seq::empty()
    } else {
        forest_file_paths(forest.drop_last()) + file_paths(forest.last())
    }
}

impl FileTreeNode {
    /// The paths of all files in the tree of this node. Called on a file it
    /// gives the path of that file.
    pub fn collect_all_file_paths_recursive(&self) -> (paths: Vec<String>)
        ensures
            paths.deep_view() == file_paths(self@),
        decreases self,
    {
        let mut paths: Vec<String> = Vec::new();
        if self.node_type == TreeNodeType::File {
            paths.push(self.path.clone());
            proof {
                assert(paths.deep_view() =~= seq![self.path@]);
            }
            return paths;
        }
        let ghost views = node_views(self.children@);
        let mut i: usize = 0;
        proof {
            lemma_node_children(*self);
            assert(views.take(0) =~= Seq::<TreeNodeView>::empty());
            assert(paths.deep_view() =~= Seq::<Seq<char>>::empty());
        }
        while i < self.children.len()
            invariant
                i <= self.children.len(),
                views == node_views(self.children@),
                paths.deep_view() == forest_file_paths(views.take(i as int)),
            decreases self.children.len() - i,
        {
            let ghost before = paths.deep_view();
            let mut found = self.children[i].collect_all_file_paths_recursive();
            let ghost added = found.deep_view();
            paths.append(&mut found);
            proof {
                assert(paths.deep_view() =~= before + added);
                assert(views.take(i + 1).drop_last() =~= views.take(i as int));
                assert(views.take(i + 1).last() == self.children@[i as int]@);
            }
            i += 1;
        }
        proof {
            assert(views.take(self.children.len() as int) =~= views);
        }
        paths
    }
}

impl FileTreeNodeBlueprint {
    /// A copy of this blueprint and of all beneath it.
    pub fn duplicate(&self) -> (copy: Self)
        ensures
            copy@ == self@,
        decreases self,
    {
        let mut children: Vec<FileTreeNodeBlueprint> = Vec::new();
        let mut i: usize = 0;
        while i < self.children.len()
            invariant
                i <= self.children.len(),
                children.len() == i,
                forall|k: int| 0 <= k < i ==> (#[trigger] children@[k])@ == self.children@[k]@,
            decreases self.children.len() - i,
        {
            let child = self.children[i].duplicate();
            children.push(child);
            i += 1;
        }
        let copy = FileTreeNodeBlueprint {
            id: self.id,
            name: self.name.clone(),
            path: self.path.clone(),
            node_type: self.node_type,
            children,
            is_expanded: self.is_expanded,
            selection_state: self.selection_state,
            depth: self.depth,
        };
        proof {
            lemma_blueprint_children(copy);
            lemma_blueprint_children(*self);
            assert(blueprint_views(copy.children@) =~= blueprint_views(self.children@));
        }
        copy
    }
}

impl Clone for FileTreeNodeBlueprint {
    fn clone(&self) -> (copy: Self)
        ensures
            copy@ == self@,
    {
        self.duplicate()
    }
}

impl FileTreeNode {
    /// A copy of this node and of all beneath it.
    pub fn duplicate(&self) -> (copy: Self)
        ensures
            copy@ == self@,
        decreases self,
    {
        let mut children: Vec<FileTreeNode> = Vec::new();
        let mut i: usize = 0;
        while i < self.children.len()
            invariant
                i <= self.children.len(),
                children.len() == i,
                forall|k: int| 0 <= k < i ==> (#[trigger] children@[k])@ == self.children@[k]@,
            decreases self.children.len() - i,
        {
            let child = self.children[i].duplicate();
            children.push(child);
            i += 1;
        }
        let copy = FileTreeNode {
            id: self.id,
            name: self.name.clone(),
            path: self.path.clone(),
            node_type: self.node_type,
            children,
            is_expanded: self.is_expanded,
            selection_state: self.selection_state,
            depth: self.depth,
        };
        proof {
            lemma_node_children(copy);
            lemma_node_children(*self);
            assert(node_views(copy.children@) =~= node_views(self.children@));
        }
        copy
    }
}

impl Clone for FileTreeNode {
    fn clone(&self) -> (copy: Self)
        ensures
            copy@ == self@,
    {
        self.duplicate()
    }
}

} // verus!
