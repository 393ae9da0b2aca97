use context_loader::file_tree::build_tree_from_file_info;
use context_loader::file_tree::convert_blueprint_to_file_tree_node_recursive;
use context_loader::file_tree::convert_forest;
use context_loader::file_tree::fits_node_budget;
use context_loader::file_tree::recompute_all;
use context_loader::file_tree::FileTreeNode;
use context_loader::file_tree::FileTreeNodeBlueprint;
use context_loader::file_tree::NodeSelectionState;
use context_loader::file_tree::TreeNodeType;
use context_loader::fs_utils::FileInfo;
use context_loader::selection::SelectionSet;
use context_loader::session::find_by_id;
use context_loader::session::toggle;

fn join(root: &str, rel: &str) -> String {
    format!("{}/{}", root, rel)
}

fn create_file_info(path_str: &str, workspace_root_for_test: &str) -> FileInfo {
    let absolute_path = join(workspace_root_for_test, path_str);
    let name = absolute_path.rsplit('/').next().unwrap_or("").to_string();
    FileInfo { name, path: absolute_path, size: 0, token_count: 0 }
}

fn collect_ids(nodes: &[FileTreeNodeBlueprint], ids: &mut Vec<usize>) {
    for node in nodes {
        ids.push(node.id);
        collect_ids(&node.children, ids);
    }
}

fn collect_names_and_depths(nodes: &[FileTreeNodeBlueprint], names_depths: &mut Vec<(String, usize)>) {
    for node in nodes {
        names_depths.push((node.name.clone(), node.depth));
        if !node.children.is_empty() {
            collect_names_and_depths(&node.children, names_depths);
        }
    }
}

fn find_node_by_path<'a>(nodes: &'a [FileTreeNode], path_to_find: &str) -> Option<&'a FileTreeNode> {
    for node in nodes {
        if node.path == path_to_find {
            return Some(node);
        }
        if node.node_type == TreeNodeType::Folder {
            if let Some(found_in_child) = find_node_by_path(&node.children, path_to_find) {
                return Some(found_in_child);
            }
        }
    }
    None
}

fn selection_of(paths: &[String]) -> SelectionSet {
    let mut set = SelectionSet::new();
    for p in paths {
        set.insert(p.clone());
    }
    set
}

fn shown(files: &[FileInfo], selected: &SelectionSet, root: &str) -> Vec<FileTreeNode> {
    assert!(fits_node_budget(files, root));
    let blueprints = build_tree_from_file_info(files, selected, root);
    blueprints.into_iter().map(convert_blueprint_to_file_tree_node_recursive).collect()
}

#[test]
fn test_build_tree_empty() {
    let files: Vec<FileInfo> = Vec::new();
    let selected_paths = SelectionSet::new();
    let workspace_root = "/test_ws";
    let tree = build_tree_from_file_info(&files, &selected_paths, workspace_root);
    assert!(tree.is_empty(), "Tree should be empty for no input files");
}

#[test]
fn test_build_tree_flat_list() {
    let workspace_root = "/test_ws";
    let files = vec![
        create_file_info("file1.txt", workspace_root),
        create_file_info("file2.rs", workspace_root),
        create_file_info("file3.md", workspace_root),
    ];
    let mut selected_paths = SelectionSet::new();
    selected_paths.insert(join(workspace_root, "file2.rs"));

    let tree = build_tree_from_file_info(&files, &selected_paths, workspace_root);

    assert_eq!(tree.len(), 3, "Should have 3 root nodes");

    let node1 = tree.iter().find(|n| n.name == "file1.txt").expect("file1.txt not found");
    assert_eq!(node1.path, join(workspace_root, "file1.txt"));
    assert_eq!(node1.node_type, TreeNodeType::File);
    assert_eq!(node1.depth, 0);
    assert!(!node1.is_expanded, "File node should not be expanded");
    assert_eq!(node1.selection_state, NodeSelectionState::NotSelected);
    assert!(node1.children.is_empty());

    let node2 = tree.iter().find(|n| n.name == "file2.rs").expect("file2.rs not found");
    assert_eq!(node2.path, join(workspace_root, "file2.rs"));
    assert_eq!(node2.node_type, TreeNodeType::File);
    assert_eq!(node2.depth, 0);
    assert_eq!(node2.selection_state, NodeSelectionState::Selected);
    assert!(node2.children.is_empty());

    let node3 = tree.iter().find(|n| n.name == "file3.md").expect("file3.md not found");
    assert_eq!(node3.path, join(workspace_root, "file3.md"));
    assert_eq!(node3.node_type, TreeNodeType::File);
    assert_eq!(node3.depth, 0);
    assert_eq!(node3.selection_state, NodeSelectionState::NotSelected);
    assert!(node3.children.is_empty());

    let mut ids = tree.iter().map(|n| n.id).collect::<Vec<_>>();
    ids.sort();
    assert_eq!(ids, vec![0, 1, 2], "IDs should be unique and sequential for flat list");
}

#[test]
fn test_build_tree_nested_structure() {
    let workspace_root = "/test_ws";
    let files = vec![
        create_file_info("src/main.rs", workspace_root),
        create_file_info("src/components/button.rs", workspace_root),
        create_file_info("README.md", workspace_root),
        create_file_info("src/components/mod.rs", workspace_root),
    ];
    let mut selected_paths = SelectionSet::new();
    selected_paths.insert(join(workspace_root, "src/main.rs"));
    selected_paths.insert(join(workspace_root, "src/components/button.rs"));

    let tree = build_tree_from_file_info(&files, &selected_paths, workspace_root);

    assert_eq!(tree.len(), 2, "Should have 2 root nodes (README.md, src)");

    let readme_node = tree.iter().find(|n| n.name == "README.md").expect("README.md not found");
    assert_eq!(readme_node.node_type, TreeNodeType::File);
    assert_eq!(readme_node.path, join(workspace_root, "README.md"));
    assert_eq!(readme_node.depth, 0);
    assert!(!readme_node.is_expanded);
    assert_eq!(readme_node.selection_state, NodeSelectionState::NotSelected);
    assert!(readme_node.children.is_empty());

    let src_node = tree
        .iter()
        .find(|n| n.name == "src" && n.node_type == TreeNodeType::Folder)
        .expect("src folder not found");
    assert_eq!(src_node.path, join(workspace_root, "src"));
    assert_eq!(src_node.depth, 0);
    assert!(src_node.is_expanded, "Root folder 'src' should be expanded by default");
    assert_eq!(src_node.selection_state, NodeSelectionState::NotSelected);
    assert_eq!(src_node.children.len(), 2, "'src' folder should have 2 children (main.rs, components)");

    let main_rs_node =
        src_node.children.iter().find(|n| n.name == "main.rs").expect("src/main.rs not found");
    assert_eq!(main_rs_node.node_type, TreeNodeType::File);
    assert_eq!(main_rs_node.path, join(workspace_root, "src/main.rs"));
    assert_eq!(main_rs_node.depth, 1);
    assert!(!main_rs_node.is_expanded);
    assert_eq!(main_rs_node.selection_state, NodeSelectionState::Selected);
    assert!(main_rs_node.children.is_empty());

    let components_node = src_node
        .children
        .iter()
        .find(|n| n.name == "components" && n.node_type == TreeNodeType::Folder)
        .expect("src/components folder not found");
    assert_eq!(components_node.path, join(workspace_root, "src/components"));
    assert_eq!(components_node.depth, 1);
    assert!(!components_node.is_expanded, "Folder 'src/components' should be collapsed by default");
    assert_eq!(components_node.selection_state, NodeSelectionState::NotSelected);
    assert_eq!(
        components_node.children.len(),
        2,
        "'components' folder should have 2 children (button.rs, mod.rs)"
    );

    let button_rs_node = components_node
        .children
        .iter()
        .find(|n| n.name == "button.rs")
        .expect("src/components/button.rs not found");
    assert_eq!(button_rs_node.node_type, TreeNodeType::File);
    assert_eq!(button_rs_node.path, join(workspace_root, "src/components/button.rs"));
    assert_eq!(button_rs_node.depth, 2);
    assert_eq!(button_rs_node.selection_state, NodeSelectionState::Selected);
    assert!(button_rs_node.children.is_empty());

    let mod_rs_node = components_node
        .children
        .iter()
        .find(|n| n.name == "mod.rs")
        .expect("src/components/mod.rs not found");
    assert_eq!(mod_rs_node.node_type, TreeNodeType::File);
    assert_eq!(mod_rs_node.path, join(workspace_root, "src/components/mod.rs"));
    assert_eq!(mod_rs_node.depth, 2);
    assert_eq!(mod_rs_node.selection_state, NodeSelectionState::NotSelected);
    assert!(mod_rs_node.children.is_empty());

    let mut ids = Vec::new();
    collect_ids(&tree, &mut ids);
    ids.sort();
    let expected_ids: Vec<usize> = (0..ids.len()).collect();
    assert_eq!(ids, expected_ids, "IDs should be unique and sequential across the tree");
}

#[test]
fn test_build_tree_paths_with_common_prefix_but_different_roots() {
    let workspace_root = "/test_ws";
    let files = vec![
        create_file_info("project_a/src/main.rs", workspace_root),
        create_file_info("project_b/src/main.rs", workspace_root),
    ];
    let selected_paths = SelectionSet::new();
    let tree = build_tree_from_file_info(&files, &selected_paths, workspace_root);

    assert_eq!(tree.len(), 2, "Should have two root folders: project_a and project_b");

    let project_a_node = tree.iter().find(|n| n.name == "project_a").expect("project_a not found");
    assert_eq!(project_a_node.depth, 0);
    assert_eq!(project_a_node.node_type, TreeNodeType::Folder);
    assert!(project_a_node.is_expanded);
    assert_eq!(project_a_node.children.len(), 1);
    assert_eq!(project_a_node.path, join(workspace_root, "project_a"));

    let project_a_src_node =
        project_a_node.children.iter().find(|n| n.name == "src").expect("project_a/src not found");
    assert_eq!(project_a_src_node.depth, 1);
    assert_eq!(project_a_src_node.node_type, TreeNodeType::Folder);
    assert!(!project_a_src_node.is_expanded);
    assert_eq!(project_a_src_node.children.len(), 1);
    assert_eq!(project_a_src_node.path, join(workspace_root, "project_a/src"));

    let project_a_main_rs_node = project_a_src_node
        .children
        .iter()
        .find(|n| n.name == "main.rs")
        .expect("project_a/src/main.rs not found");
    assert_eq!(project_a_main_rs_node.depth, 2);
    assert_eq!(project_a_main_rs_node.node_type, TreeNodeType::File);
    assert_eq!(project_a_main_rs_node.path, join(workspace_root, "project_a/src/main.rs"));

    let project_b_node = tree.iter().find(|n| n.name == "project_b").expect("project_b not found");
    assert_eq!(project_b_node.depth, 0);
    assert_eq!(project_b_node.node_type, TreeNodeType::Folder);
    assert!(project_b_node.is_expanded);
    assert_eq!(project_b_node.children.len(), 1);
    assert_eq!(project_b_node.path, join(workspace_root, "project_b"));

    let project_b_src_node =
        project_b_node.children.iter().find(|n| n.name == "src").expect("project_b/src not found");
    assert_eq!(project_b_src_node.depth, 1);
    assert_eq!(project_b_src_node.node_type, TreeNodeType::Folder);
    assert!(!project_b_src_node.is_expanded);
    assert_eq!(project_b_src_node.children.len(), 1);
    assert_eq!(project_b_src_node.path, join(workspace_root, "project_b/src"));

    let project_b_main_rs_node = project_b_src_node
        .children
        .iter()
        .find(|n| n.name == "main.rs")
        .expect("project_b/src/main.rs not found");
    assert_eq!(project_b_main_rs_node.depth, 2);
    assert_eq!(project_b_main_rs_node.node_type, TreeNodeType::File);
    assert_eq!(project_b_main_rs_node.path, join(workspace_root, "project_b/src/main.rs"));
}

#[test]
fn test_build_tree_file_and_folder_same_name_at_root() {
    let workspace_root = "/test_ws";
    let files = vec![
        create_file_info("foo", workspace_root),
        create_file_info("foo/bar.txt", workspace_root),
    ];
    let selected_paths = SelectionSet::new();
    let tree = build_tree_from_file_info(&files, &selected_paths, workspace_root);

    assert_eq!(tree.len(), 2, "Should have two root items: file 'foo' and folder 'foo'");

    let file_foo = tree
        .iter()
        .find(|n| n.name == "foo" && n.node_type == TreeNodeType::File)
        .expect("File 'foo' not found at root");
    assert_eq!(file_foo.depth, 0);
    assert_eq!(file_foo.path, join(workspace_root, "foo"));
    assert!(file_foo.children.is_empty());

    let folder_foo = tree
        .iter()
        .find(|n| n.name == "foo" && n.node_type == TreeNodeType::Folder)
        .expect("Folder 'foo' not found at root");
    assert_eq!(folder_foo.depth, 0);
    assert_eq!(folder_foo.path, join(workspace_root, "foo"));
    assert!(folder_foo.is_expanded);
    assert_eq!(folder_foo.children.len(), 1, "Folder 'foo' should contain 'bar.txt'");

    let bar_txt_node =
        folder_foo.children.iter().find(|n| n.name == "bar.txt").expect("foo/bar.txt not found");
    assert_eq!(bar_txt_node.node_type, TreeNodeType::File);
    assert_eq!(bar_txt_node.depth, 1);
    assert_eq!(bar_txt_node.path, join(workspace_root, "foo/bar.txt"));
}

#[test]
fn test_build_tree_id_uniqueness_and_order() {
    let workspace_root = "/test_ws";
    let files = vec![
        create_file_info("a.txt", workspace_root),
        create_file_info("b/c.txt", workspace_root),
        create_file_info("d.txt", workspace_root),
    ];
    let selected_paths = SelectionSet::new();

    let tree = build_tree_from_file_info(&files, &selected_paths, workspace_root);

    assert_eq!(tree.len(), 3, "Root should contain a.txt, folder b, d.txt");

    let mut actual_names_at_root = tree.iter().map(|n| n.name.clone()).collect::<Vec<_>>();
    actual_names_at_root.sort();
    assert_eq!(actual_names_at_root, vec!["a.txt", "b", "d.txt"]);

    let b_folder = tree
        .iter()
        .find(|n| n.name == "b" && n.node_type == TreeNodeType::Folder)
        .expect("Folder 'b' not found");
    assert_eq!(b_folder.children.len(), 1, "Folder 'b' should have one child");
    assert_eq!(b_folder.children[0].name, "c.txt", "Child of 'b' should be 'c.txt'");
    assert_eq!(b_folder.children[0].node_type, TreeNodeType::File);

    let mut ids = Vec::new();
    collect_ids(&tree, &mut ids);
    ids.sort();
    assert_eq!(ids, vec![0, 1, 2, 3], "IDs should be 0, 1, 2, 3 after sorting for all created nodes");
}

fn create_test_file_node(
    id: usize,
    name: &str,
    path_str: &str,
    selection_state: NodeSelectionState,
    depth: usize,
) -> FileTreeNode {
    FileTreeNode {
        id,
        name: name.to_string(),
        path: path_str.to_string(),
        node_type: TreeNodeType::File,
        children: Vec::new(),
        is_expanded: false,
        selection_state,
        depth,
    }
}

fn create_test_folder_node(
    id: usize,
    name: &str,
    path_str: &str,
    children: Vec<FileTreeNode>,
    is_expanded: bool,
    selection_state: NodeSelectionState,
    depth: usize,
) -> FileTreeNode {
    FileTreeNode {
        id,
        name: name.to_string(),
        path: path_str.to_string(),
        node_type: TreeNodeType::Folder,
        children,
        is_expanded,
        selection_state,
        depth,
    }
}

fn recursive_fixture() -> (FileTreeNode, FileTreeNode, FileTreeNode, FileTreeNode, FileTreeNode, FileTreeNode) {
    let unselected = NodeSelectionState::NotSelected;
    let file1 = || create_test_file_node(0, "file1.txt", "/test_ws_recursive/file1.txt", unselected, 0);
    let file2 = create_test_file_node(1, "file2.txt", "/test_ws_recursive/sub/file2.txt", unselected, 1);
    let file3 =
        create_test_file_node(2, "file3.txt", "/test_ws_recursive/sub/another/file3.txt", unselected, 2);
    let file4 = create_test_file_node(3, "file4.txt", "/test_ws_recursive/sub2/file4.txt", unselected, 1);
    let file_only_node =
        create_test_file_node(7, "singlefile.txt", "/test_ws_recursive/singlefile.txt", unselected, 0);
    let another = |f: FileTreeNode| {
        create_test_folder_node(4, "another", "/test_ws_recursive/sub/another", vec![f], false, unselected, 1)
    };
    let sub = |f2: FileTreeNode, a: FileTreeNode| {
        create_test_folder_node(5, "sub", "/test_ws_recursive/sub", vec![f2, a], true, unselected, 0)
    };
    let sub2 = |f4: FileTreeNode| {
        create_test_folder_node(6, "sub2", "/test_ws_recursive/sub2", vec![f4], false, unselected, 0)
    };
    let empty_folder =
        create_test_folder_node(8, "empty", "/test_ws_recursive/empty", vec![], false, unselected, 0);
    let f3b = create_test_file_node(2, "file3.txt", "/test_ws_recursive/sub/another/file3.txt", unselected, 2);
    let f2b = create_test_file_node(1, "file2.txt", "/test_ws_recursive/sub/file2.txt", unselected, 1);
    let f4b = create_test_file_node(3, "file4.txt", "/test_ws_recursive/sub2/file4.txt", unselected, 1);
    let sub_folder = sub(file2, another(file3));
    let sub2_folder = sub2(file4);
    let root_folder = create_test_folder_node(
        9,
        "test_ws_recursive",
        "/test_ws_recursive",
        vec![file1(), sub(f2b, another(f3b)), sub2(f4b)],
        true,
        unselected,
        0,
    );
    (sub_folder, sub2_folder, empty_folder, file1(), file_only_node, root_folder)
}

#[test]
fn test_collect_all_file_paths_recursive() {
    let workspace_root = "/test_ws_recursive";
    let (sub_folder, sub2_folder, empty_folder, file1, file_only_node, root_folder) = recursive_fixture();

    let paths_from_sub = sub_folder.collect_all_file_paths_recursive();
    let mut expected_paths_from_sub =
        vec![join(workspace_root, "sub/file2.txt"), join(workspace_root, "sub/another/file3.txt")];
    expected_paths_from_sub.sort();
    let mut actual_paths_from_sub = paths_from_sub;
    actual_paths_from_sub.sort();
    assert_eq!(actual_paths_from_sub, expected_paths_from_sub);

    let paths_from_sub2 = sub2_folder.collect_all_file_paths_recursive();
    assert_eq!(paths_from_sub2, vec![join(workspace_root, "sub2/file4.txt")]);

    let paths_from_empty = empty_folder.collect_all_file_paths_recursive();
    assert!(paths_from_empty.is_empty());

    let paths_from_file = file1.collect_all_file_paths_recursive();
    assert_eq!(paths_from_file, vec![join(workspace_root, "file1.txt")]);

    let paths_from_single_file = file_only_node.collect_all_file_paths_recursive();
    assert_eq!(paths_from_single_file, vec![join(workspace_root, "singlefile.txt")]);

    let paths_from_root = root_folder.collect_all_file_paths_recursive();
    let mut expected_paths_from_root = vec![
        join(workspace_root, "file1.txt"),
        join(workspace_root, "sub/file2.txt"),
        join(workspace_root, "sub/another/file3.txt"),
        join(workspace_root, "sub2/file4.txt"),
    ];
    expected_paths_from_root.sort();
    let mut actual_paths_from_root = paths_from_root;
    actual_paths_from_root.sort();
    assert_eq!(actual_paths_from_root, expected_paths_from_root);
}

#[test]
fn collected_paths_come_from_left_to_right() {
    let (_, _, _, _, _, root_folder) = recursive_fixture();
    assert_eq!(
        root_folder.collect_all_file_paths_recursive(),
        vec![
            "/test_ws_recursive/file1.txt".to_string(),
            "/test_ws_recursive/sub/file2.txt".to_string(),
            "/test_ws_recursive/sub/another/file3.txt".to_string(),
            "/test_ws_recursive/sub2/file4.txt".to_string(),
        ]
    );
}

fn state_at(nodes: &[FileTreeNode], path: &str) -> NodeSelectionState {
    find_node_by_path(nodes, path).expect("node not found").selection_state
}

#[test]
fn test_selection_state_logic_full_pipeline() {
    let root = "/test_ws_select";
    let all_files_data = vec![
        create_file_info("README.md", root),
        create_file_info("src/main.rs", root),
        create_file_info("src/utils.rs", root),
        create_file_info("src/components/comp1.rs", root),
        create_file_info("src/components/comp2.rs", root),
        create_file_info("data/file1.json", root),
    ];
    let selected = selection_of(&[join(root, "src/main.rs"), join(root, "src/components/comp1.rs")]);

    let nodes = shown(&all_files_data, &selected, root);
    assert_eq!(state_at(&nodes, &join(root, "README.md")), NodeSelectionState::NotSelected);
    assert_eq!(state_at(&nodes, &join(root, "src/main.rs")), NodeSelectionState::Selected);
    assert_eq!(state_at(&nodes, &join(root, "src/utils.rs")), NodeSelectionState::NotSelected);
    assert_eq!(state_at(&nodes, &join(root, "src/components/comp1.rs")), NodeSelectionState::Selected);
    assert_eq!(state_at(&nodes, &join(root, "src/components/comp2.rs")), NodeSelectionState::NotSelected);
    assert_eq!(state_at(&nodes, &join(root, "data/file1.json")), NodeSelectionState::NotSelected);
    let components_folder_node =
        find_node_by_path(&nodes, &join(root, "src/components")).expect("src/components folder not found");
    assert_eq!(components_folder_node.node_type, TreeNodeType::Folder);
    assert_eq!(components_folder_node.selection_state, NodeSelectionState::PartiallySelected);
    let src_folder_node = find_node_by_path(&nodes, &join(root, "src")).expect("src folder not found");
    assert_eq!(src_folder_node.node_type, TreeNodeType::Folder);
    assert_eq!(src_folder_node.selection_state, NodeSelectionState::PartiallySelected);
    let data_folder_node = find_node_by_path(&nodes, &join(root, "data")).expect("data folder not found");
    assert_eq!(data_folder_node.node_type, TreeNodeType::Folder);
    assert_eq!(data_folder_node.selection_state, NodeSelectionState::NotSelected);

    let selected = selection_of(&[
        join(root, "src/components/comp1.rs"),
        join(root, "src/components/comp2.rs"),
    ]);
    let nodes = shown(&all_files_data, &selected, root);
    assert_eq!(state_at(&nodes, &join(root, "src/components/comp1.rs")), NodeSelectionState::Selected);
    assert_eq!(state_at(&nodes, &join(root, "src/components/comp2.rs")), NodeSelectionState::Selected);
    assert_eq!(state_at(&nodes, &join(root, "src/components")), NodeSelectionState::Selected);
    assert_eq!(state_at(&nodes, &join(root, "src")), NodeSelectionState::PartiallySelected);

    let selected = SelectionSet::new();
    let nodes = shown(&all_files_data, &selected, root);
    assert_eq!(state_at(&nodes, &join(root, "src/components")), NodeSelectionState::NotSelected);
    assert_eq!(state_at(&nodes, &join(root, "src")), NodeSelectionState::NotSelected);
    assert_eq!(state_at(&nodes, &join(root, "src/main.rs")), NodeSelectionState::NotSelected);
}

#[test]
fn test_folder_expansion_signal() {
    let workspace_root = "/test_ws_expand";
    let file_infos = vec![
        create_file_info("folder1/file1.txt", workspace_root),
        create_file_info("folder1/subfolder/file2.txt", workspace_root),
        create_file_info("folder2/file3.txt", workspace_root),
    ];
    let tree_nodes = shown(&file_infos, &SelectionSet::new(), workspace_root);

    let folder1_node = find_node_by_path(&tree_nodes, &join(workspace_root, "folder1")).expect("folder1 not found");
    assert!(folder1_node.is_expanded);

    let subfolder_node = find_node_by_path(&tree_nodes, &join(workspace_root, "folder1/subfolder"))
        .expect("folder1/subfolder not found");
    assert!(!subfolder_node.is_expanded);
    let subfolder_id = subfolder_node.id;

    let mut session = context_loader::session::WorkspaceSession::new(
        workspace_root.to_string(),
        file_infos,
        SelectionSet::new(),
    );
    assert!(session.toggle_folder_expanded(subfolder_id));
    let subfolder_node = find_by_id(session.forest(), subfolder_id).expect("subfolder not found by id");
    assert!(subfolder_node.is_expanded, "Subfolder should be expanded after toggle");

    let file1_node_bp = build_tree_from_file_info(
        &[create_file_info("file.txt", workspace_root)],
        &SelectionSet::new(),
        workspace_root,
    );
    assert!(!file1_node_bp[0].is_expanded);
}

#[test]
fn test_select_all_deselect_all_logic() {
    let workspace_root = "/test_ws_select_all";
    let all_files = vec![
        create_file_info("file1.txt", workspace_root),
        create_file_info("src/main.rs", workspace_root),
        create_file_info("src/components/button.rs", workspace_root),
    ];
    let mut all_file_paths_for_selection = SelectionSet::new();
    for file_info in all_files.iter() {
        all_file_paths_for_selection.insert(file_info.path.clone());
    }

    let nodes = shown(&all_files, &all_file_paths_for_selection, workspace_root);
    assert_eq!(state_at(&nodes, &join(workspace_root, "file1.txt")), NodeSelectionState::Selected);
    assert_eq!(state_at(&nodes, &join(workspace_root, "src/main.rs")), NodeSelectionState::Selected);
    assert_eq!(
        state_at(&nodes, &join(workspace_root, "src/components/button.rs")),
        NodeSelectionState::Selected
    );
    assert_eq!(state_at(&nodes, &join(workspace_root, "src/components")), NodeSelectionState::Selected);
    assert_eq!(state_at(&nodes, &join(workspace_root, "src")), NodeSelectionState::Selected);

    let nodes = shown(&all_files, &SelectionSet::new(), workspace_root);
    assert_eq!(state_at(&nodes, &join(workspace_root, "file1.txt")), NodeSelectionState::NotSelected);
    assert_eq!(state_at(&nodes, &join(workspace_root, "src/main.rs")), NodeSelectionState::NotSelected);
    assert_eq!(
        state_at(&nodes, &join(workspace_root, "src/components/button.rs")),
        NodeSelectionState::NotSelected
    );
    assert_eq!(state_at(&nodes, &join(workspace_root, "src/components")), NodeSelectionState::NotSelected);
    assert_eq!(state_at(&nodes, &join(workspace_root, "src")), NodeSelectionState::NotSelected);
}

#[test]
fn mixed_selection_aggregation() {
    let root = "/ws";
    let files = vec![create_file_info("src/a.rs", root), create_file_info("src/b.rs", root)];
    let selected = selection_of(&[join(root, "src/a.rs")]);
    let nodes = shown(&files, &selected, root);
    assert_eq!(nodes.len(), 1);
    assert_eq!(nodes[0].name, "src");
    assert_eq!(nodes[0].selection_state, NodeSelectionState::PartiallySelected);
}

#[test]
fn ids_follow_creation_order() {
    let root = "/ws";
    let files = vec![
        create_file_info("d.txt", root),
        create_file_info("b/c.txt", root),
        create_file_info("a.txt", root),
        create_file_info("b/a/x.txt", root),
    ];
    let tree = build_tree_from_file_info(&files, &SelectionSet::new(), root);
    let mut seen = Vec::new();
    collect_names_and_depths(&tree, &mut seen);
    assert_eq!(
        seen,
        vec![
            ("a.txt".to_string(), 0),
            ("b".to_string(), 0),
            ("a".to_string(), 1),
            ("x.txt".to_string(), 2),
            ("c.txt".to_string(), 1),
            ("d.txt".to_string(), 0),
        ]
    );
    let by_name = |name: &str| -> usize {
        fn find(nodes: &[FileTreeNodeBlueprint], name: &str) -> Option<usize> {
            for n in nodes {
                if n.name == name {
                    return Some(n.id);
                }
                if let Some(id) = find(&n.children, name) {
                    return Some(id);
                }
            }
            None
        }
        find(&tree, name).unwrap()
    };
    assert_eq!(by_name("a.txt"), 0);
    assert_eq!(by_name("b"), 1);
    assert_eq!(by_name("a"), 2);
    assert_eq!(by_name("x.txt"), 3);
    assert_eq!(by_name("c.txt"), 4);
    assert_eq!(by_name("d.txt"), 5);
}

#[test]
fn paths_are_ordered_by_components() {
    let root = "/ws";
    let files = vec![create_file_info("a-b/x", root), create_file_info("a/b", root)];
    let tree = build_tree_from_file_info(&files, &SelectionSet::new(), root);
    let names: Vec<&str> = tree.iter().map(|n| n.name.as_str()).collect();
    assert_eq!(names, vec!["a", "a-b"]);
}

#[test]
fn a_file_outside_the_root_stands_at_the_top_under_its_name() {
    let files = vec![
        FileInfo { name: "notes.txt".to_string(), path: "/elsewhere/deep/notes.txt".to_string(), size: 0, token_count: 0 },
        create_file_info("src/a.rs", "/ws"),
    ];
    let tree = build_tree_from_file_info(&files, &SelectionSet::new(), "/ws");
    assert_eq!(tree.len(), 2);
    assert_eq!(tree[0].name, "notes.txt");
    assert_eq!(tree[0].path, "/elsewhere/deep/notes.txt");
    assert_eq!(tree[0].node_type, TreeNodeType::File);
    assert_eq!(tree[0].depth, 0);
    assert_eq!(tree[1].name, "src");
}

#[test]
fn a_file_listed_twice_is_entered_once() {
    let root = "/ws";
    let files = vec![
        create_file_info("src/a.rs", root),
        create_file_info("src/a.rs", root),
        create_file_info("b.rs", root),
        create_file_info("b.rs", root),
    ];
    let tree = build_tree_from_file_info(&files, &SelectionSet::new(), root);
    assert_eq!(tree.len(), 2);
    let mut ids = Vec::new();
    collect_ids(&tree, &mut ids);
    ids.sort();
    assert_eq!(ids, vec![0, 1, 2]);
}

#[test]
fn recompute_all_is_idempotent() {
    let unselected = NodeSelectionState::NotSelected;
    let make = || {
        vec![
            create_test_folder_node(
                0,
                "src",
                "/ws/src",
                vec![
                    create_test_file_node(1, "a.rs", "/ws/src/a.rs", NodeSelectionState::Selected, 1),
                    create_test_folder_node(
                        2,
                        "x",
                        "/ws/src/x",
                        vec![create_test_file_node(3, "b.rs", "/ws/src/x/b.rs", unselected, 2)],
                        false,
                        NodeSelectionState::Selected,
                        1,
                    ),
                ],
                true,
                unselected,
                0,
            ),
            create_test_folder_node(4, "empty", "/ws/empty", vec![], true, NodeSelectionState::Selected, 0),
        ]
    };
    let mut once = make();
    recompute_all(&mut once);
    assert_eq!(once[0].selection_state, NodeSelectionState::PartiallySelected);
    assert_eq!(once[0].children[1].selection_state, NodeSelectionState::NotSelected);
    assert_eq!(once[1].selection_state, NodeSelectionState::NotSelected);
    let mut twice = make();
    recompute_all(&mut twice);
    recompute_all(&mut twice);
    assert_eq!(once, twice);
}

#[test]
fn conversion_keeps_all_but_the_states_of_folders() {
    let root = "/ws";
    let files = vec![create_file_info("src/a.rs", root), create_file_info("src/b.rs", root)];
    let selected = selection_of(&[join(root, "src/a.rs"), join(root, "src/b.rs")]);
    let blueprints = build_tree_from_file_info(&files, &selected, root);
    assert_eq!(blueprints[0].selection_state, NodeSelectionState::NotSelected);
    let nodes = convert_forest(&blueprints);
    assert_eq!(nodes[0].selection_state, NodeSelectionState::Selected);
    assert_eq!(nodes[0].id, blueprints[0].id);
    assert_eq!(nodes[0].name, blueprints[0].name);
    assert_eq!(nodes[0].path, blueprints[0].path);
    assert_eq!(nodes[0].depth, blueprints[0].depth);
    assert_eq!(nodes[0].is_expanded, blueprints[0].is_expanded);
    assert_eq!(nodes[0].children.len(), 2);
    assert_eq!(nodes[0].children[0].selection_state, NodeSelectionState::Selected);
}

#[test]
fn toggling_a_file_on_then_off_restores_the_selection() {
    let root = "/ws";
    let files = vec![create_file_info("src/a.rs", root), create_file_info("src/b.rs", root)];
    let mut selected = selection_of(&[join(root, "src/b.rs")]);
    let before = shown(&files, &selected, root);
    let a = find_node_by_path(&before, "/ws/src/a.rs").unwrap();
    toggle(&mut selected, a, true);
    assert!(selected.contains("/ws/src/a.rs"));
    let between = shown(&files, &selected, root);
    assert_eq!(between[0].selection_state, NodeSelectionState::Selected);
    let a = find_node_by_path(&between, "/ws/src/a.rs").unwrap();
    toggle(&mut selected, a, false);
    assert_eq!(selected.to_vec(), vec!["/ws/src/b.rs".to_string()]);
    let after = shown(&files, &selected, root);
    assert_eq!(before, after);
}

#[test]
fn toggling_a_folder_selects_every_file_beneath_it() {
    let root = "/ws";
    let files = vec![
        create_file_info("src/a.rs", root),
        create_file_info("src/x/b.rs", root),
        create_file_info("c.rs", root),
    ];
    let mut selected = SelectionSet::new();
    let before = shown(&files, &selected, root);
    let src = find_node_by_path(&before, "/ws/src").unwrap();
    toggle(&mut selected, src, true);
    assert_eq!(selected.len(), 2);
    assert!(selected.contains("/ws/src/a.rs"));
    assert!(selected.contains("/ws/src/x/b.rs"));
    assert!(!selected.contains("/ws/src"));
    let now = shown(&files, &selected, root);
    assert_eq!(state_at(&now, "/ws/src"), NodeSelectionState::Selected);
    assert_eq!(state_at(&now, "/ws/src/x"), NodeSelectionState::Selected);
    assert_eq!(state_at(&now, "/ws/c.rs"), NodeSelectionState::NotSelected);
    let src = find_node_by_path(&now, "/ws/src").unwrap();
    toggle(&mut selected, src, false);
    assert!(selected.is_empty());
    let last = shown(&files, &selected, root);
    assert_eq!(state_at(&last, "/ws/src"), NodeSelectionState::NotSelected);
    assert_eq!(before, last);
}

#[test]
fn the_name_of_a_file_outside_the_root_is_one_component() {
    let files = vec![FileInfo {
        name: "odd/name.txt".to_string(),
        path: "/elsewhere/odd/name.txt".to_string(),
        size: 0,
        token_count: 0,
    }];
    let tree = build_tree_from_file_info(&files, &SelectionSet::new(), "/ws");
    assert_eq!(tree.len(), 1);
    assert_eq!(tree[0].name, "odd/name.txt");
    assert_eq!(tree[0].node_type, TreeNodeType::File);
    assert!(tree[0].children.is_empty());
}

#[test]
fn the_root_itself_as_a_file_stands_under_its_name() {
    let files = vec![FileInfo { name: "ws".to_string(), path: "/ws".to_string(), size: 0, token_count: 0 }];
    let tree = build_tree_from_file_info(&files, &SelectionSet::new(), "/ws");
    assert_eq!(tree.len(), 1);
    assert_eq!(tree[0].name, "ws");
    assert_eq!(tree[0].path, "/ws");
    assert_eq!(tree[0].depth, 0);
}

#[test]
fn copies_of_nodes_are_equal_to_them() {
    let files = vec![create_file_info("src/a.rs", "/ws"), create_file_info("b.rs", "/ws")];
    let blueprints = build_tree_from_file_info(&files, &SelectionSet::new(), "/ws");
    assert_eq!(blueprints[0].clone(), blueprints[0]);
    assert_eq!(blueprints[1].duplicate(), blueprints[1]);
    let nodes = convert_forest(&blueprints);
    assert_eq!(nodes[1].clone(), nodes[1]);
    assert_ne!(nodes[0].clone(), nodes[1]);
}
