//! Records of the files of a workspace, and the text that is made of the
//! chosen ones.
use vstd::prelude::*;
use vstd::string::StringExecFns;
use crate::paths::all_components;
use crate::paths::file_name;
use crate::paths::file_name_of;
use crate::paths::is_hidden_path;
use crate::paths::is_rooted;
use crate::paths::lemma_parent_is_shorter;
use crate::paths::parent;
use crate::paths::parent_of;
use crate::paths::path_starts_with;
use crate::paths::relative_to;
use crate::paths::split_all_components;
use crate::paths::starts_with;
use crate::paths::strip_prefix;
use crate::text::chars_of;
use crate::text::has_prefix;
use crate::text::same_text;

verus! {

/// How far a long-running task has come.
#[derive(Debug, Clone)]
pub struct ProgressState {
    pub completed: usize,
    pub total: usize,
    pub message: String,
}

impl ProgressState {
    /// Nothing done, nothing to do, no message.
    pub fn new() -> (s: Self)
        ensures
            s.completed == 0,
            s.total == 0,
            s.message@ == Seq::<char>::empty(),
    {
        ProgressState { completed: 0, total: 0, message: String::new() }
    }

    /// Replaces all three values.
    pub fn update(&mut self, completed: usize, total: usize, message: String)
        ensures
            final(self).completed == completed,
            final(self).total == total,
            final(self).message == message,
    {
        self.completed = completed;
        self.total = total;
        self.message = message;
    }
}

/// One file of the workspace. Its identity is its path.
#[derive(Debug, Clone, PartialEq, Eq)]
pub struct FileInfo {
    pub name: String,
    pub path: String,
    pub size: u64,
    pub token_count: usize,
}

/// What a `FileInfo` holds, as plain values.
pub struct FileInfoView {
    pub name: Seq<char>,
    pub path: Seq<char>,
    pub size: nat,
    pub token_count: nat,
}

impl View for FileInfo {
    type V = FileInfoView;

    open spec fn view(&self) -> FileInfoView {
        FileInfoView {
            name: self.name@,
            path: self.path@,
            size: self.size as nat,
            token_count: self.token_count as nat,
        }
    }
}

/// The views of a sequence of records.
pub open spec fn file_views(files: Seq<FileInfo>) -> Seq<FileInfoView> {
    Seq::new(files.len(), |i: int| files[i]@)
}

/// The name under which a file at `path` is listed: its file name, or the
/// empty name where the path has none.
pub open spec fn display_name(path: Seq<char>) -> Seq<char> {
    match file_name(path) {
        Some(n) => n,
        None => Seq::empty(),
    }
}

impl FileInfo {
    /// The record of the file at `path` with `size` bytes; no tokens are
    /// counted yet.
    pub fn new(path: String, size: u64) -> (info: Self)
        ensures
            info@ == (FileInfoView {
                name: display_name(path@),
                path: path@,
                size: size as nat,
                token_count: 0,
            }),
    {
        let name = match file_name_of(path.as_str()) {
            Some(n) => n,
            None => String::new(),
        };
        FileInfo { name, path, size, token_count: 0 }
    }

    /// The record of the file at `path` with `size` bytes, for which
    /// `token_count` tokens were counted.
    pub fn with_tokens(path: String, size: u64, token_count: usize) -> (info: Self)
        ensures
            info@ == (FileInfoView {
                name: display_name(path@),
                path: path@,
                size: size as nat,
                token_count: token_count as nat,
            }),
    {
        let mut info = FileInfo::new(path, size);
        info.token_count = token_count;
        info
    }

    /// A copy of this record.
    pub fn duplicate(&self) -> (copy: Self)
        ensures
            copy@ == self@,
    {
        FileInfo {
            name: self.name.clone(),
            path: self.path.clone(),
            size: self.size,
            token_count: self.token_count,
        }
    }
}

/// Whether the file name of `path` begins with a dot. A path without a file
/// name, such as the root, is not hidden.
pub fn is_hidden(path: &str) -> (r: bool)
    ensures
        r == is_hidden_path(path@),
{
    match file_name_of(path) {
        Some(n) => {
            proof {
                assert(n@.len() > 0);
            }
            n.as_str().get_char(0) == '.'
        },
        None => false,
    }
}

/// The hexadecimal BLAKE3 hash of `content`.
pub uninterp spec fn blake3_hex(content: Seq<u8>) -> Seq<char>;

/// `blake3::hash` and `Hash::to_hex`: the hash of the bytes, in lower-case
/// hexadecimal digits.
#[verifier::external_body]
fn hash_hex(content: &[u8]) -> (hex: String)
    ensures
        hex@ == blake3_hex(content@),
{
    blake3::hash(content).to_hex().to_string()
}

/// The hash by which the content of a file is told from another content.
pub fn get_file_hash(content: &[u8]) -> (hash: String)
    ensures
        hash@ == blake3_hex(content@),
{
    hash_hex(content)
}

/// The name of the directory in which a repository keeps its own data.
pub open spec fn git_dir_name() -> Seq<char> {
    ".git"@
}

/// The path under which the entry at `path` is listed for the workspace at
/// `root`: `path` relative to `root`. Nothing at or under a component
/// `.git` is listed, and nothing outside `root`.
pub open spec fn listed_path(path: Seq<char>, root: Seq<char>) -> Option<Seq<char>> {
    if all_components(path).contains(git_dir_name()) {
        None
    } else {
        strip_prefix(path, root)
    }
}

/// The path under which the file at `path` is listed for the workspace at
/// `workspace_root_path`, if it is listed.
pub fn workspace_relative_path(path: &str, workspace_root_path: &str) -> (listed: Option<String>)
    ensures
        match listed {
            Some(rel) => listed_path(path@, workspace_root_path@) == Some(rel@),
            None => listed_path(path@, workspace_root_path@) is None,
        },
{
    let names = split_all_components(path);
    let ghost all = all_components(path@);
    let mut i: usize = 0;
    while i < names.len()
        invariant
            i <= names.len(),
            names.deep_view() == all,
            all == all_components(path@),
            forall|k: int| 0 <= k < i ==> all[k] != git_dir_name(),
        decreases names.len() - i,
    {
        proof {
            assert(names.deep_view()[i as int] == names@[i as int]@);
        }
        if same_text(names[i].as_str(), ".git") {
            proof {
                assert(all[i as int] == git_dir_name());
                assert(all.contains(git_dir_name()));
            }
            return None;
        }
        i += 1;
    }
    relative_to(path, workspace_root_path)
}

/// A file that goes into the text: its path and its content.
#[derive(Debug, Clone)]
pub struct FileContent {
    pub path: String,
    pub content: String,
}

/// The paths of `files`.
pub open spec fn content_paths(files: Seq<FileContent>) -> Seq<Seq<char>> {
    Seq::new(files.len(), |i: int| files[i].path@)
}

/// The contents of `files`.
pub open spec fn content_texts(files: Seq<FileContent>) -> Seq<Seq<char>> {
    Seq::new(files.len(), |i: int| files[i].content@)
}

/// Whether `base` is an ancestor of every path of `paths`, or the path
/// itself.
pub open spec fn all_start_with(paths: Seq<Seq<char>>, base: Seq<char>) -> bool {
    forall|i: int| 0 <= i < paths.len() ==> path_starts_with(#[trigger] paths[i], base)
}

/// The first of `start` and its ancestors, from `start` upwards, under
/// which all of `paths` lie; the empty path where there is none.
pub open spec fn common_parent_from(start: Seq<char>, paths: Seq<Seq<char>>) -> Seq<char>
    decreases start.len(),
{
    if all_start_with(paths, start) {
        start
    } else {
        match parent(start) {
            Some(up) => {
                proof {
                    lemma_parent_is_shorter(start);
                }
                common_parent_from(up, paths)
            },
            None => Seq::empty(),
        }
    }
}

/// The directory to which the paths of a text are relative: the nearest
/// directory above the first path under which all paths lie.
pub open spec fn common_parent(paths: Seq<Seq<char>>) -> Seq<char> {
    if paths.len() == 0 {
        Seq::empty()
    } else {
        match parent(paths[0]) {
            Some(dir) => common_parent_from(dir, paths),
            None => common_parent_from(Seq::empty(), paths),
        }
    }
}

/// The path that the header of a file shows: the path relative to
/// `common`, or the path itself where it does not lie under `common`, with
/// `./` in front unless it is rooted or begins with `./` already.
pub open spec fn header_path(path: Seq<char>, common: Seq<char>) -> Seq<char> {
    let rel = match strip_prefix(path, common) {
        Some(r) => r,
        None => path,
    };
    if !is_rooted(rel) && !has_prefix(rel, "./"@) {
        "./"@ + rel
    } else {
        rel
    }
}

/// The block of one file: the header line, an empty line, the content.
pub open spec fn file_block(path: Seq<char>, common: Seq<char>, content: Seq<char>) -> Seq<char> {
    "@@@ "@ + header_path(path, common) + " @@@\n\n"@ + content
}

/// The blocks of the first `count` files, with an empty line between one
/// block and the next and nothing behind the last.
pub open spec fn blocks(
    paths: Seq<Seq<char>>,
    contents: Seq<Seq<char>>,
    common: Seq<char>,
    count: nat,
) -> Seq<char>
    decreases count,
{
    if count == 0 {
        Seq::empty()
    } else if count == 1 {
        file_block(paths[0], common, contents[0])
    } else {
        blocks(paths, contents, common, (count - 1) as nat) + "\n\n"@ + file_block(
            paths[count - 1],
            common,
            contents[count - 1],
        )
    }
}

/// The text that is made of `files`.
pub open spec fn concatenated(files: Seq<FileContent>) -> Seq<char> {
    blocks(
        content_paths(files),
        content_texts(files),
        common_parent(content_paths(files)),
        files.len(),
    )
}

/// Whether every path of `files` lies under `base`.
fn all_under(files: &[FileContent], base: &str) -> (r: bool)
    ensures
        r == all_start_with(content_paths(files@), base@),
{
    let ghost paths = content_paths(files@);
    let mut i: usize = 0;
    while i < files.len()
        invariant
            i <= files.len(),
            paths == content_paths(files@),
            forall|k: int| 0 <= k < i ==> path_starts_with(#[trigger] paths[k], base@),
        decreases files.len() - i,
    {
        proof {
            assert(paths[i as int] == files@[i as int].path@);
        }
        if !starts_with(files[i].path.as_str(), base) {
            return false;
        }
        i += 1;
    }
    true
}

/// The directory to which the paths of `files` are relative.
fn common_parent_of(files: &[FileContent]) -> (dir: String)
    ensures
        dir@ == common_parent(content_paths(files@)),
{
    if files.len() == 0 {
        return String::new();
    }
    let ghost paths = content_paths(files@);
    proof {
        assert(paths[0] == files@[0].path@);
    }
    let mut dir = match parent_of(files[0].path.as_str()) {
        Some(d) => d,
        None => String::new(),
    };
    loop
        invariant
            paths == content_paths(files@),
            common_parent(paths) == common_parent_from(dir@, paths),
        decreases dir@.len(),
    {
        if all_under(files, dir.as_str()) {
            return dir;
        }
        proof {
            lemma_parent_is_shorter(dir@);
        }
        match parent_of(dir.as_str()) {
            Some(up) => {
                dir = up;
            },
            None => {
                return String::new();
            },
        }
    }
}

/// The path that the header of the file at `path` shows.
fn header_path_of(path: &str, common: &str) -> (shown: String)
    ensures
        shown@ == header_path(path@, common@),
{
    let rel = match relative_to(path, common) {
        Some(r) => r,
        None => path.to_owned(),
    };
    let chars = chars_of(rel.as_str());
    proof {
        reveal_strlit("./");
        assert("./"@.len() == 2);
        if chars.len() >= 2 {
            assert(chars@.take(2)[0] == chars@[0]);
            assert(chars@.take(2)[1] == chars@[1]);
            if chars@[0] == '.' && chars@[1] == '/' {
                assert(chars@.take(2) =~= "./"@);
            }
        }
    }
    let rooted = chars.len() > 0 && chars[0] == '/';
    let dotted = chars.len() >= 2 && chars[0] == '.' && chars[1] == '/';
    if !rooted && !dotted {
        let mut shown = "./".to_owned();
        shown.append(rel.as_str());
        shown
    } else {
        rel
    }
}

/// Makes one text of `files`, in their order. Each file gives a block: a
/// header line `@@@ <path> @@@`, an empty line, and the content. The path
/// is relative to the directory that all files have in common and begins
/// with `./` unless it is rooted. An empty line stands between one block
/// and the next; nothing stands behind the last.
pub fn concat_files(files: &[FileContent]) -> (text: String)
    ensures
        text@ == concatenated(files@),
{
    let common = common_parent_of(files);
    let ghost paths = content_paths(files@);
    let ghost contents = content_texts(files@);
    let mut text = String::new();
    let mut i: usize = 0;
    while i < files.len()
        invariant
            i <= files.len(),
            paths == content_paths(files@),
            contents == content_texts(files@),
            common@ == common_parent(paths),
            text@ == blocks(paths, contents, common@, i as nat),
        decreases files.len() - i,
    {
        let ghost before = text@;
        if i > 0 {
            text.append("\n\n");
        }
        text.append("@@@ ");
        let shown = header_path_of(files[i].path.as_str(), common.as_str());
        text.append(shown.as_str());
        text.append(" @@@\n\n");
        text.append(files[i].content.as_str());
        proof {
            assert(paths[i as int] == files@[i as int].path@);
            assert(contents[i as int] == files@[i as int].content@);
            let block = file_block(paths[i as int], common@, contents[i as int]);
            if i > 0 {
                assert(text@ =~= before + "\n\n"@ + block);
            } else {
                assert(before =~= Seq::<char>::empty());
                assert(text@ =~= block);
            }
        }
        i += 1;
    }
    text
}

} // verus!
