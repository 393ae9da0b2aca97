//! The ignore rules of a workspace: where they stand, which of their lines
//! count, and which files they leave out.
use vstd::prelude::*;
use ignore::gitignore::Gitignore;
use ignore::gitignore::GitignoreBuilder;
use crate::paths::components;
use crate::paths::dot;
use crate::paths::is_rooted;
use crate::paths::join;
use crate::paths::path_join;
use crate::paths::separator;
use crate::paths::split_components;
use crate::text::same_text;
use crate::text::chars_of;
use crate::text::has_prefix;
use crate::text::lemma_trimmed_is_fixed;
use crate::text::trim;
use crate::text::trimmed;

verus! {

/// The name of the file that holds the ignore rules of a workspace.
pub open spec fn gitignore_name() -> Seq<char> {
    ".gitignore"@
}

/// The path of the rules file of the workspace at `root`.
pub open spec fn gitignore_path(root: Seq<char>) -> Seq<char> {
    path_join(root, gitignore_name())
}

/// The path at which the rules file of the workspace at
/// `workspace_root_path` would stand.
pub fn gitignore_file_path(workspace_root_path: &str) -> (path: String)
    ensures
        path@ == gitignore_path(workspace_root_path@),
{
    join(workspace_root_path, ".gitignore")
}

/// The path of the rules file of the workspace, given whether a regular
/// file stands at `gitignore_file_path`: `None` where none does.
pub fn check_for_gitignore(workspace_root_path: &str, is_file: bool) -> (found: Option<String>)
    ensures
        match found {
            Some(path) => is_file && path@ == gitignore_path(workspace_root_path@),
            None => !is_file,
        },
{
    if is_file {
        Some(gitignore_file_path(workspace_root_path))
    } else {
        None
    }
}

/// Length of the run of characters before the first line feed of `text`.
pub open spec fn line_len(text: Seq<char>) -> nat
    decreases text.len(),
{
    if text.len() > 0 && text[0] != '\n' {
        1 + line_len(text.skip(1))
    } else {
        0
    }
}

/// `line` without a carriage return at its end.
pub open spec fn without_carriage_return(line: Seq<char>) -> Seq<char> {
    if line.len() > 0 && line.last() == '\r' {
        line.drop_last()
    } else {
        line
    }
}

/// The lines of `text`. A line ends with a line feed, or with a carriage
/// return and a line feed, which are not part of it; the last line need not
/// end so. An empty text has no lines.
pub open spec fn text_lines(text: Seq<char>) -> Seq<Seq<char>>
    decreases text.len(),
{
    if text.len() == 0 {
        Seq::empty()
    } else if line_len(text) == text.len() {
        seq![text]
    } else {
        proof {
            lemma_line_len_bound(text);
        }
        seq![without_carriage_return(text.take(line_len(text) as int))] + text_lines(
            text.skip(line_len(text) as int + 1),
        )
    }
}

pub proof fn lemma_line_len_bound(text: Seq<char>)
    ensures
        line_len(text) <= text.len(),
        line_len(text) < text.len() ==> text[line_len(text) as int] == '\n',
    decreases text.len(),
{
    if text.len() > 0 && text[0] != '\n' {
        lemma_line_len_bound(text.skip(1));
        if line_len(text) < text.len() {
            assert(text.skip(1)[line_len(text.skip(1)) as int] == text[line_len(text) as int]);
        }
    }
}

/// The lines of a rules file, given its content, as they stand in it.
pub fn read_gitignore_patterns(content: &str) -> (lines: Vec<String>)
    ensures
        lines.deep_view() == text_lines(content@),
{
    let chars = chars_of(content);
    let mut lines: Vec<String> = Vec::new();
    let mut start: usize = 0;
    proof {
        assert(chars@.skip(0) =~= chars@);
        assert(lines.deep_view() =~= Seq::<Seq<char>>::empty());
        assert(Seq::<Seq<char>>::empty() + text_lines(chars@) =~= text_lines(chars@));
    }
    while start < chars.len()
        invariant
            start <= chars.len(),
            chars@ == content@,
            text_lines(chars@) == lines.deep_view() + text_lines(chars@.skip(start as int)),
        decreases chars.len() - start,
    {
        let ghost rest = chars@.skip(start as int);
        let mut end: usize = start;
        while end < chars.len() && chars[end] != '\n'
            invariant
                start <= end <= chars.len(),
                line_len(chars@.skip(start as int)) == (end - start) + line_len(
                    chars@.skip(end as int),
                ),
            decreases chars.len() - end,
        {
            proof {
                assert(chars@.skip(end as int)[0] == chars@[end as int]);
                assert(chars@.skip(end as int).skip(1) =~= chars@.skip(end + 1));
            }
            end += 1;
        }
        proof {
            if end < chars.len() {
                assert(chars@.skip(end as int)[0] == chars@[end as int]);
            }
            assert(line_len(rest) == end - start);
        }
        let ghost before = lines.deep_view();
        if end == chars.len() {
            let line = content.substring_char(start, end).to_owned();
            proof {
                assert(chars@.subrange(start as int, end as int) =~= rest);
            }
            lines.push(line);
            proof {
                assert(lines.deep_view() =~= before.push(rest));
                assert(chars@.skip(end as int) =~= Seq::<char>::empty());
                assert(before + seq![rest] =~= before.push(rest) + text_lines(
                    chars@.skip(end as int),
                ));
            }
            start = end;
        } else {
            let stop: usize = if end > start && chars[end - 1] == '\r' {
                (end - 1) as usize
            } else {
                end
            };
            let line = content.substring_char(start, stop).to_owned();
            proof {
                let whole = rest.take(line_len(rest) as int);
                assert(whole =~= chars@.subrange(start as int, end as int));
                if end > start {
                    assert(whole.last() == chars@[end - 1]);
                }
                assert(without_carriage_return(whole) =~= chars@.subrange(start as int, stop as int));
                assert(rest.skip(line_len(rest) as int + 1) =~= chars@.skip(end + 1));
            }
            lines.push(line);
            proof {
                assert(lines.deep_view() =~= before.push(line@));
                assert(before + (seq![line@] + text_lines(chars@.skip(end + 1))) =~= before.push(
                    line@,
                ) + text_lines(chars@.skip(end + 1)));
            }
            start = end + 1;
        }
    }
    proof {
        assert(lines.deep_view() + Seq::<Seq<char>>::empty() =~= lines.deep_view());
    }
    lines
}

/// Whether a trimmed line is a pattern: it is not empty and does not begin
/// with `#`.
pub open spec fn is_pattern(line: Seq<char>) -> bool {
    line.len() > 0 && line[0] != '#'
}

/// The patterns among `lines`: each line trimmed, without the empty lines
/// and the comments, in the order of the lines.
pub open spec fn effective_patterns(lines: Seq<Seq<char>>) -> Seq<Seq<char>>
    decreases lines.len(),
{
    if lines.len() == 0 {
        Seq::empty()
    } else if is_pattern(trimmed(lines.last())) {
        effective_patterns(lines.drop_last()).push(trimmed(lines.last()))
    } else {
        effective_patterns(lines.drop_last())
    }
}

/// Every effective pattern is a pattern that trimming leaves as it is, and
/// there are no more of them than lines.
pub proof fn lemma_effective_patterns(lines: Seq<Seq<char>>)
    ensures
        effective_patterns(lines).len() <= lines.len(),
        forall|k: int|
            0 <= k < effective_patterns(lines).len() ==> is_pattern(
                #[trigger] effective_patterns(lines)[k],
            ) && trimmed(effective_patterns(lines)[k]) == effective_patterns(lines)[k],
    decreases lines.len(),
{
    if lines.len() > 0 {
        lemma_effective_patterns(lines.drop_last());
        lemma_trimmed_is_fixed(lines.last());
    }
}

/// Patterns that are trimmed already come through unchanged.
pub proof fn lemma_effective_patterns_fixed(lines: Seq<Seq<char>>)
    requires
        forall|k: int| 0 <= k < lines.len() ==> is_pattern(#[trigger] lines[k]) && trimmed(lines[k])
            == lines[k],
    ensures
        effective_patterns(lines) == lines,
    decreases lines.len(),
{
    if lines.len() > 0 {
        lemma_effective_patterns_fixed(lines.drop_last());
        assert(lines.drop_last().push(lines.last()) =~= lines);
    } else {
        assert(effective_patterns(lines) =~= lines);
    }
}

/// What comes out of the preprocessing comes through it unchanged.
pub proof fn lemma_preprocessing_is_idempotent(lines: Seq<Seq<char>>)
    ensures
        effective_patterns(effective_patterns(lines)) == effective_patterns(lines),
{
    lemma_effective_patterns(lines);
    lemma_effective_patterns_fixed(effective_patterns(lines));
}

/// The lines of a rules file that count: each line is trimmed, and empty
/// lines and lines that begin with `#` are left out.
pub fn preprocess_gitignore_lines(raw_lines: Vec<String>) -> (patterns: Vec<String>)
    ensures
        patterns.deep_view() == effective_patterns(raw_lines.deep_view()),
{
    let ghost lines = raw_lines.deep_view();
    let mut patterns: Vec<String> = Vec::new();
    let mut i: usize = 0;
    proof {
        assert(lines.take(0) =~= Seq::<Seq<char>>::empty());
        assert(patterns.deep_view() =~= Seq::<Seq<char>>::empty());
    }
    while i < raw_lines.len()
        invariant
            i <= raw_lines.len(),
            lines == raw_lines.deep_view(),
            patterns.deep_view() == effective_patterns(lines.take(i as int)),
        decreases raw_lines.len() - i,
    {
        let line = trim(raw_lines[i].as_str());
        let chars = chars_of(line.as_str());
        proof {
            assert(lines.take(i + 1).drop_last() =~= lines.take(i as int));
            assert(lines.take(i + 1).last() == raw_lines@[i as int]@);
        }
        if chars.len() > 0 && chars[0] != '#' {
            let ghost before = patterns.deep_view();
            patterns.push(line);
            proof {
                assert(patterns.deep_view() =~= before.push(line@));
            }
        }
        i += 1;
    }
    proof {
        assert(lines.take(raw_lines.len() as int) =~= lines);
    }
    patterns
}

/// The builder of the `ignore` crate that collects the globs of one rules
/// file. Its contents are named by `builder_root` and `builder_globs`.
#[verifier::external_type_specification]
#[verifier::external_body]
pub struct ExGitignoreBuilder(GitignoreBuilder);

/// The matcher of the `ignore` crate for the globs of one rules file. Its
/// contents are named by `matcher_root` and `matcher_globs`.
#[verifier::external_type_specification]
#[verifier::external_body]
pub struct ExGitignore(Gitignore);

/// The error of the `ignore` crate.
#[verifier::external_type_specification]
#[verifier::external_body]
pub struct ExIgnoreError(ignore::Error);

/// The directory against which a builder matches.
pub uninterp spec fn builder_root(builder: GitignoreBuilder) -> Seq<char>;

/// The globs that a builder holds, each as the line of which it was made,
/// in the order in which they came in.
pub uninterp spec fn builder_globs(builder: GitignoreBuilder) -> Seq<Seq<char>>;

/// What a builder makes of `line`: no glob of a comment or an empty line,
/// one glob of any other line, and `None` of a line that it cannot read as
/// a glob.
pub uninterp spec fn line_globs(line: Seq<char>) -> Option<Seq<Seq<char>>>;

/// The globs that `line` adds to a builder: those that the builder makes of
/// it, none where it cannot read the line.
pub open spec fn added_globs(line: Seq<char>) -> Seq<Seq<char>> {
    match line_globs(line) {
        Some(globs) => globs,
        None => Seq::empty(),
    }
}

/// Whether a matcher can be made of `globs`.
pub uninterp spec fn globs_compile(globs: Seq<Seq<char>>) -> bool;

/// The directory against which a matcher matches.
pub uninterp spec fn matcher_root(matcher: Gitignore) -> Seq<char>;

/// The globs that a matcher holds, each as the line of which it was made.
pub uninterp spec fn matcher_globs(matcher: Gitignore) -> Seq<Seq<char>>;

/// Whether the matcher for `globs` at `root` finds the file at `path`
/// ignored. The matcher looks at the path and then at its parent
/// directories, from the nearest up, until a glob matches; of the globs
/// that match there the last one decides, and the file is ignored unless
/// that glob is a negation.
pub uninterp spec fn ignores_path(root: Seq<char>, globs: Seq<Seq<char>>, path: Seq<char>) -> bool;

/// The text `./`.
pub open spec fn dot_slash() -> Seq<char> {
    seq!['.', separator()]
}

/// `p` without a `./` at its start.
pub open spec fn without_dot_slash(p: Seq<char>) -> Seq<char> {
    if has_prefix(p, dot_slash()) {
        p.skip(2)
    } else {
        p
    }
}

/// Whether `p` names the current directory: it is `.`, possibly followed
/// by separators and further `.`.
pub open spec fn is_current_dir(p: Seq<char>) -> bool {
    &&& !is_rooted(p)
    &&& components(p).len() > 0
    &&& forall|k: int| 0 <= k < components(p).len() ==> #[trigger] components(p)[k] == dot()
}

/// What a matcher at `root` makes of `path` before it matches, on Unix: a
/// `./` at the start goes, then `root` and one separator behind it, unless
/// `root` names the current directory or `path` holds no separator.
pub open spec fn stripped_for_match(root: Seq<char>, path: Seq<char>) -> Seq<char> {
    let p = without_dot_slash(path);
    if !is_current_dir(root) && p.contains(separator()) && has_prefix(p, root) {
        let rest = p.skip(root.len() as int);
        if is_rooted(rest) {
            rest.skip(1)
        } else {
            rest
        }
    } else {
        p
    }
}

/// `GitignoreBuilder::new`: a builder without globs that matches against
/// `root`, of which a `./` at the start is dropped (on Unix, where the
/// crate compares the bytes).
#[verifier::external_body]
fn new_builder(root: &str) -> (builder: GitignoreBuilder)
    ensures
        builder_root(builder) == without_dot_slash(root@),
        builder_globs(builder) == Seq::<Seq<char>>::empty(),
{
    GitignoreBuilder::new(root)
}

/// `GitignoreBuilder::add_line` for a line that comes from no file. What
/// the builder makes of a line depends on the line alone. It puts the glob
/// that it makes behind those that it holds; a line that it cannot read is
/// an error and leaves it as it was.
#[verifier::external_body]
fn add_line(builder: &mut GitignoreBuilder, line: &str) -> (r: Result<(), ignore::Error>)
    ensures
        r is Err <==> line_globs(line@) is None,
        builder_root(*final(builder)) == builder_root(*old(builder)),
        builder_globs(*final(builder)) == builder_globs(*old(builder)) + added_globs(line@),
{
    builder.add_line(None, line).map(|_| ())
}

/// `GitignoreBuilder::build`: the matcher for what the builder holds.
/// Whether one can be made depends on the globs alone.
#[verifier::external_body]
fn build_matcher(builder: &GitignoreBuilder) -> (r: Result<Gitignore, ignore::Error>)
    ensures
        match r {
            Ok(matcher) => globs_compile(builder_globs(*builder)) && matcher_root(matcher)
                == builder_root(*builder) && matcher_globs(matcher) == builder_globs(*builder),
            Err(_) => !globs_compile(builder_globs(*builder)),
        },
{
    builder.build()
}

/// `Gitignore::matched_path_or_any_parents` for a file, and
/// `Match::is_ignore` of what it gives. A matcher without globs matches
/// nothing. The verdict of any other depends on its root and its globs and
/// on the path alone; the disk is not read. Such a matcher panics where the
/// path is still rooted after it has stripped it; `requires` leaves such
/// paths out.
#[verifier::external_body]
fn matcher_ignores(matcher: &Gitignore, path: &str) -> (ignored: bool)
    requires
        matcher_globs(*matcher).len() == 0 || !is_rooted(
            stripped_for_match(matcher_root(*matcher), path@),
        ),
    ensures
        ignored == (matcher_globs(*matcher).len() > 0 && ignores_path(
            matcher_root(*matcher),
            matcher_globs(*matcher),
            path@,
        )),
{
    matcher.matched_path_or_any_parents(std::path::Path::new(path), false).is_ignore()
}

/// The globs that a builder holds after it was offered `patterns` in turn:
/// those of every pattern that it can read, in the order of the patterns.
pub open spec fn collected_globs(patterns: Seq<Seq<char>>) -> Seq<Seq<char>>
    decreases patterns.len(),
{
    if patterns.len() == 0 {
        Seq::empty()
    } else {
        collected_globs(patterns.drop_last()) + added_globs(patterns.last())
    }
}

/// Whether the path `relative` is one that every matcher at `root` can
/// match.
pub open spec fn is_matchable(root: Seq<char>, relative: Seq<char>) -> bool {
    !is_rooted(stripped_for_match(without_dot_slash(root), path_join(root, relative)))
}

/// Whether `patterns` leave out the file at `relative` under `root`: the
/// builder makes a glob at least of the patterns, a matcher can be made of
/// its globs, and the matcher finds the file ignored.
pub open spec fn is_ignored(root: Seq<char>, patterns: Seq<Seq<char>>, relative: Seq<char>) -> bool {
    let globs = collected_globs(patterns);
    &&& globs.len() > 0
    &&& globs_compile(globs)
    &&& ignores_path(without_dot_slash(root), globs, path_join(root, relative))
}

/// Without patterns no file is left out.
pub proof fn lemma_no_patterns_ignore_nothing(root: Seq<char>, relative: Seq<char>)
    ensures
        !is_ignored(root, Seq::empty(), relative),
{
}

/// Whether the file at `relative_file_path`, a path relative to
/// `workspace_root`, is left out by `processed_patterns`. Later patterns
/// override earlier ones. A pattern that cannot be read as a glob is
/// passed over; where no matcher can be made of the rest, no file is left
/// out.
pub fn is_file_ignored(
    relative_file_path: &str,
    processed_patterns: &[String],
    workspace_root: &str,
) -> (ignored: bool)
    requires
        is_matchable(workspace_root@, relative_file_path@),
    ensures
        ignored == is_ignored(
            workspace_root@,
            patterns_view(processed_patterns@),
            relative_file_path@,
        ),
{
    let ghost patterns = patterns_view(processed_patterns@);
    let mut builder = new_builder(workspace_root);
    let mut i: usize = 0;
    proof {
        assert(patterns.take(0) =~= Seq::<Seq<char>>::empty());
    }
    while i < processed_patterns.len()
        invariant
            i <= processed_patterns.len(),
            patterns == patterns_view(processed_patterns@),
            builder_root(builder) == without_dot_slash(workspace_root@),
            builder_globs(builder) == collected_globs(patterns.take(i as int)),
        decreases processed_patterns.len() - i,
    {
        proof {
            assert(patterns.take(i + 1).drop_last() =~= patterns.take(i as int));
            assert(patterns.take(i + 1).last() == processed_patterns@[i as int]@);
        }
        let _ = add_line(&mut builder, processed_patterns[i].as_str());
        i += 1;
    }
    proof {
        assert(patterns.take(processed_patterns.len() as int) =~= patterns);
    }
    match build_matcher(&builder) {
        Ok(matcher) => {
            let path = join(workspace_root, relative_file_path);
            matcher_ignores(&matcher, path.as_str())
        },
        Err(_) => false,
    }
}

/// The patterns as plain values.
pub open spec fn patterns_view(patterns: Seq<String>) -> Seq<Seq<char>> {
    Seq::new(patterns.len(), |i: int| patterns[i]@)
}

/// Whether `relative` is a relative path as a listing gives it: it begins
/// neither with a separator nor with `./`.
pub open spec fn is_plain_relative(relative: Seq<char>) -> bool {
    !is_rooted(relative) && !has_prefix(relative, dot_slash())
}

/// Every plain relative path can be matched, whatever the root.
pub proof fn lemma_plain_relative_is_matchable(root: Seq<char>, relative: Seq<char>)
    requires
        is_plain_relative(relative),
    ensures
        is_matchable(root, relative),
{
    let base = without_dot_slash(root);
    let joined = path_join(root, relative);
    let p = without_dot_slash(joined);
    let slash = seq![separator()];
    if root.len() == 0 {
        assert(joined == relative);
        assert(p == relative);
        assert(base == root);
        assert(p.skip(0) =~= p);
    } else if root =~= dot() {
        assert(joined =~= dot_slash() + relative);
        assert(joined.take(2) =~= dot_slash());
        assert(p =~= relative);
        assert(base == root);
        assert(components(root) =~= seq![dot()]) by {
            assert(root.len() == 1 && root[0] == '.');
            assert(crate::paths::name_len(root.skip(1)) == 0);
            assert(crate::paths::name_len(root) == 1);
            assert(root.take(1) =~= dot());
            assert(components(root.skip(1)) =~= Seq::<Seq<char>>::empty());
        }
        assert(is_current_dir(base));
    } else {
        let sep = if root.last() == separator() {
            Seq::<char>::empty()
        } else {
            slash
        };
        assert(joined =~= root + sep + relative);
        // The joined path begins with `./` exactly where the root does.
        if has_prefix(root, dot_slash()) {
            assert(joined.take(2) =~= root.take(2));
            assert(p =~= base + sep + relative);
        } else {
            if has_prefix(joined, dot_slash()) {
                assert(joined.take(2) =~= dot_slash());
                assert(joined[0] == '.' && joined[1] == separator());
                if root.len() >= 2 {
                    assert(root.take(2) =~= joined.take(2));
                } else {
                    assert(root[0] == '.');
                    assert(root =~= dot());
                }
            }
            assert(p =~= base + sep + relative);
        }
        assert(p.take(base.len() as int) =~= base);
        assert(p.skip(base.len() as int) =~= sep + relative);
        let rest = sep + relative;
        if sep.len() == 0 {
            assert(rest =~= relative);
        } else {
            assert(rest[0] == separator());
            assert(rest.skip(1) =~= relative);
        }
        if is_current_dir(base) {
            assert(base.len() > 0) by {
                if base.len() == 0 {
                    assert(components(base).len() == 0);
                }
            }
            assert(p[0] == base[0]);
        }
    }
}

/// Whether `p` names the current directory.
fn names_current_dir(p: &str) -> (r: bool)
    ensures
        r == is_current_dir(p@),
{
    let chars = chars_of(p);
    if chars.len() > 0 && chars[0] == '/' {
        return false;
    }
    let names = split_components(p);
    if names.len() == 0 {
        return false;
    }
    let mut k: usize = 0;
    while k < names.len()
        invariant
            k <= names.len(),
            names.deep_view() == components(p@),
            forall|j: int| 0 <= j < k ==> #[trigger] components(p@)[j] == dot(),
        decreases names.len() - k,
    {
        proof {
            reveal_strlit(".");
            assert(names.deep_view()[k as int] == names@[k as int]@);
            assert("."@ =~= dot());
        }
        if !same_text(names[k].as_str(), ".") {
            return false;
        }
        k += 1;
    }
    true
}

/// Length of the `./` at the start of `v`, if there is one.
fn dot_slash_len(v: &Vec<char>) -> (n: usize)
    ensures
        n <= v.len(),
        v@.skip(n as int) == without_dot_slash(v@),
{
    if v.len() >= 2 && v[0] == '.' && v[1] == '/' {
        proof {
            assert(v@.take(2) =~= dot_slash());
        }
        2
    } else {
        proof {
            if v.len() >= 2 {
                assert(v@.take(2)[0] == v@[0]);
                assert(v@.take(2)[1] == v@[1]);
            }
            assert(v@.skip(0) =~= v@);
        }
        0
    }
}

/// Whether `v[from..]` holds a separator.
fn holds_separator(v: &Vec<char>, from: usize) -> (r: bool)
    requires
        from <= v.len(),
    ensures
        r == v@.skip(from as int).contains(separator()),
{
    let ghost rest = v@.skip(from as int);
    let mut i: usize = from;
    while i < v.len()
        invariant
            from <= i <= v.len(),
            rest == v@.skip(from as int),
            forall|k: int| 0 <= k < i - from ==> rest[k] != separator(),
        decreases v.len() - i,
    {
        if v[i] == '/' {
            proof {
                assert(rest[i - from] == separator());
            }
            return true;
        }
        i += 1;
    }
    false
}

/// Whether `v[from..]` begins with `w[start..]`.
fn begins_with(v: &Vec<char>, from: usize, w: &Vec<char>, start: usize) -> (r: bool)
    requires
        from <= v.len(),
        start <= w.len(),
    ensures
        r == has_prefix(v@.skip(from as int), w@.skip(start as int)),
{
    let ghost text = v@.skip(from as int);
    let ghost prefix = w@.skip(start as int);
    if w.len() - start > v.len() - from {
        return false;
    }
    let n: usize = w.len() - start;
    let mut j: usize = 0;
    while j < n
        invariant
            j <= n,
            n == prefix.len(),
            n <= text.len(),
            text == v@.skip(from as int),
            prefix == w@.skip(start as int),
            from + n <= v.len(),
            start + n == w.len(),
            text.take(j as int) =~= prefix.take(j as int),
        decreases n - j,
    {
        if v[from + j] != w[start + j] {
            proof {
                assert(text[j as int] != prefix[j as int]);
                assert(text.take(n as int)[j as int] == text[j as int]);
            }
            return false;
        }
        proof {
            assert(text.take(j + 1) =~= text.take(j as int).push(text[j as int]));
            assert(prefix.take(j + 1) =~= prefix.take(j as int).push(prefix[j as int]));
        }
        j += 1;
    }
    proof {
        assert(prefix.take(n as int) =~= prefix);
    }
    true
}

/// Where in `path` the text begins that a matcher at `root[root_from..]`
/// matches.
fn stripped_start(
    path: &Vec<char>,
    root: &Vec<char>,
    root_from: usize,
    root_is_current: bool,
) -> (at: usize)
    requires
        root_from <= root.len(),
        root_is_current == is_current_dir(root@.skip(root_from as int)),
    ensures
        at <= path.len(),
        path@.skip(at as int) == stripped_for_match(root@.skip(root_from as int), path@),
{
    let from = dot_slash_len(path);
    let ghost base = root@.skip(root_from as int);
    let ghost p = without_dot_slash(path@);
    if !root_is_current && holds_separator(path, from) && begins_with(path, from, root, root_from) {
        let at: usize = from + (root.len() - root_from);
        proof {
            assert(p.skip(base.len() as int) =~= path@.skip(at as int));
        }
        if at < path.len() && path[at] == '/' {
            proof {
                assert(path@.skip(at as int)[0] == path@[at as int]);
                assert(path@.skip(at as int).skip(1) =~= path@.skip(at + 1));
            }
            at + 1
        } else {
            proof {
                if at < path.len() {
                    assert(path@.skip(at as int)[0] == path@[at as int]);
                }
            }
            at
        }
    } else {
        from
    }
}

/// Whether the path `relative` can be matched under `workspace_root`.
pub fn is_matchable_path(workspace_root: &str, relative: &str) -> (r: bool)
    ensures
        r == is_matchable(workspace_root@, relative@),
{
    let root = chars_of(workspace_root);
    let root_from = dot_slash_len(&root);
    let base_text = workspace_root.substring_char(root_from, root.len());
    proof {
        assert(root@.subrange(root_from as int, root.len() as int) =~= root@.skip(root_from as int));
    }
    let root_is_current = names_current_dir(base_text);
    let joined = join(workspace_root, relative);
    let path = chars_of(joined.as_str());
    let at = stripped_start(&path, &root, root_from, root_is_current);
    proof {
        if at < path.len() {
            assert(path@.skip(at as int)[0] == path@[at as int]);
        }
    }
    !(at < path.len() && path[at] == '/')
}

/// Whether `relative` begins neither with a separator nor with `./`.
pub fn is_plain_relative_path(relative: &str) -> (r: bool)
    ensures
        r == is_plain_relative(relative@),
{
    let chars = chars_of(relative);
    if chars.len() > 0 && chars[0] == '/' {
        return false;
    }
    if chars.len() >= 2 && chars[0] == '.' && chars[1] == '/' {
        proof {
            assert(chars@.take(2) =~= dot_slash());
        }
        return false;
    }
    proof {
        if chars.len() >= 2 {
            assert(chars@.take(2)[0] == chars@[0]);
            assert(chars@.take(2)[1] == chars@[1]);
        }
    }
    true
}

} // verus!
