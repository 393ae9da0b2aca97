//! The list of files as it is shown: filtered by name, put in order by a
//! column, and summed up.
use vstd::prelude::*;
use vstd::string::StringExecFns;
use regex::Regex;
use crate::fs_utils::file_views;
use crate::fs_utils::FileInfo;
use crate::fs_utils::FileInfoView;
use crate::selection::SelectionSet;
use crate::text::chars_of;
use crate::text::contains;
use crate::text::decimal;
use crate::text::decimal_chars;
use crate::text::ends_with;
use crate::text::has_infix;
use crate::text::has_suffix;
use crate::text::lemma_lex_le_reflexive;
use crate::text::lemma_lex_le_total;
use crate::text::lemma_lex_le_transitive;
use crate::text::lex_le;
use crate::text::lex_le_chars;
use crate::text::same_text;

verus! {

/// The column by which the list is put in order.
#[derive(Debug, Clone, Copy, PartialEq, Eq, Structural)]
pub enum SortColumn {
    Name,
    Size,
    Tokens,
}

#[derive(Debug, Clone, Copy, PartialEq, Eq, Structural)]
pub enum SortDirection {
    Ascending,
    Descending,
}

/// How the filter text is held against a file name.
#[derive(Debug, Clone, Copy, PartialEq, Eq, Structural)]
pub enum FilterType {
    /// The name holds the text.
    Substring,
    /// The name ends with the text, read as an extension.
    Extension,
    /// The text, read as a regular expression, matches the name.
    Regex,
}

/// The identifier of `filter_type`, as it is shown and parsed.
pub open spec fn filter_identifier(filter_type: FilterType) -> Seq<char> {
    match filter_type {
        FilterType::Substring => "Substring"@,
        FilterType::Extension => "Extension"@,
        FilterType::Regex => "Regex"@,
    }
}

/// The filter type that `text` identifies, if any.
pub open spec fn parsed_filter(text: Seq<char>) -> Option<FilterType> {
    if text == filter_identifier(FilterType::Substring) {
        Some(FilterType::Substring)
    } else if text == filter_identifier(FilterType::Extension) {
        Some(FilterType::Extension)
    } else if text == filter_identifier(FilterType::Regex) {
        Some(FilterType::Regex)
    } else {
        None
    }
}

impl FilterType {
    /// The identifier of the filter type.
    pub fn to_string(&self) -> (s: String)
        ensures
            s@ == filter_identifier(*self),
    {
        match self {
            FilterType::Substring => "Substring".to_owned(),
            FilterType::Extension => "Extension".to_owned(),
            FilterType::Regex => "Regex".to_owned(),
        }
    }

    /// The filter type that `s` identifies; for any other text an error
    /// message that names the text.
    pub fn from_str(s: &str) -> (r: Result<FilterType, String>)
        ensures
            match r {
                Ok(t) => parsed_filter(s@) == Some(t),
                Err(message) => parsed_filter(s@) is None && message@ == "Unknown filter type: "@
                    + s@,
            },
    {
        if same_text(s, "Substring") {
            Ok(FilterType::Substring)
        } else if same_text(s, "Extension") {
            Ok(FilterType::Extension)
        } else if same_text(s, "Regex") {
            Ok(FilterType::Regex)
        } else {
            let mut message = "Unknown filter type: ".to_owned();
            message.append(s);
            Err(message)
        }
    }
}

impl std::str::FromStr for FilterType {
    type Err = String;

    /// The filter type that `s` identifies; for any other text an error
    /// message that names the text.
    fn from_str(s: &str) -> (r: Result<Self, String>)
        ensures
            match r {
                Ok(t) => parsed_filter(s@) == Some(t),
                Err(message) => parsed_filter(s@) is None && message@ == "Unknown filter type: "@
                    + s@,
            },
    {
        FilterType::from_str(s)
    }
}

/// `text` in lower case, as `str::to_lowercase` gives it.
pub uninterp spec fn lowercase(text: Seq<char>) -> Seq<char>;

/// `str::to_lowercase`: the text with every character in lower case.
#[verifier::external_body]
fn to_lowercase(text: &str) -> (lowered: String)
    ensures
        lowered@ == lowercase(text@),
{
    text.to_lowercase()
}

/// Whether the regular expression `pattern` matches somewhere in `text`;
/// `None` where `pattern` is no regular expression.
pub uninterp spec fn regex_match(pattern: Seq<char>, text: Seq<char>) -> Option<bool>;

/// `Regex::new` and `Regex::is_match`: whether `pattern`, compiled with the
/// default options, matches somewhere in `text`; `None` where it does not
/// compile.
#[verifier::external_body]
fn regex_is_match(pattern: &str, text: &str) -> (verdict: Option<bool>)
    ensures
        verdict == regex_match(pattern@, text@),
{
    match Regex::new(pattern) {
        Ok(re) => Some(re.is_match(text)),
        Err(_) => None,
    }
}

/// The suffix that an extension filter looks for: the filter text, with a
/// dot in front unless it has one.
pub open spec fn extension_suffix(filter: Seq<char>) -> Seq<char> {
    if filter.len() > 0 && filter[0] == '.' {
        filter
    } else {
        "."@ + filter
    }
}

/// Whether a name passes the filter. `lowered_name` is the name in lower
/// case, `filter` the filter text in lower case, `verdict` what the
/// regular expression `filter` says of the name. A text that is no regular
/// expression is looked for in the name instead.
pub open spec fn name_passes(
    lowered_name: Seq<char>,
    filter: Seq<char>,
    filter_type: FilterType,
    verdict: Option<bool>,
) -> bool {
    match filter_type {
        FilterType::Substring => has_infix(lowered_name, filter),
        FilterType::Extension => has_suffix(lowered_name, extension_suffix(filter)),
        FilterType::Regex => match verdict {
            Some(matched) => matched,
            None => has_infix(lowered_name, filter),
        },
    }
}

/// Whether a name passes the filter, given the name and the filter text in
/// lower case and what the regular expression says.
pub fn passes_filter(
    lowered_name: &str,
    filter: &str,
    filter_type: FilterType,
    verdict: Option<bool>,
) -> (r: bool)
    ensures
        r == name_passes(lowered_name@, filter@, filter_type, verdict),
{
    let name = chars_of(lowered_name);
    let text = chars_of(filter);
    match filter_type {
        FilterType::Substring => contains(&name, &text),
        FilterType::Extension => {
            if text.len() > 0 && text[0] == '.' {
                ends_with(&name, &text)
            } else {
                proof {
                    reveal_strlit(".");
                }
                let mut suffix = ".".to_owned();
                suffix.append(filter);
                let wanted = chars_of(suffix.as_str());
                ends_with(&name, &wanted)
            }
        },
        FilterType::Regex => match verdict {
            Some(matched) => matched,
            None => contains(&name, &text),
        },
    }
}

/// Whether the file of name `name` passes the filter text `filter`, which
/// is in lower case.
pub open spec fn file_passes(name: Seq<char>, filter: Seq<char>, filter_type: FilterType) -> bool {
    name_passes(lowercase(name), filter, filter_type, regex_match(filter, name))
}

/// The files of `files` that pass `filter`, in their order.
pub open spec fn passing(
    files: Seq<FileInfoView>,
    filter: Seq<char>,
    filter_type: FilterType,
) -> Seq<FileInfoView>
    decreases files.len(),
{
    if files.len() == 0 {
        Seq::empty()
    } else if file_passes(files.last().name, filter, filter_type) {
        passing(files.drop_last(), filter, filter_type).push(files.last())
    } else {
        passing(files.drop_last(), filter, filter_type)
    }
}

/// The files that are shown under the filter text: all of them where the
/// text is empty, else those whose name passes the text in lower case.
pub open spec fn filtered(
    files: Seq<FileInfoView>,
    filter_text: Seq<char>,
    filter_type: FilterType,
) -> Seq<FileInfoView> {
    if lowercase(filter_text).len() == 0 {
        files
    } else {
        passing(files, lowercase(filter_text), filter_type)
    }
}

/// The files of `files` that are shown under the filter.
pub fn filter_files(
    files: &[FileInfo],
    filter_text: &str,
    filter_type: FilterType,
) -> (shown: Vec<FileInfo>)
    ensures
        file_views(shown@) == filtered(file_views(files@), filter_text@, filter_type),
{
    let filter = to_lowercase(filter_text);
    let all = filter.as_str().unicode_len() == 0;
    let ghost views = file_views(files@);
    let mut shown: Vec<FileInfo> = Vec::new();
    let mut i: usize = 0;
    proof {
        assert(views.take(0) =~= Seq::<FileInfoView>::empty());
        assert(file_views(shown@) =~= Seq::<FileInfoView>::empty());
    }
    while i < files.len()
        invariant
            i <= files.len(),
            views == file_views(files@),
            filter@ == lowercase(filter_text@),
            all == (filter@.len() == 0),
            file_views(shown@) == if all {
                views.take(i as int)
            } else {
                passing(views.take(i as int), filter@, filter_type)
            },
        decreases files.len() - i,
    {
        let keep = if all {
            true
        } else {
            let lowered = to_lowercase(files[i].name.as_str());
            let verdict = match filter_type {
                FilterType::Regex => regex_is_match(filter.as_str(), files[i].name.as_str()),
                _ => None,
            };
            passes_filter(lowered.as_str(), filter.as_str(), filter_type, verdict)
        };
        proof {
            assert(views.take(i + 1).drop_last() =~= views.take(i as int));
            assert(views.take(i + 1).last() == files@[i as int]@);
        }
        if keep {
            let ghost before = file_views(shown@);
            let copy = files[i].duplicate();
            shown.push(copy);
            proof {
                assert(file_views(shown@) =~= before.push(copy@));
                assert(views.take(i + 1) =~= views.take(i as int).push(files@[i as int]@));
            }
        }
        i += 1;
    }
    proof {
        assert(views.take(files.len() as int) =~= views);
    }
    shown
}

/// The text by which a file is ordered under `column`: its name, or its
/// size or its token count in decimal digits.
pub open spec fn column_key(file: FileInfoView, column: SortColumn) -> Seq<char> {
    match column {
        SortColumn::Name => file.name,
        SortColumn::Size => decimal(file.size),
        SortColumn::Tokens => decimal(file.token_count),
    }
}

/// `sorted` with `file` entered behind the last record whose key does not
/// come after its own.
pub open spec fn insert_by_key(
    sorted: Seq<FileInfoView>,
    file: FileInfoView,
    column: SortColumn,
) -> Seq<FileInfoView>
    decreases sorted.len(),
{
    if sorted.len() == 0 {
        seq![file]
    } else if lex_le(column_key(sorted.last(), column), column_key(file, column)) {
        sorted.push(file)
    } else {
        insert_by_key(sorted.drop_last(), file, column).push(sorted.last())
    }
}

/// `files` in the order of their keys; records of equal keys keep their
/// order.
pub open spec fn sorted_by_key(files: Seq<FileInfoView>, column: SortColumn) -> Seq<FileInfoView>
    decreases files.len(),
{
    if files.len() == 0 {
        Seq::empty()
    } else {
        insert_by_key(sorted_by_key(files.drop_last(), column), files.last(), column)
    }
}

/// `files` in the order in which they are shown: by the key of `column`,
/// from the last to the first where the direction is descending.
pub open spec fn arranged(
    files: Seq<FileInfoView>,
    column: SortColumn,
    direction: SortDirection,
) -> Seq<FileInfoView> {
    match direction {
        SortDirection::Ascending => sorted_by_key(files, column),
        SortDirection::Descending => sorted_by_key(files, column).reverse(),
    }
}

/// Entering `file` at `at` is what `insert_by_key` does, where every record
/// from `at` on has a key that comes after that of `file` and the one
/// before `at` has not.
pub proof fn lemma_insert_by_key_at(
    sorted: Seq<FileInfoView>,
    file: FileInfoView,
    column: SortColumn,
    at: int,
)
    requires
        0 <= at <= sorted.len(),
        forall|k: int|
            at <= k < sorted.len() ==> !lex_le(
                column_key(#[trigger] sorted[k], column),
                column_key(file, column),
            ),
        at > 0 ==> lex_le(column_key(sorted[at - 1], column), column_key(file, column)),
    ensures
        insert_by_key(sorted, file, column) == sorted.insert(at, file),
    decreases sorted.len(),
{
    if sorted.len() == 0 {
        assert(seq![file] =~= sorted.insert(at, file));
    } else if at == sorted.len() {
        assert(sorted.push(file) =~= sorted.insert(at, file));
    } else {
        assert(!lex_le(column_key(sorted[sorted.len() - 1], column), column_key(file, column)));
        lemma_insert_by_key_at(sorted.drop_last(), file, column, at);
        assert(sorted.drop_last().insert(at, file).push(sorted.last()) =~= sorted.insert(at, file));
    }
}

/// Whether the keys of `files` do not go down.
pub open spec fn is_in_key_order(files: Seq<FileInfoView>, column: SortColumn) -> bool {
    forall|i: int, j: int|
        0 <= i <= j < files.len() ==> lex_le(
            column_key(#[trigger] files[i], column),
            column_key(#[trigger] files[j], column),
        )
}

/// Entering a record keeps the order and adds the record, no more.
pub proof fn lemma_insert_by_key_keeps_order(
    sorted: Seq<FileInfoView>,
    file: FileInfoView,
    column: SortColumn,
)
    requires
        is_in_key_order(sorted, column),
    ensures
        is_in_key_order(insert_by_key(sorted, file, column), column),
        insert_by_key(sorted, file, column).to_multiset() == sorted.to_multiset().insert(file),
    decreases sorted.len(),
{
    broadcast use vstd::seq_lib::group_to_multiset_ensures;

    let after = insert_by_key(sorted, file, column);
    let key = column_key(file, column);
    if sorted.len() == 0 {
        lemma_lex_le_reflexive(key);
        assert(after =~= sorted.push(file));
    } else if lex_le(column_key(sorted.last(), column), key) {
        assert forall|i: int, j: int| 0 <= i <= j < after.len() implies lex_le(
            column_key(#[trigger] after[i], column),
            column_key(#[trigger] after[j], column),
        ) by {
            if j < sorted.len() {
                assert(lex_le(column_key(sorted[i], column), column_key(sorted[j], column)));
            } else if i < sorted.len() {
                assert(lex_le(
                    column_key(sorted[i], column),
                    column_key(sorted[sorted.len() - 1], column),
                ));
                lemma_lex_le_transitive(
                    column_key(sorted[i], column),
                    column_key(sorted.last(), column),
                    key,
                );
            } else {
                lemma_lex_le_reflexive(key);
            }
        }
    } else {
        let front = sorted.drop_last();
        let last = sorted.last();
        assert forall|i: int, j: int| 0 <= i <= j < front.len() implies lex_le(
            column_key(#[trigger] front[i], column),
            column_key(#[trigger] front[j], column),
        ) by {
            assert(lex_le(column_key(sorted[i], column), column_key(sorted[j], column)));
        }
        lemma_insert_by_key_keeps_order(front, file, column);
        let entered = insert_by_key(front, file, column);
        lemma_lex_le_total(column_key(last, column), key);
        assert forall|i: int| 0 <= i < entered.len() implies lex_le(
            column_key(#[trigger] entered[i], column),
            column_key(last, column),
        ) by {
            assert(entered.to_multiset().count(entered[i]) > 0);
            if entered[i] != file {
                assert(front.to_multiset().count(entered[i]) > 0);
                let k = choose|k: int| 0 <= k < front.len() && front[k] == entered[i];
                assert(lex_le(
                    column_key(sorted[k], column),
                    column_key(sorted[sorted.len() - 1], column),
                ));
            }
        }
        assert forall|i: int, j: int| 0 <= i <= j < after.len() implies lex_le(
            column_key(#[trigger] after[i], column),
            column_key(#[trigger] after[j], column),
        ) by {
            if j < entered.len() {
                assert(lex_le(column_key(entered[i], column), column_key(entered[j], column)));
            } else if i < entered.len() {
                assert(lex_le(column_key(entered[i], column), column_key(last, column)));
            } else {
                lemma_lex_le_reflexive(column_key(last, column));
            }
        }
        assert(sorted =~= front.push(last));
        assert(after.to_multiset() =~= sorted.to_multiset().insert(file));
    }
}

/// The sorted records do not go down in their keys, and they are the
/// records that were given, each as often as it was given.
pub proof fn lemma_sorted_by_key_is_sorted(files: Seq<FileInfoView>, column: SortColumn)
    ensures
        is_in_key_order(sorted_by_key(files, column), column),
        sorted_by_key(files, column).to_multiset() == files.to_multiset(),
    decreases files.len(),
{
    broadcast use vstd::seq_lib::group_to_multiset_ensures;

    if files.len() > 0 {
        lemma_sorted_by_key_is_sorted(files.drop_last(), column);
        lemma_insert_by_key_keeps_order(
            sorted_by_key(files.drop_last(), column),
            files.last(),
            column,
        );
        assert(files =~= files.drop_last().push(files.last()));
    }
}

/// The key of `file` under `column`.
fn key_of(file: &FileInfo, column: SortColumn) -> (key: Vec<char>)
    ensures
        key@ == column_key(file@, column),
{
    match column {
        SortColumn::Name => chars_of(file.name.as_str()),
        SortColumn::Size => decimal_chars(file.size),
        SortColumn::Tokens => decimal_chars(file.token_count as u64),
    }
}

/// A copy of `files` in the order in which they are shown.
pub fn sort_files(
    files: &[FileInfo],
    column: SortColumn,
    direction: SortDirection,
) -> (shown: Vec<FileInfo>)
    ensures
        file_views(shown@) == arranged(file_views(files@), column, direction),
{
    let ghost views = file_views(files@);
    let mut sorted: Vec<FileInfo> = Vec::new();
    let mut keys: Vec<Vec<char>> = Vec::new();
    let mut i: usize = 0;
    proof {
        assert(views.take(0) =~= Seq::<FileInfoView>::empty());
        assert(file_views(sorted@) =~= Seq::<FileInfoView>::empty());
    }
    while i < files.len()
        invariant
            i <= files.len(),
            views == file_views(files@),
            keys.len() == sorted.len(),
            forall|k: int|
                0 <= k < keys.len() ==> (#[trigger] keys@[k])@ == column_key(sorted@[k]@, column),
            file_views(sorted@) == sorted_by_key(views.take(i as int), column),
        decreases files.len() - i,
    {
        let key = key_of(&files[i], column);
        let mut at: usize = sorted.len();
        while at > 0 && !lex_le_chars(&keys[at - 1], &key)
            invariant
                at <= sorted.len(),
                keys.len() == sorted.len(),
                forall|k: int| at <= k < keys.len() ==> !lex_le((#[trigger] keys@[k])@, key@),
            decreases at,
        {
            at -= 1;
        }
        let copy = files[i].duplicate();
        proof {
            let before = file_views(sorted@);
            assert forall|k: int| at <= k < before.len() implies !lex_le(
                column_key(#[trigger] before[k], column),
                column_key(copy@, column),
            ) by {
                assert(keys@[k]@ == column_key(sorted@[k]@, column));
            }
            if at > 0 {
                assert(keys@[at - 1]@ == column_key(sorted@[at - 1]@, column));
            }
            lemma_insert_by_key_at(before, copy@, column, at as int);
            assert(views.take(i + 1).drop_last() =~= views.take(i as int));
            assert(views.take(i + 1).last() == copy@);
            assert(file_views(sorted@.insert(at as int, copy)) =~= before.insert(at as int, copy@));
        }
        sorted.insert(at, copy);
        keys.insert(at, key);
        i += 1;
    }
    proof {
        assert(views.take(files.len() as int) =~= views);
    }
    match direction {
        SortDirection::Ascending => sorted,
        SortDirection::Descending => {
            let ghost forward = file_views(sorted@);
            let mut shown: Vec<FileInfo> = Vec::new();
            let mut left: usize = sorted.len();
            while left > 0
                invariant
                    left <= sorted.len(),
                    forward == file_views(sorted@),
                    shown.len() == sorted.len() - left,
                    forall|k: int|
                        0 <= k < shown.len() ==> (#[trigger] shown@[k])@ == forward[sorted.len() - 1
                            - k],
                decreases left,
            {
                left -= 1;
                shown.push(sorted[left].duplicate());
            }
            proof {
                assert(file_views(shown@) =~= forward.reverse());
            }
            shown
        },
    }
}

/// The order after the head of `clicked` was clicked: the other direction
/// where the list is in the order of `clicked` already, else `clicked`
/// ascending.
pub fn toggle_sort(
    column: SortColumn,
    direction: SortDirection,
    clicked: SortColumn,
) -> (next: (SortColumn, SortDirection))
    ensures
        next.0 == clicked,
        next.1 == if column == clicked && direction == SortDirection::Ascending {
            SortDirection::Descending
        } else {
            SortDirection::Ascending
        },
{
    if column == clicked {
        match direction {
            SortDirection::Ascending => (clicked, SortDirection::Descending),
            SortDirection::Descending => (clicked, SortDirection::Ascending),
        }
    } else {
        (clicked, SortDirection::Ascending)
    }
}

/// Whether the tokens of `file` are still to be counted: the file is
/// selected and has no count.
pub fn needs_token_count(file: &FileInfo, selected: &SelectionSet) -> (r: bool)
    ensures
        r == (selected@.contains(file.path@) && file.token_count == 0),
{
    selected.contains(file.path.as_str()) && file.token_count == 0
}

/// The number of tokens above which the total is marked.
pub const TOKEN_LIMIT: usize = 32_000;

/// The sum of the token counts of the files whose path is selected.
pub open spec fn selected_tokens(files: Seq<FileInfoView>, selected: Set<Seq<char>>) -> nat
    decreases files.len(),
{
    if files.len() == 0 {
        0
    } else {
        selected_tokens(files.drop_last(), selected) + if selected.contains(files.last().path) {
            files.last().token_count
        } else {
            0
        }
    }
}

/// The sum over the first files is no more than the sum over all.
pub proof fn lemma_selected_tokens_grow(files: Seq<FileInfoView>, selected: Set<Seq<char>>, count: int)
    requires
        0 <= count <= files.len(),
    ensures
        selected_tokens(files.take(count), selected) <= selected_tokens(files, selected),
    decreases files.len(),
{
    if count == files.len() {
        assert(files.take(count) =~= files);
    } else {
        lemma_selected_tokens_grow(files.drop_last(), selected, count);
        assert(files.drop_last().take(count) =~= files.take(count));
    }
}

/// The total of the tokens of the selected files, or `None` where it is
/// more than a `usize` holds.
pub fn total_selected_tokens(files: &[FileInfo], selected: &SelectionSet) -> (total: Option<usize>)
    ensures
        match total {
            Some(n) => n == selected_tokens(file_views(files@), selected@),
            None => selected_tokens(file_views(files@), selected@) > usize::MAX,
        },
{
    let ghost views = file_views(files@);
    let mut sum: usize = 0;
    let mut i: usize = 0;
    proof {
        assert(views.take(0) =~= Seq::<FileInfoView>::empty());
    }
    while i < files.len()
        invariant
            i <= files.len(),
            views == file_views(files@),
            sum == selected_tokens(views.take(i as int), selected@),
        decreases files.len() - i,
    {
        proof {
            assert(views.take(i + 1).drop_last() =~= views.take(i as int));
            assert(views.take(i + 1).last() == files@[i as int]@);
            lemma_selected_tokens_grow(views, selected@, i + 1);
        }
        if selected.contains(files[i].path.as_str()) {
            match sum.checked_add(files[i].token_count) {
                Some(next) => {
                    sum = next;
                },
                None => {
                    return None;
                },
            }
        }
        i += 1;
    }
    proof {
        assert(views.take(files.len() as int) =~= views);
    }
    Some(sum)
}

/// Whether `total` is above the limit.
pub fn exceeds_token_limit(total: usize) -> (over: bool)
    ensures
        over == (total > TOKEN_LIMIT),
{
    total > TOKEN_LIMIT
}

} // verus!
