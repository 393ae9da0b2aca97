//! Paths as text. A path is a sequence of characters in which `/` separates
//! the components; a path that begins with `/` is rooted. Repeated
//! separators count as one and a trailing separator is ignored, so the
//! components of `/a//b/` are `a` and `b`. The names `.` and `..` are
//! components like any other; only `file_name` sets them apart.
use vstd::prelude::*;
use vstd::string::StringExecFns;
use crate::text::chars_of;
use crate::text::lemma_lex_le_antisymmetric;
use crate::text::lemma_lex_le_total;
use crate::text::lemma_lex_le_transitive;
use crate::text::lex_le;
use crate::text::lex_le_chars;

verus! {

/// The character that separates components.
pub open spec fn separator() -> char {
    '/'
}

/// Whether `p` begins at the root.
pub open spec fn is_rooted(p: Seq<char>) -> bool {
    p.len() > 0 && p[0] == separator()
}

/// Length of the run of characters before the first separator of `p`.
pub open spec fn name_len(p: Seq<char>) -> nat
    decreases p.len(),
{
    if p.len() > 0 && p[0] != separator() {
        1 + name_len(p.skip(1))
    } else {
        0
    }
}

/// The components of `p`: its maximal runs of characters other than the
/// separator, from left to right.
pub open spec fn components(p: Seq<char>) -> Seq<Seq<char>>
    decreases p.len(),
{
    if p.len() == 0 {
        Seq::empty()
    } else if p[0] == separator() {
        components(p.skip(1))
    } else {
        proof {
            lemma_name_len_bound(p);
        }
        seq![p.take(name_len(p) as int)] + components(p.skip(name_len(p) as int))
    }
}

/// The components of `p`, with the root as a first component `/` where `p`
/// is rooted.
pub open spec fn all_components(p: Seq<char>) -> Seq<Seq<char>> {
    if is_rooted(p) {
        seq![seq![separator()]] + components(p)
    } else {
        components(p)
    }
}

/// What is left of `p` from the start of its `k`-th component on (counted
/// from 0); empty where `p` has no more than `k` components.
pub open spec fn tail_from(p: Seq<char>, k: nat) -> Seq<char>
    decreases p.len(),
{
    if p.len() == 0 {
        p
    } else if p[0] == separator() {
        tail_from(p.skip(1), k)
    } else if k == 0 {
        p
    } else {
        proof {
            lemma_name_len_bound(p);
        }
        tail_from(p.skip(name_len(p) as int), (k - 1) as nat)
    }
}

/// `a` is a prefix of `b`, component by component.
pub open spec fn is_component_prefix(a: Seq<Seq<char>>, b: Seq<Seq<char>>) -> bool {
    a.len() <= b.len() && b.take(a.len() as int) == a
}

/// Whether `base` is an ancestor of `path` or `path` itself: the root and
/// the components of `base` are the first ones of `path`.
pub open spec fn path_starts_with(path: Seq<char>, base: Seq<char>) -> bool {
    is_component_prefix(all_components(base), all_components(path))
}

/// `path` relative to `base`, where `path_starts_with(path, base)`: what
/// stands in `path` behind the components of `base`, without separators at
/// its end. With an empty `base` that is `path` itself, without
/// separators at its end but for the root.
pub open spec fn strip_prefix(path: Seq<char>, base: Seq<char>) -> Option<Seq<char>> {
    if !path_starts_with(path, base) {
        None
    } else if all_components(base).len() == 0 {
        Some(trimmed_path(path))
    } else {
        Some(without_trailing_separators(tail_from(path, components(base).len())))
    }
}

/// `base` extended by `rel`. A rooted `rel` replaces `base`.
pub open spec fn path_join(base: Seq<char>, rel: Seq<char>) -> Seq<char> {
    if is_rooted(rel) || base.len() == 0 {
        rel
    } else if base.last() == separator() {
        base + rel
    } else {
        base + seq![separator()] + rel
    }
}

/// `p` without the separators at its end.
pub open spec fn without_trailing_separators(p: Seq<char>) -> Seq<char>
    decreases p.len(),
{
    if p.len() > 0 && p.last() == separator() {
        without_trailing_separators(p.drop_last())
    } else {
        p
    }
}

/// `p` without the separators at its end; of a path that is made of
/// separators only the root is left.
pub open spec fn trimmed_path(p: Seq<char>) -> Seq<char> {
    let cut = without_trailing_separators(p);
    if is_rooted(p) && cut.len() == 0 {
        seq![separator()]
    } else {
        cut
    }
}

/// `p` without the run of non-separator characters at its end.
pub open spec fn without_last_name(p: Seq<char>) -> Seq<char>
    decreases p.len(),
{
    if p.len() > 0 && p.last() != separator() {
        without_last_name(p.drop_last())
    } else {
        p
    }
}

/// The path of the directory that holds `p`: `p` without its last
/// component. A path without components (empty, or the root) has none.
pub open spec fn parent(p: Seq<char>) -> Option<Seq<char>> {
    let q = without_trailing_separators(p);
    if q.len() == 0 {
        None
    } else {
        let pre = without_trailing_separators(without_last_name(q));
        if is_rooted(p) && pre.len() == 0 {
            Some(seq![separator()])
        } else {
            Some(pre)
        }
    }
}

/// The last run of non-separator characters of `p`.
pub open spec fn last_name(p: Seq<char>) -> Seq<char> {
    let q = without_trailing_separators(p);
    q.skip(without_last_name(q).len() as int)
}

/// The name `.`.
pub open spec fn dot() -> Seq<char> {
    seq!['.']
}

/// The name `..`.
pub open spec fn dot_dot() -> Seq<char> {
    seq!['.', '.']
}

/// The file name of `p`: its last component, unless that is `.` or `..`.
pub open spec fn file_name(p: Seq<char>) -> Option<Seq<char>> {
    let n = last_name(p);
    if n.len() == 0 || n == dot() || n == dot_dot() {
        None
    } else {
        Some(n)
    }
}

/// Whether the file name of `p` begins with a dot.
pub open spec fn is_hidden_path(p: Seq<char>) -> bool {
    match file_name(p) {
        Some(n) => n[0] == '.',
        None => false,
    }
}

/// The key by which paths are ordered: the components, after an empty first
/// entry where the path is rooted.
pub open spec fn path_key(p: Seq<char>) -> Seq<Seq<char>> {
    if is_rooted(p) {
        seq![Seq::<char>::empty()] + components(p)
    } else {
        components(p)
    }
}

/// Lexicographic order on keys, entry by entry; entries are ordered by code
/// point. A proper prefix comes first.
pub open spec fn key_le(a: Seq<Seq<char>>, b: Seq<Seq<char>>) -> bool
    decreases a.len(),
{
    if a.len() == 0 {
        true
    } else if b.len() == 0 {
        false
    } else if a[0] != b[0] {
        lex_le(a[0], b[0])
    } else {
        key_le(a.skip(1), b.skip(1))
    }
}

/// The order of paths: rooted before unrooted, then component by component.
pub open spec fn path_le(a: Seq<char>, b: Seq<char>) -> bool {
    key_le(path_key(a), path_key(b))
}

pub proof fn lemma_name_len_bound(p: Seq<char>)
    ensures
        name_len(p) <= p.len(),
        p.len() > 0 && p[0] != separator() ==> name_len(p) >= 1,
        forall|i: int| 0 <= i < name_len(p) ==> p[i] != separator(),
        name_len(p) < p.len() ==> p[name_len(p) as int] == separator(),
    decreases p.len(),
{
    if p.len() > 0 && p[0] != separator() {
        lemma_name_len_bound(p.skip(1));
        assert forall|i: int| 0 <= i < name_len(p) implies p[i] != separator() by {
            if i > 0 {
                assert(p.skip(1)[i - 1] == p[i]);
            }
        }
        if name_len(p) < p.len() {
            assert(p.skip(1)[name_len(p.skip(1)) as int] == p[name_len(p) as int]);
        }
    }
}

/// Of two keys one comes before the other or equals it.
pub proof fn lemma_key_le_total(a: Seq<Seq<char>>, b: Seq<Seq<char>>)
    ensures
        key_le(a, b) || key_le(b, a),
    decreases a.len(),
{
    if a.len() > 0 && b.len() > 0 {
        if a[0] == b[0] {
            lemma_key_le_total(a.skip(1), b.skip(1));
        } else {
            lemma_lex_le_total(a[0], b[0]);
        }
    }
}

/// The order of keys is transitive.
pub proof fn lemma_key_le_transitive(a: Seq<Seq<char>>, b: Seq<Seq<char>>, c: Seq<Seq<char>>)
    requires
        key_le(a, b),
        key_le(b, c),
    ensures
        key_le(a, c),
    decreases a.len(),
{
    if a.len() > 0 && b.len() > 0 && c.len() > 0 {
        if a[0] == b[0] && b[0] == c[0] {
            lemma_key_le_transitive(a.skip(1), b.skip(1), c.skip(1));
        } else if a[0] != b[0] && b[0] != c[0] {
            lemma_lex_le_transitive(a[0], b[0], c[0]);
            if a[0] == c[0] {
                lemma_lex_le_antisymmetric(a[0], b[0]);
            }
        }
    }
}

/// The order of paths is total and transitive.
pub proof fn lemma_path_le_is_an_order(a: Seq<char>, b: Seq<char>, c: Seq<char>)
    ensures
        path_le(a, b) || path_le(b, a),
        path_le(a, b) && path_le(b, c) ==> path_le(a, c),
{
    lemma_key_le_total(path_key(a), path_key(b));
    if path_le(a, b) && path_le(b, c) {
        lemma_key_le_transitive(path_key(a), path_key(b), path_key(c));
    }
}

/// Cutting at the end leaves no more than there was, and what is left of
/// the separators does not end in one.
pub proof fn lemma_without_trailing_separators(p: Seq<char>)
    ensures
        without_trailing_separators(p).len() <= p.len(),
        without_trailing_separators(p).len() > 0 ==> without_trailing_separators(p).last()
            != separator(),
    decreases p.len(),
{
    if p.len() > 0 && p.last() == separator() {
        lemma_without_trailing_separators(p.drop_last());
    }
}

pub proof fn lemma_without_last_name(p: Seq<char>)
    ensures
        without_last_name(p).len() <= p.len(),
        p.len() > 0 && p.last() != separator() ==> without_last_name(p).len() < p.len(),
    decreases p.len(),
{
    if p.len() > 0 && p.last() != separator() {
        lemma_without_last_name(p.drop_last());
    }
}

/// The path of the directory that holds `p` is shorter than `p`.
pub proof fn lemma_parent_is_shorter(p: Seq<char>)
    ensures
        parent(p) matches Some(d) ==> d.len() < p.len(),
{
    let q = without_trailing_separators(p);
    lemma_without_trailing_separators(p);
    if q.len() > 0 {
        lemma_without_last_name(q);
        lemma_without_trailing_separators(without_last_name(q));
        if is_rooted(p) {
            assert(q[0] == p[0]) by {
                lemma_trailing_cut_is_prefix(p);
            }
        }
    }
}

/// What is left when the separators at the end are cut is a prefix.
pub proof fn lemma_trailing_cut_is_prefix(p: Seq<char>)
    ensures
        without_trailing_separators(p) == p.take(without_trailing_separators(p).len() as int),
    decreases p.len(),
{
    if p.len() > 0 && p.last() == separator() {
        lemma_trailing_cut_is_prefix(p.drop_last());
        lemma_without_trailing_separators(p.drop_last());
        let n = without_trailing_separators(p).len() as int;
        assert(p.drop_last().take(n) =~= p.take(n));
    } else {
        assert(p.take(p.len() as int) =~= p);
    }
}

/// No component is empty and none holds a separator.
pub proof fn lemma_components_are_names(p: Seq<char>)
    ensures
        forall|k: int|
            0 <= k < components(p).len() ==> (#[trigger] components(p)[k]).len() > 0 && !components(
                p,
            )[k].contains(separator()),
    decreases p.len(),
{
    if p.len() == 0 {
        assert(components(p).len() == 0);
    } else if p[0] == separator() {
        lemma_components_are_names(p.skip(1));
        assert(components(p) == components(p.skip(1)));
    } else {
        lemma_name_len_bound(p);
        let n = name_len(p) as int;
        lemma_components_are_names(p.skip(n));
        let first = p.take(n);
        assert(!first.contains(separator())) by {
            if first.contains(separator()) {
                let i = choose|i: int| 0 <= i < first.len() && first[i] == separator();
                assert(p[i] == separator());
            }
        }
        let all = components(p);
        assert(all == seq![first] + components(p.skip(n)));
        assert forall|k: int| 0 <= k < all.len() implies (#[trigger] all[k]).len() > 0
            && !all[k].contains(separator()) by {
            if k > 0 {
                assert(all[k] == components(p.skip(n))[k - 1]);
            } else {
                assert(all[0] == first);
            }
        }
    }
}

/// The components of what is left from the `k`-th component on are the
/// components from the `k`-th on.
pub proof fn lemma_tail_components(p: Seq<char>, k: nat)
    ensures
        components(tail_from(p, k)) == if k <= components(p).len() {
            components(p).skip(k as int)
        } else {
            Seq::empty()
        },
        !is_rooted(tail_from(p, k)),
    decreases p.len(),
{
    if p.len() == 0 {
        assert(components(p).skip(0) =~= components(p));
    } else if p[0] == separator() {
        lemma_tail_components(p.skip(1), k);
    } else if k == 0 {
        assert(components(p).skip(0) =~= components(p));
    } else {
        lemma_name_len_bound(p);
        let n = name_len(p) as int;
        lemma_tail_components(p.skip(n), (k - 1) as nat);
        let rest = components(p.skip(n));
        if k <= components(p).len() {
            assert(components(p).skip(k as int) =~= rest.skip(k - 1));
        }
    }
}

/// Dropping a separator at the end changes neither the length of the first
/// name nor the components.
pub proof fn lemma_components_ignore_last_separator(p: Seq<char>)
    requires
        p.len() > 0,
        p.last() == separator(),
    ensures
        components(p.drop_last()) == components(p),
        p[0] != separator() ==> name_len(p.drop_last()) == name_len(p) && name_len(p) < p.len(),
    decreases p.len(),
{
    let q = p.drop_last();
    if p[0] == separator() {
        if p.len() > 1 {
            lemma_components_ignore_last_separator(p.skip(1));
            assert(q.skip(1) =~= p.skip(1).drop_last());
        } else {
            assert(p.skip(1) =~= q);
        }
    } else {
        lemma_name_len_bound(p);
        let n = name_len(p) as int;
        // The first name ends before the separator at the end.
        assert(n < p.len()) by {
            if n == p.len() {
                assert(p[p.len() - 1] != separator());
            }
        }
        lemma_first_name_of_prefix(p, p.len() - 1);
        assert(q =~= p.take(p.len() - 1));
        let rest = p.skip(n);
        lemma_components_ignore_last_separator(rest);
        assert(q.skip(n) =~= rest.drop_last());
        assert(q.take(n) =~= p.take(n));
    }
}

/// A prefix that reaches past the first name has the same first name.
pub proof fn lemma_first_name_of_prefix(p: Seq<char>, len: int)
    requires
        name_len(p) <= len <= p.len(),
        name_len(p) < p.len(),
    ensures
        name_len(p.take(len)) == name_len(p),
    decreases p.len(),
{
    lemma_name_len_bound(p);
    if p.len() > 0 && p[0] != separator() {
        lemma_name_len_bound(p.skip(1));
        lemma_first_name_of_prefix(p.skip(1), len - 1);
        assert(p.take(len).skip(1) =~= p.skip(1).take(len - 1));
    } else if len > 0 {
        assert(p.take(len)[0] == p[0]);
    }
}

/// The components of a path do not depend on the separators at its end,
/// nor does it depend on them whether the path is rooted, as long as the
/// root is left.
pub proof fn lemma_components_ignore_trailing_separators(p: Seq<char>)
    ensures
        components(without_trailing_separators(p)) == components(p),
        all_components(trimmed_path(p)) == all_components(p),
    decreases p.len(),
{
    if p.len() > 0 && p.last() == separator() {
        lemma_components_ignore_last_separator(p);
        lemma_components_ignore_trailing_separators(p.drop_last());
    }
    let cut = without_trailing_separators(p);
    lemma_trailing_cut_is_prefix(p);
    if is_rooted(p) && cut.len() == 0 {
        let root = seq![separator()];
        assert(components(root) =~= Seq::<Seq<char>>::empty()) by {
            assert(root.skip(1) =~= Seq::<char>::empty());
            assert(components(root.skip(1)) =~= Seq::<Seq<char>>::empty());
        }
        assert(components(cut) =~= Seq::<Seq<char>>::empty());
    } else if cut.len() > 0 {
        lemma_without_trailing_separators(p);
        assert(p.take(cut.len() as int)[0] == p[0]);
        assert(cut[0] == p[0]);
    }
}

/// A path that lies under `base` is made of the root and the components of
/// `base`, followed by those of the path relative to `base`.
pub proof fn lemma_strip_prefix_splits(path: Seq<char>, base: Seq<char>)
    requires
        strip_prefix(path, base) is Some,
    ensures
        all_components(path) == all_components(base) + all_components(strip_prefix(path, base)->0),
{
    let rel = strip_prefix(path, base)->0;
    let k = components(base).len();
    if all_components(base).len() == 0 {
        lemma_components_ignore_trailing_separators(path);
        assert(all_components(base) + all_components(path) =~= all_components(path));
    } else {
        let tail = tail_from(path, k);
        lemma_tail_components(path, k);
        lemma_components_ignore_trailing_separators(tail);
        lemma_trailing_cut_is_prefix(tail);
        assert(!is_rooted(rel)) by {
            if rel.len() > 0 {
                lemma_without_trailing_separators(tail);
                assert(tail.take(rel.len() as int)[0] == tail[0]);
                assert(rel[0] == tail[0]);
            }
        }
        let whole = all_components(path);
        let first = all_components(base);
        assert(whole.take(first.len() as int) == first);
        if is_rooted(base) {
            assert(whole[0] == first[0]);
            assert(is_rooted(path)) by {
                if !is_rooted(path) {
                    lemma_components_are_names(path);
                    assert(whole[0] == components(path)[0]);
                    assert(first[0] == seq![separator()]);
                    assert(whole[0][0] == separator());
                    assert(components(path)[0].contains(separator()));
                }
            }
            assert(components(path).skip(k as int) =~= whole.skip(first.len() as int));
        } else {
            assert(!is_rooted(path)) by {
                if is_rooted(path) {
                    lemma_components_are_names(base);
                    assert(first[0] == components(base)[0]);
                    assert(whole[0] == seq![separator()]);
                    assert(first[0] == whole.take(first.len() as int)[0]);
                    assert(first[0][0] == separator());
                    assert(components(base)[0].contains(separator()));
                }
            }
            assert(components(path).skip(k as int) =~= whole.skip(first.len() as int));
        }
        assert(whole =~= whole.take(first.len() as int) + whole.skip(first.len() as int));
    }
}

/// End of the name that starts at `from`.
fn scan_name(v: &Vec<char>, from: usize) -> (to: usize)
    requires
        from <= v.len(),
    ensures
        from <= to <= v.len(),
        to == from + name_len(v@.skip(from as int)),
{
    let mut to: usize = from;
    while to < v.len() && v[to] != '/'
        invariant
            from <= to <= v.len(),
            name_len(v@.skip(from as int)) == (to - from) + name_len(v@.skip(to as int)),
        decreases v.len() - to,
    {
        proof {
            assert(v@.skip(to as int)[0] == v@[to as int]);
            assert(v@.skip(to as int).skip(1) =~= v@.skip(to + 1));
        }
        to += 1;
    }
    proof {
        if to < v.len() {
            assert(v@.skip(to as int)[0] == v@[to as int]);
        }
    }
    to
}

/// The components of `p`.
pub fn split_components(p: &str) -> (out: Vec<String>)
    ensures
        out.deep_view() == components(p@),
{
    let v = chars_of(p);
    let mut out: Vec<String> = Vec::new();
    let mut i: usize = 0;
    proof {
        assert(v@.skip(0) =~= v@);
        assert(out.deep_view() =~= Seq::<Seq<char>>::empty());
        assert(Seq::<Seq<char>>::empty() + components(v@) =~= components(v@));
    }
    while i < v.len()
        invariant
            i <= v.len(),
            v@ == p@,
            components(v@) == out.deep_view() + components(v@.skip(i as int)),
        decreases v.len() - i,
    {
        let ghost rest = v@.skip(i as int);
        proof {
            assert(rest[0] == v@[i as int]);
        }
        if v[i] == '/' {
            proof {
                assert(rest.skip(1) =~= v@.skip(i + 1));
            }
            i += 1;
        } else {
            let j = scan_name(&v, i);
            let name = p.substring_char(i, j).to_owned();
            proof {
                lemma_name_len_bound(rest);
                let n = name_len(rest) as int;
                assert(rest.take(n) =~= v@.subrange(i as int, j as int));
                assert(rest.skip(n) =~= v@.skip(j as int));
            }
            let ghost before = out.deep_view();
            out.push(name);
            proof {
                assert(out.deep_view() =~= before.push(name@));
                assert(before + (seq![name@] + components(v@.skip(j as int))) =~= before.push(name@)
                    + components(v@.skip(j as int)));
            }
            i = j;
        }
    }
    proof {
        assert(out.deep_view() + Seq::<Seq<char>>::empty() =~= out.deep_view());
    }
    out
}

/// Whether `p` begins at the root.
pub fn has_root(p: &str) -> (r: bool)
    ensures
        r == is_rooted(p@),
{
    p.unicode_len() > 0 && p.get_char(0) == '/'
}

/// The root, where `p` has one, and the components of `p`.
pub fn split_all_components(p: &str) -> (out: Vec<String>)
    ensures
        out.deep_view() == all_components(p@),
{
    let names = split_components(p);
    if has_root(p) {
        let mut out: Vec<String> = Vec::new();
        proof {
            reveal_strlit("/");
        }
        let root = "/".to_owned();
        assert(root@ =~= seq![separator()]);
        out.push(root);
        let mut k: usize = 0;
        proof {
            assert(out.deep_view() =~= seq![seq![separator()]] + names.deep_view().take(0));
        }
        while k < names.len()
            invariant
                k <= names.len(),
                out.deep_view() == seq![seq![separator()]] + names.deep_view().take(k as int),
            decreases names.len() - k,
        {
            let ghost before = out.deep_view();
            let name = names[k].clone();
            out.push(name);
            proof {
                assert(out.deep_view() =~= before.push(names@[k as int]@));
                assert(names.deep_view().take(k + 1) =~= names.deep_view().take(k as int).push(
                    names@[k as int]@,
                ));
                assert(out.deep_view() =~= seq![seq![separator()]] + names.deep_view().take(k + 1));
            }
            k += 1;
        }
        proof {
            assert(names.deep_view().take(names.len() as int) =~= names.deep_view());
        }
        out
    } else {
        names
    }
}

/// `base` extended by `rel`.
pub fn join(base: &str, rel: &str) -> (r: String)
    ensures
        r@ == path_join(base@, rel@),
{
    let n = base.unicode_len();
    if has_root(rel) || n == 0 {
        return rel.to_owned();
    }
    let mut r = base.to_owned();
    if base.get_char(n - 1) != '/' {
        proof {
            reveal_strlit("/");
        }
        r.append("/");
        assert(r@ =~= base@ + seq![separator()]);
    }
    r.append(rel);
    r
}

/// Whether the entries of `a` are the first entries of `b`.
pub fn is_prefix_of(a: &Vec<String>, b: &Vec<String>) -> (r: bool)
    ensures
        r == is_component_prefix(a.deep_view(), b.deep_view()),
{
    if a.len() > b.len() {
        return false;
    }
    let mut i: usize = 0;
    while i < a.len()
        invariant
            i <= a.len() <= b.len(),
            b.deep_view().take(i as int) == a.deep_view().take(i as int),
        decreases a.len() - i,
    {
        if a[i] != b[i] {
            proof {
                let w = b.deep_view().take(a.len() as int);
                assert(w[i as int] == b@[i as int]@);
                assert(a.deep_view()[i as int] == a@[i as int]@);
            }
            return false;
        }
        proof {
            assert(b.deep_view().take(i + 1) =~= b.deep_view().take(i as int).push(b@[i as int]@));
            assert(a.deep_view().take(i + 1) =~= a.deep_view().take(i as int).push(a@[i as int]@));
        }
        i += 1;
    }
    proof {
        assert(a.deep_view().take(a.len() as int) =~= a.deep_view());
    }
    true
}

/// Where the `k`-th component of `v` starts, or the length of `v` where it
/// has no such component.
fn tail_start(v: &Vec<char>, k: usize) -> (at: usize)
    ensures
        at <= v.len(),
        v@.skip(at as int) == tail_from(v@, k as nat),
{
    let mut i: usize = 0;
    let mut left: usize = k;
    proof {
        assert(v@.skip(0) =~= v@);
    }
    loop
        invariant
            i <= v.len(),
            tail_from(v@, k as nat) == tail_from(v@.skip(i as int), left as nat),
        decreases v.len() - i,
    {
        let ghost rest = v@.skip(i as int);
        if i == v.len() {
            return i;
        }
        proof {
            assert(rest[0] == v@[i as int]);
        }
        if v[i] == '/' {
            proof {
                assert(rest.skip(1) =~= v@.skip(i + 1));
            }
            i += 1;
        } else if left == 0 {
            return i;
        } else {
            let j = scan_name(v, i);
            proof {
                lemma_name_len_bound(rest);
                assert(rest.skip(name_len(rest) as int) =~= v@.skip(j as int));
            }
            i = j;
            left -= 1;
        }
    }
}

/// Whether the root and the components of `base` are the first ones of
/// `path`.
pub fn starts_with(path: &str, base: &str) -> (r: bool)
    ensures
        r == path_starts_with(path@, base@),
{
    let b = split_all_components(base);
    let p = split_all_components(path);
    is_prefix_of(&b, &p)
}

/// `path` relative to `base`, or `None` where `base` is no ancestor of it.
pub fn relative_to(path: &str, base: &str) -> (r: Option<String>)
    ensures
        match r {
            Some(rel) => strip_prefix(path@, base@) == Some(rel@),
            None => strip_prefix(path@, base@) is None,
        },
{
    let b = split_all_components(base);
    let p = split_all_components(path);
    if !is_prefix_of(&b, &p) {
        return None;
    }
    let v = chars_of(path);
    if b.len() == 0 {
        proof {
            assert(v@.take(v.len() as int) =~= v@);
        }
        let end = trim_separators(&v, v.len());
        if end == 0 && v.len() > 0 && v[0] == '/' {
            proof {
                reveal_strlit("/");
            }
            let root = "/".to_owned();
            assert(root@ =~= seq![separator()]);
            return Some(root);
        }
        proof {
            assert(v@.subrange(0, end as int) =~= v@.take(end as int));
        }
        return Some(path.substring_char(0, end).to_owned());
    }
    let names = split_components(base);
    let at = tail_start(&v, names.len());
    let end = trim_separators_from(&v, at);
    Some(path.substring_char(at, end).to_owned())
}

/// End of `v[from..]` without the separators at its end.
fn trim_separators_from(v: &Vec<char>, from: usize) -> (e: usize)
    requires
        from <= v.len(),
    ensures
        from <= e <= v.len(),
        v@.subrange(from as int, e as int) == without_trailing_separators(v@.skip(from as int)),
{
    let ghost tail = v@.skip(from as int);
    let mut e: usize = v.len();
    proof {
        assert(tail.take(tail.len() as int) =~= tail);
    }
    while e > from && v[e - 1] == '/'
        invariant
            from <= e <= v.len(),
            tail == v@.skip(from as int),
            without_trailing_separators(tail) == without_trailing_separators(tail.take(e - from)),
        decreases e,
    {
        proof {
            assert(tail.take(e - from).last() == v@[e - 1]);
            assert(tail.take(e - from).drop_last() =~= tail.take(e - from - 1));
        }
        e -= 1;
    }
    proof {
        if e > from {
            assert(tail.take(e - from).last() == v@[e - 1]);
        }
        assert(tail.take(e - from) =~= v@.subrange(from as int, e as int));
    }
    e
}

/// Length of `v[..end]` without the separators at its end.
fn trim_separators(v: &Vec<char>, end: usize) -> (e: usize)
    requires
        end <= v.len(),
    ensures
        e <= end,
        v@.take(e as int) == without_trailing_separators(v@.take(end as int)),
{
    let mut e: usize = end;
    while e > 0 && v[e - 1] == '/'
        invariant
            e <= end <= v.len(),
            without_trailing_separators(v@.take(end as int)) == without_trailing_separators(
                v@.take(e as int),
            ),
        decreases e,
    {
        proof {
            assert(v@.take(e as int).last() == v@[e - 1]);
            assert(v@.take(e as int).drop_last() =~= v@.take(e - 1));
        }
        e -= 1;
    }
    proof {
        if e > 0 {
            assert(v@.take(e as int).last() == v@[e - 1]);
        }
    }
    e
}

/// Length of `v[..end]` without the name at its end.
fn trim_name(v: &Vec<char>, end: usize) -> (e: usize)
    requires
        end <= v.len(),
    ensures
        e <= end,
        v@.take(e as int) == without_last_name(v@.take(end as int)),
{
    let mut e: usize = end;
    while e > 0 && v[e - 1] != '/'
        invariant
            e <= end <= v.len(),
            without_last_name(v@.take(end as int)) == without_last_name(v@.take(e as int)),
        decreases e,
    {
        proof {
            assert(v@.take(e as int).last() == v@[e - 1]);
            assert(v@.take(e as int).drop_last() =~= v@.take(e - 1));
        }
        e -= 1;
    }
    proof {
        if e > 0 {
            assert(v@.take(e as int).last() == v@[e - 1]);
        }
    }
    e
}

/// The path of the directory that holds `p`.
pub fn parent_of(p: &str) -> (r: Option<String>)
    ensures
        match r {
            Some(d) => parent(p@) == Some(d@),
            None => parent(p@) is None,
        },
{
    let v = chars_of(p);
    proof {
        assert(v@.take(v.len() as int) =~= v@);
    }
    let end = trim_separators(&v, v.len());
    if end == 0 {
        return None;
    }
    let cut = trim_name(&v, end);
    let stop = trim_separators(&v, cut);
    proof {
        assert(v@.take(end as int).take(cut as int) =~= v@.take(cut as int));
        assert(v@.subrange(0, stop as int) =~= v@.take(stop as int));
    }
    if stop == 0 && v[0] == '/' {
        proof {
            reveal_strlit("/");
        }
        let root = "/".to_owned();
        assert(root@ =~= seq![separator()]);
        return Some(root);
    }
    Some(p.substring_char(0, stop).to_owned())
}

/// The file name of `p`.
pub fn file_name_of(p: &str) -> (r: Option<String>)
    ensures
        match r {
            Some(n) => file_name(p@) == Some(n@),
            None => file_name(p@) is None,
        },
{
    let v = chars_of(p);
    proof {
        assert(v@.take(v.len() as int) =~= v@);
    }
    let end = trim_separators(&v, v.len());
    let cut = trim_name(&v, end);
    proof {
        assert(v@.take(end as int).skip(cut as int) =~= v@.subrange(cut as int, end as int));
    }
    let ghost n = v@.subrange(cut as int, end as int);
    if end == cut {
        return None;
    }
    if end - cut == 1 && v[cut] == '.' {
        assert(n =~= dot());
        return None;
    }
    if end - cut == 2 && v[cut] == '.' && v[cut + 1] == '.' {
        assert(n =~= dot_dot());
        return None;
    }
    proof {
        if n == dot() {
            assert(n.len() == 1 && n[0] == '.');
        }
        if n == dot_dot() {
            assert(n.len() == 2 && n[0] == '.' && n[1] == '.');
        }
    }
    Some(p.substring_char(cut, end).to_owned())
}

/// The key by which `p` is ordered among paths.
pub fn sort_key(p: &str) -> (key: Vec<String>)
    ensures
        key.deep_view() == path_key(p@),
{
    let names = split_components(p);
    if !has_root(p) {
        return names;
    }
    let mut key: Vec<String> = Vec::new();
    key.push(String::new());
    let mut k: usize = 0;
    proof {
        assert(key.deep_view() =~= seq![Seq::<char>::empty()] + names.deep_view().take(0));
    }
    while k < names.len()
        invariant
            k <= names.len(),
            key.deep_view() == seq![Seq::<char>::empty()] + names.deep_view().take(k as int),
        decreases names.len() - k,
    {
        let ghost before = key.deep_view();
        let name = names[k].clone();
        key.push(name);
        proof {
            assert(key.deep_view() =~= before.push(names@[k as int]@));
            assert(names.deep_view().take(k + 1) =~= names.deep_view().take(k as int).push(
                names@[k as int]@,
            ));
            assert(key.deep_view() =~= seq![Seq::<char>::empty()] + names.deep_view().take(k + 1));
        }
        k += 1;
    }
    proof {
        assert(names.deep_view().take(names.len() as int) =~= names.deep_view());
    }
    key
}

/// Whether key `a` comes before key `b` or equals it.
pub fn key_precedes(a: &Vec<String>, b: &Vec<String>) -> (r: bool)
    ensures
        r == key_le(a.deep_view(), b.deep_view()),
{
    let mut i: usize = 0;
    proof {
        assert(a.deep_view().skip(0) =~= a.deep_view());
        assert(b.deep_view().skip(0) =~= b.deep_view());
    }
    while i < a.len() && i < b.len()
        invariant
            i <= a.len(),
            i <= b.len(),
            key_le(a.deep_view(), b.deep_view()) == key_le(
                a.deep_view().skip(i as int),
                b.deep_view().skip(i as int),
            ),
        decreases a.len() - i,
    {
        proof {
            assert(a.deep_view().skip(i as int)[0] == a@[i as int]@);
            assert(b.deep_view().skip(i as int)[0] == b@[i as int]@);
            assert(a.deep_view().skip(i as int).skip(1) =~= a.deep_view().skip(i + 1));
            assert(b.deep_view().skip(i as int).skip(1) =~= b.deep_view().skip(i + 1));
        }
        if a[i] != b[i] {
            let x = chars_of(a[i].as_str());
            let y = chars_of(b[i].as_str());
            return lex_le_chars(&x, &y);
        }
        i += 1;
    }
    i == a.len()
}

} // verus!
