//! Character sequences: whitespace, trimming, prefixes, ordering, decimal
//! digits. Everything here is stated over `Seq<char>`, the view of `str`
//! and `String`.
use vstd::prelude::*;

verus! {

/// Unicode `White_Space`: the code points that `char::is_whitespace` accepts.
pub open spec fn is_whitespace(c: char) -> bool {
    let n = c as u32;
    (0x09 <= n <= 0x0D) || n == 0x20 || n == 0x85 || n == 0xA0 || n == 0x1680 || (0x2000 <= n
        <= 0x200A) || n == 0x2028 || n == 0x2029 || n == 0x202F || n == 0x205F || n == 0x3000
}

pub fn char_is_whitespace(c: char) -> (r: bool)
    ensures
        r == is_whitespace(c),
{
    let n: u32 = c as u32;
    (0x09 <= n && n <= 0x0D) || n == 0x20 || n == 0x85 || n == 0xA0 || n == 0x1680 || (0x2000 <= n
        && n <= 0x200A) || n == 0x2028 || n == 0x2029 || n == 0x202F || n == 0x205F || n == 0x3000
}

/// The characters of a string slice, in order.
pub fn chars_of(s: &str) -> (v: Vec<char>)
    ensures
        v@ == s@,
{
    let mut v: Vec<char> = Vec::new();
    for c in it: s.chars()
        invariant
            v@ == it.seq().take(it.index() as int),
            it.seq() == s@,
    {
        v.push(c);
    }
    v
}

/// Whether two string slices hold the same characters.
pub fn same_text(a: &str, b: &str) -> (r: bool)
    ensures
        r == (a@ == b@),
{
    let x = a.to_owned();
    let y = b.to_owned();
    x == y
}

/// Length of the longest prefix of `s` made of whitespace only.
pub open spec fn leading_whitespace(s: Seq<char>) -> nat
    decreases s.len(),
{
    if s.len() > 0 && is_whitespace(s[0]) {
        1 + leading_whitespace(s.skip(1))
    } else {
        0
    }
}

/// Length of the longest suffix of `s` made of whitespace only.
pub open spec fn trailing_whitespace(s: Seq<char>) -> nat
    decreases s.len(),
{
    if s.len() > 0 && is_whitespace(s.last()) {
        1 + trailing_whitespace(s.drop_last())
    } else {
        0
    }
}

/// `s` without its trailing whitespace.
pub open spec fn trimmed_end(s: Seq<char>) -> Seq<char> {
    s.take(s.len() - trailing_whitespace(s))
}

/// `s` without leading and trailing whitespace.
pub open spec fn trimmed(s: Seq<char>) -> Seq<char> {
    let t = trimmed_end(s);
    t.skip(leading_whitespace(t) as int)
}

pub proof fn lemma_leading_whitespace_bound(s: Seq<char>)
    ensures
        leading_whitespace(s) <= s.len(),
    decreases s.len(),
{
    if s.len() > 0 && is_whitespace(s[0]) {
        lemma_leading_whitespace_bound(s.skip(1));
    }
}

pub proof fn lemma_trailing_whitespace_bound(s: Seq<char>)
    ensures
        trailing_whitespace(s) <= s.len(),
    decreases s.len(),
{
    if s.len() > 0 && is_whitespace(s.last()) {
        lemma_trailing_whitespace_bound(s.drop_last());
    }
}

/// A trimmed sequence neither starts nor ends with whitespace, and trimming
/// it again changes nothing.
pub proof fn lemma_trimmed_is_fixed(s: Seq<char>)
    ensures
        trimmed(s).len() > 0 ==> !is_whitespace(trimmed(s)[0]) && !is_whitespace(trimmed(s).last()),
        trimmed(trimmed(s)) == trimmed(s),
{
    lemma_trailing_whitespace_bound(s);
    let t = trimmed_end(s);
    lemma_leading_whitespace_bound(t);
    lemma_trimmed_end_stops(s);
    lemma_leading_stops(t);
    let u = trimmed(s);
    if u.len() > 0 {
        assert(u[0] == t[leading_whitespace(t) as int]);
        assert(u.last() == t.last());
        assert(trailing_whitespace(u) == 0);
        assert(trimmed_end(u) =~= u);
        assert(leading_whitespace(u) == 0);
        assert(trimmed(u) =~= u);
    } else {
        assert(trailing_whitespace(u) == 0);
        assert(trimmed_end(u) =~= u);
        assert(leading_whitespace(u) == 0);
        assert(trimmed(u) =~= u);
    }
}

/// After the trailing whitespace is cut, the last character is no whitespace.
pub proof fn lemma_trimmed_end_stops(s: Seq<char>)
    ensures
        trailing_whitespace(s) <= s.len(),
        trimmed_end(s).len() > 0 ==> !is_whitespace(trimmed_end(s).last()),
    decreases s.len(),
{
    lemma_trailing_whitespace_bound(s);
    if s.len() > 0 && is_whitespace(s.last()) {
        lemma_trimmed_end_stops(s.drop_last());
        lemma_trailing_whitespace_bound(s.drop_last());
        assert(trimmed_end(s) =~= trimmed_end(s.drop_last()));
    } else {
        assert(trimmed_end(s) =~= s);
    }
}

/// The character after the leading whitespace, if any, is no whitespace.
pub proof fn lemma_leading_stops(s: Seq<char>)
    ensures
        leading_whitespace(s) <= s.len(),
        leading_whitespace(s) < s.len() ==> !is_whitespace(s[leading_whitespace(s) as int]),
    decreases s.len(),
{
    lemma_leading_whitespace_bound(s);
    if s.len() > 0 && is_whitespace(s[0]) {
        lemma_leading_stops(s.skip(1));
    }
}

/// Number of leading whitespace characters of `v[..end]`.
fn count_leading_whitespace(v: &Vec<char>, end: usize) -> (n: usize)
    requires
        end <= v.len(),
    ensures
        n == leading_whitespace(v@.take(end as int)),
        n <= end,
{
    let ghost s = v@.take(end as int);
    let mut i: usize = 0;
    proof {
        assert(s.skip(0) =~= s);
    }
    while i < end && char_is_whitespace(v[i])
        invariant
            i <= end <= v.len(),
            s == v@.take(end as int),
            leading_whitespace(s) == i + leading_whitespace(s.skip(i as int)),
        decreases end - i,
    {
        proof {
            let t = s.skip(i as int);
            assert(t[0] == v@[i as int]);
            assert(t.skip(1) =~= s.skip(i + 1));
        }
        i += 1;
    }
    proof {
        let t = s.skip(i as int);
        if i < end {
            assert(t[0] == v@[i as int]);
        }
    }
    i
}

/// Number of trailing whitespace characters of `v`.
fn count_trailing_whitespace(v: &Vec<char>) -> (n: usize)
    ensures
        n == trailing_whitespace(v@),
        n <= v.len(),
{
    let mut end: usize = v.len();
    proof {
        assert(v@.take(v.len() as int) =~= v@);
    }
    while end > 0 && char_is_whitespace(v[end - 1])
        invariant
            end <= v.len(),
            trailing_whitespace(v@) == (v.len() - end) + trailing_whitespace(v@.take(end as int)),
        decreases end,
    {
        proof {
            let t = v@.take(end as int);
            assert(t.last() == v@[end - 1]);
            assert(t.drop_last() =~= v@.take(end - 1));
        }
        end -= 1;
    }
    proof {
        assert(v@.take(v.len() as int) =~= v@);
        let t = v@.take(end as int);
        if end > 0 {
            assert(t.last() == v@[end - 1]);
        }
    }
    v.len() - end
}

/// `s` with the whitespace at both ends removed, as `str::trim` gives it.
pub fn trim(s: &str) -> (r: String)
    ensures
        r@ == trimmed(s@),
{
    let v = chars_of(s);
    let tail = count_trailing_whitespace(&v);
    let end = v.len() - tail;
    let start = count_leading_whitespace(&v, end);
    proof {
        assert(v@.take(end as int).skip(start as int) =~= v@.subrange(start as int, end as int));
    }
    s.substring_char(start, end).to_owned()
}

/// `p` is a prefix of `s`.
pub open spec fn has_prefix(s: Seq<char>, p: Seq<char>) -> bool {
    p.len() <= s.len() && s.take(p.len() as int) == p
}

/// `p` is a suffix of `s`.
pub open spec fn has_suffix(s: Seq<char>, p: Seq<char>) -> bool {
    p.len() <= s.len() && s.skip(s.len() - p.len()) == p
}

/// `p` occurs in `s` at position `at`.
pub open spec fn occurs_at(s: Seq<char>, p: Seq<char>, at: int) -> bool {
    0 <= at && at + p.len() <= s.len() && s.subrange(at, at + p.len()) == p
}

/// `p` occurs somewhere in `s`.
pub open spec fn has_infix(s: Seq<char>, p: Seq<char>) -> bool {
    exists|at: int| occurs_at(s, p, at)
}

/// Whether `p` occurs in `s` at `at`.
pub fn matches_at(s: &Vec<char>, p: &Vec<char>, at: usize) -> (r: bool)
    ensures
        r == occurs_at(s@, p@, at as int),
{
    if p.len() > s.len() || at > s.len() - p.len() {
        return false;
    }
    let mut i: usize = 0;
    while i < p.len()
        invariant
            i <= p.len(),
            at + p.len() <= s.len(),
            s@.subrange(at as int, at + i) == p@.take(i as int),
        decreases p.len() - i,
    {
        if s[at + i] != p[i] {
            proof {
                let w = s@.subrange(at as int, at + p.len());
                assert(w[i as int] == s@[at + i]);
            }
            return false;
        }
        proof {
            assert(s@.subrange(at as int, at + i + 1) =~= s@.subrange(at as int, at + i).push(
                s@[at + i],
            ));
            assert(p@.take(i + 1) =~= p@.take(i as int).push(p@[i as int]));
        }
        i += 1;
    }
    proof {
        assert(p@.take(p.len() as int) =~= p@);
    }
    true
}

pub fn starts_with(s: &Vec<char>, p: &Vec<char>) -> (r: bool)
    ensures
        r == has_prefix(s@, p@),
{
    proof {
        if p.len() <= s.len() {
            assert(s@.subrange(0, p.len() as int) =~= s@.take(p.len() as int));
        }
    }
    matches_at(s, p, 0)
}

pub fn ends_with(s: &Vec<char>, p: &Vec<char>) -> (r: bool)
    ensures
        r == has_suffix(s@, p@),
{
    if p.len() > s.len() {
        return false;
    }
    proof {
        assert(s@.subrange(s.len() - p.len(), s.len() as int) =~= s@.skip(s.len() - p.len()));
    }
    matches_at(s, p, s.len() - p.len())
}

pub fn contains(s: &Vec<char>, p: &Vec<char>) -> (r: bool)
    ensures
        r == has_infix(s@, p@),
{
    if p.len() > s.len() {
        return false;
    }
    let last: usize = s.len() - p.len();
    let mut at: usize = 0;
    loop
        invariant
            at <= last,
            last == s.len() - p.len(),
            forall|k: int| 0 <= k < at ==> !occurs_at(s@, p@, k),
        decreases last - at,
    {
        if matches_at(s, p, at) {
            return true;
        }
        if at == last {
            return false;
        }
        at += 1;
    }
}

/// Lexicographic order by code point; a proper prefix comes first. This is
/// the order of `str` and `String`.
pub open spec fn lex_le(a: Seq<char>, b: Seq<char>) -> bool
    decreases a.len(),
{
    if a.len() == 0 {
        true
    } else if b.len() == 0 {
        false
    } else if a[0] != b[0] {
        a[0] < b[0]
    } else {
        lex_le(a.skip(1), b.skip(1))
    }
}

pub fn lex_le_chars(a: &Vec<char>, b: &Vec<char>) -> (r: bool)
    ensures
        r == lex_le(a@, b@),
{
    let mut i: usize = 0;
    proof {
        assert(a@.skip(0) =~= a@);
        assert(b@.skip(0) =~= b@);
    }
    while i < a.len() && i < b.len()
        invariant
            i <= a.len(),
            i <= b.len(),
            lex_le(a@, b@) == lex_le(a@.skip(i as int), b@.skip(i as int)),
        decreases a.len() - i,
    {
        proof {
            assert(a@.skip(i as int)[0] == a@[i as int]);
            assert(b@.skip(i as int)[0] == b@[i as int]);
            assert(a@.skip(i as int).skip(1) =~= a@.skip(i + 1));
            assert(b@.skip(i as int).skip(1) =~= b@.skip(i + 1));
        }
        if a[i] != b[i] {
            return a[i] < b[i];
        }
        i += 1;
    }
    i == a.len()
}

pub proof fn lemma_lex_le_reflexive(a: Seq<char>)
    ensures
        lex_le(a, a),
    decreases a.len(),
{
    if a.len() > 0 {
        lemma_lex_le_reflexive(a.skip(1));
    }
}

pub proof fn lemma_lex_le_total(a: Seq<char>, b: Seq<char>)
    ensures
        lex_le(a, b) || lex_le(b, a),
    decreases a.len(),
{
    if a.len() > 0 && b.len() > 0 && a[0] == b[0] {
        lemma_lex_le_total(a.skip(1), b.skip(1));
    }
}

pub proof fn lemma_lex_le_antisymmetric(a: Seq<char>, b: Seq<char>)
    requires
        lex_le(a, b),
        lex_le(b, a),
    ensures
        a == b,
    decreases a.len(),
{
    if a.len() == 0 || b.len() == 0 {
        assert(a =~= b);
    } else {
        lemma_lex_le_antisymmetric(a.skip(1), b.skip(1));
        assert(a =~= seq![a[0]] + a.skip(1));
        assert(b =~= seq![b[0]] + b.skip(1));
    }
}

pub proof fn lemma_lex_le_transitive(a: Seq<char>, b: Seq<char>, c: Seq<char>)
    requires
        lex_le(a, b),
        lex_le(b, c),
    ensures
        lex_le(a, c),
    decreases a.len(),
{
    if a.len() > 0 && b.len() > 0 && c.len() > 0 {
        if a[0] == b[0] && b[0] == c[0] {
            lemma_lex_le_transitive(a.skip(1), b.skip(1), c.skip(1));
        }
    }
}

/// The decimal digit for `d`, where `d < 10`.
pub open spec fn digit_char(d: nat) -> char {
    if d == 0 {
        '0'
    } else if d == 1 {
        '1'
    } else if d == 2 {
        '2'
    } else if d == 3 {
        '3'
    } else if d == 4 {
        '4'
    } else if d == 5 {
        '5'
    } else if d == 6 {
        '6'
    } else if d == 7 {
        '7'
    } else if d == 8 {
        '8'
    } else {
        '9'
    }
}

/// `n` written in base ten without leading zeros (`0` is "0").
pub open spec fn decimal(n: nat) -> Seq<char>
    decreases n,
{
    if n < 10 {
        seq![digit_char(n)]
    } else {
        decimal(n / 10).push(digit_char(n % 10))
    }
}

fn digit(d: u64) -> (c: char)
    requires
        d < 10,
    ensures
        c == digit_char(d as nat),
{
    if d == 0 {
        '0'
    } else if d == 1 {
        '1'
    } else if d == 2 {
        '2'
    } else if d == 3 {
        '3'
    } else if d == 4 {
        '4'
    } else if d == 5 {
        '5'
    } else if d == 6 {
        '6'
    } else if d == 7 {
        '7'
    } else if d == 8 {
        '8'
    } else {
        '9'
    }
}

/// The decimal digits of `n`, most significant first.
pub fn decimal_chars(n: u64) -> (v: Vec<char>)
    ensures
        v@ == decimal(n as nat),
    decreases n,
{
    if n < 10 {
        let mut v: Vec<char> = Vec::new();
        v.push(digit(n));
        v
    } else {
        let mut v = decimal_chars(n / 10);
        v.push(digit(n % 10));
        v
    }
}

} // verus!
