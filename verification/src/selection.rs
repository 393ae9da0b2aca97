//! The set of selected paths: the one record of what is selected. A tree
//! only shows it.
use vstd::prelude::*;
use crate::text::same_text;

verus! {

/// A finite set of paths.
#[derive(Debug, Clone)]
pub struct SelectionSet {
    paths: Vec<String>,
}

impl View for SelectionSet {
    type V = Set<Seq<char>>;

    closed spec fn view(&self) -> Set<Seq<char>> {
        self.paths.deep_view().to_set()
    }
}

/// Position of `path` in `held`, if it occurs there.
fn position(held: &Vec<String>, path: &str) -> (r: Option<usize>)
    ensures
        match r {
            Some(i) => i < held.len() && held@[i as int]@ == path@,
            None => !held.deep_view().to_set().contains(path@),
        },
{
    let mut i: usize = 0;
    while i < held.len()
        invariant
            i <= held.len(),
            forall|k: int| 0 <= k < i ==> held@[k]@ != path@,
        decreases held.len() - i,
    {
        if same_text(held[i].as_str(), path) {
            return Some(i);
        }
        i += 1;
    }
    proof {
        let seen = held.deep_view();
        if seen.to_set().contains(path@) {
            let k = choose|k: int| 0 <= k < seen.len() && seen[k] == path@;
            assert(held@[k]@ == path@);
        }
    }
    None
}

/// `held` with `path` added at the end, unless it occurs already.
fn push_new(held: &mut Vec<String>, path: String) -> (added: bool)
    ensures
        final(held).deep_view().to_set() == old(held).deep_view().to_set().insert(path@),
        added == !old(held).deep_view().to_set().contains(path@),
        old(held).deep_view().no_duplicates() ==> final(held).deep_view().no_duplicates(),
{
    let found = position(held, path.as_str());
    let ghost before = held.deep_view();
    if let Some(i) = found {
        proof {
            assert(before[i as int] == path@);
            assert(before.to_set().insert(path@) =~= before.to_set());
        }
        return false;
    }
    held.push(path);
    proof {
        let after = held.deep_view();
        assert(after =~= before.push(path@));
        if before.no_duplicates() {
            assert forall|i: int, j: int|
                0 <= i < after.len() && 0 <= j < after.len() && i != j implies after[i]
                != after[j] by {
                if i < before.len() && j < before.len() {
                    assert(before[i] != before[j]);
                } else if i < before.len() {
                    assert(before.to_set().contains(before[i]));
                } else {
                    assert(before.to_set().contains(before[j]));
                }
            }
        }
        assert(after.take(before.len() as int) =~= before);
        lemma_take_to_set_step(after, before.len() as int);
        assert(after.take(before.len() as int + 1) =~= after);
    }
    true
}

impl SelectionSet {
    /// The empty set.
    pub fn new() -> (s: Self)
        ensures
            s@ == Set::<Seq<char>>::empty(),
    {
        let s = SelectionSet { paths: Vec::new() };
        proof {
            assert(s.paths.deep_view() =~= Seq::<Seq<char>>::empty());
            assert(s.paths.deep_view().to_set() =~= Set::<Seq<char>>::empty());
        }
        s
    }

    /// The set is finite.
    pub proof fn lemma_finite(&self)
        ensures
            self@.finite(),
    {
        vstd::seq_lib::seq_to_set_is_finite(self.paths.deep_view());
    }

    /// Whether `path` is selected.
    pub fn contains(&self, path: &str) -> (r: bool)
        ensures
            r == self@.contains(path@),
    {
        let found = position(&self.paths, path);
        proof {
            if let Some(i) = found {
                assert(self.paths.deep_view()[i as int] == path@);
            }
        }
        found.is_some()
    }

    /// Selects `path`. Returns whether it was not selected before.
    pub fn insert(&mut self, path: String) -> (added: bool)
        ensures
            final(self)@ == old(self)@.insert(path@),
            added == !old(self)@.contains(path@),
    {
        push_new(&mut self.paths, path)
    }

    /// Takes `path` out of the selection. Returns whether it was selected.
    pub fn remove(&mut self, path: &str) -> (removed: bool)
        ensures
            final(self)@ == old(self)@.remove(path@),
            removed == old(self)@.contains(path@),
    {
        let removed = self.contains(path);
        let mut kept: Vec<String> = Vec::new();
        let mut i: usize = 0;
        proof {
            assert(kept.deep_view().to_set() =~= Set::<Seq<char>>::empty());
            assert(self.paths.deep_view().take(0).to_set() =~= Set::<Seq<char>>::empty());
            assert(Set::<Seq<char>>::empty().remove(path@) =~= Set::<Seq<char>>::empty());
        }
        while i < self.paths.len()
            invariant
                i <= self.paths.len(),
                self.paths == old(self).paths,
                kept.deep_view().to_set() == self.paths.deep_view().take(i as int).to_set().remove(
                    path@,
                ),
            decreases self.paths.len() - i,
        {
            let ghost seen = self.paths.deep_view().take(i as int).to_set();
            proof {
                lemma_take_to_set_step(self.paths.deep_view(), i as int);
                assert(self.paths.deep_view()[i as int] == self.paths@[i as int]@);
            }
            if !same_text(self.paths[i].as_str(), path) {
                push_new(&mut kept, self.paths[i].clone());
                proof {
                    assert(seen.remove(path@).insert(self.paths@[i as int]@) =~= seen.insert(
                        self.paths@[i as int]@,
                    ).remove(path@));
                }
            } else {
                proof {
                    assert(seen.remove(path@) =~= seen.insert(path@).remove(path@));
                }
            }
            i += 1;
        }
        proof {
            assert(self.paths.deep_view().take(self.paths.len() as int) =~= self.paths.deep_view());
        }
        self.paths = kept;
        removed
    }

    /// Empties the selection.
    pub fn clear(&mut self)
        ensures
            final(self)@ == Set::<Seq<char>>::empty(),
    {
        self.paths = Vec::new();
        proof {
            assert(self.paths.deep_view() =~= Seq::<Seq<char>>::empty());
            assert(self.paths.deep_view().to_set() =~= Set::<Seq<char>>::empty());
        }
    }

    /// Whether nothing is selected.
    pub fn is_empty(&self) -> (r: bool)
        ensures
            r == (self@ == Set::<Seq<char>>::empty()),
    {
        proof {
            let held = self.paths.deep_view();
            if held.len() == 0 {
                assert(held.to_set() =~= Set::<Seq<char>>::empty());
            } else {
                assert(held.to_set().contains(held[0]));
            }
        }
        self.paths.len() == 0
    }

    /// The selected paths, each once.
    pub fn to_vec(&self) -> (v: Vec<String>)
        ensures
            v.deep_view().no_duplicates(),
            v.deep_view().to_set() == self@,
    {
        let mut v: Vec<String> = Vec::new();
        let mut i: usize = 0;
        proof {
            assert(v.deep_view().to_set() =~= self.paths.deep_view().take(0).to_set());
        }
        while i < self.paths.len()
            invariant
                i <= self.paths.len(),
                v.deep_view().no_duplicates(),
                v.deep_view().to_set() == self.paths.deep_view().take(i as int).to_set(),
            decreases self.paths.len() - i,
        {
            proof {
                lemma_take_to_set_step(self.paths.deep_view(), i as int);
                assert(self.paths.deep_view()[i as int] == self.paths@[i as int]@);
            }
            push_new(&mut v, self.paths[i].clone());
            i += 1;
        }
        proof {
            assert(self.paths.deep_view().take(self.paths.len() as int) =~= self.paths.deep_view());
        }
        v
    }

    /// How many paths are selected.
    pub fn len(&self) -> (n: usize)
        ensures
            n == self@.len(),
    {
        let v = self.to_vec();
        proof {
            v.deep_view().unique_seq_to_set();
        }
        v.len()
    }

    /// Selects every path of `paths`.
    pub fn insert_all(&mut self, paths: &Vec<String>)
        ensures
            final(self)@ == old(self)@.union(paths.deep_view().to_set()),
    {
        let mut i: usize = 0;
        proof {
            assert(paths.deep_view().take(0).to_set() =~= Set::<Seq<char>>::empty());
            assert(self@.union(Set::<Seq<char>>::empty()) =~= self@);
        }
        while i < paths.len()
            invariant
                i <= paths.len(),
                self@ == old(self)@.union(paths.deep_view().take(i as int).to_set()),
            decreases paths.len() - i,
        {
            self.insert(paths[i].clone());
            proof {
                lemma_take_to_set_step(paths.deep_view(), i as int);
                assert(paths.deep_view()[i as int] == paths@[i as int]@);
                assert(old(self)@.union(paths.deep_view().take(i as int).to_set()).insert(
                    paths@[i as int]@,
                ) =~= old(self)@.union(paths.deep_view().take(i + 1).to_set()));
            }
            i += 1;
        }
        proof {
            assert(paths.deep_view().take(paths.len() as int) =~= paths.deep_view());
        }
    }

    /// Takes every path of `paths` out of the selection.
    pub fn remove_all(&mut self, paths: &Vec<String>)
        ensures
            final(self)@ == old(self)@.difference(paths.deep_view().to_set()),
    {
        let mut i: usize = 0;
        proof {
            assert(paths.deep_view().take(0).to_set() =~= Set::<Seq<char>>::empty());
            assert(self@.difference(Set::<Seq<char>>::empty()) =~= self@);
        }
        while i < paths.len()
            invariant
                i <= paths.len(),
                self@ == old(self)@.difference(paths.deep_view().take(i as int).to_set()),
            decreases paths.len() - i,
        {
            self.remove(paths[i].as_str());
            proof {
                lemma_take_to_set_step(paths.deep_view(), i as int);
                assert(paths.deep_view()[i as int] == paths@[i as int]@);
                assert(old(self)@.difference(paths.deep_view().take(i as int).to_set()).remove(
                    paths@[i as int]@,
                ) =~= old(self)@.difference(paths.deep_view().take(i + 1).to_set()));
            }
            i += 1;
        }
        proof {
            assert(paths.deep_view().take(paths.len() as int) =~= paths.deep_view());
        }
    }
}

/// The set of the first `i + 1` entries is that of the first `i` with entry
/// `i` added.
pub proof fn lemma_take_to_set_step(s: Seq<Seq<char>>, i: int)
    requires
        0 <= i < s.len(),
    ensures
        s.take(i + 1).to_set() == s.take(i).to_set().insert(s[i]),
{
    let a = s.take(i + 1);
    let b = s.take(i);
    assert forall|p: Seq<char>| a.to_set().contains(p) implies b.to_set().insert(s[i]).contains(
        p,
    ) by {
        let k = choose|k: int| 0 <= k < a.len() && a[k] == p;
        if k < i {
            assert(b[k] == p);
        }
    }
    assert forall|p: Seq<char>| b.to_set().insert(s[i]).contains(p) implies a.to_set().contains(
        p,
    ) by {
        if p == s[i] {
            assert(a[i] == p);
        } else {
            let k = choose|k: int| 0 <= k < b.len() && b[k] == p;
            assert(a[k] == p);
        }
    }
    assert(a.to_set() =~= b.to_set().insert(s[i]));
}

} // verus!
