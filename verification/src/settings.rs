//! What the application remembers between runs.
use vstd::prelude::*;
use crate::tokenizer::TokenEstimator;

verus! {

/// How many recent workspaces are kept.
pub const MAX_RECENT_WORKSPACES: usize = 5;

/// The settings: the workspaces opened last, newest first, the estimator
/// in use, and where the settings are stored.
#[derive(Debug, Clone)]
pub struct Settings {
    pub recent_workspaces: Vec<String>,
    pub token_estimator: TokenEstimator,
    pub config_path: Option<String>,
}

/// Index of the first entry of `recent` equal to `path`, or the length of
/// `recent` where there is none.
pub open spec fn first_index_of(recent: Seq<Seq<char>>, path: Seq<char>) -> int
    decreases recent.len(),
{
    if recent.len() == 0 {
        0
    } else if recent[0] == path {
        0
    } else {
        1 + first_index_of(recent.skip(1), path)
    }
}

/// `recent` without the first entry equal to `path`.
pub open spec fn without_first(recent: Seq<Seq<char>>, path: Seq<char>) -> Seq<Seq<char>> {
    let at = first_index_of(recent, path);
    if at < recent.len() {
        recent.remove(at)
    } else {
        recent
    }
}

/// The list after `path` was opened: `path` in front, its first earlier
/// entry gone, and the last entry dropped where the list would hold more
/// than `MAX_RECENT_WORKSPACES`.
pub open spec fn with_recent(recent: Seq<Seq<char>>, path: Seq<char>) -> Seq<Seq<char>> {
    let list = seq![path] + without_first(recent, path);
    if list.len() > MAX_RECENT_WORKSPACES {
        list.drop_last()
    } else {
        list
    }
}

pub proof fn lemma_first_index_of(recent: Seq<Seq<char>>, path: Seq<char>)
    ensures
        0 <= first_index_of(recent, path) <= recent.len(),
        first_index_of(recent, path) < recent.len() ==> recent[first_index_of(recent, path)]
            == path,
        forall|k: int| 0 <= k < first_index_of(recent, path) ==> recent[k] != path,
    decreases recent.len(),
{
    if recent.len() > 0 && recent[0] != path {
        lemma_first_index_of(recent.skip(1), path);
        assert forall|k: int| 0 <= k < first_index_of(recent, path) implies recent[k] != path by {
            if k > 0 {
                assert(recent.skip(1)[k - 1] == recent[k]);
            }
        }
    }
}

/// A list that held no path twice and no more than the maximum still does
/// so after a path was opened, and that path stands first.
pub proof fn lemma_with_recent_keeps_order(recent: Seq<Seq<char>>, path: Seq<char>)
    requires
        recent.no_duplicates(),
        recent.len() <= MAX_RECENT_WORKSPACES,
    ensures
        with_recent(recent, path).no_duplicates(),
        with_recent(recent, path).len() <= MAX_RECENT_WORKSPACES,
        with_recent(recent, path)[0] == path,
{
    lemma_first_index_of(recent, path);
    let at = first_index_of(recent, path);
    let rest = without_first(recent, path);
    assert forall|k: int| 0 <= k < rest.len() implies rest[k] != path by {
        if at < recent.len() {
            if k < at {
                assert(rest[k] == recent[k]);
            } else {
                assert(rest[k] == recent[k + 1]);
            }
        } else {
            assert(rest[k] == recent[k]);
        }
    }
    assert(rest.no_duplicates()) by {
        assert forall|i: int, j: int| 0 <= i < rest.len() && 0 <= j < rest.len() && i != j implies rest[i]
            != rest[j] by {
            if at < recent.len() {
                let i0 = if i < at { i } else { i + 1 };
                let j0 = if j < at { j } else { j + 1 };
                assert(rest[i] == recent[i0]);
                assert(rest[j] == recent[j0]);
            }
        }
    }
    let list = seq![path] + rest;
    assert(list.no_duplicates()) by {
        assert forall|i: int, j: int| 0 <= i < list.len() && 0 <= j < list.len() && i != j implies list[i]
            != list[j] by {
            if i > 0 && j > 0 {
                assert(list[i] == rest[i - 1]);
                assert(list[j] == rest[j - 1]);
            } else if i > 0 {
                assert(list[i] == rest[i - 1]);
            } else {
                assert(list[j] == rest[j - 1]);
            }
        }
    }
}

impl Default for Settings {
    fn default() -> (s: Self)
        ensures
            s.recent_workspaces@.len() == 0,
            s.token_estimator == TokenEstimator::CharDiv4,
            s.config_path is None,
    {
        Settings {
            recent_workspaces: Vec::new(),
            token_estimator: TokenEstimator::CharDiv4,
            config_path: None,
        }
    }
}

impl Settings {
    /// Fresh settings that are stored at `config_path`.
    pub fn new(config_path: String) -> (s: Self)
        ensures
            s.recent_workspaces@.len() == 0,
            s.token_estimator == TokenEstimator::CharDiv4,
            s.config_path == Some(config_path),
    {
        Settings {
            recent_workspaces: Vec::new(),
            token_estimator: TokenEstimator::CharDiv4,
            config_path: Some(config_path),
        }
    }

    /// Puts `path` in front of the recent workspaces.
    pub fn add_recent_workspace(&mut self, path: String)
        ensures
            final(self).recent_workspaces.deep_view() == with_recent(
                old(self).recent_workspaces.deep_view(),
                path@,
            ),
            final(self).token_estimator == old(self).token_estimator,
            final(self).config_path == old(self).config_path,
    {
        let ghost recent = self.recent_workspaces.deep_view();
        let mut i: usize = 0;
        proof {
            assert(recent.skip(0) =~= recent);
        }
        while i < self.recent_workspaces.len() && self.recent_workspaces[i] != path
            invariant
                i <= self.recent_workspaces.len(),
                *self == *old(self),
                recent == self.recent_workspaces.deep_view(),
                first_index_of(recent, path@) == i + first_index_of(recent.skip(i as int), path@),
            decreases self.recent_workspaces.len() - i,
        {
            proof {
                assert(recent.skip(i as int)[0] == self.recent_workspaces@[i as int]@);
                assert(recent.skip(i as int).skip(1) =~= recent.skip(i + 1));
            }
            i += 1;
        }
        proof {
            if i < self.recent_workspaces.len() {
                assert(recent.skip(i as int)[0] == self.recent_workspaces@[i as int]@);
            }
        }
        if i < self.recent_workspaces.len() {
            self.recent_workspaces.remove(i);
            proof {
                assert(self.recent_workspaces.deep_view() =~= recent.remove(i as int));
            }
        }
        let ghost rest = self.recent_workspaces.deep_view();
        self.recent_workspaces.insert(0, path);
        proof {
            assert(self.recent_workspaces.deep_view() =~= seq![path@] + rest);
        }
        if self.recent_workspaces.len() > MAX_RECENT_WORKSPACES {
            let ghost list = self.recent_workspaces.deep_view();
            self.recent_workspaces.pop();
            proof {
                assert(self.recent_workspaces.deep_view() =~= list.drop_last());
            }
        }
    }

    /// Forgets the recent workspaces.
    pub fn clear_recent_workspaces(&mut self)
        ensures
            final(self).recent_workspaces@.len() == 0,
            final(self).token_estimator == old(self).token_estimator,
            final(self).config_path == old(self).config_path,
    {
        self.recent_workspaces = Vec::new();
    }

    pub fn set_token_estimator(&mut self, estimator: TokenEstimator)
        ensures
            final(self).token_estimator == estimator,
            final(self).recent_workspaces == old(self).recent_workspaces,
            final(self).config_path == old(self).config_path,
    {
        self.token_estimator = estimator;
    }

    pub fn get_token_estimator(&self) -> (e: TokenEstimator)
        ensures
            e == self.token_estimator,
    {
        self.token_estimator
    }

    /// The recent workspaces, newest first.
    pub fn get_recent_workspaces(&self) -> (recent: &[String])
        ensures
            recent@ == self.recent_workspaces@,
    {
        self.recent_workspaces.as_slice()
    }

    /// These settings, stored at `path`.
    pub fn with_config_path(self, path: String) -> (s: Self)
        ensures
            s.config_path == Some(path),
            s.recent_workspaces == self.recent_workspaces,
            s.token_estimator == self.token_estimator,
    {
        let mut s = self;
        s.config_path = Some(path);
        s
    }
}

} // verus!
