//! The append-only commit log's behaviour: one commit per real content
//! change, none for a save whose content is byte-identical to what the log
//! already holds for that path. The process's version-control directory
//! implements this; the decision of whether a save commits is made here.
use vstd::prelude::*;

verus! {

/// Mathematical model of the log: the content last committed under each
/// path (first match wins), and the history of commits so far.
pub ghost struct CommitLogView {
    pub committed: Seq<(Seq<char>, Seq<char>)>,
    pub commits: Seq<(Seq<char>, Seq<char>)>,
}

pub open spec fn lookup_committed(
    s: Seq<(Seq<char>, Seq<char>)>,
    path: Seq<char>,
    i: int,
) -> Option<Seq<char>>
    decreases s.len() - i,
{
    if i < 0 || i >= s.len() {
        None
    } else if s[i].0 == path {
        Some(s[i].1)
    } else {
        lookup_committed(s, path, i + 1)
    }
}

/// Whether a save of `content` under `path` creates a commit: only when it
/// differs from what the log last committed there.
pub open spec fn commit_needed(v: CommitLogView, path: Seq<char>, content: Seq<char>) -> bool {
    lookup_committed(v.committed, path, 0) != Some(content)
}

/// The append-only commit log, tracked in memory so that the commit
/// decision for each save is explicit.
#[derive(Debug)]
pub struct CommitLog {
    pub committed: Vec<(String, String)>,
    pub commits: Vec<(String, String)>,
}

impl View for CommitLog {
    type V = CommitLogView;

    open spec fn view(&self) -> CommitLogView {
        CommitLogView {
            committed: Seq::new(
                self.committed@.len(),
                |i: int| (self.committed@[i].0@, self.committed@[i].1@),
            ),
            commits: Seq::new(
                self.commits@.len(),
                |i: int| (self.commits@[i].0@, self.commits@[i].1@),
            ),
        }
    }
}

impl CommitLog {
    /// Each path is tracked once: the lookup list has no duplicate keys.
    pub open spec fn inv(&self) -> bool {
        forall|k1: int, k2: int|
            0 <= k1 < k2 < self@.committed.len() ==> (#[trigger] self@.committed[k1]).0 != (
            #[trigger] self@.committed[k2]).0
    }

    /// A log with nothing committed yet.
    pub fn new() -> (r: Self)
        ensures
            r@.committed == Seq::<(Seq<char>, Seq<char>)>::empty(),
            r@.commits == Seq::<(Seq<char>, Seq<char>)>::empty(),
            r.inv(),
    {
        let r = CommitLog { committed: Vec::new(), commits: Vec::new() };
        proof {
            assert(r@.committed =~= Seq::<(Seq<char>, Seq<char>)>::empty());
            assert(r@.commits =~= Seq::<(Seq<char>, Seq<char>)>::empty());
        }
        r
    }

    fn find_path(&self, path: &String, i: usize) -> (r: Option<usize>)
        requires
            i <= self.committed@.len(),
        ensures
            r is None ==> lookup_committed(self@.committed, path@, i as int) is None,
            r matches Some(w) ==> i <= w < self.committed@.len() && self.committed@[
                w as int
            ].0@ == path@ && lookup_committed(self@.committed, path@, i as int) == Some(
                self.committed@[w as int].1@,
            ) && forall|k: int| i <= k < w ==> self.committed@[k].0@ != path@,
        decreases self.committed@.len() - i,
    {
        if i == self.committed.len() {
            None
        } else if self.committed[i].0 == *path {
            Some(i)
        } else {
            self.find_path(path, i + 1)
        }
    }

    /// Record one save. A commit is created exactly when the content
    /// differs from what was last committed under that path; a
    /// byte-identical save creates none and changes nothing.
    pub fn record_save(&mut self, path: &String, content: &String, message: &String) -> (r:
        bool)
        requires
            old(self).inv(),
        ensures
            final(self).inv(),
            r == commit_needed(old(self)@, path@, content@),
            !r ==> *final(self) == *old(self),
            r ==> final(self)@.commits == old(self)@.commits + seq![(path@, message@)],
            r ==> lookup_committed(final(self)@.committed, path@, 0) == Some(content@),
    {
        let found = self.find_path(path, 0);
        match found {
            Some(w) => {
                if self.committed[w].1 == *content {
                    proof {
                        assert(!commit_needed(self@, path@, content@));
                    }
                    return false;
                }
                let ghost prevc = self@.committed;
                self.committed[w].1 = content.clone();
                proof {
                    assert forall|k: int|
                        0 <= k < self@.committed.len() && k != w implies self@.committed[k]
                        == prevc[k] by {}
                    assert(self@.committed[w as int].0 == path@);
                    assert(self@.committed[w as int].1 == content@);
                    lemma_lookup_found(self@.committed, path@, w as int);
                    assert forall|k1: int, k2: int|
                        0 <= k1 < k2 < self@.committed.len() implies (#[trigger] self@.committed[
                        k1
                    ]).0 != (#[trigger] self@.committed[k2]).0 by {
                        assert(self@.committed[k1].0 == prevc[k1].0);
                        assert(self@.committed[k2].0 == prevc[k2].0);
                    }
                }
            },
            None => {
                let ghost prevc = self@.committed;
                proof {
                    lemma_lookup_none(prevc, path@, 0);
                }
                self.committed.push((path.clone(), content.clone()));
                proof {
                    assert forall|k: int| 0 <= k < prevc.len() implies self@.committed[k]
                        == prevc[k] by {}
                    assert forall|k: int| 0 <= k < prevc.len() implies (#[trigger] self@.committed[
                        k
                    ]).0 != path@ by {
                        assert(prevc[k].0 != path@);
                        assert(self@.committed[k] == prevc[k]);
                    }
                    assert(self@.committed[prevc.len() as int].0 == path@);
                    assert(self@.committed[prevc.len() as int].1 == content@);
                    lemma_lookup_found(self@.committed, path@, prevc.len() as int);
                    assert forall|k1: int, k2: int|
                        0 <= k1 < k2 < self@.committed.len() implies (#[trigger] self@.committed[
                        k1
                    ]).0 != (#[trigger] self@.committed[k2]).0 by {
                        if k2 < prevc.len() {
                            assert(self@.committed[k1] == prevc[k1]);
                            assert(self@.committed[k2] == prevc[k2]);
                        } else {
                            assert(self@.committed[k1] == prevc[k1]);
                            assert(self@.committed[k2].0 == path@);
                        }
                    }
                }
            },
        }
        let ghost prevk = self@.commits;
        self.commits.push((path.clone(), message.clone()));
        proof {
            assert(self@.commits =~= prevk + seq![(path@, message@)]);
        }
        true
    }
}

proof fn lemma_lookup_none(s: Seq<(Seq<char>, Seq<char>)>, path: Seq<char>, i: int)
    requires
        0 <= i,
        lookup_committed(s, path, i) is None,
    ensures
        forall|k: int| i <= k < s.len() ==> (#[trigger] s[k]).0 != path,
    decreases s.len() - i,
{
    if i < s.len() {
        lemma_lookup_none(s, path, i + 1);
    }
}

proof fn lemma_lookup_found(s: Seq<(Seq<char>, Seq<char>)>, path: Seq<char>, w: int)
    requires
        0 <= w < s.len(),
        s[w].0 == path,
        forall|k: int| 0 <= k < w ==> s[k].0 != path,
    ensures
        lookup_committed(s, path, 0) == Some(s[w].1),
{
    lemma_lookup_from(s, path, 0, w);
}

proof fn lemma_lookup_from(s: Seq<(Seq<char>, Seq<char>)>, path: Seq<char>, i: int, w: int)
    requires
        0 <= i <= w < s.len(),
        s[w].0 == path,
        forall|k: int| i <= k < w ==> s[k].0 != path,
    ensures
        lookup_committed(s, path, i) == Some(s[w].1),
    decreases w - i,
{
    if i == w {
    } else {
        lemma_lookup_from(s, path, i + 1, w);
    }
}

/// Saving the same content twice commits at most once: whatever the first
/// save did, the second, byte-identical one creates no commit and leaves
/// the log as it was.
pub proof fn lemma_no_commit_for_identical_resave(
    log1: CommitLogView,
    path: Seq<char>,
    content: Seq<char>,
)
    requires
        lookup_committed(log1.committed, path, 0) == Some(content),
    ensures
        !commit_needed(log1, path, content),
{
}

} // verus!
