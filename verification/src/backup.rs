//! The decision and aggregation logic of the backup scheduler: per-target
//! command planning (clone a missing copy, update an existing one), outcome
//! classification, and the thread-shared result aggregation that yields the
//! run summary.
//!
//! Workers run elsewhere; they call [`backup_command`] to learn what to do,
//! hand what happened to [`backup_outcome`], record it under a lock through
//! [`Aggregator::record`], and read the final [`RunSummary`].

use vstd::prelude::*;
use crate::text::{find_char, find_char_str, lemma_find_char, strip_cr, str_views};

verus! {

use vstd::string::StrSliceExecFns;
use vstd::string::StringExecFns;

/// The status of one finished backup job.
#[derive(Clone, Copy, PartialEq, Eq, Debug)]
pub enum Status {
    Cloned,
    Updated,
    Failed,
}

impl Status {
    /// The one-character progress marker of each status.
    pub fn icon(&self) -> (r: &'static str)
        ensures
            match self {
                Status::Cloned => r@ == "+"@,
                Status::Updated => r@ == "~"@,
                Status::Failed => r@ == "!"@,
            },
    {
        match self {
            Status::Cloned => "+",
            Status::Updated => "~",
            Status::Failed => "!",
        }
    }
}

/// The outcome of one backup job: the target's qualified identifier, its
/// status, and the diagnostic text of a failure.
pub struct BackupResult {
    pub nwo: String,
    pub status: Status,
    pub error: Option<String>,
}

/// The owner component of a qualified identifier: what precedes the first
/// `/`, or empty if there is none.
pub open spec fn owner_part(nwo: Seq<char>) -> Seq<char> {
    let p = find_char(nwo, '/');
    if p < 0 {
        Seq::empty()
    } else {
        nwo.subrange(0, p)
    }
}

/// The name component of a qualified identifier: what follows the first `/`,
/// or the whole identifier if there is none.
pub open spec fn name_part(nwo: Seq<char>) -> Seq<char> {
    let p = find_char(nwo, '/');
    if p < 0 {
        nwo
    } else {
        nwo.subrange(p + 1, nwo.len() as int)
    }
}

/// Splits a qualified identifier into its owner and name components at the
/// first `/`; without one, the owner is empty and the name is the whole
/// identifier.
pub fn split_owner_name(nwo: &str) -> (r: (String, String))
    ensures
        r.0@ == owner_part(nwo@),
        r.1@ == name_part(nwo@),
{
    proof {
        lemma_find_char(nwo@, '/');
    }
    match find_char_str(nwo, '/') {
        Some(i) => {
            let n = nwo.unicode_len();
            let owner = nwo.substring_char(0, i);
            let name = nwo.substring_char(i + 1, n);
            (owner.to_owned(), name.to_owned())
        },
        None => {
            let owner = String::new();
            proof {
                assert(owner@ =~= owner_part(nwo@));
            }
            (owner, nwo.to_owned())
        },
    }
}

/// The destination directory of one repository: the destination root, the
/// owner and the name, joined by `/`.
pub fn repo_dir_path(dest: &str, owner: &str, name: &str) -> (r: String)
    ensures
        r@ == dest@ + seq!['/'] + owner@ + seq!['/'] + name@,
{
    proof {
        reveal_strlit("/");
    }
    let mut r = dest.to_owned();
    r.append("/");
    r.append(owner);
    r.append("/");
    r.append(name);
    proof {
        assert("/"@ =~= seq!['/']);
        assert(r@ =~= dest@ + seq!['/'] + owner@ + seq!['/'] + name@);
    }
    r
}

/// The argument vector of the external action for one target: an update of
/// the existing local copy when the destination exists (a remote refresh in
/// mirror mode, a fetch otherwise), else a clone into the destination,
/// requesting mirror semantics when `mirror` is set.
pub fn backup_command(nwo: &str, repo_dir: &str, exists: bool, mirror: bool) -> (r: Vec<String>)
    ensures
        exists && mirror ==> str_views(r@) == seq!["git"@, "-C"@, repo_dir@, "remote"@, "update"@],
        exists && !mirror ==> str_views(r@) == seq!["git"@, "-C"@, repo_dir@, "fetch"@, "--all"@],
        !exists && !mirror ==> str_views(r@) == seq![
            "gh"@,
            "repo"@,
            "clone"@,
            nwo@,
            repo_dir@,
            "--"@,
        ],
        !exists && mirror ==> str_views(r@) == seq![
            "gh"@,
            "repo"@,
            "clone"@,
            nwo@,
            repo_dir@,
            "--"@,
            "--mirror"@,
        ],
{
    let mut r: Vec<String> = Vec::new();
    if exists {
        r.push("git".to_owned());
        r.push("-C".to_owned());
        r.push(repo_dir.to_owned());
        if mirror {
            r.push("remote".to_owned());
            r.push("update".to_owned());
            proof {
                assert(str_views(r@) =~= seq!["git"@, "-C"@, repo_dir@, "remote"@, "update"@]);
            }
        } else {
            r.push("fetch".to_owned());
            r.push("--all".to_owned());
            proof {
                assert(str_views(r@) =~= seq!["git"@, "-C"@, repo_dir@, "fetch"@, "--all"@]);
            }
        }
    } else {
        r.push("gh".to_owned());
        r.push("repo".to_owned());
        r.push("clone".to_owned());
        r.push(nwo.to_owned());
        r.push(repo_dir.to_owned());
        r.push("--".to_owned());
        if mirror {
            r.push("--mirror".to_owned());
            proof {
                assert(str_views(r@) =~= seq![
                    "gh"@,
                    "repo"@,
                    "clone"@,
                    nwo@,
                    repo_dir@,
                    "--"@,
                    "--mirror"@,
                ]);
            }
        } else {
            proof {
                assert(str_views(r@) =~= seq![
                    "gh"@,
                    "repo"@,
                    "clone"@,
                    nwo@,
                    repo_dir@,
                    "--"@,
                ]);
            }
        }
    }
    r
}

/// Classifies what the external action reported: success of an update is
/// `Updated`, success of a clone is `Cloned`, and any failure is `Failed`
/// carrying the diagnostic text. A target whose destination pre-existed is
/// never `Cloned`; one whose destination was absent is never `Updated`.
pub fn backup_outcome(nwo: &str, existed: bool, result: Result<String, String>) -> (r:
    BackupResult)
    ensures
        r.nwo@ == nwo@,
        result is Ok ==> r.error is None && r.status == (if existed {
            Status::Updated
        } else {
            Status::Cloned
        }),
        result is Err ==> r.status == Status::Failed && r.error == Some(result->Err_0),
{
    match result {
        Ok(_) => BackupResult {
            nwo: nwo.to_owned(),
            status: if existed {
                Status::Updated
            } else {
                Status::Cloned
            },
            error: None,
        },
        Err(e) => BackupResult { nwo: nwo.to_owned(), status: Status::Failed, error: Some(e) },
    }
}

/// The first line of a diagnostic text: everything before the first line
/// feed, with a trailing carriage return stripped.
pub open spec fn first_line_of(s: Seq<char>) -> Seq<char> {
    let p = find_char(s, '\n');
    if p < 0 {
        strip_cr(s)
    } else {
        strip_cr(s.subrange(0, p))
    }
}

/// Extracts the first line of a diagnostic text for progress display.
pub fn first_line(s: &str) -> (r: String)
    ensures
        r@ == first_line_of(s@),
{
    proof {
        lemma_find_char(s@, '\n');
    }
    let line_end = match find_char_str(s, '\n') {
        Some(i) => i,
        None => s.unicode_len(),
    };
    let stripped_end = if line_end > 0 && s.get_char(line_end - 1) == '\r' {
        line_end - 1
    } else {
        line_end
    };
    let line = s.substring_char(0, stripped_end);
    proof {
        if find_char(s@, '\n') < 0 {
            assert(s@.subrange(0, s@.len() as int) =~= s@);
            assert(line@ =~= strip_cr(s@));
        } else {
            assert(line@ =~= strip_cr(s@.subrange(0, find_char(s@, '\n'))));
        }
    }
    line.to_owned()
}

/// How many outcomes in `s` carry status `st`.
pub open spec fn count_status(s: Seq<BackupResult>, st: Status) -> int
    decreases s.len(),
{
    if s.len() == 0 {
        0
    } else {
        count_status(s.drop_last(), st) + if s.last().status == st {
            1int
        } else {
            0int
        }
    }
}

/// The qualified identifiers of the failed outcomes, in completion order.
pub open spec fn failed_names(s: Seq<BackupResult>) -> Seq<Seq<char>>
    decreases s.len(),
{
    if s.len() == 0 {
        Seq::empty()
    } else {
        let prev = failed_names(s.drop_last());
        if s.last().status == Status::Failed {
            prev.push(s.last().nwo@)
        } else {
            prev
        }
    }
}

/// Every outcome carries exactly one status, so the three counts always sum
/// to the number of outcomes.
pub proof fn lemma_counts_sum(s: Seq<BackupResult>)
    ensures
        count_status(s, Status::Cloned) + count_status(s, Status::Updated) + count_status(
            s,
            Status::Failed,
        ) == s.len(),
    decreases s.len(),
{
    if s.len() > 0 {
        lemma_counts_sum(s.drop_last());
    }
}

/// The final summary of a run: counts by status, the identifiers of the
/// failed targets in completion order, and every outcome in completion
/// order.
pub struct RunSummary {
    pub cloned: usize,
    pub updated: usize,
    pub failed: Vec<String>,
    pub results: Vec<BackupResult>,
}

impl RunSummary {
    /// The summary matches its outcomes: the counts are exact and the failed
    /// list names exactly the failed outcomes.
    pub open spec fn consistent(&self) -> bool {
        &&& self.cloned as int == count_status(self.results@, Status::Cloned)
        &&& self.updated as int == count_status(self.results@, Status::Updated)
        &&& self.failed@.len() as int == count_status(self.results@, Status::Failed)
        &&& str_views(self.failed@) == failed_names(self.results@)
        &&& self.cloned + self.updated + self.failed@.len() == self.results@.len()
    }

    /// Whether the run achieved its purpose: it did if and only if no target
    /// failed.
    pub fn all_succeeded(&self) -> (r: bool)
        ensures
            r == (self.failed@.len() == 0),
            self.consistent() ==> r == (count_status(self.results@, Status::Failed) == 0),
    {
        self.failed.len() == 0
    }
}

/// Builds the run summary from the recorded outcomes: exact counts per
/// status and the failed identifiers in completion order.
pub fn summarize(results: Vec<BackupResult>) -> (s: RunSummary)
    ensures
        s.results@ == results@,
        s.consistent(),
{
    let mut cloned: usize = 0;
    let mut updated: usize = 0;
    let mut failed: Vec<String> = Vec::new();
    let mut i: usize = 0;
    proof {
        assert(results@.take(0) =~= Seq::<BackupResult>::empty());
        assert(str_views(failed@) =~= failed_names(results@.take(0)));
    }
    while i < results.len()
        invariant
            i <= results@.len(),
            cloned as int == count_status(results@.take(i as int), Status::Cloned),
            updated as int == count_status(results@.take(i as int), Status::Updated),
            failed@.len() as int == count_status(results@.take(i as int), Status::Failed),
            str_views(failed@) == failed_names(results@.take(i as int)),
            cloned + updated + failed@.len() == i,
        decreases results@.len() - i,
    {
        proof {
            assert(results@.take(i + 1).drop_last() =~= results@.take(i as int));
            assert(results@.take(i + 1).last() == results@[i as int]);
        }
        match results[i].status {
            Status::Cloned => {
                cloned = cloned + 1;
            },
            Status::Updated => {
                updated = updated + 1;
            },
            Status::Failed => {
                failed.push(results[i].nwo.clone());
                proof {
                    assert(str_views(failed@) =~= str_views(failed@.drop_last()).push(
                        results@[i as int].nwo@,
                    ));
                }
            },
        }
        i = i + 1;
    }
    proof {
        assert(results@.take(results@.len() as int) =~= results@);
    }
    RunSummary { cloned, updated, failed, results }
}

/// The thread-shared accumulation of job outcomes. One aggregator lives
/// behind a lock for the whole run; each completed job is recorded exactly
/// once and receives the next sequence number, so sequence numbers are
/// gap-free and reflect real completion order.
pub struct Aggregator {
    pub count: usize,
    pub results: Vec<BackupResult>,
}

impl Aggregator {
    /// The running count always equals the number of recorded outcomes.
    pub open spec fn wf(&self) -> bool {
        self.count == self.results@.len()
    }

    /// An empty aggregator, ready for a run.
    pub fn new() -> (a: Aggregator)
        ensures
            a.wf(),
            a.results@ == Seq::<BackupResult>::empty(),
    {
        Aggregator { count: 0, results: Vec::new() }
    }

    /// Records one outcome and returns its sequence number: the number of
    /// outcomes recorded before it. Sequence numbers are therefore
    /// consecutive from zero, without duplicates or gaps.
    pub fn record(&mut self, outcome: BackupResult) -> (n: usize)
        requires
            old(self).wf(),
            old(self).results@.len() < usize::MAX,
        ensures
            final(self).wf(),
            final(self).results@ == old(self).results@.push(outcome),
            n as int == old(self).results@.len(),
    {
        let n = self.count;
        self.count = self.count + 1;
        self.results.push(outcome);
        n
    }

    /// Closes the run: turns everything recorded into the final summary.
    pub fn finalize(self) -> (s: RunSummary)
        ensures
            s.results@ == self.results@,
            s.consistent(),
    {
        summarize(self.results)
    }
}

} // verus!
