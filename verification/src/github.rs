//! Repository records and the filter pipeline: owner-set resolution,
//! first-seen-wins merging of discovered repositories, the ordered filter
//! stages (fork state, archive state, visibility, name globs), and the final
//! case-insensitive sort by qualified identifier.

use vstd::prelude::*;
use crate::glob::{glob_match, glob_matches_ci};
use crate::text::{eq_ci, eq_ignore_case, find_char, find_char_str, lemma_find_char, lex_le,
    lex_le_bytes, lemma_lex_le_total, lemma_lex_le_trans, lower, lower_bytes, str_bytes,
    str_views, strip_cr};

verus! {

use vstd::multiset::group_multiset_axioms;
use vstd::multiset::Multiset;
use vstd::seq_lib::group_to_multiset_ensures;
use vstd::string::StrSliceExecFns;

/// One discovered repository record: qualified identifier (`owner/name`),
/// transport address, fork and archive flags, and visibility classification.
#[derive(Debug, Clone)]
pub struct Repo {
    pub name_with_owner: String,
    pub ssh_url: String,
    pub is_fork: bool,
    pub is_archived: bool,
    pub visibility: String,
}

/// The declarative rule set applied to discovered repositories: an explicit
/// owner allow-list, scope toggles, fork and archive toggle pairs, an optional
/// visibility filter, and include and exclude glob pattern lists.
pub struct Filters {
    pub org: Vec<String>,
    pub orgs_only: bool,
    pub personal_only: bool,
    pub no_forks: bool,
    pub forks_only: bool,
    pub no_archived: bool,
    pub archived_only: bool,
    pub visibility: Option<String>,
    pub patterns: Vec<String>,
    pub exclude: Vec<String>,
}

impl Filters {
    /// No toggle of a mutually exclusive pair is set on both sides, and the
    /// explicit owner list is not combined with personal-only scope.
    pub open spec fn consistent(&self) -> bool {
        &&& !(self.orgs_only && self.personal_only)
        &&& !(self.no_forks && self.forks_only)
        &&& !(self.no_archived && self.archived_only)
        &&& !(self.personal_only && self.org@.len() > 0)
    }

    /// Checks the mutual-exclusion rules of [`Filters::consistent`].
    pub fn check_consistent(&self) -> (r: bool)
        ensures
            r == self.consistent(),
    {
        !(self.orgs_only && self.personal_only) && !(self.no_forks && self.forks_only)
            && !(self.no_archived && self.archived_only)
            && !(self.personal_only && self.org.len() > 0)
    }
}

/// The qualified identifier of a record, the key under which records are
/// deduplicated.
pub open spec fn repo_key(r: Repo) -> Seq<char> {
    r.name_with_owner@
}

/// The bare repository name: the part of the qualified identifier after the
/// first `/`, or empty if there is no `/`.
pub open spec fn bare_name(nwo: Seq<char>) -> Seq<char> {
    let p = find_char(nwo, '/');
    if p < 0 {
        Seq::empty()
    } else {
        nwo.subrange(p + 1, nwo.len() as int)
    }
}

/// Extracts the bare repository name from a qualified identifier.
pub fn bare_name_str(nwo: &str) -> (r: String)
    ensures
        r@ == bare_name(nwo@),
{
    proof {
        lemma_find_char(nwo@, '/');
    }
    match find_char_str(nwo, '/') {
        Some(i) => {
            let n = nwo.unicode_len();
            let s = nwo.substring_char(i + 1, n);
            s.to_owned()
        },
        None => {
            let r = String::new();
            proof {
                assert(r@ =~= bare_name(nwo@));
            }
            r
        },
    }
}

/// Whether the bare name matches at least one pattern of the list,
/// case-insensitively.
pub open spec fn matches_any(pats: Seq<String>, name: Seq<char>) -> bool {
    exists|k: int| 0 <= k < pats.len() && glob_matches_ci(pats[k]@, name)
}

/// Tests `name` against every pattern in the list.
pub fn any_match(pats: &Vec<String>, name: &str) -> (r: bool)
    ensures
        r == matches_any(pats@, name@),
{
    let mut k: usize = 0;
    while k < pats.len()
        invariant
            k <= pats@.len(),
            forall|j: int| 0 <= j < k ==> !glob_matches_ci(pats@[j]@, name@),
        decreases pats@.len() - k,
    {
        if glob_match(pats[k].as_str(), name) {
            return true;
        }
        k = k + 1;
    }
    false
}

/// The filter stages applied, in order, after deduplication.
#[derive(Clone, Copy)]
pub enum Stage {
    NoForks,
    ForksOnly,
    NoArchived,
    ArchivedOnly,
    Visibility,
    Include,
    Exclude,
}

/// Whether a record survives one filter stage. A stage whose toggle is not
/// set keeps every record.
pub open spec fn stage_keep(f: Filters, st: Stage, r: Repo) -> bool {
    match st {
        Stage::NoForks => f.no_forks ==> !r.is_fork,
        Stage::ForksOnly => f.forks_only ==> r.is_fork,
        Stage::NoArchived => f.no_archived ==> !r.is_archived,
        Stage::ArchivedOnly => f.archived_only ==> r.is_archived,
        Stage::Visibility => match f.visibility {
            Some(v) => eq_ci(v@, r.visibility@),
            None => true,
        },
        Stage::Include => f.patterns@.len() > 0 ==> matches_any(
            f.patterns@,
            bare_name(repo_key(r)),
        ),
        Stage::Exclude => !matches_any(f.exclude@, bare_name(repo_key(r))),
    }
}

/// The records surviving one filter stage, in their incoming order.
pub open spec fn stage_filter(f: Filters, st: Stage, s: Seq<Repo>) -> Seq<Repo>
    decreases s.len(),
{
    if s.len() == 0 {
        Seq::empty()
    } else {
        let prev = stage_filter(f, st, s.drop_last());
        if stage_keep(f, st, s.last()) {
            prev.push(s.last())
        } else {
            prev
        }
    }
}

/// A filter stage never lengthens the list.
pub proof fn lemma_stage_filter_len(f: Filters, st: Stage, s: Seq<Repo>)
    ensures
        stage_filter(f, st, s).len() <= s.len(),
    decreases s.len(),
{
    if s.len() > 0 {
        lemma_stage_filter_len(f, st, s.drop_last());
    }
}

/// A record surviving a filter stage occurs in the input and satisfies the
/// stage's predicate.
pub proof fn lemma_stage_filter_elems(f: Filters, st: Stage, s: Seq<Repo>, r: Repo)
    requires
        stage_filter(f, st, s).contains(r),
    ensures
        s.contains(r),
        stage_keep(f, st, r),
    decreases s.len(),
{
    let d = stage_filter(f, st, s);
    let k = choose|k: int| 0 <= k < d.len() && d[k] == r;
    let prev = stage_filter(f, st, s.drop_last());
    if k < prev.len() {
        assert(prev[k] == r);
        assert(prev.contains(r));
        lemma_stage_filter_elems(f, st, s.drop_last(), r);
        let j = choose|j: int| 0 <= j < s.drop_last().len() && s.drop_last()[j] == r;
        assert(s[j] == r);
        assert(s.contains(r));
    } else {
        assert(d[k] == s.last());
        assert(s[s.len() - 1] == r);
        assert(s.contains(r));
        assert(stage_keep(f, st, s.last()));
    }
}

/// A record of the input that satisfies the stage's predicate survives the
/// stage.
pub proof fn lemma_stage_filter_complete(f: Filters, st: Stage, s: Seq<Repo>, r: Repo)
    requires
        s.contains(r),
        stage_keep(f, st, r),
    ensures
        stage_filter(f, st, s).contains(r),
    decreases s.len(),
{
    let prev = stage_filter(f, st, s.drop_last());
    let d = stage_filter(f, st, s);
    let j = choose|j: int| 0 <= j < s.len() && s[j] == r;
    if j < s.len() - 1 {
        assert(s.drop_last()[j] == r);
        assert(s.drop_last().contains(r));
        lemma_stage_filter_complete(f, st, s.drop_last(), r);
        let m = choose|m: int| 0 <= m < prev.len() && prev[m] == r;
        assert(d[m] == prev[m]);
        assert(d.contains(r));
    } else {
        assert(r == s.last());
        assert(d[d.len() - 1] == r);
        assert(d.contains(r));
    }
}

/// Decides one filter stage for one record.
fn keep_repo(f: &Filters, st: &Stage, r: &Repo) -> (b: bool)
    ensures
        b == stage_keep(*f, *st, *r),
{
    match st {
        Stage::NoForks => !f.no_forks || !r.is_fork,
        Stage::ForksOnly => !f.forks_only || r.is_fork,
        Stage::NoArchived => !f.no_archived || !r.is_archived,
        Stage::ArchivedOnly => !f.archived_only || r.is_archived,
        Stage::Visibility => match &f.visibility {
            Some(v) => eq_ignore_case(v.as_str(), r.visibility.as_str()),
            None => true,
        },
        Stage::Include => {
            if f.patterns.len() == 0 {
                true
            } else {
                let bare = bare_name_str(r.name_with_owner.as_str());
                any_match(&f.patterns, bare.as_str())
            }
        },
        Stage::Exclude => {
            let bare = bare_name_str(r.name_with_owner.as_str());
            !any_match(&f.exclude, bare.as_str())
        },
    }
}

/// Runs one filter stage over a list of records.
fn filter_stage(f: &Filters, st: Stage, v: Vec<Repo>) -> (r: Vec<Repo>)
    ensures
        r@ == stage_filter(*f, st, v@),
{
    let ghost orig: Seq<Repo> = v@;
    let mut rest = v;
    let mut out: Vec<Repo> = Vec::new();
    let ghost mut i: int = 0;
    proof {
        assert(orig.take(0) =~= Seq::<Repo>::empty());
    }
    while rest.len() > 0
        invariant
            0 <= i <= orig.len(),
            rest@ == orig.skip(i),
            out@ == stage_filter(*f, st, orig.take(i)),
        decreases rest@.len(),
    {
        let x = rest.remove(0);
        proof {
            assert(orig.skip(i)[0] == orig[i]);
            assert(orig.skip(i).remove(0) =~= orig.skip(i + 1));
        }
        let keep = keep_repo(f, &st, &x);
        if keep {
            out.push(x);
        }
        proof {
            assert(orig.take(i + 1).drop_last() =~= orig.take(i));
            assert(orig.take(i + 1).last() == orig[i]);
            i = i + 1;
        }
    }
    proof {
        assert(i == orig.len());
        assert(orig.take(i) =~= orig);
    }
    out
}

/// Whether some record in `s` carries the qualified identifier `k`.
pub open spec fn has_key(s: Seq<Repo>, k: Seq<char>) -> bool {
    exists|i: int| 0 <= i < s.len() && repo_key(s[i]) == k
}

/// The first-seen-wins merge: of all records sharing a qualified identifier,
/// exactly the earliest survives, in order of first appearance.
pub open spec fn dedup_first(s: Seq<Repo>) -> Seq<Repo>
    decreases s.len(),
{
    if s.len() == 0 {
        Seq::empty()
    } else {
        let prev = dedup_first(s.drop_last());
        if has_key(prev, repo_key(s.last())) {
            prev
        } else {
            prev.push(s.last())
        }
    }
}

/// Scans a list of records for a qualified identifier.
fn contains_key(v: &Vec<Repo>, k: &String) -> (b: bool)
    ensures
        b == has_key(v@, k@),
{
    let mut i: usize = 0;
    while i < v.len()
        invariant
            i <= v@.len(),
            forall|j: int| 0 <= j < i ==> repo_key(v@[j]) != k@,
        decreases v@.len() - i,
    {
        if v[i].name_with_owner == *k {
            return true;
        }
        i = i + 1;
    }
    false
}

/// Merges records by qualified identifier, first seen wins.
pub fn dedup_repos(v: Vec<Repo>) -> (r: Vec<Repo>)
    ensures
        r@ == dedup_first(v@),
{
    let ghost orig: Seq<Repo> = v@;
    let mut rest = v;
    let mut out: Vec<Repo> = Vec::new();
    let ghost mut i: int = 0;
    proof {
        assert(orig.take(0) =~= Seq::<Repo>::empty());
    }
    while rest.len() > 0
        invariant
            0 <= i <= orig.len(),
            rest@ == orig.skip(i),
            out@ == dedup_first(orig.take(i)),
        decreases rest@.len(),
    {
        let x = rest.remove(0);
        proof {
            assert(orig.skip(i)[0] == orig[i]);
            assert(orig.skip(i).remove(0) =~= orig.skip(i + 1));
        }
        let seen = contains_key(&out, &x.name_with_owner);
        if !seen {
            out.push(x);
        }
        proof {
            assert(orig.take(i + 1).drop_last() =~= orig.take(i));
            assert(orig.take(i + 1).last() == orig[i]);
            i = i + 1;
        }
    }
    proof {
        assert(i == orig.len());
        assert(orig.take(i) =~= orig);
    }
    out
}

/// The merge never lengthens the list.
pub proof fn lemma_dedup_len(s: Seq<Repo>)
    ensures
        dedup_first(s).len() <= s.len(),
    decreases s.len(),
{
    if s.len() > 0 {
        lemma_dedup_len(s.drop_last());
    }
}

/// Every merged record occurs in the input.
pub proof fn lemma_dedup_subset(s: Seq<Repo>)
    ensures
        forall|r: Repo| dedup_first(s).contains(r) ==> s.contains(r),
    decreases s.len(),
{
    if s.len() > 0 {
        lemma_dedup_subset(s.drop_last());
        let prev = dedup_first(s.drop_last());
        let d = dedup_first(s);
        assert forall|r: Repo| d.contains(r) implies s.contains(r) by {
            let k = choose|k: int| 0 <= k < d.len() && d[k] == r;
            if k < prev.len() {
                assert(prev[k] == r);
                assert(prev.contains(r));
                assert(s.drop_last().contains(r));
                let j = choose|j: int| 0 <= j < s.drop_last().len() && s.drop_last()[j] == r;
                assert(s[j] == r);
            } else {
                assert(d[k] == s.last());
                assert(s[s.len() - 1] == r);
            }
        }
    }
}

/// The merge keeps a qualified identifier if and only if the input holds it.
pub proof fn lemma_dedup_keys(s: Seq<Repo>)
    ensures
        forall|k: Seq<char>| has_key(dedup_first(s), k) == has_key(s, k),
    decreases s.len(),
{
    if s.len() > 0 {
        lemma_dedup_keys(s.drop_last());
        let t = s.drop_last();
        let prev = dedup_first(t);
        let d = dedup_first(s);
        assert forall|k: Seq<char>| has_key(d, k) == has_key(s, k) by {
            assert(has_key(prev, k) == has_key(t, k));
            if has_key(s, k) {
                let j = choose|j: int| 0 <= j < s.len() && repo_key(s[j]) == k;
                if j < s.len() - 1 {
                    assert(t[j] == s[j]);
                    assert(has_key(t, k));
                    let m = choose|m: int| 0 <= m < prev.len() && repo_key(prev[m]) == k;
                    assert(d[m] == prev[m]);
                    assert(has_key(d, k));
                } else {
                    assert(repo_key(s.last()) == k);
                    if has_key(prev, repo_key(s.last())) {
                        let m = choose|m: int| 0 <= m < prev.len() && repo_key(prev[m]) == k;
                        assert(d[m] == prev[m]);
                        assert(has_key(d, k));
                    } else {
                        assert(d[d.len() - 1] == s.last());
                        assert(has_key(d, k));
                    }
                }
            }
            if has_key(d, k) {
                let m = choose|m: int| 0 <= m < d.len() && repo_key(d[m]) == k;
                if m < prev.len() {
                    assert(prev[m] == d[m]);
                    assert(has_key(prev, k));
                    let j = choose|j: int| 0 <= j < t.len() && repo_key(t[j]) == k;
                    assert(s[j] == t[j]);
                    assert(has_key(s, k));
                } else {
                    assert(d[m] == s.last());
                    assert(repo_key(s[s.len() - 1]) == k);
                    assert(has_key(s, k));
                }
            }
        }
    }
}

/// Pairwise distinct qualified identifiers.
pub open spec fn unique_keys(s: Seq<Repo>) -> bool {
    forall|i: int, j: int| 0 <= i < j < s.len() ==> repo_key(s[i]) != repo_key(s[j])
}

/// Merged records carry pairwise distinct qualified identifiers.
pub proof fn lemma_dedup_unique(s: Seq<Repo>)
    ensures
        unique_keys(dedup_first(s)),
    decreases s.len(),
{
    if s.len() > 0 {
        lemma_dedup_unique(s.drop_last());
        let prev = dedup_first(s.drop_last());
        let d = dedup_first(s);
        assert forall|i: int, j: int|
            0 <= i < j < d.len() implies repo_key(d[i]) != repo_key(d[j]) by {
            if j < prev.len() {
                assert(d[i] == prev[i]);
                assert(d[j] == prev[j]);
            } else {
                assert(!has_key(prev, repo_key(s.last())));
                assert(d[i] == prev[i]);
                assert(d[j] == s.last());
                assert(prev.len() <= s.drop_last().len()) by {
                    lemma_dedup_len(s.drop_last());
                }
                if repo_key(prev[i]) == repo_key(s.last()) {
                    assert(has_key(prev, repo_key(s.last())));
                }
            }
        }
    }
}

/// Case-insensitive lexicographic order on qualified identifiers.
pub open spec fn name_le(a: Seq<char>, b: Seq<char>) -> bool {
    lex_le(lower(str_bytes(a)), lower(str_bytes(b)))
}

/// Case-insensitive order on records, by qualified identifier.
pub open spec fn repo_le(a: Repo, b: Repo) -> bool {
    name_le(repo_key(a), repo_key(b))
}

/// Records in ascending case-insensitive order of qualified identifier.
pub open spec fn repos_sorted(s: Seq<Repo>) -> bool {
    forall|i: int, j: int| 0 <= i < j < s.len() ==> repo_le(s[i], s[j])
}

/// Strings in ascending case-insensitive order.
pub open spec fn names_sorted(s: Seq<String>) -> bool {
    forall|i: int, j: int| 0 <= i < j < s.len() ==> name_le(s[i]@, s[j]@)
}

/// Compares two records by qualified identifier, case-insensitively.
fn repo_le_exec(a: &Repo, b: &Repo) -> (r: bool)
    ensures
        r == repo_le(*a, *b),
{
    let la = lower_bytes(a.name_with_owner.as_str().as_bytes());
    let lb = lower_bytes(b.name_with_owner.as_str().as_bytes());
    lex_le_bytes(la.as_slice(), lb.as_slice())
}

/// Compares two strings case-insensitively for sorting.
fn name_le_exec(a: &String, b: &String) -> (r: bool)
    ensures
        r == name_le(a@, b@),
{
    let la = lower_bytes(a.as_str().as_bytes());
    let lb = lower_bytes(b.as_str().as_bytes());
    lex_le_bytes(la.as_slice(), lb.as_slice())
}

/// The order on records is total.
proof fn lemma_repo_le_total(a: Repo, b: Repo)
    ensures
        repo_le(a, b) || repo_le(b, a),
{
    lemma_lex_le_total(lower(str_bytes(repo_key(a))), lower(str_bytes(repo_key(b))));
}

/// The order on records is transitive.
proof fn lemma_repo_le_trans(a: Repo, b: Repo, c: Repo)
    requires
        repo_le(a, b),
        repo_le(b, c),
    ensures
        repo_le(a, c),
{
    lemma_lex_le_trans(
        lower(str_bytes(repo_key(a))),
        lower(str_bytes(repo_key(b))),
        lower(str_bytes(repo_key(c))),
    );
}

/// Sorts records by qualified identifier, case-insensitively, ascending;
/// the result is a permutation of the input.
pub fn sort_repos(v: Vec<Repo>) -> (r: Vec<Repo>)
    ensures
        repos_sorted(r@),
        r@.to_multiset() == v@.to_multiset(),
        r@.len() == v@.len(),
{
    let ghost orig: Seq<Repo> = v@;
    let mut rest = v;
    let mut out: Vec<Repo> = Vec::new();
    proof {
        broadcast use group_to_multiset_ensures;
        broadcast use group_multiset_axioms;

        assert(out@.to_multiset().add(rest@.to_multiset()) =~= orig.to_multiset());
    }
    while rest.len() > 0
        invariant
            out@.to_multiset().add(rest@.to_multiset()) == orig.to_multiset(),
            out@.len() + rest@.len() == orig.len(),
            repos_sorted(out@),
            forall|a: int, b: int|
                0 <= a < out@.len() && 0 <= b < rest@.len() ==> repo_le(out@[a], rest@[b]),
        decreases rest@.len(),
    {
        let mut m: usize = 0;
        let mut j: usize = 1;
        proof {
            lemma_repo_le_total(rest@[0], rest@[0]);
        }
        while j < rest.len()
            invariant
                rest@.len() > 0,
                (m as int) < (j as int),
                j <= rest@.len(),
                forall|k: int| 0 <= k < j ==> repo_le(rest@[m as int], rest@[k]),
            decreases rest@.len() - j,
        {
            let smaller = repo_le_exec(&rest[j], &rest[m]);
            proof {
                if smaller {
                    assert forall|k: int| 0 <= k < j + 1 implies repo_le(
                        rest@[j as int],
                        rest@[k],
                    ) by {
                        if k < j {
                            lemma_repo_le_trans(rest@[j as int], rest@[m as int], rest@[k]);
                        } else {
                            lemma_repo_le_total(rest@[j as int], rest@[j as int]);
                        }
                    }
                } else {
                    lemma_repo_le_total(rest@[j as int], rest@[m as int]);
                }
            }
            if smaller {
                m = j;
            }
            j = j + 1;
        }
        let ghost old_out = out@;
        let ghost old_rest = rest@;
        let x = rest.remove(m);
        out.push(x);
        proof {
            broadcast use group_to_multiset_ensures;
            broadcast use group_multiset_axioms;

            old_rest.remove_ensures(m as int);
            assert(old_rest.contains(x)) by {
                assert(old_rest[m as int] == x);
            }
            assert(out@.to_multiset().add(rest@.to_multiset()) =~= orig.to_multiset());
            assert forall|a: int, b: int|
                0 <= a < out@.len() && 0 <= b < rest@.len() implies repo_le(
                out@[a],
                rest@[b],
            ) by {
                let y = rest@[b];
                assert(y == if b < m { old_rest[b] } else { old_rest[b + 1] });
                if a < old_out.len() {
                    assert(out@[a] == old_out[a]);
                } else {
                    assert(out@[a] == x);
                }
            }
            assert forall|a: int, b: int|
                0 <= a < b < out@.len() implies repo_le(out@[a], out@[b]) by {
                if b < old_out.len() {
                } else {
                    assert(out@[b] == x);
                    assert(old_rest[m as int] == x);
                }
            }
        }
    }
    proof {
        broadcast use group_to_multiset_ensures;
        broadcast use group_multiset_axioms;

        assert(rest@.to_multiset() =~= Multiset::<Repo>::empty());
        assert(out@.to_multiset() =~= orig.to_multiset());
    }
    out
}

/// Sorts strings case-insensitively, ascending; the result is a permutation
/// of the input.
pub fn sort_names(v: Vec<String>) -> (r: Vec<String>)
    ensures
        names_sorted(r@),
        r@.to_multiset() == v@.to_multiset(),
        r@.len() == v@.len(),
{
    let ghost orig: Seq<String> = v@;
    let mut rest = v;
    let mut out: Vec<String> = Vec::new();
    proof {
        broadcast use group_to_multiset_ensures;
        broadcast use group_multiset_axioms;

        assert(out@.to_multiset().add(rest@.to_multiset()) =~= orig.to_multiset());
    }
    while rest.len() > 0
        invariant
            out@.to_multiset().add(rest@.to_multiset()) == orig.to_multiset(),
            out@.len() + rest@.len() == orig.len(),
            names_sorted(out@),
            forall|a: int, b: int|
                0 <= a < out@.len() && 0 <= b < rest@.len() ==> name_le(out@[a]@, rest@[b]@),
        decreases rest@.len(),
    {
        let mut m: usize = 0;
        let mut j: usize = 1;
        proof {
            lemma_lex_le_total(lower(str_bytes(rest@[0]@)), lower(str_bytes(rest@[0]@)));
        }
        while j < rest.len()
            invariant
                rest@.len() > 0,
                (m as int) < (j as int),
                j <= rest@.len(),
                forall|k: int| 0 <= k < j ==> name_le(rest@[m as int]@, rest@[k]@),
            decreases rest@.len() - j,
        {
            let smaller = name_le_exec(&rest[j], &rest[m]);
            proof {
                if smaller {
                    assert forall|k: int| 0 <= k < j + 1 implies name_le(
                        rest@[j as int]@,
                        rest@[k]@,
                    ) by {
                        if k < j {
                            lemma_lex_le_trans(
                                lower(str_bytes(rest@[j as int]@)),
                                lower(str_bytes(rest@[m as int]@)),
                                lower(str_bytes(rest@[k]@)),
                            );
                        } else {
                            lemma_lex_le_total(
                                lower(str_bytes(rest@[j as int]@)),
                                lower(str_bytes(rest@[j as int]@)),
                            );
                        }
                    }
                } else {
                    lemma_lex_le_total(
                        lower(str_bytes(rest@[j as int]@)),
                        lower(str_bytes(rest@[m as int]@)),
                    );
                }
            }
            if smaller {
                m = j;
            }
            j = j + 1;
        }
        let ghost old_out = out@;
        let ghost old_rest = rest@;
        let x = rest.remove(m);
        out.push(x);
        proof {
            broadcast use group_to_multiset_ensures;
            broadcast use group_multiset_axioms;

            old_rest.remove_ensures(m as int);
            assert(old_rest.contains(x)) by {
                assert(old_rest[m as int] == x);
            }
            assert(out@.to_multiset().add(rest@.to_multiset()) =~= orig.to_multiset());
            assert forall|a: int, b: int|
                0 <= a < out@.len() && 0 <= b < rest@.len() implies name_le(
                out@[a]@,
                rest@[b]@,
            ) by {
                let y = rest@[b];
                assert(y == if b < m { old_rest[b] } else { old_rest[b + 1] });
                if a < old_out.len() {
                    assert(out@[a] == old_out[a]);
                } else {
                    assert(out@[a] == x);
                }
            }
            assert forall|a: int, b: int|
                0 <= a < b < out@.len() implies name_le(out@[a]@, out@[b]@) by {
                if b < old_out.len() {
                } else {
                    assert(out@[b] == x);
                    assert(old_rest[m as int] == x);
                }
            }
        }
    }
    proof {
        broadcast use group_to_multiset_ensures;
        broadcast use group_multiset_axioms;

        assert(rest@.to_multiset() =~= Multiset::<String>::empty());
        assert(out@.to_multiset() =~= orig.to_multiset());
    }
    out
}

/// First seen wins: a record whose qualified identifier is new at its position
/// survives the merge unchanged.
pub proof fn lemma_dedup_first_wins(s: Seq<Repo>, i: int)
    requires
        0 <= i < s.len(),
        forall|j: int| 0 <= j < i ==> repo_key(s[j]) != repo_key(s[i]),
    ensures
        dedup_first(s).contains(s[i]),
    decreases s.len(),
{
    let t = s.drop_last();
    let prev = dedup_first(t);
    let d = dedup_first(s);
    if i == s.len() - 1 {
        if has_key(prev, repo_key(s.last())) {
            lemma_dedup_keys(t);
            assert(has_key(prev, repo_key(s.last())) == has_key(t, repo_key(s.last())));
            let m = choose|m: int| 0 <= m < t.len() && repo_key(t[m]) == repo_key(s.last());
            assert(s[m] == t[m]);
            assert(repo_key(s[m]) == repo_key(s[i]));
            assert(false);
        } else {
            assert(d[d.len() - 1] == s[i]);
            assert(d.contains(s[i]));
        }
    } else {
        assert(t[i] == s[i]);
        assert(forall|j: int| 0 <= j < i ==> t[j] == s[j]);
        lemma_dedup_first_wins(t, i);
        let m = choose|m: int| 0 <= m < prev.len() && prev[m] == s[i];
        assert(d[m] == prev[m]);
        assert(d.contains(s[i]));
    }
}

/// A filter stage preserves the distinctness of qualified identifiers.
pub proof fn lemma_stage_filter_unique(f: Filters, st: Stage, s: Seq<Repo>)
    requires
        unique_keys(s),
    ensures
        unique_keys(stage_filter(f, st, s)),
    decreases s.len(),
{
    if s.len() > 0 {
        let t = s.drop_last();
        assert(unique_keys(t)) by {
            assert(forall|i: int| 0 <= i < t.len() ==> t[i] == s[i]);
        }
        lemma_stage_filter_unique(f, st, t);
        let prev = stage_filter(f, st, t);
        let d = stage_filter(f, st, s);
        assert forall|i: int, j: int|
            0 <= i < j < d.len() implies repo_key(d[i]) != repo_key(d[j]) by {
            if j < prev.len() {
                assert(d[i] == prev[i]);
                assert(d[j] == prev[j]);
            } else {
                assert(d[j] == s.last());
                assert(d[i] == prev[i]);
                assert(prev.contains(prev[i]));
                lemma_stage_filter_elems(f, st, t, prev[i]);
                let m = choose|m: int| 0 <= m < t.len() && t[m] == prev[i];
                assert(s[m] == prev[i]);
                assert(repo_key(s[m]) != repo_key(s[s.len() - 1]));
            }
        }
    }
}

/// Two positions holding the same record give it multiplicity at least two.
proof fn lemma_dup_count(s: Seq<Repo>, i: int, j: int)
    requires
        0 <= i < j < s.len(),
        s[i] == s[j],
    ensures
        s.to_multiset().count(s[i]) >= 2,
{
    broadcast use group_to_multiset_ensures;
    broadcast use group_multiset_axioms;

    s.remove_ensures(i);
    let t = s.remove(i);
    assert(t[j - 1] == s[j]);
    assert(t.contains(s[i]));
    assert(t.to_multiset().count(s[i]) > 0);
    assert(t.to_multiset() == s.to_multiset().remove(s[i]));
}

/// Whether a record survives every filter stage.
pub open spec fn repo_kept(f: Filters, r: Repo) -> bool {
    &&& stage_keep(f, Stage::NoForks, r)
    &&& stage_keep(f, Stage::ForksOnly, r)
    &&& stage_keep(f, Stage::NoArchived, r)
    &&& stage_keep(f, Stage::ArchivedOnly, r)
    &&& stage_keep(f, Stage::Visibility, r)
    &&& stage_keep(f, Stage::Include, r)
    &&& stage_keep(f, Stage::Exclude, r)
}

/// The records selected by the pipeline before the final sort: the
/// first-seen-wins merge, then each filter stage in its fixed order.
pub open spec fn selected(f: Filters, s: Seq<Repo>) -> Seq<Repo> {
    stage_filter(
        f,
        Stage::Exclude,
        stage_filter(
            f,
            Stage::Include,
            stage_filter(
                f,
                Stage::Visibility,
                stage_filter(
                    f,
                    Stage::ArchivedOnly,
                    stage_filter(
                        f,
                        Stage::NoArchived,
                        stage_filter(
                            f,
                            Stage::ForksOnly,
                            stage_filter(f, Stage::NoForks, dedup_first(s)),
                        ),
                    ),
                ),
            ),
        ),
    )
}

/// How many records each pipeline stage discarded.
pub struct StageCounts {
    pub duplicates: usize,
    pub forks: usize,
    pub nonforks: usize,
    pub archived: usize,
    pub nonarchived: usize,
    pub visibility: usize,
    pub unmatched: usize,
    pub excluded: usize,
}

/// Each stage count equals the number of records that stage removed.
pub open spec fn counts_exact(f: Filters, s: Seq<Repo>, c: StageCounts) -> bool {
    let g0 = dedup_first(s);
    let g1 = stage_filter(f, Stage::NoForks, g0);
    let g2 = stage_filter(f, Stage::ForksOnly, g1);
    let g3 = stage_filter(f, Stage::NoArchived, g2);
    let g4 = stage_filter(f, Stage::ArchivedOnly, g3);
    let g5 = stage_filter(f, Stage::Visibility, g4);
    let g6 = stage_filter(f, Stage::Include, g5);
    let g7 = stage_filter(f, Stage::Exclude, g6);
    &&& c.duplicates as int == s.len() - g0.len()
    &&& c.forks as int == g0.len() - g1.len()
    &&& c.nonforks as int == g1.len() - g2.len()
    &&& c.archived as int == g2.len() - g3.len()
    &&& c.nonarchived as int == g3.len() - g4.len()
    &&& c.visibility as int == g4.len() - g5.len()
    &&& c.unmatched as int == g5.len() - g6.len()
    &&& c.excluded as int == g6.len() - g7.len()
}

/// Applies the whole pipeline to the fetched records: merge duplicates first
/// seen first, run every filter stage in order, and sort the survivors by
/// qualified identifier, case-insensitively, ascending. Also reports how many
/// records each stage discarded.
pub fn select_repos(f: &Filters, fetched: Vec<Repo>) -> (r: (Vec<Repo>, StageCounts))
    ensures
        repos_sorted(r.0@),
        r.0@.to_multiset() == selected(*f, fetched@).to_multiset(),
        r.0@.len() == selected(*f, fetched@).len(),
        forall|i: int|
            0 <= i < r.0@.len() ==> repo_kept(*f, r.0@[i]) && dedup_first(fetched@).contains(
                r.0@[i],
            ),
        unique_keys(r.0@),
        counts_exact(*f, fetched@, r.1),
{
    let ghost s0 = fetched@;
    let ghost g0 = dedup_first(s0);
    let ghost g1 = stage_filter(*f, Stage::NoForks, g0);
    let ghost g2 = stage_filter(*f, Stage::ForksOnly, g1);
    let ghost g3 = stage_filter(*f, Stage::NoArchived, g2);
    let ghost g4 = stage_filter(*f, Stage::ArchivedOnly, g3);
    let ghost g5 = stage_filter(*f, Stage::Visibility, g4);
    let ghost g6 = stage_filter(*f, Stage::Include, g5);
    let ghost g7 = stage_filter(*f, Stage::Exclude, g6);
    let total0 = fetched.len();
    let d = dedup_repos(fetched);
    let n0 = d.len();
    proof {
        lemma_dedup_len(s0);
    }
    let duplicates = total0 - n0;
    let v1 = filter_stage(f, Stage::NoForks, d);
    let n1 = v1.len();
    proof {
        lemma_stage_filter_len(*f, Stage::NoForks, g0);
    }
    let forks = n0 - n1;
    let v2 = filter_stage(f, Stage::ForksOnly, v1);
    let n2 = v2.len();
    proof {
        lemma_stage_filter_len(*f, Stage::ForksOnly, g1);
    }
    let nonforks = n1 - n2;
    let v3 = filter_stage(f, Stage::NoArchived, v2);
    let n3 = v3.len();
    proof {
        lemma_stage_filter_len(*f, Stage::NoArchived, g2);
    }
    let archived = n2 - n3;
    let v4 = filter_stage(f, Stage::ArchivedOnly, v3);
    let n4 = v4.len();
    proof {
        lemma_stage_filter_len(*f, Stage::ArchivedOnly, g3);
    }
    let nonarchived = n3 - n4;
    let v5 = filter_stage(f, Stage::Visibility, v4);
    let n5 = v5.len();
    proof {
        lemma_stage_filter_len(*f, Stage::Visibility, g4);
    }
    let visibility = n4 - n5;
    let v6 = filter_stage(f, Stage::Include, v5);
    let n6 = v6.len();
    proof {
        lemma_stage_filter_len(*f, Stage::Include, g5);
    }
    let unmatched = n5 - n6;
    let v7 = filter_stage(f, Stage::Exclude, v6);
    let n7 = v7.len();
    proof {
        lemma_stage_filter_len(*f, Stage::Exclude, g6);
    }
    let excluded = n6 - n7;
    let sorted = sort_repos(v7);
    proof {
        broadcast use group_to_multiset_ensures;

        assert forall|i: int|
            0 <= i < sorted@.len() implies repo_kept(*f, sorted@[i]) && g0.contains(
            sorted@[i],
        ) by {
            let x = sorted@[i];
            assert(sorted@.contains(x));
            assert(sorted@.to_multiset().count(x) > 0);
            assert(g7.to_multiset().count(x) > 0);
            assert(g7.contains(x));
            lemma_stage_filter_elems(*f, Stage::Exclude, g6, x);
            lemma_stage_filter_elems(*f, Stage::Include, g5, x);
            lemma_stage_filter_elems(*f, Stage::Visibility, g4, x);
            lemma_stage_filter_elems(*f, Stage::ArchivedOnly, g3, x);
            lemma_stage_filter_elems(*f, Stage::NoArchived, g2, x);
            lemma_stage_filter_elems(*f, Stage::ForksOnly, g1, x);
            lemma_stage_filter_elems(*f, Stage::NoForks, g0, x);
        }
        lemma_dedup_unique(s0);
        lemma_stage_filter_unique(*f, Stage::NoForks, g0);
        lemma_stage_filter_unique(*f, Stage::ForksOnly, g1);
        lemma_stage_filter_unique(*f, Stage::NoArchived, g2);
        lemma_stage_filter_unique(*f, Stage::ArchivedOnly, g3);
        lemma_stage_filter_unique(*f, Stage::Visibility, g4);
        lemma_stage_filter_unique(*f, Stage::Include, g5);
        lemma_stage_filter_unique(*f, Stage::Exclude, g6);
        assert(g7.no_duplicates()) by {
            assert forall|a: int, b: int|
                0 <= a < g7.len() && 0 <= b < g7.len() && a != b implies g7[a] != g7[b] by {
                if a < b {
                    assert(repo_key(g7[a]) != repo_key(g7[b]));
                } else {
                    assert(repo_key(g7[b]) != repo_key(g7[a]));
                }
            }
        }
        g7.lemma_multiset_has_no_duplicates();
        assert forall|i: int, j: int|
            0 <= i < j < sorted@.len() implies repo_key(sorted@[i]) != repo_key(
            sorted@[j],
        ) by {
            let x = sorted@[i];
            let y = sorted@[j];
            if x == y {
                lemma_dup_count(sorted@, i, j);
                assert(g7.to_multiset().count(x) >= 2);
                assert(g7.to_multiset().contains(x));
                assert(false);
            } else if repo_key(x) == repo_key(y) {
                assert(sorted@.contains(x) && sorted@.contains(y));
                assert(sorted@.to_multiset().count(x) > 0 && sorted@.to_multiset().count(y) > 0);
                assert(g7.to_multiset().count(x) > 0 && g7.to_multiset().count(y) > 0);
                assert(g7.contains(x) && g7.contains(y));
                let m = choose|m: int| 0 <= m < g7.len() && g7[m] == x;
                let n = choose|n: int| 0 <= n < g7.len() && g7[n] == y;
                if m < n {
                    assert(repo_key(g7[m]) != repo_key(g7[n]));
                } else {
                    assert(repo_key(g7[n]) != repo_key(g7[m]));
                }
                assert(false);
            }
        }
    }
    let counts = StageCounts {
        duplicates,
        forks,
        nonforks,
        archived,
        nonarchived,
        visibility,
        unmatched,
        excluded,
    };
    (sorted, counts)
}

/// With the exclude-forks toggle set, nothing the pipeline selects is a fork.
pub proof fn lemma_no_forks_excludes_forks(f: Filters, s: Seq<Repo>)
    requires
        f.no_forks,
    ensures
        forall|r: Repo| selected(f, s).contains(r) ==> !r.is_fork,
{
    let g0 = dedup_first(s);
    let g1 = stage_filter(f, Stage::NoForks, g0);
    let g2 = stage_filter(f, Stage::ForksOnly, g1);
    let g3 = stage_filter(f, Stage::NoArchived, g2);
    let g4 = stage_filter(f, Stage::ArchivedOnly, g3);
    let g5 = stage_filter(f, Stage::Visibility, g4);
    let g6 = stage_filter(f, Stage::Include, g5);
    assert forall|r: Repo| selected(f, s).contains(r) implies !r.is_fork by {
        lemma_stage_filter_elems(f, Stage::Exclude, g6, r);
        lemma_stage_filter_elems(f, Stage::Include, g5, r);
        lemma_stage_filter_elems(f, Stage::Visibility, g4, r);
        lemma_stage_filter_elems(f, Stage::ArchivedOnly, g3, r);
        lemma_stage_filter_elems(f, Stage::NoArchived, g2, r);
        lemma_stage_filter_elems(f, Stage::ForksOnly, g1, r);
        lemma_stage_filter_elems(f, Stage::NoForks, g0, r);
        assert(stage_keep(f, Stage::NoForks, r));
    }
}

/// An exclude pattern prevails: a record whose bare name matches some exclude
/// pattern is never selected, whatever the include patterns say.
pub proof fn lemma_exclude_overrides_include(f: Filters, s: Seq<Repo>, r: Repo)
    requires
        matches_any(f.exclude@, bare_name(repo_key(r))),
    ensures
        !selected(f, s).contains(r),
{
    let g0 = dedup_first(s);
    let g1 = stage_filter(f, Stage::NoForks, g0);
    let g2 = stage_filter(f, Stage::ForksOnly, g1);
    let g3 = stage_filter(f, Stage::NoArchived, g2);
    let g4 = stage_filter(f, Stage::ArchivedOnly, g3);
    let g5 = stage_filter(f, Stage::Visibility, g4);
    let g6 = stage_filter(f, Stage::Include, g5);
    if selected(f, s).contains(r) {
        lemma_stage_filter_elems(f, Stage::Exclude, g6, r);
        assert(stage_keep(f, Stage::Exclude, r));
        assert(false);
    }
}

/// Whether `name` names one of the known organizations, case-insensitively.
pub open spec fn known_org(orgs: Seq<String>, name: Seq<char>) -> bool {
    exists|i: int| 0 <= i < orgs.len() && eq_ci(orgs[i]@, name)
}

/// Whether `name` appears in the explicit owner request list,
/// case-insensitively.
pub open spec fn requested(reqs: Seq<String>, name: Seq<char>) -> bool {
    exists|i: int| 0 <= i < reqs.len() && eq_ci(reqs[i]@, name)
}

/// The requested owners that name no known organization, in request order.
pub open spec fn invalid_owners(reqs: Seq<String>, orgs: Seq<String>) -> Seq<String>
    decreases reqs.len(),
{
    if reqs.len() == 0 {
        Seq::empty()
    } else {
        let prev = invalid_owners(reqs.drop_last(), orgs);
        if known_org(orgs, reqs.last()@) {
            prev
        } else {
            prev.push(reqs.last())
        }
    }
}

/// The known organizations that were explicitly requested, in their known
/// order.
pub open spec fn matching_orgs(reqs: Seq<String>, orgs: Seq<String>) -> Seq<String>
    decreases orgs.len(),
{
    if orgs.len() == 0 {
        Seq::empty()
    } else {
        let prev = matching_orgs(reqs, orgs.drop_last());
        if requested(reqs, orgs.last()@) {
            prev.push(orgs.last())
        } else {
            prev
        }
    }
}

/// The owner set a run scans, by scope: the requested organizations when an
/// explicit list is given, all organizations in organizations-only mode, the
/// user alone in personal-only mode, and the user plus all organizations
/// otherwise.
pub open spec fn expected_owners(f: Filters, username: Seq<char>, orgs: Seq<String>) -> Seq<
    Seq<char>,
> {
    if f.org@.len() > 0 {
        str_views(matching_orgs(f.org@, orgs))
    } else if f.orgs_only {
        str_views(orgs)
    } else if f.personal_only {
        seq![username]
    } else {
        seq![username] + str_views(orgs)
    }
}

/// The error of an explicit owner list naming unknown organizations: the
/// offending names and the full known list.
#[derive(Debug)]
pub struct UnknownOwnerError {
    pub invalid: Vec<String>,
    pub known: Vec<String>,
}

/// Scans the known organizations for `name`, case-insensitively.
fn is_known(orgs: &Vec<String>, name: &String) -> (b: bool)
    ensures
        b == known_org(orgs@, name@),
{
    let mut i: usize = 0;
    while i < orgs.len()
        invariant
            i <= orgs@.len(),
            forall|j: int| 0 <= j < i ==> !eq_ci(orgs@[j]@, name@),
        decreases orgs@.len() - i,
    {
        if eq_ignore_case(orgs[i].as_str(), name.as_str()) {
            return true;
        }
        i = i + 1;
    }
    false
}

/// Scans the request list for `name`, case-insensitively.
fn is_requested(reqs: &Vec<String>, name: &String) -> (b: bool)
    ensures
        b == requested(reqs@, name@),
{
    let mut i: usize = 0;
    while i < reqs.len()
        invariant
            i <= reqs@.len(),
            forall|j: int| 0 <= j < i ==> !eq_ci(reqs@[j]@, name@),
        decreases reqs@.len() - i,
    {
        if eq_ignore_case(reqs[i].as_str(), name.as_str()) {
            return true;
        }
        i = i + 1;
    }
    false
}

/// Copies a list of names.
fn clone_names(v: &Vec<String>) -> (r: Vec<String>)
    ensures
        r@ == v@,
{
    let mut r: Vec<String> = Vec::new();
    let mut i: usize = 0;
    while i < v.len()
        invariant
            i <= v@.len(),
            r@ == v@.take(i as int),
        decreases v@.len() - i,
    {
        r.push(v[i].clone());
        proof {
            assert(r@ =~= v@.take(i + 1));
        }
        i = i + 1;
    }
    proof {
        assert(v@.take(v@.len() as int) =~= v@);
    }
    r
}

/// Resolves the owner set to scan. An explicit owner list is validated
/// case-insensitively against the known organizations; naming any unknown
/// organization is an error carrying the offending names and the known list.
/// Otherwise the scope toggles pick the organizations, the user, or both.
pub fn resolve_owners(f: &Filters, username: &str, orgs: &Vec<String>) -> (r: Result<
    Vec<String>,
    UnknownOwnerError,
>)
    ensures
        match r {
            Ok(owners) => invalid_owners(f.org@, orgs@).len() == 0 && str_views(owners@)
                == expected_owners(*f, username@, orgs@),
            Err(e) => invalid_owners(f.org@, orgs@).len() > 0 && e.invalid@ == invalid_owners(
                f.org@,
                orgs@,
            ) && e.known@ == orgs@,
        },
{
    if f.org.len() > 0 {
        let mut invalid: Vec<String> = Vec::new();
        let mut i: usize = 0;
        proof {
            assert(f.org@.take(0) =~= Seq::<String>::empty());
        }
        while i < f.org.len()
            invariant
                i <= f.org@.len(),
                invalid@ == invalid_owners(f.org@.take(i as int), orgs@),
            decreases f.org@.len() - i,
        {
            let known = is_known(orgs, &f.org[i]);
            if !known {
                invalid.push(f.org[i].clone());
            }
            proof {
                assert(f.org@.take(i + 1).drop_last() =~= f.org@.take(i as int));
                assert(f.org@.take(i + 1).last() == f.org@[i as int]);
            }
            i = i + 1;
        }
        proof {
            assert(f.org@.take(f.org@.len() as int) =~= f.org@);
        }
        if invalid.len() > 0 {
            return Err(UnknownOwnerError { invalid, known: clone_names(orgs) });
        }
        let mut owners: Vec<String> = Vec::new();
        let mut j: usize = 0;
        proof {
            assert(orgs@.take(0) =~= Seq::<String>::empty());
        }
        while j < orgs.len()
            invariant
                j <= orgs@.len(),
                owners@ == matching_orgs(f.org@, orgs@.take(j as int)),
            decreases orgs@.len() - j,
        {
            let wanted = is_requested(&f.org, &orgs[j]);
            if wanted {
                owners.push(orgs[j].clone());
            }
            proof {
                assert(orgs@.take(j + 1).drop_last() =~= orgs@.take(j as int));
                assert(orgs@.take(j + 1).last() == orgs@[j as int]);
            }
            j = j + 1;
        }
        proof {
            assert(orgs@.take(orgs@.len() as int) =~= orgs@);
        }
        Ok(owners)
    } else if f.orgs_only {
        let owners = clone_names(orgs);
        Ok(owners)
    } else if f.personal_only {
        let mut owners: Vec<String> = Vec::new();
        owners.push(username.to_owned());
        proof {
            assert(str_views(owners@) =~= seq![username@]);
        }
        Ok(owners)
    } else {
        let mut owners: Vec<String> = Vec::new();
        owners.push(username.to_owned());
        let mut j: usize = 0;
        while j < orgs.len()
            invariant
                j <= orgs@.len(),
                owners@.len() == 1 + j,
                owners@[0]@ == username@,
                forall|k: int| 0 <= k < j ==> owners@[k + 1] == orgs@[k],
            decreases orgs@.len() - j,
        {
            owners.push(orgs[j].clone());
            j = j + 1;
        }
        proof {
            assert(str_views(owners@) =~= seq![username@] + str_views(orgs@));
        }
        Ok(owners)
    }
}

/// The organization names in the discovery collaborator's line-based output:
/// the lines, each stripped of a trailing carriage return, with empty lines
/// dropped, in order.
pub open spec fn org_lines(s: Seq<char>) -> Seq<Seq<char>>
    decreases s.len(),
{
    if s.len() == 0 {
        Seq::empty()
    } else {
        let p = find_char(s, '\n');
        if 0 <= p && p < s.len() {
            let l = strip_cr(s.subrange(0, p));
            let rest = org_lines(s.subrange(p + 1, s.len() as int));
            if l.len() == 0 {
                rest
            } else {
                seq![l] + rest
            }
        } else {
            let l = strip_cr(s);
            if l.len() == 0 {
                Seq::empty()
            } else {
                seq![l]
            }
        }
    }
}

/// Splits the discovery collaborator's output into organization names: one
/// name per non-empty line.
pub fn get_orgs(output: &str) -> (r: Vec<String>)
    ensures
        str_views(r@) == org_lines(output@),
{
    let mut r: Vec<String> = Vec::new();
    let n = output.unicode_len();
    let mut start: usize = 0;
    proof {
        assert(output@.skip(0) =~= output@);
        assert(str_views(r@) =~= Seq::<Seq<char>>::empty());
        assert(str_views(r@) + org_lines(output@) =~= org_lines(output@));
    }
    while start < n
        invariant
            n == output@.len(),
            start <= n,
            str_views(r@) + org_lines(output@.skip(start as int)) == org_lines(output@),
        decreases n - start,
    {
        let ghost suffix = output@.skip(start as int);
        let rest = output.substring_char(start, n);
        proof {
            assert(rest@ == suffix);
            lemma_find_char(suffix, '\n');
        }
        let (line_end, next) = match find_char_str(rest, '\n') {
            Some(i) => (start + i, start + i + 1),
            None => (n, n),
        };
        proof {
            if line_end < n {
                assert(suffix.subrange(0, find_char(suffix, '\n')) =~= output@.subrange(
                    start as int,
                    line_end as int,
                ));
                assert(suffix.subrange(find_char(suffix, '\n') + 1, suffix.len() as int)
                    =~= output@.skip(next as int));
            } else {
                assert(suffix =~= output@.subrange(start as int, line_end as int));
                assert(output@.skip(next as int) =~= Seq::<char>::empty());
            }
        }
        let stripped_end = if line_end > start && output.get_char(line_end - 1) == '\r' {
            line_end - 1
        } else {
            line_end
        };
        proof {
            assert(strip_cr(output@.subrange(start as int, line_end as int)) =~= output@.subrange(
                start as int,
                stripped_end as int,
            ));
        }
        if stripped_end > start {
            let line = output.substring_char(start, stripped_end);
            r.push(line.to_owned());
            proof {
                assert(str_views(r@) =~= str_views(r@.drop_last()).push(
                    output@.subrange(start as int, stripped_end as int),
                ));
                assert(str_views(r@) + org_lines(output@.skip(next as int)) =~= str_views(
                    r@.drop_last(),
                ) + org_lines(suffix));
            }
        } else {
            proof {
                assert(org_lines(suffix) == org_lines(output@.skip(next as int)));
            }
        }
        start = next;
    }
    proof {
        assert(output@.skip(start as int) =~= Seq::<char>::empty());
        assert(str_views(r@) =~= str_views(r@) + org_lines(output@.skip(start as int)));
    }
    r
}

} // verus!
