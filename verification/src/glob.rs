//! The glob matching engine: a case-insensitive shell-style pattern match
//! supporting `*` (zero or more characters), `?` (exactly one) and literal
//! characters, evaluated by backtracking over both branches of each `*`.

use vstd::prelude::*;
use crate::text::{lower, lower_bytes, str_bytes, lemma_lower_idempotent};

verus! {

/// The byte value of `*`.
pub const STAR: u8 = 42;

/// The byte value of `?`.
pub const QMARK: u8 = 63;

/// Whether pattern `p` matches text `t`, byte for byte: an empty pattern
/// matches only the empty text, `*` matches any number of bytes (including
/// none), `?` matches exactly one byte, and any other byte matches itself.
pub open spec fn glob_matches(p: Seq<u8>, t: Seq<u8>) -> bool
    decreases p.len() + t.len(),
{
    if p.len() == 0 {
        t.len() == 0
    } else if p[0] == STAR {
        glob_matches(p.drop_first(), t) || (t.len() > 0 && glob_matches(p, t.drop_first()))
    } else if t.len() > 0 && (p[0] == QMARK || p[0] == t[0]) {
        glob_matches(p.drop_first(), t.drop_first())
    } else {
        false
    }
}

/// Whether `pattern` matches `text` after both are ASCII-lowercased: the
/// contract of [`glob_match`].
pub open spec fn glob_matches_ci(pattern: Seq<char>, text: Seq<char>) -> bool {
    glob_matches(lower(str_bytes(pattern)), lower(str_bytes(text)))
}

/// Backtracking matcher on the suffixes of `p` and `t` starting at `pi` and `ti`.
fn glob_match_at(p: &[u8], t: &[u8], pi: usize, ti: usize) -> (r: bool)
    requires
        pi <= p@.len(),
        ti <= t@.len(),
    ensures
        r == glob_matches(p@.skip(pi as int), t@.skip(ti as int)),
    decreases p@.len() - pi + t@.len() - ti,
{
    proof {
        assert(p@.skip(pi as int).len() == p@.len() - pi);
        assert(t@.skip(ti as int).len() == t@.len() - ti);
        if pi < p@.len() {
            assert(p@.skip(pi as int)[0] == p@[pi as int]);
            assert(p@.skip(pi as int).drop_first() =~= p@.skip(pi + 1));
        }
        if ti < t@.len() {
            assert(t@.skip(ti as int)[0] == t@[ti as int]);
            assert(t@.skip(ti as int).drop_first() =~= t@.skip(ti + 1));
        }
    }
    if pi == p.len() {
        ti == t.len()
    } else if p[pi] == STAR {
        glob_match_at(p, t, pi + 1, ti) || (ti < t.len() && glob_match_at(p, t, pi, ti + 1))
    } else if ti < t.len() && (p[pi] == QMARK || p[pi] == t[ti]) {
        glob_match_at(p, t, pi + 1, ti + 1)
    } else {
        false
    }
}

/// Matches pattern bytes `p` against text bytes `t`, exactly as
/// [`glob_matches`] states; callers lowercase the inputs first.
pub fn glob_match_bytes(p: &[u8], t: &[u8]) -> (r: bool)
    ensures
        r == glob_matches(p@, t@),
{
    let r = glob_match_at(p, t, 0, 0);
    proof {
        assert(p@.skip(0) =~= p@);
        assert(t@.skip(0) =~= t@);
    }
    r
}

/// Case-insensitive glob match: both inputs are ASCII-lowercased, then their
/// bytes are matched by [`glob_matches`].
pub fn glob_match(pattern: &str, text: &str) -> (r: bool)
    ensures
        r == glob_matches_ci(pattern@, text@),
{
    let lp = lower_bytes(pattern.as_bytes());
    let lt = lower_bytes(text.as_bytes());
    glob_match_bytes(lp.as_slice(), lt.as_slice())
}

/// A pattern consisting of a single `*` matches every text.
pub proof fn lemma_star_matches_all(t: Seq<u8>)
    ensures
        glob_matches(seq![STAR], t),
    decreases t.len(),
{
    let p = seq![STAR];
    assert(p.drop_first() =~= Seq::<u8>::empty());
    if t.len() == 0 {
        assert(glob_matches(p.drop_first(), t));
        assert(glob_matches(p, t));
    } else {
        lemma_star_matches_all(t.drop_first());
        assert(glob_matches(p, t));
    }
}

/// The string pattern `*` matches every text, whatever its characters.
pub proof fn lemma_star_matches_all_str(t: Seq<char>)
    ensures
        glob_matches_ci(seq!['*'], t),
{
    crate::text::lemma_ascii_char_bytes('*');
    assert(str_bytes(seq!['*']) == seq![STAR]);
    assert(lower(seq![STAR]) =~= seq![STAR]);
    lemma_star_matches_all(lower(str_bytes(t)));
}

/// Matching is insensitive to the case of its inputs: any two pattern/text
/// pairs that agree after lowercasing match alike. In particular, since
/// lowercasing is idempotent, a pattern or text may be replaced by its own
/// lowercase form without changing the result.
pub proof fn lemma_glob_match_case_insensitive(p1: Seq<u8>, t1: Seq<u8>, p2: Seq<u8>, t2: Seq<u8>)
    requires
        lower(p1) == lower(p2),
        lower(t1) == lower(t2),
    ensures
        glob_matches(lower(p1), lower(t1)) == glob_matches(lower(p2), lower(t2)),
{
}

/// Lowercasing the inputs of the case-insensitive matcher changes nothing.
pub proof fn lemma_glob_match_lower_fixpoint(p: Seq<u8>, t: Seq<u8>)
    ensures
        glob_matches(lower(lower(p)), lower(lower(t))) == glob_matches(lower(p), lower(t)),
{
    lemma_lower_idempotent(p);
    lemma_lower_idempotent(t);
}

} // verus!
