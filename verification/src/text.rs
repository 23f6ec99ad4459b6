//! Byte- and character-level text utilities shared by the matching engine,
//! the filter pipeline and the scheduler: ASCII lowercasing, lexicographic
//! order on byte strings, and locating a character in a string.

use vstd::prelude::*;

verus! {

use vstd::string::StrSliceExecFns;

/// The byte value of `A`.
pub const UPPER_A: u8 = 65;

/// The byte value of `Z`.
pub const UPPER_Z: u8 = 90;

/// The distance from an ASCII uppercase letter to its lowercase form.
pub const CASE_GAP: u8 = 32;

/// The UTF-8 bytes of a string value; `s.as_bytes()@ == str_bytes(s@)`.
pub open spec fn str_bytes(s: Seq<char>) -> Seq<u8> {
    vstd::utf8::encode_utf8(s)
}

/// ASCII lowercase of one byte: `A`..=`Z` map to `a`..=`z`, all else unchanged.
pub open spec fn lower_byte(b: u8) -> u8 {
    if UPPER_A <= b && b <= UPPER_Z {
        (b + CASE_GAP) as u8
    } else {
        b
    }
}

/// ASCII lowercase of a byte string, applied byte by byte.
pub open spec fn lower(s: Seq<u8>) -> Seq<u8> {
    s.map_values(|b: u8| lower_byte(b))
}

/// Lowercasing twice is the same as lowercasing once.
pub proof fn lemma_lower_idempotent(s: Seq<u8>)
    ensures
        lower(lower(s)) == lower(s),
{
    assert(lower(lower(s)) =~= lower(s));
}

/// Executable ASCII lowercasing of a byte slice.
pub fn lower_bytes(s: &[u8]) -> (r: Vec<u8>)
    ensures
        r@ == lower(s@),
{
    let mut r: Vec<u8> = Vec::new();
    let mut i: usize = 0;
    while i < s.len()
        invariant
            i <= s@.len(),
            r@ == lower(s@.take(i as int)),
        decreases s@.len() - i,
    {
        let b = s[i];
        let lb: u8 = if UPPER_A <= b && b <= UPPER_Z {
            b + CASE_GAP
        } else {
            b
        };
        r.push(lb);
        proof {
            assert(r@ =~= lower(s@.take(i + 1)));
        }
        i = i + 1;
    }
    proof {
        assert(s@.take(s@.len() as int) =~= s@);
    }
    r
}

/// An ASCII character is encoded in UTF-8 as its own single byte.
pub proof fn lemma_ascii_char_bytes(c: char)
    requires
        c as u32 <= 0x7F,
    ensures
        str_bytes(seq![c]) == seq![c as u8],
{
    let v = c as u32;
    assert(v & 0x7F == v) by (bit_vector)
        requires
            v <= 0x7F,
    ;
    reveal_with_fuel(vstd::utf8::encode_utf8, 2);
    assert(seq![c].drop_first() =~= Seq::<char>::empty());
    assert((c as u32) as u8 == c as u8);
    assert(str_bytes(seq![c]) =~= seq![c as u8]);
}

/// Index of the first occurrence of `c` in `s`, or `-1` if `c` does not occur.
pub open spec fn find_char(s: Seq<char>, c: char) -> int
    decreases s.len(),
{
    if s.len() == 0 {
        -1
    } else if s[0] == c {
        0
    } else {
        let r = find_char(s.drop_first(), c);
        if r < 0 {
            -1
        } else {
            r + 1
        }
    }
}

/// `find_char` returns the least index holding `c`, or `-1` when `c` is absent.
pub proof fn lemma_find_char(s: Seq<char>, c: char)
    ensures
        find_char(s, c) == -1 <==> (forall|i: int| 0 <= i < s.len() ==> s[i] != c),
        find_char(s, c) != -1 ==> 0 <= find_char(s, c) < s.len() && s[find_char(s, c)] == c
            && (forall|i: int| 0 <= i < find_char(s, c) ==> s[i] != c),
    decreases s.len(),
{
    if s.len() == 0 {
    } else if s[0] == c {
    } else {
        lemma_find_char(s.drop_first(), c);
        assert(forall|i: int| 1 <= i < s.len() ==> s[i] == s.drop_first()[i - 1]);
    }
}

/// Executable search for the first occurrence of `c` in `s`, by character index.
pub fn find_char_str(s: &str, c: char) -> (r: Option<usize>)
    ensures
        match r {
            Some(i) => find_char(s@, c) == i,
            None => find_char(s@, c) == -1,
        },
{
    let n = s.unicode_len();
    let mut i: usize = 0;
    while i < n
        invariant
            n == s@.len(),
            i <= n,
            forall|j: int| 0 <= j < i ==> s@[j] != c,
        decreases n - i,
    {
        if s.get_char(i) == c {
            proof {
                lemma_find_char(s@, c);
                assert(s@[i as int] == c);
                assert(find_char(s@, c) != -1);
                let f = find_char(s@, c);
                if f < i {
                    assert(s@[f] != c);
                } else if f > i {
                    assert(s@[i as int] != c);
                }
            }
            return Some(i);
        }
        i = i + 1;
    }
    proof {
        lemma_find_char(s@, c);
    }
    None
}

/// The views of a sequence of strings, element by element.
pub open spec fn str_views(s: Seq<String>) -> Seq<Seq<char>> {
    s.map_values(|x: String| x@)
}

/// A line with a trailing carriage return removed, as the line splitter
/// of the standard library strips one.
pub open spec fn strip_cr(l: Seq<char>) -> Seq<char> {
    if l.len() > 0 && l.last() == '\r' {
        l.drop_last()
    } else {
        l
    }
}

/// Lexicographic order on byte strings: a proper prefix comes first, and the
/// first differing byte decides.
pub open spec fn lex_le(a: Seq<u8>, b: Seq<u8>) -> bool
    decreases a.len(),
{
    if a.len() == 0 {
        true
    } else if b.len() == 0 {
        false
    } else if a[0] < b[0] {
        true
    } else if a[0] > b[0] {
        false
    } else {
        lex_le(a.drop_first(), b.drop_first())
    }
}

/// `lex_le` is total: of any two byte strings, one is less than or equal to the other.
pub proof fn lemma_lex_le_total(a: Seq<u8>, b: Seq<u8>)
    ensures
        lex_le(a, b) || lex_le(b, a),
    decreases a.len(),
{
    if a.len() == 0 || b.len() == 0 {
    } else if a[0] == b[0] {
        lemma_lex_le_total(a.drop_first(), b.drop_first());
    }
}

/// `lex_le` is transitive.
pub proof fn lemma_lex_le_trans(a: Seq<u8>, b: Seq<u8>, c: Seq<u8>)
    requires
        lex_le(a, b),
        lex_le(b, c),
    ensures
        lex_le(a, c),
    decreases a.len(),
{
    if a.len() == 0 || b.len() == 0 || c.len() == 0 {
    } else if a[0] == b[0] && b[0] == c[0] {
        lemma_lex_le_trans(a.drop_first(), b.drop_first(), c.drop_first());
    }
}

/// Executable lexicographic comparison of byte slices, from position `i` on.
fn lex_le_at(a: &[u8], b: &[u8], i: usize) -> (r: bool)
    requires
        i <= a@.len(),
        i <= b@.len(),
    ensures
        r == lex_le(a@.skip(i as int), b@.skip(i as int)),
    decreases a@.len() - i,
{
    proof {
        assert(a@.skip(i as int).len() == a@.len() - i);
        assert(b@.skip(i as int).len() == b@.len() - i);
    }
    if i == a.len() {
        true
    } else if i == b.len() {
        false
    } else {
        proof {
            assert(a@.skip(i as int)[0] == a@[i as int]);
            assert(b@.skip(i as int)[0] == b@[i as int]);
        }
        if a[i] < b[i] {
            true
        } else if a[i] > b[i] {
            false
        } else {
            let r = lex_le_at(a, b, i + 1);
            proof {
                assert(a@.skip(i as int).drop_first() =~= a@.skip(i + 1));
                assert(b@.skip(i as int).drop_first() =~= b@.skip(i + 1));
            }
            r
        }
    }
}

/// Executable lexicographic comparison of whole byte slices.
pub fn lex_le_bytes(a: &[u8], b: &[u8]) -> (r: bool)
    ensures
        r == lex_le(a@, b@),
{
    let r = lex_le_at(a, b, 0);
    proof {
        assert(a@.skip(0) =~= a@);
        assert(b@.skip(0) =~= b@);
    }
    r
}

/// ASCII-case-insensitive equality of two string values, as equality of their
/// lowercased byte strings.
pub open spec fn eq_ci(a: Seq<char>, b: Seq<char>) -> bool {
    lower(str_bytes(a)) == lower(str_bytes(b))
}

/// Executable ASCII-case-insensitive string comparison.
pub fn eq_ignore_case(a: &str, b: &str) -> (r: bool)
    ensures
        r == eq_ci(a@, b@),
{
    let ab = a.as_bytes();
    let bb = b.as_bytes();
    if ab.len() != bb.len() {
        proof {
            assert(lower(ab@).len() != lower(bb@).len());
        }
        return false;
    }
    let mut i: usize = 0;
    while i < ab.len()
        invariant
            ab@ == str_bytes(a@),
            bb@ == str_bytes(b@),
            ab@.len() == bb@.len(),
            i <= ab@.len(),
            forall|j: int| 0 <= j < i ==> lower(ab@)[j] == lower(bb@)[j],
        decreases ab@.len() - i,
    {
        let x = ab[i];
        let y = bb[i];
        let lx: u8 = if UPPER_A <= x && x <= UPPER_Z {
            x + CASE_GAP
        } else {
            x
        };
        let ly: u8 = if UPPER_A <= y && y <= UPPER_Z {
            y + CASE_GAP
        } else {
            y
        };
        if lx != ly {
            proof {
                assert(lower(ab@)[i as int] != lower(bb@)[i as int]);
            }
            return false;
        }
        i = i + 1;
    }
    proof {
        assert(lower(ab@) =~= lower(bb@));
    }
    true
}

} // verus!
