//! Character-level primitives: simple (ASCII-only, locale-free) lowering and
//! substring search over `&str`, with the specification functions the match
//! engine's contracts are stated in.

use vstd::prelude::*;
use vstd::string::*;

verus! {

/// Simple lowering of one character: ASCII uppercase letters map to their
/// lowercase counterparts, every other character is unchanged. This is
/// deliberately not locale-aware or Unicode case folding.
pub open spec fn lower_char(c: char) -> char {
    if 'A' <= c && c <= 'Z' {
        ((c as u8) + 32) as char
    } else {
        c
    }
}

/// Simple lowering of a whole character sequence, one character at a time.
pub open spec fn lower(s: Seq<char>) -> Seq<char> {
    s.map_values(|c: char| lower_char(c))
}

/// `pat` occurs in `text` starting at position `i`.
pub open spec fn matches_at(text: Seq<char>, pat: Seq<char>, i: int) -> bool {
    0 <= i && i + pat.len() <= text.len() && text.subrange(i, i + pat.len()) == pat
}

/// `pat` is a contiguous substring of `text`. The empty pattern occurs in
/// every text, including the empty one.
pub open spec fn is_substring(pat: Seq<char>, text: Seq<char>) -> bool {
    exists|i: int| matches_at(text, pat, i)
}

/// The match predicate for one pattern against one line: a direct substring
/// test when case-sensitive, a substring test under simple lowering otherwise.
pub open spec fn pattern_hits(pat: Seq<char>, line: Seq<char>, case_sensitive: bool) -> bool {
    if case_sensitive {
        is_substring(pat, line)
    } else {
        is_substring(lower(pat), lower(line))
    }
}

/// An occurrence is the same as character-wise equality over its window.
pub proof fn lemma_matches_at_pointwise(text: Seq<char>, pat: Seq<char>, i: int)
    requires
        0 <= i,
        i + pat.len() <= text.len(),
    ensures
        matches_at(text, pat, i) <==> (forall|j: int|
            0 <= j < pat.len() ==> text[i + j] == pat[j]),
{
    if forall|j: int| 0 <= j < pat.len() ==> text[i + j] == pat[j] {
        assert(text.subrange(i, i + pat.len()) =~= pat);
    }
    if matches_at(text, pat, i) {
        assert forall|j: int| 0 <= j < pat.len() implies text[i + j] == pat[j] by {
            assert(text.subrange(i, i + pat.len())[j] == text[i + j]);
        }
    }
}

/// Lowering both sides preserves an occurrence at the same position.
pub proof fn lemma_lower_preserves_match(text: Seq<char>, pat: Seq<char>, i: int)
    requires
        matches_at(text, pat, i),
    ensures
        matches_at(lower(text), lower(pat), i),
{
    lemma_matches_at_pointwise(text, pat, i);
    lemma_matches_at_pointwise(lower(text), lower(pat), i);
}

/// Every pattern found by a case-sensitive search is also found by the
/// case-insensitive one.
pub proof fn lemma_case_insensitive_hits_superset(pat: Seq<char>, line: Seq<char>)
    ensures
        pattern_hits(pat, line, true) ==> pattern_hits(pat, line, false),
{
    if pattern_hits(pat, line, true) {
        let i = choose|i: int| matches_at(line, pat, i);
        lemma_lower_preserves_match(line, pat, i);
    }
}

/// Simple lowering of one character, executable form.
pub fn lower_char_exec(c: char) -> (r: char)
    ensures
        r == lower_char(c),
{
    if c >= 'A' && c <= 'Z' {
        (((c as u8) + 32) as char)
    } else {
        c
    }
}

/// Character-wise equality of two string slices.
pub fn str_eq(a: &str, b: &str) -> (r: bool)
    ensures
        r == (a@ == b@),
{
    let a_len = a.unicode_len();
    let b_len = b.unicode_len();
    if a_len != b_len {
        return false;
    }
    let mut i: usize = 0;
    while i < a_len
        invariant
            i <= a_len,
            a_len == a@.len(),
            a_len == b@.len(),
            forall|j: int| 0 <= j < i ==> a@[j] == b@[j],
        decreases a_len - i,
    {
        if a.get_char(i) != b.get_char(i) {
            return false;
        }
        i = i + 1;
    }
    proof {
        assert(a@ =~= b@);
    }
    true
}

/// Does `pat` occur in `line` starting at position `i`, under the chosen case
/// mode?
fn hits_at(line: &str, pat: &str, i: usize, case_sensitive: bool) -> (r: bool)
    requires
        i + pat@.len() <= line@.len(),
    ensures
        r == if case_sensitive {
            matches_at(line@, pat@, i as int)
        } else {
            matches_at(lower(line@), lower(pat@), i as int)
        },
{
    let ghost tline = if case_sensitive { line@ } else { lower(line@) };
    let ghost tpat = if case_sensitive { pat@ } else { lower(pat@) };
    let line_len = line.unicode_len();
    let pat_len = pat.unicode_len();
    let mut j: usize = 0;
    while j < pat_len
        invariant
            j <= pat_len,
            line_len == line@.len(),
            pat_len == pat@.len(),
            i + pat_len <= line_len,
            tline == if case_sensitive { line@ } else { lower(line@) },
            tpat == if case_sensitive { pat@ } else { lower(pat@) },
            forall|k: int| 0 <= k < j ==> tline[i + k] == tpat[k],
        decreases pat_len - j,
    {
        let lc = line.get_char(i + j);
        let pc = pat.get_char(j);
        let c1 = if case_sensitive { lc } else { lower_char_exec(lc) };
        let c2 = if case_sensitive { pc } else { lower_char_exec(pc) };
        proof {
            assert(tline[i + j] == c1);
            assert(tpat[j as int] == c2);
        }
        if c1 != c2 {
            proof {
                lemma_matches_at_pointwise(tline, tpat, i as int);
            }
            return false;
        }
        j = j + 1;
    }
    proof {
        lemma_matches_at_pointwise(tline, tpat, i as int);
    }
    true
}

/// Substring search: does `pat` occur anywhere in `line`? Case-sensitive mode
/// compares characters directly; the insensitive mode compares them under
/// simple lowering.
pub fn contains_pattern(line: &str, pat: &str, case_sensitive: bool) -> (r: bool)
    ensures
        r == pattern_hits(pat@, line@, case_sensitive),
{
    let line_len = line.unicode_len();
    let pat_len = pat.unicode_len();
    if pat_len > line_len {
        proof {
            assert forall|i: int| !matches_at(line@, pat@, i) by {}
            assert forall|i: int| !matches_at(lower(line@), lower(pat@), i) by {}
        }
        return false;
    }
    let ghost tline = if case_sensitive { line@ } else { lower(line@) };
    let ghost tpat = if case_sensitive { pat@ } else { lower(pat@) };
    let last = line_len - pat_len;
    let mut i: usize = 0;
    loop
        invariant_except_break
            i <= last,
            pat_len <= line_len,
            line_len == line@.len(),
            pat_len == pat@.len(),
            last == line_len - pat_len,
            tline == if case_sensitive { line@ } else { lower(line@) },
            tpat == if case_sensitive { pat@ } else { lower(pat@) },
            forall|k: int| 0 <= k < i ==> !matches_at(tline, tpat, k),
        ensures
            forall|k: int| !matches_at(tline, tpat, k),
        decreases last - i,
    {
        if hits_at(line, pat, i, case_sensitive) {
            return true;
        }
        if i == last {
            proof {
                assert forall|k: int| !matches_at(tline, tpat, k) by {
                    if 0 <= k <= last {
                    } else {
                    }
                }
            }
            break;
        }
        i = i + 1;
    }
    false
}

} // verus!
