//! The line-oriented match engine: evaluates a set of substring patterns
//! against the lines of a list of files, under configurable case-sensitivity
//! and inversion, and returns one record per kept line in file order, then
//! line order.
//!
//! Opening a file and producing its lines is a supplied primitive: the engine
//! takes each file's lines as plain values.

use vstd::prelude::*;

use crate::text::{contains_pattern, lemma_case_insensitive_hits_superset, pattern_hits};

verus! {

/// One reported result: the source file, the 1-based line number within it,
/// and the line's exact text (the case toggle affects only the comparison,
/// never the stored text).
#[derive(Debug)]
pub struct Match {
    pub filename: String,
    pub line_number: usize,
    pub line: String,
}

/// Mathematical image of a match record.
pub struct MatchV {
    pub filename: Seq<char>,
    pub line_number: int,
    pub line: Seq<char>,
}

impl View for Match {
    type V = MatchV;

    open spec fn view(&self) -> MatchV {
        MatchV {
            filename: self.filename@,
            line_number: self.line_number as int,
            line: self.line@,
        }
    }
}

/// View of a list of strings.
pub open spec fn lines_view(ss: Seq<String>) -> Seq<Seq<char>> {
    ss.map_values(|s: String| s@)
}

/// View of a list of files' lines.
pub open spec fn files_view(fs: Seq<Vec<String>>) -> Seq<Seq<Seq<char>>> {
    fs.map_values(|v: Vec<String>| lines_view(v@))
}

/// View of a list of match records.
pub open spec fn matches_view(ms: Seq<Match>) -> Seq<MatchV> {
    ms.map_values(|m: Match| m@)
}

/// A line matches when any pattern hits it; the patterns are an unordered
/// "any-of" set for this purpose.
pub open spec fn spec_line_matches(
    patterns: Seq<Seq<char>>,
    line: Seq<char>,
    case_sensitive: bool,
) -> bool {
    exists|k: int| 0 <= k < patterns.len() && pattern_hits(patterns[k], line, case_sensitive)
}

/// The inclusion decision for one line: it is kept when it matches, XOR the
/// inversion toggle.
pub open spec fn spec_keeps(
    patterns: Seq<Seq<char>>,
    line: Seq<char>,
    case_sensitive: bool,
    invert: bool,
) -> bool {
    spec_line_matches(patterns, line, case_sensitive) != invert
}

/// The records produced by the first `n` lines of one file, in line order,
/// with 1-based line numbers.
pub open spec fn file_records(
    patterns: Seq<Seq<char>>,
    filename: Seq<char>,
    lines: Seq<Seq<char>>,
    case_sensitive: bool,
    invert: bool,
    n: int,
) -> Seq<MatchV>
    decreases n,
{
    if n <= 0 {
        Seq::empty()
    } else {
        let prev = file_records(patterns, filename, lines, case_sensitive, invert, n - 1);
        if spec_keeps(patterns, lines[n - 1], case_sensitive, invert) {
            prev.push(MatchV { filename, line_number: n, line: lines[n - 1] })
        } else {
            prev
        }
    }
}

/// The records produced by the first `k` files, concatenated in file order.
pub open spec fn all_records(
    patterns: Seq<Seq<char>>,
    filenames: Seq<Seq<char>>,
    files_lines: Seq<Seq<Seq<char>>>,
    case_sensitive: bool,
    invert: bool,
    k: int,
) -> Seq<MatchV>
    decreases k,
{
    if k <= 0 {
        Seq::empty()
    } else {
        all_records(patterns, filenames, files_lines, case_sensitive, invert, k - 1)
            + file_records(
            patterns,
            filenames[k - 1],
            files_lines[k - 1],
            case_sensitive,
            invert,
            files_lines[k - 1].len() as int,
        )
    }
}

/// The match engine's configuration: the patterns and file names to search,
/// case sensitivity (default on) and inversion (default off).
pub struct PatternMatcher<'a> {
    pub patterns: &'a [String],
    pub filenames: &'a [String],
    pub case_sensitive: bool,
    pub invert_match: bool,
}

impl<'a> PatternMatcher<'a> {
    /// A matcher over these patterns and files, case-sensitive and not
    /// inverted until configured otherwise.
    pub fn new(patterns: &'a [String], filenames: &'a [String]) -> (r: Self)
        ensures
            r.patterns == patterns,
            r.filenames == filenames,
            r.case_sensitive == true,
            r.invert_match == false,
    {
        Self { patterns, filenames, case_sensitive: true, invert_match: false }
    }

    /// Set whether the substring comparison honors case.
    pub fn case_sensitive(self, case_sensitive: bool) -> (r: Self)
        ensures
            r.patterns == self.patterns,
            r.filenames == self.filenames,
            r.case_sensitive == case_sensitive,
            r.invert_match == self.invert_match,
    {
        Self { case_sensitive, ..self }
    }

    /// Set whether lines matching no pattern are kept instead.
    pub fn invert_match(self, invert_match: bool) -> (r: Self)
        ensures
            r.patterns == self.patterns,
            r.filenames == self.filenames,
            r.case_sensitive == self.case_sensitive,
            r.invert_match == invert_match,
    {
        Self { invert_match, ..self }
    }

    /// Scan all files, given each file's lines in the order of
    /// `self.filenames`, and return one record per kept line, in file order
    /// and line order.
    pub fn find_matches(&self, files_lines: &Vec<Vec<String>>) -> (r: Vec<Match>)
        requires
            files_lines@.len() == self.filenames@.len(),
        ensures
            matches_view(r@) == all_records(
                lines_view(self.patterns@),
                lines_view(self.filenames@),
                files_view(files_lines@),
                self.case_sensitive,
                self.invert_match,
                files_lines@.len() as int,
            ),
    {
        let ghost pats = lines_view(self.patterns@);
        let ghost fnames = lines_view(self.filenames@);
        let ghost files = files_view(files_lines@);
        let mut results: Vec<Match> = Vec::new();
        proof {
            assert(matches_view(results@) =~= Seq::<MatchV>::empty());
        }
        let nfiles = files_lines.len();
        let mut fidx: usize = 0;
        while fidx < nfiles
            invariant
                fidx <= nfiles,
                nfiles == files_lines@.len(),
                files_lines@.len() == self.filenames@.len(),
                pats == lines_view(self.patterns@),
                fnames == lines_view(self.filenames@),
                files == files_view(files_lines@),
                matches_view(results@) == all_records(
                    pats,
                    fnames,
                    files,
                    self.case_sensitive,
                    self.invert_match,
                    fidx as int,
                ),
            decreases nfiles - fidx,
        {
            let lines = &files_lines[fidx];
            let filename = &self.filenames[fidx];
            let nlines = lines.len();
            proof {
                assert(files[fidx as int] == lines_view(lines@));
                assert(fnames[fidx as int] == filename@);
            }
            let mut lidx: usize = 0;
            while lidx < nlines
                invariant
                    lidx <= nlines,
                    fidx < nfiles,
                    nfiles == files_lines@.len(),
                    nlines == lines@.len(),
                    lines == &files_lines@[fidx as int],
                    filename == &self.filenames@[fidx as int],
                    files_lines@.len() == self.filenames@.len(),
                    pats == lines_view(self.patterns@),
                    fnames == lines_view(self.filenames@),
                    files == files_view(files_lines@),
                    files[fidx as int] == lines_view(lines@),
                    fnames[fidx as int] == filename@,
                    matches_view(results@) == all_records(
                        pats,
                        fnames,
                        files,
                        self.case_sensitive,
                        self.invert_match,
                        fidx as int,
                    ) + file_records(
                        pats,
                        filename@,
                        lines_view(lines@),
                        self.case_sensitive,
                        self.invert_match,
                        lidx as int,
                    ),
                decreases nlines - lidx,
            {
                let line = &lines[lidx];
                let kept = self.line_matches(line) != self.invert_match;
                proof {
                    assert(lines_view(lines@)[lidx as int] == line@);
                }
                let ghost before = matches_view(results@);
                if kept {
                    let m = Match {
                        filename: filename.clone(),
                        line_number: lidx + 1,
                        line: line.clone(),
                    };
                    results.push(m);
                    proof {
                        assert(matches_view(results@) =~= before.push(m@));
                    }
                }
                lidx = lidx + 1;
            }
            fidx = fidx + 1;
        }
        results
    }

    /// Does any pattern hit this line under the configured case mode?
    pub fn line_matches(&self, line: &String) -> (r: bool)
        ensures
            r == spec_line_matches(lines_view(self.patterns@), line@, self.case_sensitive),
    {
        let ghost pats = lines_view(self.patterns@);
        let npats = self.patterns.len();
        let mut k: usize = 0;
        while k < npats
            invariant
                k <= npats,
                npats == self.patterns@.len(),
                pats == lines_view(self.patterns@),
                forall|j: int| 0 <= j < k ==> !pattern_hits(pats[j], line@, self.case_sensitive),
            decreases npats - k,
        {
            proof {
                assert(pats[k as int] == self.patterns@[k as int]@);
            }
            if contains_pattern(line.as_str(), self.patterns[k].as_str(), self.case_sensitive) {
                return true;
            }
            k = k + 1;
        }
        false
    }
}

/// The 1-based line numbers of one file's lines that the engine keeps under a
/// given configuration.
pub open spec fn kept_line_numbers(
    patterns: Seq<Seq<char>>,
    lines: Seq<Seq<char>>,
    case_sensitive: bool,
    invert: bool,
) -> Set<int> {
    Set::new(
        |ln: int|
            1 <= ln <= lines.len() && spec_keeps(patterns, lines[ln - 1], case_sensitive, invert),
    )
}

/// Inversion symmetry: for fixed patterns and case mode, the line numbers
/// kept with inversion on are exactly the complement, within one file's
/// lines, of those kept with inversion off.
pub proof fn lemma_invert_complement(
    patterns: Seq<Seq<char>>,
    lines: Seq<Seq<char>>,
    case_sensitive: bool,
)
    ensures
        kept_line_numbers(patterns, lines, case_sensitive, true) == Set::new(
            |ln: int| 1 <= ln <= lines.len(),
        ).difference(kept_line_numbers(patterns, lines, case_sensitive, false)),
{
    assert(kept_line_numbers(patterns, lines, case_sensitive, true) =~= Set::new(
        |ln: int| 1 <= ln <= lines.len(),
    ).difference(kept_line_numbers(patterns, lines, case_sensitive, false)));
}

/// Each record of one file carries that file's name, a line number in range,
/// and the exact text of that line; and a line number appears among the
/// records exactly when the engine's decision keeps that line.
pub proof fn lemma_file_records_membership(
    patterns: Seq<Seq<char>>,
    filename: Seq<char>,
    lines: Seq<Seq<char>>,
    case_sensitive: bool,
    invert: bool,
    n: int,
)
    requires
        0 <= n <= lines.len(),
    ensures
        forall|r: int|
            0 <= r < file_records(patterns, filename, lines, case_sensitive, invert, n).len()
                ==> {
                let rec = #[trigger] file_records(
                    patterns,
                    filename,
                    lines,
                    case_sensitive,
                    invert,
                    n,
                )[r];
                &&& rec.filename == filename
                &&& 1 <= rec.line_number <= n
                &&& rec.line == lines[rec.line_number - 1]
                &&& spec_keeps(patterns, lines[rec.line_number - 1], case_sensitive, invert)
            },
        forall|ln: int|
            1 <= ln <= n && #[trigger] spec_keeps(patterns, lines[ln - 1], case_sensitive, invert)
                ==> exists|r: int|
                0 <= r < file_records(patterns, filename, lines, case_sensitive, invert, n).len()
                    && #[trigger] file_records(
                    patterns,
                    filename,
                    lines,
                    case_sensitive,
                    invert,
                    n,
                )[r].line_number == ln,
    decreases n,
{
    if n > 0 {
        lemma_file_records_membership(patterns, filename, lines, case_sensitive, invert, n - 1);
        let prev = file_records(patterns, filename, lines, case_sensitive, invert, n - 1);
        let cur = file_records(patterns, filename, lines, case_sensitive, invert, n);
        assert forall|ln: int|
            1 <= ln <= n && #[trigger] spec_keeps(patterns, lines[ln - 1], case_sensitive, invert)
                implies exists|r: int| 0 <= r < cur.len() && (#[trigger] cur[r]).line_number
                == ln by {
            if ln == n {
                assert(cur[cur.len() - 1].line_number == n);
            } else {
                let r = choose|r: int| 0 <= r < prev.len() && prev[r].line_number == ln;
                assert(cur[r].line_number == ln);
            }
        }
    }
}

/// Case-insensitive matching is a superset of case-sensitive matching: every
/// line kept case-sensitively (not inverted) is also kept case-insensitively.
pub proof fn lemma_case_insensitive_superset(patterns: Seq<Seq<char>>, line: Seq<char>)
    ensures
        spec_line_matches(patterns, line, true) ==> spec_line_matches(patterns, line, false),
{
    if spec_line_matches(patterns, line, true) {
        let k = choose|k: int| 0 <= k < patterns.len() && pattern_hits(patterns[k], line, true);
        lemma_case_insensitive_hits_superset(patterns[k], line);
        assert(pattern_hits(patterns[k], line, false));
    }
}

} // verus!
