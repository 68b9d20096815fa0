//! The line scan: which lines of a text hold the query, and where.

use crate::fold::{fold, folded, lowercase, lowercased};
use crate::text::{
    chars_of, contains, find, first_occurrence, is_first_occurrence,
    lemma_first_occurrence_is_least, line_spans, lines_of, spanned, spans_within,
};
use vstd::prelude::*;

verus! {

/// A line that holds the query, as a contract speaks of it.
pub struct Match {
    /// The number of the line within its text, counted from zero.
    pub row: int,
    /// The offset, in characters and counted from zero, of the first
    /// occurrence of the folded query in the folded line.
    pub column: int,
    /// The line as it stands in the text.
    pub text: Seq<char>,
}

/// A line that holds the query.
#[derive(Debug)]
pub struct MatchedLine {
    /// The number of the line within its text, counted from zero.
    pub row: usize,
    /// The offset, in characters and counted from zero, of the first
    /// occurrence of the query in the line. Where the search ignores case
    /// this is an offset into the lowercase form of the line, which need not
    /// be as long as the line itself.
    pub column: usize,
    /// The line as it stands in the text, without its line ending.
    pub text: String,
}

impl View for MatchedLine {
    type V = Match;

    open spec fn view(&self) -> Match {
        Match { row: self.row as int, column: self.column as int, text: self.text@ }
    }
}

impl DeepView for MatchedLine {
    type V = Match;

    open spec fn deep_view(&self) -> Match {
        self@
    }
}

/// Whether `line` holds `query`: as it stands, or with both in lowercase
/// where the search ignores case.
pub open spec fn line_matches(query: Seq<char>, line: Seq<char>, ignore_case: bool) -> bool {
    contains(folded(line, ignore_case), folded(query, ignore_case))
}

/// The test that a line holds `query`.
pub open spec fn holds(query: Seq<char>, ignore_case: bool) -> spec_fn(Seq<char>) -> bool {
    |line: Seq<char>| line_matches(query, line, ignore_case)
}

/// What a search for the folded query `needle` finds in the line `line`
/// with number `row`.
pub open spec fn match_in(needle: Seq<char>, row: int, line: Seq<char>, ignore_case: bool)
    -> Option<Match> {
    match first_occurrence(folded(line, ignore_case), needle) {
        Some(column) => Some(Match { row, column, text: line }),
        None => None,
    }
}

/// What a search for the folded query `needle` finds in each of `lines`.
pub open spec fn verdicts(needle: Seq<char>, lines: Seq<Seq<char>>, ignore_case: bool) -> Seq<
    Option<Match>,
> {
    Seq::new(lines.len(), |row: int| match_in(needle, row, lines[row], ignore_case))
}

/// The matches among `verdicts`, in order.
pub open spec fn found_among(verdicts: Seq<Option<Match>>) -> Seq<Match> {
    verdicts.filter_map(|verdict: Option<Match>| verdict)
}

/// The lines among `lines` that hold the folded query `needle`, in order.
pub open spec fn matches_in(needle: Seq<char>, lines: Seq<Seq<char>>, ignore_case: bool) -> Seq<
    Match,
> {
    found_among(verdicts(needle, lines, ignore_case))
}

/// The lines of `text` that hold `query`, in order, each with its row and
/// the column of the first occurrence.
pub open spec fn matches_of(query: Seq<char>, text: Seq<char>, ignore_case: bool) -> Seq<Match> {
    matches_in(folded(query, ignore_case), lines_of(text), ignore_case)
}

/// The texts of `matches`, in order.
pub open spec fn texts_of(matches: Seq<Match>) -> Seq<Seq<char>> {
    matches.map_values(|found: Match| found.text)
}

/// Taking one more verdict into account adds its match, if it has one.
proof fn lemma_found_among_step(verdicts: Seq<Option<Match>>, upto: int)
    requires
        0 <= upto < verdicts.len(),
    ensures
        found_among(verdicts.take(upto + 1)) == match verdicts[upto] {
            Some(found) => found_among(verdicts.take(upto)).push(found),
            None => found_among(verdicts.take(upto)),
        },
{
    let longer = verdicts.take(upto + 1);
    assert(longer.drop_last() == verdicts.take(upto));
    assert(longer.last() == verdicts[upto]);
    match verdicts[upto] {
        Some(found) => {
            assert(found_among(verdicts.take(upto)) + seq![found] == found_among(
                verdicts.take(upto),
            ).push(found));
        },
        None => {},
    }
}

/// The matches of a search are the lines that hold the query, no other and
/// none twice, in the order of the text.
pub proof fn lemma_matches_are_matching_lines(
    query: Seq<char>,
    lines: Seq<Seq<char>>,
    ignore_case: bool,
)
    ensures
        texts_of(matches_in(folded(query, ignore_case), lines, ignore_case)) == lines.filter(
            holds(query, ignore_case),
        ),
    decreases lines.len(),
{
    reveal(Seq::filter);
    let needle = folded(query, ignore_case);
    let all = verdicts(needle, lines, ignore_case);
    if lines.len() == 0 {
        assert(texts_of(found_among(all)) == lines.filter(holds(query, ignore_case)));
    } else {
        let front = lines.drop_last();
        lemma_matches_are_matching_lines(query, front, ignore_case);
        assert(all.take(all.len() - 1) == verdicts(needle, front, ignore_case));
        assert(all.take(all.len() as int) == all);
        lemma_found_among_step(all, all.len() - 1);
        let before = found_among(verdicts(needle, front, ignore_case));
        match all.last() {
            Some(found) => {
                assert(holds(query, ignore_case)(lines.last()));
                assert(texts_of(before.push(found)) == texts_of(before).push(lines.last()));
            },
            None => {
                assert(!holds(query, ignore_case)(lines.last()));
            },
        }
    }
}

/// `found` is what a search for the folded query `needle` finds in one of
/// `lines`: its row is the number of a line, its text is that line, and its
/// column is the least offset at which `needle` stands in the folded line.
pub open spec fn is_match_in(
    found: Match,
    needle: Seq<char>,
    lines: Seq<Seq<char>>,
    ignore_case: bool,
) -> bool {
    &&& 0 <= found.row < lines.len()
    &&& found.text == lines[found.row]
    &&& is_first_occurrence(folded(found.text, ignore_case), needle, found.column)
}

/// Every match of a search names a line of the text by its number, holds
/// that line as it stands, and gives as its column the least offset at which
/// the folded query stands in the folded line; and the matches come in the
/// order of their rows, no row twice.
pub proof fn lemma_matches_give_rows_and_columns(
    needle: Seq<char>,
    lines: Seq<Seq<char>>,
    ignore_case: bool,
)
    ensures
        forall|at: int|
            0 <= at < matches_in(needle, lines, ignore_case).len() ==> is_match_in(
                #[trigger] matches_in(needle, lines, ignore_case)[at],
                needle,
                lines,
                ignore_case,
            ),
        forall|at: int, later: int|
            0 <= at < later < matches_in(needle, lines, ignore_case).len() ==> (
            #[trigger] matches_in(needle, lines, ignore_case)[at]).row < (#[trigger] matches_in(
                needle,
                lines,
                ignore_case,
            )[later]).row,
    decreases lines.len(),
{
    let all = verdicts(needle, lines, ignore_case);
    let found = matches_in(needle, lines, ignore_case);
    if lines.len() > 0 {
        let front = lines.drop_last();
        let before = matches_in(needle, front, ignore_case);
        lemma_matches_give_rows_and_columns(needle, front, ignore_case);
        assert(all.take(all.len() - 1) == verdicts(needle, front, ignore_case));
        assert(all.take(all.len() as int) == all);
        lemma_found_among_step(all, all.len() - 1);
        lemma_first_occurrence_is_least(folded(lines.last(), ignore_case), needle);
        assert forall|at: int| 0 <= at < before.len() implies is_match_in(
            before[at],
            needle,
            lines,
            ignore_case,
        ) by {
            assert(is_match_in(before[at], needle, front, ignore_case));
        }
        assert forall|at: int| 0 <= at < found.len() implies is_match_in(
            #[trigger] found[at],
            needle,
            lines,
            ignore_case,
        ) by {
            if at < before.len() {
                assert(found[at] == before[at]);
            }
        }
        assert forall|at: int, later: int| 0 <= at < later < found.len() implies (
        #[trigger] found[at]).row < (#[trigger] found[later]).row by {
            assert(found[at] == before[at]);
            assert(is_match_in(before[at], needle, front, ignore_case));
            if later < before.len() {
                assert(found[later] == before[later]);
            }
        }
    } else {
        assert(found.len() == 0);
    }
}

/// The test that a line holds `query` as it stands.
pub open spec fn holds_as_written(query: Seq<char>) -> spec_fn(Seq<char>) -> bool {
    |line: Seq<char>| contains(line, query)
}

/// The test that the lowercase form of a line holds the lowercase form of
/// `query`.
pub open spec fn holds_in_lowercase(query: Seq<char>) -> spec_fn(Seq<char>) -> bool {
    |line: Seq<char>| contains(lowercase(line), lowercase(query))
}

/// Where a matching line stands in the text that was searched.
struct Hit {
    row: usize,
    column: usize,
    start: usize,
    end: usize,
}

/// The match that `hit` stands for in `content`.
spec fn hit_in(content: Seq<char>, hit: Hit) -> Match {
    Match {
        row: hit.row as int,
        column: hit.column as int,
        text: content.subrange(hit.start as int, hit.end as int),
    }
}

/// The matches that `hits` stand for in `content`.
spec fn hits_in(content: Seq<char>, hits: Seq<Hit>) -> Seq<Match> {
    hits.map_values(|hit: Hit| hit_in(content, hit))
}

/// Every hit of `hits` lies within a text of `len` characters.
spec fn hits_within(hits: Seq<Hit>, len: int) -> bool {
    forall|k: int| 0 <= k < hits.len() ==> (#[trigger] hits[k]).start <= hits[k].end <= len
}

/// Finds the lines of `content` that hold the folded query `needle`.
fn hits(needle: &[char], content: &[char], ignore_case: bool) -> (found: Vec<Hit>)
    ensures
        hits_within(found@, content@.len() as int),
        hits_in(content@, found@) == matches_in(needle@, lines_of(content@), ignore_case),
{
    let spans = line_spans(content);
    let ghost lines = lines_of(content@);
    let ghost all = verdicts(needle@, lines, ignore_case);
    let mut found: Vec<Hit> = Vec::new();
    let mut row: usize = 0;
    assert(hits_in(content@, found@) == found_among(all.take(0)));
    while row < spans.len()
        invariant
            row <= spans.len(),
            lines == lines_of(content@),
            all == verdicts(needle@, lines, ignore_case),
            spans_within(spans@, content@.len() as int),
            spanned(content@, spans@) == lines,
            hits_within(found@, content@.len() as int),
            hits_in(content@, found@) == found_among(all.take(row as int)),
        decreases spans.len() - row,
    {
        let (start, end) = spans[row];
        assert(spans@[row as int].0 <= spans@[row as int].1 <= content@.len());
        let line = vstd::slice::slice_subrange(content, start, end);
        assert(line@ == lines[row as int]) by {
            assert(spanned(content@, spans@)[row as int] == content@.subrange(
                start as int,
                end as int,
            ));
        }
        let column = if ignore_case {
            let lower = lowercased(line);
            find(lower.as_slice(), needle)
        } else {
            find(line, needle)
        };
        proof {
            lemma_found_among_step(all, row as int);
        }
        if let Some(column) = column {
            let hit = Hit { row, column, start, end };
            proof {
                assert(hits_in(content@, found@.push(hit)) == hits_in(content@, found@).push(
                    hit_in(content@, hit),
                ));
            }
            found.push(hit);
        }
        row += 1;
    }
    assert(all.take(row as int) == all);
    found
}

/// The lines of `content` that hold the folded query `needle`, as parts of
/// `content`.
fn matching_lines<'a>(needle: &[char], content: &'a str, ignore_case: bool) -> (found: Vec<
    &'a str,
>)
    ensures
        found.deep_view() == texts_of(matches_in(needle@, lines_of(content@), ignore_case)),
{
    let chars = chars_of(content);
    let hits = hits(needle, chars.as_slice(), ignore_case);
    let ghost wanted = texts_of(matches_in(needle@, lines_of(content@), ignore_case));
    let mut found: Vec<&'a str> = Vec::new();
    let mut k: usize = 0;
    while k < hits.len()
        invariant
            k <= hits.len(),
            chars@ == content@,
            hits_within(hits@, content@.len() as int),
            texts_of(hits_in(content@, hits@)) == wanted,
            found.deep_view() == wanted.take(k as int),
        decreases hits.len() - k,
    {
        assert(hits@[k as int].start <= hits@[k as int].end <= content@.len());
        let line = content.substring_char(hits[k].start, hits[k].end);
        let ghost before = found.deep_view();
        found.push(line);
        proof {
            assert(wanted[k as int] == line@);
            assert(found.deep_view() == before.push(line@));
            assert(before.push(line@) == wanted.take(k + 1));
        }
        k += 1;
    }
    assert(wanted.take(k as int) == wanted);
    found
}

/// Returns the lines of `content` that hold `query` as a part, character for
/// character, in the order in which they stand in `content`.
pub fn search<'a>(query: &str, content: &'a str) -> (found: Vec<&'a str>)
    ensures
        found.deep_view() == lines_of(content@).filter(holds_as_written(query@)),
{
    let needle = chars_of(query);
    proof {
        lemma_matches_are_matching_lines(query@, lines_of(content@), false);
        assert(holds(query@, false) == holds_as_written(query@));
    }
    matching_lines(needle.as_slice(), content, false)
}

/// Returns the lines of `content` whose lowercase form holds the lowercase
/// form of `query`, in the order in which they stand in `content`. The lines
/// come back as they stand in `content`, not in lowercase.
pub fn search_case_insensetive<'a>(query: &str, content: &'a str) -> (found: Vec<&'a str>)
    ensures
        found.deep_view() == lines_of(content@).filter(holds_in_lowercase(query@)),
{
    let needle = fold(chars_of(query), true);
    proof {
        lemma_matches_are_matching_lines(query@, lines_of(content@), true);
        assert(holds(query@, true) == holds_in_lowercase(query@));
    }
    matching_lines(needle.as_slice(), content, true)
}

/// Scans `content` for `query`: returns each line that holds it, with the
/// number of the line and the column of the first occurrence, in the order of
/// the text.
pub fn scan(query: &str, content: &str, ignore_case: bool) -> (found: Vec<MatchedLine>)
    ensures
        found.deep_view() == matches_of(query@, content@, ignore_case),
{
    let needle = fold(chars_of(query), ignore_case);
    let chars = chars_of(content);
    let hits = hits(needle.as_slice(), chars.as_slice(), ignore_case);
    let ghost wanted = matches_of(query@, content@, ignore_case);
    let mut found: Vec<MatchedLine> = Vec::new();
    let mut k: usize = 0;
    while k < hits.len()
        invariant
            k <= hits.len(),
            chars@ == content@,
            hits_within(hits@, content@.len() as int),
            hits_in(content@, hits@) == wanted,
            found.deep_view() == wanted.take(k as int),
        decreases hits.len() - k,
    {
        assert(hits@[k as int].start <= hits@[k as int].end <= content@.len());
        let text = content.substring_char(hits[k].start, hits[k].end).to_owned();
        let line = MatchedLine { row: hits[k].row, column: hits[k].column, text };
        let ghost before = found.deep_view();
        let ghost seen = line@;
        found.push(line);
        proof {
            assert(wanted[k as int] == seen);
            assert(found.deep_view() == before.push(seen));
            assert(before.push(seen) == wanted.take(k + 1));
        }
        k += 1;
    }
    assert(wanted.take(k as int) == wanted);
    found
}

} // verus!
