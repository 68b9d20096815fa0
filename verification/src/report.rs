//! What a search reports for a file, and how the report is printed.

use crate::search::{Match, MatchedLine};
use vstd::prelude::*;

verus! {

/// How the matching lines of a report are printed.
#[derive(Debug, Clone, Copy, PartialEq, Eq, Structural)]
pub enum ReportMode {
    /// Each matching line as it stands in the file.
    Simple,
    /// Each matching line after its row and column: `<row>:<column> <line>`.
    Positional,
}

/// The lines of one file that hold the query. There is a report only for a
/// file with at least one such line.
#[derive(Debug)]
pub struct MatchReport {
    /// The path of the file that was scanned.
    pub file_path: String,
    /// The matching lines, in the order of the file.
    pub lines: Vec<MatchedLine>,
}

/// A report as a contract speaks of it.
pub struct ReportView {
    pub file_path: Seq<char>,
    pub lines: Seq<Match>,
}

impl View for MatchReport {
    type V = ReportView;

    open spec fn view(&self) -> ReportView {
        ReportView { file_path: self.file_path@, lines: self.lines.deep_view() }
    }
}

impl DeepView for MatchReport {
    type V = ReportView;

    open spec fn deep_view(&self) -> ReportView {
        self@
    }
}

/// The report on a file at `file_path` in which `lines` hold the query: none
/// where no line does.
pub open spec fn report_on(file_path: Seq<char>, lines: Seq<Match>) -> Option<ReportView> {
    if lines.len() == 0 {
        None
    } else {
        Some(ReportView { file_path, lines })
    }
}

/// The decimal digit for `value`, which is less than ten.
pub open spec fn digit(value: int) -> char {
    "0123456789"@[value]
}

/// `number` written in decimal digits, without leading zeros.
pub open spec fn decimal(number: nat) -> Seq<char>
    decreases number,
{
    if number < 10 {
        seq![digit(number as int)]
    } else {
        decimal(number / 10).push(digit((number % 10) as int))
    }
}

/// The line that is printed for the match `found`.
pub open spec fn record(found: Match, mode: ReportMode) -> Seq<char> {
    match mode {
        ReportMode::Simple => found.text,
        ReportMode::Positional => decimal(found.row as nat) + ":"@ + decimal(found.column as nat)
            + " "@ + found.text,
    }
}

/// The lines that are printed for `report`: the path of the file, then one
/// line for each match, in order.
pub open spec fn printed(report: ReportView, mode: ReportMode) -> Seq<Seq<char>> {
    seq![report.file_path] + report.lines.map_values(|found: Match| record(found, mode))
}

/// Writes `number` in decimal digits.
pub fn decimal_text(number: usize) -> (text: String)
    ensures
        text@ == decimal(number as nat),
    decreases number,
{
    let digits = "0123456789";
    proof {
        reveal_strlit("0123456789");
    }
    let mut text = if number < 10 {
        String::new()
    } else {
        decimal_text(number / 10)
    };
    let last = number % 10;
    let ghost before = text@;
    text.append(digits.substring_char(last, last + 1));
    assert(text@ == before.push(digit(last as int)));
    text
}

impl MatchedLine {
    /// The line that is printed for this match.
    pub fn render(&self, mode: ReportMode) -> (text: String)
        ensures
            text@ == record(self@, mode),
    {
        match mode {
            ReportMode::Simple => self.text.clone(),
            ReportMode::Positional => {
                let mut text = decimal_text(self.row);
                text.append(":");
                text.append(decimal_text(self.column).as_str());
                text.append(" ");
                text.append(self.text.as_str());
                text
            },
        }
    }
}

impl MatchReport {
    /// The report on the file at `file_path` in which `lines` hold the query,
    /// or nothing where `lines` is empty: a file without a matching line is
    /// not reported at all.
    pub fn on(file_path: String, lines: Vec<MatchedLine>) -> (report: Option<MatchReport>)
        ensures
            report.deep_view() == report_on(file_path@, lines.deep_view()),
    {
        if lines.len() == 0 {
            None
        } else {
            Some(MatchReport { file_path, lines })
        }
    }

    /// The lines to print for this report: the path of the file, then each
    /// matching line in the form that `mode` asks for.
    pub fn render(&self, mode: ReportMode) -> (out: Vec<String>)
        ensures
            out.deep_view() == printed(self@, mode),
    {
        let mut out: Vec<String> = Vec::new();
        out.push(self.file_path.clone());
        let ghost wanted = printed(self@, mode);
        assert(out.deep_view() == wanted.take(1));
        let mut k: usize = 0;
        while k < self.lines.len()
            invariant
                k <= self.lines.len(),
                wanted == printed(self@, mode),
                out.deep_view() == wanted.take(k + 1),
            decreases self.lines.len() - k,
        {
            let ghost before = out.deep_view();
            let text = self.lines[k].render(mode);
            out.push(text);
            proof {
                assert(out.deep_view() == before.push(text@));
                assert(wanted[k + 1] == text@);
                assert(before.push(text@) == wanted.take(k + 2));
            }
            k += 1;
        }
        assert(wanted.take(k + 1) == wanted);
        out
    }
}

} // verus!
