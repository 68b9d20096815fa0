//! The walk over files and directories: which path is looked at next, what
//! is done with what was found there, and what is reported.
//!
//! The walk is a state machine. It names one path at a time; the caller
//! looks at that path and tells the walk what it found; the walk answers
//! with the report on that path, if there is one, and moves on to the next
//! path. Directories are searched with all that is below them, whether or
//! not an option asked for it, depth first, their entries in the order in
//! which they were listed.

use crate::config::{Config, ConfigView};
use crate::report::{report_on, MatchReport, ReportView};
use crate::search::{matches_of, scan};
use std::collections::VecDeque;
use vstd::prelude::*;

verus! {

/// What the caller found at the path that the walk named.
#[derive(Debug)]
pub enum Found {
    /// A file that could be read as text, with its content.
    File(String),
    /// A directory that could be listed, with the paths of its entries in
    /// the order in which they were listed.
    Directory(Vec<String>),
    /// Neither: the path does not exist, is of another kind, could not be
    /// read or listed, or is a file that holds no text.
    Nothing,
}

/// What was found at a path, as a contract speaks of it.
pub enum FoundView {
    File(Seq<char>),
    Directory(Seq<Seq<char>>),
    Nothing,
}

impl View for Found {
    type V = FoundView;

    open spec fn view(&self) -> FoundView {
        match self {
            Found::File(content) => FoundView::File(content@),
            Found::Directory(entries) => FoundView::Directory(entries.deep_view()),
            Found::Nothing => FoundView::Nothing,
        }
    }
}

/// How far a walk has come.
#[derive(Debug)]
pub struct Walk {
    current: Option<String>,
    pending: VecDeque<String>,
}

/// A walk as a contract speaks of it.
pub struct WalkView {
    /// The path that the caller is to look at now; none when the walk is
    /// over.
    pub current: Option<Seq<char>>,
    /// The paths that are still to be looked at after that one, the next one
    /// first.
    pub pending: Seq<Seq<char>>,
}

impl View for Walk {
    type V = WalkView;

    closed spec fn view(&self) -> WalkView {
        WalkView { current: self.current.deep_view(), pending: self.pending.deep_view() }
    }
}

/// The walk that has `pending` before it and is to name its next path: it
/// passes over every path that the configuration excludes and stops at the
/// first that it does not.
pub open spec fn advanced(config: ConfigView, pending: Seq<Seq<char>>) -> WalkView
    decreases pending.len(),
{
    if pending.len() == 0 {
        WalkView { current: None, pending }
    } else if config.excludes(pending.first()) {
        advanced(config, pending.drop_first())
    } else {
        WalkView { current: Some(pending.first()), pending: pending.drop_first() }
    }
}

/// The walk at its start: every path to search is still to be looked at.
pub open spec fn started(config: ConfigView) -> WalkView {
    advanced(config, config.file_paths)
}

/// The paths that are to be looked at once `found` is known of the current
/// path of `walk`: the entries of a directory come before all that was
/// pending.
pub open spec fn absorbed(walk: WalkView, found: FoundView) -> Seq<Seq<char>> {
    match found {
        FoundView::Directory(entries) if walk.current is Some => entries + walk.pending,
        _ => walk.pending,
    }
}

/// The walk after `found` was found at its current path.
pub open spec fn stepped(config: ConfigView, walk: WalkView, found: FoundView) -> WalkView {
    advanced(config, absorbed(walk, found))
}

/// The report that is due when `found` was found at the current path of
/// `walk`: one on a file in which at least one line holds the query, and
/// none otherwise.
pub open spec fn reported(config: ConfigView, walk: WalkView, found: FoundView) -> Option<
    ReportView,
> {
    match (walk.current, found) {
        (Some(path), FoundView::File(content)) => report_on(
            path,
            matches_of(config.query, content, config.ignore_case),
        ),
        _ => None,
    }
}

impl Walk {
    /// The path to look at now, or nothing when the walk is over.
    pub fn current(&self) -> (path: Option<&String>)
        ensures
            path.deep_view() == self@.current,
    {
        self.current.as_ref()
    }

    /// Whether the walk is over.
    pub fn is_over(&self) -> (over: bool)
        ensures
            over == (self@.current is None),
    {
        self.current.is_none()
    }
}

/// Moves on to the next path that `config` does not exclude.
fn advance(config: &Config, pending: VecDeque<String>) -> (walk: Walk)
    ensures
        walk@ == advanced(config@, pending.deep_view()),
{
    let mut queue = pending;
    loop
        invariant
            advanced(config@, queue.deep_view()) == advanced(config@, pending.deep_view()),
        decreases queue.len(),
    {
        let ghost before = queue.deep_view();
        match queue.pop_front() {
            None => {
                assert(queue.deep_view() == before);
                return Walk { current: None, pending: queue };
            },
            Some(path) => {
                assert(before.first() == path@);
                assert(queue.deep_view() == before.drop_first());
                if !config.excludes(&path) {
                    return Walk { current: Some(path), pending: queue };
                }
            },
        }
    }
}

/// Puts `entries` before all that is in `pending`, in their order.
fn put_before(entries: Vec<String>, pending: &mut VecDeque<String>)
    ensures
        final(pending).deep_view() == entries.deep_view() + old(pending).deep_view(),
{
    let ghost all = entries.deep_view();
    let ghost behind = pending.deep_view();
    let mut rest = entries;
    assert(all.skip(all.len() as int) + behind == behind);
    assert(all.take(all.len() as int) == all);
    loop
        invariant
            all == entries.deep_view(),
            behind == old(pending).deep_view(),
            rest.len() <= all.len(),
            rest.deep_view() == all.take(rest.len() as int),
            pending.deep_view() == all.skip(rest.len() as int) + behind,
        decreases rest.len(),
    {
        let ghost left = rest.deep_view();
        let ghost queued = pending.deep_view();
        match rest.pop() {
            None => {
                assert(all.skip(0) == all);
                return ;
            },
            Some(entry) => {
                pending.push_front(entry);
                proof {
                    assert(entry@ == left[left.len() - 1]);
                    assert(entry@ == all[rest.len() as int]);
                    assert(pending.deep_view() == seq![entry@] + queued);
                    assert(rest.deep_view() == all.take(rest.len() as int));
                    assert(seq![entry@] + (all.skip(rest.len() + 1) + behind) == all.skip(
                        rest.len() as int,
                    ) + behind);
                }
            },
        }
    }
}

/// A search: a configuration, and the rules by which it is carried out.
#[derive(Debug)]
pub struct Grep {
    /// What to search for, where, and how.
    pub config: Config,
}

impl Grep {
    /// Starts a walk over the paths to search. Its current path is the first
    /// of them that is not excluded.
    pub fn start(&self) -> (walk: Walk)
        ensures
            walk@ == started(self.config@),
            walk@.current matches Some(path) ==> !self.config@.excludes(path),
            walk@.current is None ==> walk@.pending.len() == 0,
    {
        let mut pending: VecDeque<String> = VecDeque::new();
        let mut k: usize = 0;
        let ghost roots = self.config.file_paths.deep_view();
        while k < self.config.file_paths.len()
            invariant
                k <= self.config.file_paths.len(),
                roots == self.config.file_paths.deep_view(),
                pending.deep_view() == roots.take(k as int),
            decreases self.config.file_paths.len() - k,
        {
            let ghost before = pending.deep_view();
            let root = self.config.file_paths[k].clone();
            pending.push_back(root);
            assert(pending.deep_view() == before.push(roots[k as int]));
            k += 1;
        }
        assert(roots.take(k as int) == roots);
        proof {
            lemma_advanced_is_admitted(self.config@, roots);
        }
        advance(&self.config, pending)
    }

    /// Scans the content of the file at `path`: returns the report on the
    /// lines that hold the query, or nothing where no line does.
    pub fn scan_file(&self, path: String, content: &str) -> (report: Option<MatchReport>)
        ensures
            report.deep_view() == report_on(
                path@,
                matches_of(self.config@.query, content@, self.config@.ignore_case),
            ),
            report is None <==> matches_of(
                self.config@.query,
                content@,
                self.config@.ignore_case,
            ).len() == 0,
    {
        let lines = scan(self.config.query.as_str(), content, self.config.ignore_case);
        MatchReport::on(path, lines)
    }

    /// Carries the search one step on: takes what was found at the current
    /// path of `walk`, returns the report that is due, and moves `walk` on to
    /// the next path to look at.
    ///
    /// A file is scanned and reported where a line of it holds the query. The
    /// entries of a directory are looked at next, before all that was
    /// pending. A path where nothing was found is passed over. A path that
    /// the configuration excludes never becomes the current path, whether it
    /// was given as a path to search or listed in a directory. Once the walk
    /// is over, a step changes nothing and reports nothing.
    pub fn run(&self, walk: &mut Walk, found: Found) -> (report: Option<MatchReport>)
        ensures
            final(walk)@ == stepped(self.config@, old(walk)@, found@),
            report.deep_view() == reported(self.config@, old(walk)@, found@),
            final(walk)@.current matches Some(path) ==> !self.config@.excludes(path),
            final(walk)@.current is None ==> final(walk)@.pending.len() == 0,
    {
        let ghost before = walk@;
        let mut pending: VecDeque<String> = VecDeque::new();
        std::mem::swap(&mut pending, &mut walk.pending);
        let current = walk.current.take();
        let report = match current {
            None => None,
            Some(path) => match found {
                Found::File(content) => self.scan_file(path, content.as_str()),
                Found::Directory(entries) => {
                    put_before(entries, &mut pending);
                    None
                },
                Found::Nothing => None,
            },
        };
        assert(pending.deep_view() == absorbed(before, found@));
        proof {
            lemma_advanced_is_admitted(self.config@, pending.deep_view());
        }
        *walk = advance(&self.config, pending);
        report
    }
}

/// The path at which a walk stops is not excluded, and a walk that stops at
/// no path has nothing left before it.
pub proof fn lemma_advanced_is_admitted(config: ConfigView, pending: Seq<Seq<char>>)
    ensures
        advanced(config, pending).current matches Some(path) ==> !config.excludes(path),
        advanced(config, pending).current is None ==> advanced(config, pending).pending.len()
            == 0,
    decreases pending.len(),
{
    if pending.len() > 0 && config.excludes(pending.first()) {
        lemma_advanced_is_admitted(config, pending.drop_first());
    }
}

} // verus!
