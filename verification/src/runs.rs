//! Whole runs of a walk, and what holds of every one of them.
//!
//! A run is the sequence of findings that a caller hands to a walk, from its
//! start on. The walk decides nothing but from its configuration and these
//! findings, so what holds of all such sequences holds of every search.

use crate::config::ConfigView;
use crate::report::ReportView;
use crate::search::matches_of;
use crate::walk::{
    absorbed, advanced, lemma_advanced_is_admitted, reported, started, stepped, FoundView,
    WalkView,
};
use vstd::prelude::*;

verus! {

/// The walk after it was told `findings`, one after the other, from its
/// start.
pub open spec fn walk_after(config: ConfigView, findings: Seq<FoundView>) -> WalkView
    decreases findings.len(),
{
    if findings.len() == 0 {
        started(config)
    } else {
        stepped(config, walk_after(config, findings.drop_last()), findings.last())
    }
}

/// The path at which finding number `step` was made: the current path of the
/// walk once it was told the findings before that one.
pub open spec fn visited(config: ConfigView, findings: Seq<FoundView>, step: int) -> Option<
    Seq<char>,
> {
    walk_after(config, findings.take(step)).current
}

/// The report that finding number `step` gave rise to, if it did.
pub open spec fn report_at(config: ConfigView, findings: Seq<FoundView>, step: int) -> Option<
    ReportView,
> {
    reported(config, walk_after(config, findings.take(step)), findings[step])
}

/// The reports of a run, in the order in which they came.
pub open spec fn reports(config: ConfigView, findings: Seq<FoundView>) -> Seq<ReportView> {
    Seq::new(findings.len(), |step: int| report_at(config, findings, step)).filter_map(
        |report: Option<ReportView>| report,
    )
}

/// `finding` is a directory that lists `path` among its entries.
pub open spec fn lists(finding: FoundView, path: Seq<char>) -> bool {
    match finding {
        FoundView::Directory(entries) => entries.contains(path),
        _ => false,
    }
}

/// `path` was listed as an entry of a directory at which one of the first
/// `steps` findings was made.
pub open spec fn listed_before(
    config: ConfigView,
    findings: Seq<FoundView>,
    steps: int,
    path: Seq<char>,
) -> bool {
    exists|step: int|
        0 <= step < steps && (#[trigger] visited(config, findings, step)) is Some && lists(
            findings[step],
            path,
        )
}

/// `path` has come up in the first `steps` steps of the run: it is one of
/// the paths to search, or an entry of a directory that was visited.
pub open spec fn discovered(
    config: ConfigView,
    findings: Seq<FoundView>,
    steps: int,
    path: Seq<char>,
) -> bool {
    config.file_paths.contains(path) || listed_before(config, findings, steps, path)
}

/// `path` is the current path of `walk` or still pending in it.
pub open spec fn awaits(walk: WalkView, path: Seq<char>) -> bool {
    walk.current == Some(path) || walk.pending.contains(path)
}

/// The findings are those that the tree `tree` gives: each was made while the
/// walk was not yet over, and is what `tree` holds at the path that the walk
/// named.
pub open spec fn follows(
    config: ConfigView,
    tree: spec_fn(Seq<char>) -> FoundView,
    findings: Seq<FoundView>,
) -> bool {
    forall|step: int|
        0 <= step < findings.len() ==> match #[trigger] visited(config, findings, step) {
            Some(path) => findings[step] == tree(path),
            None => false,
        }
}

/// The run has come to its end: the walk names no further path.
pub open spec fn is_complete(config: ConfigView, findings: Seq<FoundView>) -> bool {
    walk_after(config, findings).current is None
}

/// `path` can be reached in `tree` from one of the paths to search by going
/// down at most `depth` directories, and neither `path` nor any directory on
/// the way to it is excluded.
pub open spec fn reachable(
    config: ConfigView,
    tree: spec_fn(Seq<char>) -> FoundView,
    path: Seq<char>,
    depth: nat,
) -> bool
    decreases depth,
{
    !config.excludes(path) && (config.file_paths.contains(path) || (depth > 0 && exists|
        parent: Seq<char>,
    |
        #![trigger lists(tree(parent), path)]
        reachable(config, tree, parent, (depth - 1) as nat) && lists(tree(parent), path)))
}

/// `path` hangs in `tree` below the paths to search: it is one of them, or
/// an entry of a directory that is reachable by going down fewer than `depth`
/// directories. It may itself be excluded.
pub open spec fn hangs(
    config: ConfigView,
    tree: spec_fn(Seq<char>) -> FoundView,
    path: Seq<char>,
    depth: nat,
) -> bool {
    config.file_paths.contains(path) || (depth > 0 && exists|parent: Seq<char>|
        #![trigger lists(tree(parent), path)]
        reachable(config, tree, parent, (depth - 1) as nat) && lists(tree(parent), path))
}

/// The entries that `finding` lists: those of a directory, and none where
/// it is no directory.
pub open spec fn entries_of(finding: FoundView) -> Seq<Seq<char>> {
    match finding {
        FoundView::Directory(entries) => entries,
        _ => Seq::empty(),
    }
}

/// The tree is a forest below the paths to search: the paths to search are
/// distinct and none of them is listed in a directory, no directory lists a
/// path twice, and no path is listed in two directories. Nothing is then
/// reached in two ways, or from itself.
pub open spec fn is_forest(config: ConfigView, tree: spec_fn(Seq<char>) -> FoundView) -> bool {
    &&& config.file_paths.no_duplicates()
    &&& forall|parent: Seq<char>| (#[trigger] entries_of(tree(parent))).no_duplicates()
    &&& forall|parent: Seq<char>, path: Seq<char>|
        #![trigger lists(tree(parent), path)]
        lists(tree(parent), path) ==> !config.file_paths.contains(path)
    &&& forall|one: Seq<char>, other: Seq<char>, path: Seq<char>|
        #![trigger lists(tree(one), path), lists(tree(other), path)]
        lists(tree(one), path) && lists(tree(other), path) ==> one == other
}

/// `report` is a report on the file at `path`.
pub open spec fn is_report_on(report: Option<ReportView>, path: Seq<char>) -> bool {
    match report {
        Some(report) => report.file_path == path,
        None => false,
    }
}

/// `walk` is at `path` or has it before it, where there is such a path.
pub open spec fn awaits_any(walk: WalkView, path: Option<Seq<char>>) -> bool {
    match path {
        Some(path) => awaits(walk, path),
        None => false,
    }
}

/// After `steps` steps the walk has no path twice before it, and none that
/// it has visited already.
pub open spec fn is_fresh(config: ConfigView, findings: Seq<FoundView>, steps: int) -> bool {
    let walk = walk_after(config, findings.take(steps));
    &&& walk.pending.no_duplicates()
    &&& !awaits_any(WalkView { current: None, pending: walk.pending }, walk.current)
    &&& forall|step: int|
        0 <= step < steps ==> !awaits_any(walk, #[trigger] visited(config, findings, step))
}

/// A walk that moves on draws its current path and all that stays pending
/// from what was pending before.
proof fn lemma_advanced_draws_from(config: ConfigView, pending: Seq<Seq<char>>)
    ensures
        forall|path: Seq<char>| #[trigger]
            awaits(advanced(config, pending), path) ==> pending.contains(path),
    decreases pending.len(),
{
    if pending.len() > 0 {
        let rest = pending.drop_first();
        lemma_advanced_draws_from(config, rest);
        assert forall|path: Seq<char>| #[trigger]
            awaits(advanced(config, pending), path) implies pending.contains(path) by {
            if path == pending.first() {
                assert(pending[0] == path);
            } else {
                if config.excludes(pending.first()) {
                    assert(awaits(advanced(config, rest), path));
                }
                assert(rest.contains(path));
                let at = choose|at: int| 0 <= at < rest.len() && rest[at] == path;
                assert(pending[at + 1] == path);
            }
        }
    }
}

/// No path that the configuration excludes is ever visited: not where it was
/// given as a path to search, not where a directory listed it, and whether it
/// is a file or a directory.
pub proof fn lemma_never_visits_excluded(
    config: ConfigView,
    findings: Seq<FoundView>,
    step: int,
)
    requires
        0 <= step <= findings.len(),
    ensures
        visited(config, findings, step) matches Some(path) ==> !config.excludes(path),
{
    let before = findings.take(step);
    if before.len() == 0 {
        lemma_advanced_is_admitted(config, config.file_paths);
    } else {
        lemma_advanced_is_admitted(
            config,
            absorbed(walk_after(config, before.drop_last()), before.last()),
        );
    }
}

/// Every path that a walk is at or has before it has come up in the run so
/// far: it was given as a path to search, or listed in a directory that was
/// itself visited.
pub proof fn lemma_awaited_paths_are_discovered(
    config: ConfigView,
    findings: Seq<FoundView>,
    steps: int,
)
    requires
        0 <= steps <= findings.len(),
    ensures
        forall|path: Seq<char>| #[trigger]
            awaits(walk_after(config, findings.take(steps)), path) ==> discovered(
                config,
                findings,
                steps,
                path,
            ),
    decreases steps,
{
    let so_far = findings.take(steps);
    let walk = walk_after(config, so_far);
    if steps == 0 {
        lemma_advanced_draws_from(config, config.file_paths);
    } else {
        let earlier = findings.take(steps - 1);
        assert(so_far.drop_last() == earlier);
        assert(so_far.last() == findings[steps - 1]);
        let before = walk_after(config, earlier);
        let pending = absorbed(before, findings[steps - 1]);
        lemma_awaited_paths_are_discovered(config, findings, steps - 1);
        lemma_advanced_draws_from(config, pending);
        assert forall|path: Seq<char>| #[trigger] awaits(walk, path) implies discovered(
            config,
            findings,
            steps,
            path,
        ) by {
            assert(pending.contains(path));
            if before.pending.contains(path) {
                assert(awaits(before, path));
                assert(discovered(config, findings, steps - 1, path));
                if listed_before(config, findings, steps - 1, path) {
                    let step = choose|step: int|
                        0 <= step < steps - 1 && (#[trigger] visited(config, findings, step))
                            is Some && lists(findings[step], path);
                    assert(visited(config, findings, step) is Some);
                }
            } else {
                assert(visited(config, findings, steps - 1) is Some);
            }
        }
    }
}

/// A report is made only on a file that was visited, that is not excluded,
/// that has come up in the run, and in which a line holds the query; and it
/// holds the matching lines of that file.
pub proof fn lemma_reports_are_on_visited_files(
    config: ConfigView,
    findings: Seq<FoundView>,
    step: int,
)
    requires
        0 <= step < findings.len(),
    ensures
        report_at(config, findings, step) matches Some(report) ==> {
            &&& visited(config, findings, step) == Some(report.file_path)
            &&& !config.excludes(report.file_path)
            &&& discovered(config, findings, step, report.file_path)
            &&& findings[step] matches FoundView::File(content)
            &&& report.lines == matches_of(config.query, content, config.ignore_case)
            &&& report.lines.len() > 0
        },
{
    lemma_never_visits_excluded(config, findings, step);
    lemma_awaited_paths_are_discovered(config, findings, step);
    if let Some(report) = report_at(config, findings, step) {
        assert(awaits(walk_after(config, findings.take(step)), report.file_path));
    }
}

/// A walk that moves on loses no path but those that are excluded.
proof fn lemma_advanced_keeps(config: ConfigView, pending: Seq<Seq<char>>)
    ensures
        forall|path: Seq<char>|
            pending.contains(path) && !config.excludes(path) ==> #[trigger] awaits(
                advanced(config, pending),
                path,
            ),
    decreases pending.len(),
{
    if pending.len() > 0 {
        let rest = pending.drop_first();
        lemma_advanced_keeps(config, rest);
        assert forall|path: Seq<char>|
            pending.contains(path) && !config.excludes(path) implies #[trigger] awaits(
            advanced(config, pending),
            path,
        ) by {
            if path != pending.first() {
                let at = choose|at: int| 0 <= at < pending.len() && pending[at] == path;
                assert(rest[at - 1] == path);
                assert(rest.contains(path));
                assert(awaits(advanced(config, rest), path));
            }
        }
    }
}

/// What can be reached by going down some number of directories can be
/// reached by going down more.
proof fn lemma_reachable_deeper(
    config: ConfigView,
    tree: spec_fn(Seq<char>) -> FoundView,
    path: Seq<char>,
    depth: nat,
    deeper: nat,
)
    requires
        depth <= deeper,
    ensures
        hangs(config, tree, path, depth) ==> hangs(config, tree, path, deeper),
        reachable(config, tree, path, depth) ==> reachable(config, tree, path, deeper),
    decreases depth,
{
    if hangs(config, tree, path, depth) && !config.file_paths.contains(path) {
        let parent = choose|parent: Seq<char>|
            #![trigger lists(tree(parent), path)]
            reachable(config, tree, parent, (depth - 1) as nat) && lists(tree(parent), path);
        lemma_reachable_deeper(config, tree, parent, (depth - 1) as nat, (deeper - 1) as nat);
        assert(reachable(config, tree, parent, (deeper - 1) as nat) && lists(
            tree(parent),
            path,
        ));
    }
}

/// Every path that a walk over a tree is at or has before it hangs in the
/// tree below the paths to search.
proof fn lemma_awaited_paths_hang(
    config: ConfigView,
    tree: spec_fn(Seq<char>) -> FoundView,
    findings: Seq<FoundView>,
    steps: int,
)
    requires
        follows(config, tree, findings),
        0 <= steps <= findings.len(),
    ensures
        forall|path: Seq<char>| #[trigger]
            awaits(walk_after(config, findings.take(steps)), path) ==> hangs(
                config,
                tree,
                path,
                steps as nat,
            ),
    decreases steps,
{
    let walk = walk_after(config, findings.take(steps));
    if steps == 0 {
        lemma_advanced_draws_from(config, config.file_paths);
    } else {
        let earlier = findings.take(steps - 1);
        assert(findings.take(steps).drop_last() == earlier);
        assert(findings.take(steps).last() == findings[steps - 1]);
        let before = walk_after(config, earlier);
        let pending = absorbed(before, findings[steps - 1]);
        lemma_awaited_paths_hang(config, tree, findings, steps - 1);
        lemma_never_visits_excluded(config, findings, steps - 1);
        lemma_advanced_draws_from(config, pending);
        assert(visited(config, findings, steps - 1) is Some);
        let parent = before.current->0;
        assert(awaits(before, parent));
        assert(reachable(config, tree, parent, (steps - 1) as nat));
        assert forall|path: Seq<char>| #[trigger] awaits(walk, path) implies hangs(
            config,
            tree,
            path,
            steps as nat,
        ) by {
            assert(pending.contains(path));
            if before.pending.contains(path) {
                assert(awaits(before, path));
                lemma_reachable_deeper(config, tree, path, (steps - 1) as nat, steps as nat);
            } else {
                assert(lists(tree(parent), path));
            }
        }
    }
}

/// A walk over a tree visits only what can be reached from the paths to
/// search without passing through an excluded path: no path that is
/// excluded, and nothing below an excluded directory unless it can be
/// reached another way.
pub proof fn lemma_visits_only_what_is_reachable(
    config: ConfigView,
    tree: spec_fn(Seq<char>) -> FoundView,
    findings: Seq<FoundView>,
    step: int,
)
    requires
        follows(config, tree, findings),
        0 <= step <= findings.len(),
    ensures
        visited(config, findings, step) matches Some(path) ==> reachable(
            config,
            tree,
            path,
            step as nat,
        ),
{
    lemma_awaited_paths_hang(config, tree, findings, step);
    lemma_never_visits_excluded(config, findings, step);
    if let Some(path) = visited(config, findings, step) {
        assert(awaits(walk_after(config, findings.take(step)), path));
    }
}

/// `path` was visited in one of the first `steps` steps of the run.
pub open spec fn visited_before(
    config: ConfigView,
    findings: Seq<FoundView>,
    steps: int,
    path: Seq<char>,
) -> bool {
    exists|step: int| 0 <= step < steps && #[trigger] visited(config, findings, step) == Some(path)
}

/// Every path that has come up in a run and is not excluded was visited or
/// is still before the walk.
proof fn lemma_discovered_paths_are_kept(
    config: ConfigView,
    findings: Seq<FoundView>,
    steps: int,
)
    requires
        0 <= steps <= findings.len(),
    ensures
        forall|path: Seq<char>|
            #![trigger discovered(config, findings, steps, path)]
            discovered(config, findings, steps, path) && !config.excludes(path) ==> awaits(
                walk_after(config, findings.take(steps)),
                path,
            ) || visited_before(config, findings, steps, path),
    decreases steps,
{
    let walk = walk_after(config, findings.take(steps));
    if steps == 0 {
        lemma_advanced_keeps(config, config.file_paths);
    } else {
        let earlier = findings.take(steps - 1);
        assert(findings.take(steps).drop_last() == earlier);
        assert(findings.take(steps).last() == findings[steps - 1]);
        let before = walk_after(config, earlier);
        let pending = absorbed(before, findings[steps - 1]);
        lemma_discovered_paths_are_kept(config, findings, steps - 1);
        lemma_advanced_keeps(config, pending);
        assert forall|path: Seq<char>|
            #![trigger discovered(config, findings, steps, path)]
            discovered(config, findings, steps, path) && !config.excludes(path) implies awaits(
            walk,
            path,
        ) || visited_before(config, findings, steps, path) by {
            if discovered(config, findings, steps - 1, path) {
                if visited_before(config, findings, steps - 1, path) {
                    let step = choose|step: int|
                        0 <= step < steps - 1 && #[trigger] visited(config, findings, step)
                            == Some(path);
                    assert(visited(config, findings, step) == Some(path));
                } else if before.current == Some(path) {
                    assert(visited(config, findings, steps - 1) == Some(path));
                } else {
                    assert(before.pending.contains(path));
                    assert(pending.contains(path)) by {
                        let at = choose|at: int|
                            0 <= at < before.pending.len() && before.pending[at] == path;
                        assert(pending[pending.len() - before.pending.len() + at] == path);
                    }
                    assert(awaits(walk, path));
                }
            } else {
                let step = choose|step: int|
                    0 <= step < steps && (#[trigger] visited(config, findings, step)) is Some
                        && lists(findings[step], path);
                assert(step == steps - 1) by {
                    if step < steps - 1 {
                        assert(listed_before(config, findings, steps - 1, path));
                    }
                }
                let entries = findings[steps - 1]->Directory_0;
                assert(entries.contains(path));
                assert(pending.contains(path)) by {
                    let at = choose|at: int| 0 <= at < entries.len() && entries[at] == path;
                    assert(pending[at] == path);
                }
                assert(awaits(walk, path));
            }
        }
    }
}

/// A complete walk over a tree leaves out nothing that it is to visit: every
/// path that can be reached from the paths to search without passing through
/// an excluded path was visited.
pub proof fn lemma_visits_all_that_is_reachable(
    config: ConfigView,
    tree: spec_fn(Seq<char>) -> FoundView,
    findings: Seq<FoundView>,
    path: Seq<char>,
    depth: nat,
)
    requires
        follows(config, tree, findings),
        is_complete(config, findings),
        reachable(config, tree, path, depth),
    ensures
        visited_before(config, findings, findings.len() as int, path),
    decreases depth,
{
    let steps = findings.len() as int;
    assert(findings.take(steps) == findings);
    lemma_discovered_paths_are_kept(config, findings, steps);
    lemma_advanced_is_admitted(config, config.file_paths);
    if findings.len() > 0 {
        lemma_advanced_is_admitted(
            config,
            absorbed(walk_after(config, findings.drop_last()), findings.last()),
        );
    }
    assert(!awaits(walk_after(config, findings), path));
    if !config.file_paths.contains(path) {
        let parent = choose|parent: Seq<char>|
            #![trigger lists(tree(parent), path)]
            reachable(config, tree, parent, (depth - 1) as nat) && lists(tree(parent), path);
        lemma_visits_all_that_is_reachable(config, tree, findings, parent, (depth - 1) as nat);
        let step = choose|step: int|
            0 <= step < steps && #[trigger] visited(config, findings, step) == Some(parent);
        assert(visited(config, findings, step) is Some);
        assert(findings[step] == tree(parent));
        assert(listed_before(config, findings, steps, path));
    }
    assert(discovered(config, findings, steps, path));
}

/// A complete walk over a tree reports every file that it is to report: one
/// that can be reached from the paths to search without passing through an
/// excluded path, and in which a line holds the query.
pub proof fn lemma_reports_every_matching_file(
    config: ConfigView,
    tree: spec_fn(Seq<char>) -> FoundView,
    findings: Seq<FoundView>,
    path: Seq<char>,
    depth: nat,
)
    requires
        follows(config, tree, findings),
        is_complete(config, findings),
        reachable(config, tree, path, depth),
        tree(path) matches FoundView::File(content) && matches_of(
            config.query,
            content,
            config.ignore_case,
        ).len() > 0,
    ensures
        exists|step: int|
            0 <= step < findings.len() && #[trigger] report_at(config, findings, step) == Some(
                ReportView {
                    file_path: path,
                    lines: matches_of(config.query, tree(path)->File_0, config.ignore_case),
                },
            ),
{
    lemma_visits_all_that_is_reachable(config, tree, findings, path, depth);
    let step = choose|step: int|
        0 <= step < findings.len() && #[trigger] visited(config, findings, step) == Some(path);
    assert(visited(config, findings, step) is Some);
    assert(findings[step] == tree(path));
    assert(report_at(config, findings, step) == Some(
        ReportView {
            file_path: path,
            lines: matches_of(config.query, tree(path)->File_0, config.ignore_case),
        },
    ));
}

/// A walk that has no path twice before it has none twice after it moved on,
/// and is not at a path that it still has before it.
proof fn lemma_advanced_without_duplicates(config: ConfigView, pending: Seq<Seq<char>>)
    requires
        pending.no_duplicates(),
    ensures
        advanced(config, pending).pending.no_duplicates(),
        advanced(config, pending).current matches Some(path) ==> !advanced(
            config,
            pending,
        ).pending.contains(path),
    decreases pending.len(),
{
    if pending.len() > 0 {
        let rest = pending.drop_first();
        assert forall|i: int, j: int| 0 <= i < rest.len() && 0 <= j < rest.len() && i != j implies rest[i]
            != rest[j] by {
            assert(rest[i] == pending[i + 1] && rest[j] == pending[j + 1]);
        }
        if rest.contains(pending.first()) {
            let at = choose|at: int| 0 <= at < rest.len() && rest[at] == pending.first();
            assert(pending[at + 1] == pending[0]);
        }
        lemma_advanced_without_duplicates(config, rest);
    }
}

/// In a forest, what a directory lists when the walk comes to it is new: the
/// walk has not visited it and does not have it before it.
proof fn lemma_entries_are_new(
    config: ConfigView,
    tree: spec_fn(Seq<char>) -> FoundView,
    findings: Seq<FoundView>,
    steps: int,
    entry: Seq<char>,
)
    requires
        follows(config, tree, findings),
        is_forest(config, tree),
        0 <= steps < findings.len(),
        is_fresh(config, findings, steps),
        lists(findings[steps], entry),
    ensures
        !awaits(walk_after(config, findings.take(steps)), entry),
        forall|step: int|
            0 <= step < steps ==> #[trigger] visited(config, findings, step) != Some(entry),
{
    let walk = walk_after(config, findings.take(steps));
    assert(visited(config, findings, steps) is Some);
    let parent = walk.current->0;
    assert(findings[steps] == tree(parent));
    assert(lists(tree(parent), entry));
    assert(awaits(walk, parent));
    // Whatever has come up before and is listed here was listed at an earlier visit of this
    // same directory, and there was none.
    assert forall|upto: int| 0 <= upto <= steps implies !discovered(
        config,
        findings,
        upto,
        entry,
    ) by {
        if listed_before(config, findings, upto, entry) {
            let step = choose|step: int|
                0 <= step < upto && (#[trigger] visited(config, findings, step)) is Some
                    && lists(findings[step], entry);
            let other = visited(config, findings, step)->0;
            assert(findings[step] == tree(other));
            assert(lists(tree(other), entry));
            assert(other == parent);
            assert(awaits_any(walk, visited(config, findings, step)));
        }
    }
    lemma_awaited_paths_are_discovered(config, findings, steps);
    assert forall|step: int| 0 <= step < steps implies #[trigger] visited(
        config,
        findings,
        step,
    ) != Some(entry) by {
        lemma_awaited_paths_are_discovered(config, findings, step);
        if visited(config, findings, step) == Some(entry) {
            assert(awaits(walk_after(config, findings.take(step)), entry));
            assert(discovered(config, findings, step, entry));
        }
    }
}

/// A walk over a forest never has a path twice before it, nor one that it
/// has visited already.
proof fn lemma_walk_stays_fresh(
    config: ConfigView,
    tree: spec_fn(Seq<char>) -> FoundView,
    findings: Seq<FoundView>,
    steps: int,
)
    requires
        follows(config, tree, findings),
        is_forest(config, tree),
        0 <= steps <= findings.len(),
    ensures
        is_fresh(config, findings, steps),
    decreases steps,
{
    let walk = walk_after(config, findings.take(steps));
    if steps == 0 {
        lemma_advanced_without_duplicates(config, config.file_paths);
    } else {
        let last = steps - 1;
        lemma_walk_stays_fresh(config, tree, findings, last);
        assert(findings.take(steps).drop_last() == findings.take(last));
        assert(findings.take(steps).last() == findings[last]);
        let before = walk_after(config, findings.take(last));
        assert(visited(config, findings, last) is Some);
        let here = before.current->0;
        assert(findings[last] == tree(here));
        let entries = entries_of(findings[last]);
        let pending = absorbed(before, findings[last]);
        assert(pending == entries + before.pending);
        assert(entries.no_duplicates()) by {
            assert(entries_of(tree(here)).no_duplicates());
        }
        assert forall|at: int| 0 <= at < entries.len() implies !awaits(before, entries[at])
            && forall|step: int|
            0 <= step < last ==> #[trigger] visited(config, findings, step) != Some(
                entries[at],
            ) by {
            assert(lists(findings[last], entries[at]));
            lemma_entries_are_new(config, tree, findings, last, entries[at]);
        }
        assert(pending.no_duplicates()) by {
            assert forall|i: int, j: int|
                0 <= i < pending.len() && 0 <= j < pending.len() && i != j implies pending[i]
                != pending[j] by {
                if i < entries.len() && j >= entries.len() {
                    assert(before.pending[j - entries.len()] == pending[j]);
                    assert(!awaits(before, entries[i]));
                } else if j < entries.len() && i >= entries.len() {
                    assert(before.pending[i - entries.len()] == pending[i]);
                    assert(!awaits(before, entries[j]));
                }
            }
        }
        // What was visited so far, the path of this step among it, is not before the walk.
        assert forall|step: int| 0 <= step < steps implies !awaits_any(
            WalkView { current: None, pending },
            #[trigger] visited(config, findings, step),
        ) by {
            let path = visited(config, findings, step);
            if path is Some && pending.contains(path->0) {
                let at = choose|at: int| 0 <= at < pending.len() && pending[at] == path->0;
                if at < entries.len() {
                    assert(!awaits(before, entries[at]));
                    assert(awaits(before, here));
                } else {
                    assert(before.pending[at - entries.len()] == path->0);
                    assert(awaits(before, path->0));
                    assert(awaits_any(before, path));
                    if step == last {
                        assert(awaits_any(
                            WalkView { current: None, pending: before.pending },
                            before.current,
                        ));
                    }
                }
            }
        }
        lemma_advanced_without_duplicates(config, pending);
        lemma_advanced_draws_from(config, pending);
        assert(walk == advanced(config, pending));
        assert forall|step: int| 0 <= step < steps implies !awaits_any(
            walk,
            #[trigger] visited(config, findings, step),
        ) by {
            let path = visited(config, findings, step);
            if path is Some && awaits(walk, path->0) {
                assert(pending.contains(path->0));
                assert(awaits_any(WalkView { current: None, pending }, path));
            }
        }
    }
}

/// A walk over a forest visits no path twice.
pub proof fn lemma_visits_no_path_twice(
    config: ConfigView,
    tree: spec_fn(Seq<char>) -> FoundView,
    findings: Seq<FoundView>,
    first: int,
    second: int,
)
    requires
        follows(config, tree, findings),
        is_forest(config, tree),
        0 <= first < second <= findings.len(),
    ensures
        visited(config, findings, first) is Some ==> visited(config, findings, first) != visited(
            config,
            findings,
            second,
        ),
{
    lemma_walk_stays_fresh(config, tree, findings, second);
    assert(!awaits_any(
        walk_after(config, findings.take(second)),
        visited(config, findings, first),
    ));
}

/// A walk over a forest reports no file twice.
pub proof fn lemma_reports_no_file_twice(
    config: ConfigView,
    tree: spec_fn(Seq<char>) -> FoundView,
    findings: Seq<FoundView>,
    first: int,
    second: int,
)
    requires
        follows(config, tree, findings),
        is_forest(config, tree),
        0 <= first < second < findings.len(),
        report_at(config, findings, first) is Some,
        report_at(config, findings, second) is Some,
    ensures
        report_at(config, findings, first)->0.file_path != report_at(
            config,
            findings,
            second,
        )->0.file_path,
{
    lemma_visits_no_path_twice(config, tree, findings, first, second);
}

/// A complete walk over a forest reports every file that it is to report
/// once, and once only: one step gives the report on the file, and no other
/// step gives a report on it.
pub proof fn lemma_reports_every_matching_file_once(
    config: ConfigView,
    tree: spec_fn(Seq<char>) -> FoundView,
    findings: Seq<FoundView>,
    path: Seq<char>,
    depth: nat,
)
    requires
        follows(config, tree, findings),
        is_complete(config, findings),
        is_forest(config, tree),
        reachable(config, tree, path, depth),
        tree(path) matches FoundView::File(content) && matches_of(
            config.query,
            content,
            config.ignore_case,
        ).len() > 0,
    ensures
        exists|step: int|
            0 <= step < findings.len() && #[trigger] report_at(config, findings, step) == Some(
                ReportView {
                    file_path: path,
                    lines: matches_of(config.query, tree(path)->File_0, config.ignore_case),
                },
            ) && forall|other: int|
                0 <= other < findings.len() && other != step ==> !is_report_on(
                    #[trigger] report_at(config, findings, other),
                    path,
                ),
{
    lemma_reports_every_matching_file(config, tree, findings, path, depth);
    let wanted = Some(
        ReportView {
            file_path: path,
            lines: matches_of(config.query, tree(path)->File_0, config.ignore_case),
        },
    );
    let step = choose|step: int|
        0 <= step < findings.len() && #[trigger] report_at(config, findings, step) == wanted;
    assert forall|other: int| 0 <= other < findings.len() && other != step implies !is_report_on(
        #[trigger] report_at(config, findings, other),
        path,
    ) by {
        if is_report_on(report_at(config, findings, other), path) {
            if other < step {
                lemma_reports_no_file_twice(config, tree, findings, other, step);
            } else {
                lemma_reports_no_file_twice(config, tree, findings, step, other);
            }
        }
    }
}

/// Two runs over the same tree agree in all that they have both seen.
proof fn lemma_runs_agree(
    config: ConfigView,
    tree: spec_fn(Seq<char>) -> FoundView,
    first: Seq<FoundView>,
    second: Seq<FoundView>,
    steps: int,
)
    requires
        follows(config, tree, first),
        follows(config, tree, second),
        0 <= steps <= first.len(),
        steps <= second.len(),
    ensures
        first.take(steps) == second.take(steps),
    decreases steps,
{
    if steps > 0 {
        lemma_runs_agree(config, tree, first, second, steps - 1);
        assert(visited(config, first, steps - 1) is Some);
        assert(visited(config, second, steps - 1) is Some);
        assert(first[steps - 1] == second[steps - 1]);
        assert(first.take(steps) == first.take(steps - 1).push(first[steps - 1]));
        assert(second.take(steps) == second.take(steps - 1).push(second[steps - 1]));
    }
}

/// A search is repeatable: two complete runs with the same configuration
/// over the same tree are one and the same run, and so make the same
/// reports in the same order.
pub proof fn lemma_same_tree_same_reports(
    config: ConfigView,
    tree: spec_fn(Seq<char>) -> FoundView,
    first: Seq<FoundView>,
    second: Seq<FoundView>,
)
    requires
        follows(config, tree, first),
        follows(config, tree, second),
        is_complete(config, first),
        is_complete(config, second),
    ensures
        first == second,
        reports(config, first) == reports(config, second),
{
    assert(first.take(first.len() as int) == first);
    assert(second.take(second.len() as int) == second);
    if first.len() <= second.len() {
        lemma_runs_agree(config, tree, first, second, first.len() as int);
        if first.len() < second.len() {
            assert(visited(config, second, first.len() as int) is Some);
        }
    } else {
        lemma_runs_agree(config, tree, first, second, second.len() as int);
        assert(visited(config, first, second.len() as int) is Some);
    }
}

} // verus!
