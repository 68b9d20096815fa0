use minigrep::{Config, Found, Grep, MatchReport, ReportMode};
use std::collections::HashMap;

enum Node {
    File(&'static str),
    Directory(Vec<&'static str>),
}

fn grep(words: &[&str]) -> Grep {
    let config = Config::build(words.iter().map(|word| word.to_string()).collect()).unwrap();
    Grep { config }
}

fn look(tree: &HashMap<&'static str, Node>, path: &str) -> Found {
    match tree.get(path) {
        Some(Node::File(content)) => Found::File(content.to_string()),
        Some(Node::Directory(entries)) => {
            Found::Directory(entries.iter().map(|entry| entry.to_string()).collect())
        }
        None => Found::Nothing,
    }
}

fn explore(grep: &Grep, tree: &HashMap<&'static str, Node>) -> (Vec<String>, Vec<MatchReport>) {
    let mut visited = Vec::new();
    let mut reports = Vec::new();
    let mut walk = grep.start();
    loop {
        let path = match walk.current() {
            Some(path) => path.clone(),
            None => break,
        };
        assert!(!walk.is_over());
        let found = look(tree, &path);
        visited.push(path);
        if let Some(report) = grep.run(&mut walk, found) {
            reports.push(report);
        }
        assert!(visited.len() < 1000);
    }
    assert!(walk.is_over());
    (visited, reports)
}

fn printed(reports: &[MatchReport], mode: ReportMode) -> Vec<String> {
    reports.iter().flat_map(|report| report.render(mode)).collect()
}

fn tree() -> HashMap<&'static str, Node> {
    let mut tree = HashMap::new();
    tree.insert("/src", Node::Directory(vec!["/src/a.txt", "/src/sub", "/src/b.txt", "/src/gone"]));
    tree.insert("/src/a.txt", Node::File("alpha\nneedle in a\n"));
    tree.insert("/src/sub", Node::Directory(vec!["/src/sub/c.txt", "/src/sub/deep"]));
    tree.insert("/src/sub/c.txt", Node::File("Needle in c\nno\nneedle again"));
    tree.insert("/src/sub/deep", Node::Directory(vec!["/src/sub/deep/d.txt"]));
    tree.insert("/src/sub/deep/d.txt", Node::File("a needle in d"));
    tree.insert("/src/b.txt", Node::File("nothing here\n"));
    tree.insert("/other.txt", Node::File("one more needle"));
    tree.insert("/empty", Node::Directory(Vec::new()));
    tree
}

#[test]
fn a_walk_over_nothing_is_over_at_once() {
    let grep = grep(&["needle", "/src"]);
    let grep = Grep {
        config: grep.config.resolved(vec![None], Vec::new()),
    };
    let walk = grep.start();
    assert!(walk.is_over());
    assert!(walk.current().is_none());
}

#[test]
fn a_walk_visits_directories_depth_first_in_listed_order() {
    let grep = grep(&["needle", "/src", "/other.txt"]);
    let (visited, _) = explore(&grep, &tree());
    assert_eq!(
        vec![
            "/src",
            "/src/a.txt",
            "/src/sub",
            "/src/sub/c.txt",
            "/src/sub/deep",
            "/src/sub/deep/d.txt",
            "/src/b.txt",
            "/src/gone",
            "/other.txt",
        ],
        visited
    );
}

#[test]
fn a_walk_reports_the_files_with_matching_lines() {
    let grep = grep(&["needle", "/src", "/other.txt"]);
    let (_, reports) = explore(&grep, &tree());
    assert_eq!(
        vec![
            "/src/a.txt",
            "needle in a",
            "/src/sub/c.txt",
            "needle again",
            "/src/sub/deep/d.txt",
            "a needle in d",
            "/other.txt",
            "one more needle",
        ],
        printed(&reports, ReportMode::Simple)
    );
    assert_eq!(
        vec![
            "/src/a.txt",
            "1:0 needle in a",
            "/src/sub/c.txt",
            "2:0 needle again",
            "/src/sub/deep/d.txt",
            "0:2 a needle in d",
            "/other.txt",
            "0:9 one more needle",
        ],
        printed(&reports, ReportMode::Positional)
    );
}

#[test]
fn a_walk_ignoring_case_reports_more() {
    let grep = grep(&["-i", "NEEDLE", "/src/sub"]);
    let (_, reports) = explore(&grep, &tree());
    assert_eq!(
        vec![
            "/src/sub/c.txt",
            "Needle in c",
            "needle again",
            "/src/sub/deep/d.txt",
            "a needle in d",
        ],
        printed(&reports, ReportMode::Simple)
    );
}

#[test]
fn a_file_without_a_matching_line_gives_no_output() {
    let grep = grep(&["needle", "/src/b.txt", "/empty", "/missing"]);
    let (visited, reports) = explore(&grep, &tree());
    assert_eq!(vec!["/src/b.txt", "/empty", "/missing"], visited);
    assert!(reports.is_empty());
    assert!(printed(&reports, ReportMode::Simple).is_empty());
}

#[test]
fn an_excluded_root_is_not_visited() {
    let grep = grep(&["needle", "/src", "/other.txt", "-not=/src"]);
    let (visited, reports) = explore(&grep, &tree());
    assert_eq!(vec!["/other.txt"], visited);
    assert_eq!(
        vec!["/other.txt", "one more needle"],
        printed(&reports, ReportMode::Simple)
    );
}

#[test]
fn an_excluded_file_root_is_not_visited() {
    let grep = grep(&["needle", "/other.txt", "--exclude-dir=/other.txt"]);
    let (visited, reports) = explore(&grep, &tree());
    assert!(visited.is_empty());
    assert!(reports.is_empty());
}

#[test]
fn an_excluded_directory_is_not_visited_nor_anything_below_it() {
    let grep = grep(&["needle", "/src", "--exclude-dir=/src/sub"]);
    let (visited, reports) = explore(&grep, &tree());
    assert_eq!(vec!["/src", "/src/a.txt", "/src/b.txt", "/src/gone"], visited);
    assert_eq!(
        vec!["/src/a.txt", "needle in a"],
        printed(&reports, ReportMode::Simple)
    );
}

#[test]
fn an_excluded_file_in_a_directory_is_not_visited() {
    let grep = grep(&["needle", "/src", "-not=/src/a.txt", "-not=/src/sub/deep/d.txt"]);
    let (visited, reports) = explore(&grep, &tree());
    assert_eq!(
        vec![
            "/src",
            "/src/sub",
            "/src/sub/c.txt",
            "/src/sub/deep",
            "/src/b.txt",
            "/src/gone",
        ],
        visited
    );
    assert_eq!(
        vec!["/src/sub/c.txt", "needle again"],
        printed(&reports, ReportMode::Simple)
    );
}

#[test]
fn exclusion_compares_whole_paths_not_beginnings() {
    let grep = grep(&["needle", "/src/sub", "-not=/src/su", "-not=/src/sub/deep/d"]);
    let (visited, _) = explore(&grep, &tree());
    assert_eq!(
        vec!["/src/sub", "/src/sub/c.txt", "/src/sub/deep", "/src/sub/deep/d.txt"],
        visited
    );
}

#[test]
fn a_search_run_twice_reports_the_same() {
    let grep = grep(&["-i", "needle", "/src", "/other.txt", "-not=/src/sub/deep"]);
    let tree = tree();
    let (visited_once, once) = explore(&grep, &tree);
    let (visited_again, again) = explore(&grep, &tree);
    assert_eq!(visited_once, visited_again);
    assert_eq!(
        printed(&once, ReportMode::Positional),
        printed(&again, ReportMode::Positional)
    );
    assert_eq!(3, once.len());
}

#[test]
fn run_reports_on_the_current_path() {
    let grep = grep(&["needle", "/a", "/b"]);
    let mut walk = grep.start();
    assert_eq!("/a", walk.current().unwrap());
    let report = grep
        .run(&mut walk, Found::File("x\nthe needle\n".to_string()))
        .unwrap();
    assert_eq!("/a", report.file_path);
    assert_eq!(1, report.lines.len());
    assert_eq!(1, report.lines[0].row);
    assert_eq!(4, report.lines[0].column);
    assert_eq!("the needle", report.lines[0].text);
    assert_eq!("/b", walk.current().unwrap());
    assert!(grep.run(&mut walk, Found::Nothing).is_none());
    assert!(walk.is_over());
}

#[test]
fn run_changes_nothing_once_the_walk_is_over() {
    let grep = grep(&["needle", "/a"]);
    let mut walk = grep.start();
    assert!(grep.run(&mut walk, Found::Nothing).is_none());
    assert!(walk.is_over());
    assert!(grep
        .run(&mut walk, Found::File("needle".to_string()))
        .is_none());
    assert!(walk.is_over());
    assert!(grep
        .run(&mut walk, Found::Directory(vec!["/b".to_string()]))
        .is_none());
    assert!(walk.is_over());
}

#[test]
fn run_passes_over_excluded_entries_of_a_directory() {
    let grep = grep(&["needle", "/d", "/z", "-not=/d/1", "-not=/d/3"]);
    let mut walk = grep.start();
    let entries = vec!["/d/1".to_string(), "/d/2".to_string(), "/d/3".to_string()];
    assert!(grep.run(&mut walk, Found::Directory(entries)).is_none());
    assert_eq!("/d/2", walk.current().unwrap());
    assert!(grep.run(&mut walk, Found::Nothing).is_none());
    assert_eq!("/z", walk.current().unwrap());
}

#[test]
fn scan_file_reports_only_where_a_line_holds_the_query() {
    let grep = grep(&["-i", "rUst", "poem.txt"]);
    let report = grep
        .scan_file(
            "poem.txt".to_string(),
            "Rust:\nsafe, fast, productive.\nPick three.\nTrust me.",
        )
        .unwrap();
    assert_eq!(
        vec!["poem.txt", "0:0 Rust:", "3:1 Trust me."],
        report.render(ReportMode::Positional)
    );
    assert!(grep
        .scan_file("poem.txt".to_string(), "safe, fast, productive.")
        .is_none());
    assert!(grep.scan_file("poem.txt".to_string(), "").is_none());
}

#[test]
fn a_walk_over_a_tree_visits_and_reports_each_file_once() {
    let grep = grep(&["needle", "/src", "/other.txt", "/empty"]);
    let (visited, reports) = explore(&grep, &tree());
    for (at, path) in visited.iter().enumerate() {
        assert!(!visited[..at].contains(path));
    }
    let paths: Vec<&str> = reports.iter().map(|report| report.file_path.as_str()).collect();
    assert_eq!(
        vec!["/src/a.txt", "/src/sub/c.txt", "/src/sub/deep/d.txt", "/other.txt"],
        paths
    );
}

#[test]
fn a_path_given_twice_is_searched_twice() {
    let grep = grep(&["needle", "/other.txt", "/other.txt"]);
    let (visited, reports) = explore(&grep, &tree());
    assert_eq!(vec!["/other.txt", "/other.txt"], visited);
    assert_eq!(
        vec!["/other.txt", "one more needle", "/other.txt", "one more needle"],
        printed(&reports, ReportMode::Simple)
    );
}
