use minigrep::{chars_of, find, scan, search, search_case_insensetive};

#[test]
fn case_sensetive() {
    let query = "duct";
    let content = "\
Rust:
safe, fast, productive.
Pick three.
Duct tape.";

    assert_eq!(vec!["safe, fast, productive."], search(query, content));
}

#[test]
fn case_insensetive() {
    let query = "rUst";
    let content = "\
Rust:
safe, fast, productive.
Pick three.
Trust me.";

    assert_eq!(
        vec!["Rust:", "Trust me."],
        search_case_insensetive(query, content)
    );
}

#[test]
fn search_keeps_the_order_of_the_text() {
    let content = "b a\nnothing\na b\nab\n";
    assert_eq!(vec!["b a", "a b", "ab"], search("a", content));
}

#[test]
fn search_finds_nothing_in_an_empty_text() {
    assert!(search("a", "").is_empty());
    assert!(search("", "").is_empty());
    assert!(search_case_insensetive("a", "").is_empty());
}

#[test]
fn search_finds_nothing_where_no_line_holds_the_query() {
    assert!(search("Rust", "rust\nRUST\nrus t").is_empty());
}

#[test]
fn an_empty_query_is_held_by_every_line() {
    assert_eq!(vec!["one", "", "three"], search("", "one\n\nthree"));
    assert_eq!(vec![""], search("", "\n"));
}

#[test]
fn a_final_line_ending_adds_no_empty_line() {
    assert_eq!(vec!["one", "two"], search("", "one\ntwo\n"));
    assert_eq!(vec!["one", "two", ""], search("", "one\ntwo\n\n"));
}

#[test]
fn a_carriage_return_before_a_line_feed_ends_the_line_with_it() {
    assert_eq!(vec!["one", "two"], search("", "one\r\ntwo\r\n"));
    assert!(search("\r", "one\r\ntwo\r\n").is_empty());
    assert_eq!(vec!["a\r"], search("a", "a\r\r\nb"));
}

#[test]
fn a_carriage_return_alone_ends_no_line() {
    assert_eq!(vec!["one\rtwo"], search("", "one\rtwo"));
    assert_eq!(vec!["one\r"], search("", "one\r"));
    assert_eq!(vec!["\r"], search("\r", "\r"));
}

#[test]
fn a_query_is_not_found_across_lines() {
    assert!(search("ab", "a\nb").is_empty());
    assert!(search("a\nb", "a\nb").is_empty());
}

#[test]
fn a_query_longer_than_the_line_is_not_found() {
    assert!(search("abcd", "abc\nbcd").is_empty());
}

#[test]
fn search_tells_capitals_from_small_letters() {
    assert_eq!(vec!["Duct tape."], search("Duct", "duct\nDuct tape."));
}

#[test]
fn search_case_insensetive_returns_the_lines_as_written() {
    assert_eq!(
        vec!["RUST", "rust", "tRuSt"],
        search_case_insensetive("Rust", "RUST\nrust\nrest\ntRuSt")
    );
}

#[test]
fn search_case_insensetive_lowers_letters_beyond_ascii() {
    assert_eq!(
        vec!["GRÜSSE", "grüße aus ÄGYPTEN"],
        search_case_insensetive("Ü", "GRÜSSE\nGRUSSE\ngrüße aus ÄGYPTEN")
    );
    assert_eq!(vec!["ΑΒΓ"], search_case_insensetive("αβγ", "ΑΒΓ\nABC"));
}

#[test]
fn search_case_insensetive_lowers_a_letter_to_more_than_one() {
    assert_eq!(
        vec!["\u{130}stanbul"],
        search_case_insensetive("i\u{307}stanbul", "\u{130}stanbul\nIstanbul")
    );
}

#[test]
fn scan_gives_row_and_column_of_the_first_occurrence() {
    let content = "\
Rust:
safe, fast, productive.
Pick three.
Duct tape.";
    let found = scan("duct", content, false);
    assert_eq!(1, found.len());
    assert_eq!(1, found[0].row);
    assert_eq!(15, found[0].column);
    assert_eq!("safe, fast, productive.", found[0].text);
}

#[test]
fn scan_ignoring_case_gives_rows_and_columns() {
    let content = "\
Rust:
safe, fast, productive.
Pick three.
Trust me.";
    let found = scan("rUst", content, true);
    assert_eq!(2, found.len());
    assert_eq!((0, 0), (found[0].row, found[0].column));
    assert_eq!("Rust:", found[0].text);
    assert_eq!((3, 1), (found[1].row, found[1].column));
    assert_eq!("Trust me.", found[1].text);
}

#[test]
fn scan_counts_columns_in_characters() {
    let found = scan("z", "äöüz\nz", false);
    assert_eq!(2, found.len());
    assert_eq!((0, 3), (found[0].row, found[0].column));
    assert_eq!((1, 0), (found[1].row, found[1].column));
}

#[test]
fn scan_takes_the_first_of_several_occurrences() {
    let found = scan("ab", "xxabab ab", false);
    assert_eq!(1, found.len());
    assert_eq!(2, found[0].column);
}

#[test]
fn scan_ignoring_case_counts_columns_in_the_lowercase_line() {
    let found = scan("s", "\u{130}\u{130}S", true);
    assert_eq!(1, found.len());
    assert_eq!(4, found[0].column);
    assert_eq!("\u{130}\u{130}S", found[0].text);
}

#[test]
fn scan_agrees_with_search() {
    let content = "one\nTwo\n\nthree two\r\nTWO\n";
    let lines: Vec<String> = scan("two", content, false)
        .into_iter()
        .map(|line| line.text)
        .collect();
    assert_eq!(search("two", content), lines);
    let lines: Vec<String> = scan("two", content, true)
        .into_iter()
        .map(|line| line.text)
        .collect();
    assert_eq!(search_case_insensetive("two", content), lines);
    assert_eq!(3, lines.len());
}

#[test]
fn scan_finds_nothing_in_an_empty_text() {
    assert!(scan("a", "", false).is_empty());
    assert!(scan("", "", true).is_empty());
}

#[test]
fn find_gives_the_first_offset() {
    let hay = chars_of("abcabc");
    assert_eq!(Some(1), find(&hay, &chars_of("bc")));
    assert_eq!(Some(0), find(&hay, &chars_of("abcabc")));
    assert_eq!(Some(2), find(&hay, &chars_of("cab")));
    assert_eq!(Some(2), find(&hay[2..], &chars_of("bc")));
    assert_eq!(Some(0), find(&hay, &[]));
    assert_eq!(None, find(&hay, &chars_of("cb")));
    assert_eq!(None, find(&hay, &chars_of("abcabca")));
    assert_eq!(Some(0), find(&[], &[]));
    assert_eq!(None, find(&[], &['a']));
}

#[test]
fn chars_of_gives_the_characters_in_order() {
    assert_eq!(vec!['a', 'ß', '\n', '字'], chars_of("aß\n字"));
    assert!(chars_of("").is_empty());
}
