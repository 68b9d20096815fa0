use minigrep::{Config, ConfigError};

fn tokens(words: &[&str]) -> Vec<String> {
    words.iter().map(|word| word.to_string()).collect()
}

#[test]
fn build_takes_query_and_paths_in_order() {
    let config = Config::build(tokens(&["needle", "b.txt", "a", "b.txt"])).unwrap();
    assert_eq!("needle", config.query);
    assert_eq!(vec!["b.txt", "a", "b.txt"], config.file_paths);
    assert!(!config.ignore_case);
    assert!(!config.recursive);
    assert!(config.paths_to_ignore.is_empty());
}

#[test]
fn build_fails_without_a_path() {
    assert_eq!(
        ConfigError::InvalidArguments,
        Config::build(tokens(&["needle"])).unwrap_err()
    );
}

#[test]
fn build_fails_without_any_token() {
    assert_eq!(
        ConfigError::InvalidArguments,
        Config::build(Vec::new()).unwrap_err()
    );
}

#[test]
fn build_fails_where_options_leave_fewer_than_two_tokens() {
    let given = tokens(&["-i", "needle", "--exclude-dir=target", "-r", "-not=x"]);
    assert_eq!(
        ConfigError::InvalidArguments,
        Config::build(given).unwrap_err()
    );
}

#[test]
fn the_error_says_what_is_missing() {
    assert_eq!(
        "query and at least one path are required",
        ConfigError::InvalidArguments.message()
    );
}

#[test]
fn build_reads_the_option_to_ignore_case() {
    assert!(Config::build(tokens(&["-i", "q", "p"])).unwrap().ignore_case);
    assert!(Config::build(tokens(&["q", "--ignore", "p"])).unwrap().ignore_case);
    assert!(Config::build(tokens(&["q", "p", "-i"])).unwrap().ignore_case);
    let config = Config::build(tokens(&["q", "p", "-i"])).unwrap();
    assert_eq!("q", config.query);
    assert_eq!(vec!["p"], config.file_paths);
    assert!(!config.recursive);
}

#[test]
fn build_reads_the_option_to_recurse() {
    for option in ["-r", "-R"] {
        let config = Config::build(tokens(&["q", option, "p"])).unwrap();
        assert!(config.recursive);
        assert!(!config.ignore_case);
        assert_eq!("q", config.query);
        assert_eq!(vec!["p"], config.file_paths);
    }
}

#[test]
fn the_letters_i_and_r_written_as_one_ask_to_recurse_only() {
    for option in ["-ir", "-iR", "-Ir", "-IR", "-ri", "-rI", "-Ri", "-RI"] {
        let config = Config::build(tokens(&[option, "q", "p"])).unwrap();
        assert!(config.recursive);
        assert!(!config.ignore_case);
        assert_eq!("q", config.query);
        assert_eq!(vec!["p"], config.file_paths);
    }
}

#[test]
fn only_the_options_to_ignore_case_set_it() {
    let config = Config::build(tokens(&["-iR", "q", "p", "-r", "-R", "-not=-i"])).unwrap();
    assert!(!config.ignore_case);
    assert!(config.recursive);
    let config = Config::build(tokens(&["-iR", "q", "-i", "p"])).unwrap();
    assert!(config.ignore_case);
    assert!(config.recursive);
    let config = Config::build(tokens(&["-Ri", "q", "p", "--ignore"])).unwrap();
    assert!(config.ignore_case);
    assert_eq!("q", config.query);
    assert_eq!(vec!["p"], config.file_paths);
}

#[test]
fn an_option_given_twice_says_no_more() {
    let config = Config::build(tokens(&["-i", "-i", "q", "--ignore", "p", "-r", "-R"])).unwrap();
    assert!(config.ignore_case);
    assert!(config.recursive);
    assert_eq!("q", config.query);
    assert_eq!(vec!["p"], config.file_paths);
}

#[test]
fn build_collects_the_paths_to_ignore() {
    let given = tokens(&["-not=a/b", "q", "--exclude-dir=target", "p", "-not="]);
    let config = Config::build(given).unwrap();
    assert_eq!(vec!["a/b", "target", ""], config.paths_to_ignore);
    assert_eq!("q", config.query);
    assert_eq!(vec!["p"], config.file_paths);
}

#[test]
fn a_path_to_ignore_is_all_that_follows_the_first_equals_sign() {
    let config = Config::build(tokens(&["q", "p", "-not=a=b", "--exclude-dir==c"])).unwrap();
    assert_eq!(vec!["a=b", "=c"], config.paths_to_ignore);
}

#[test]
fn a_token_that_is_no_option_is_positional() {
    let given = tokens(&["-x", "--ignored", "-I", "-rr", "-not", "--exclude-dir", "-", "--", ""]);
    let config = Config::build(given).unwrap();
    assert_eq!("-x", config.query);
    assert_eq!(
        vec!["--ignored", "-I", "-rr", "-not", "--exclude-dir", "-", "--", ""],
        config.file_paths
    );
    assert!(!config.ignore_case);
    assert!(!config.recursive);
    assert!(config.paths_to_ignore.is_empty());
}

#[test]
fn excludes_compares_whole_paths() {
    let config = Config::build(tokens(&["q", "p", "-not=/a/b", "-not=/c"])).unwrap();
    assert!(config.excludes(&"/a/b".to_string()));
    assert!(config.excludes(&"/c".to_string()));
    assert!(!config.excludes(&"/a".to_string()));
    assert!(!config.excludes(&"/a/b/c".to_string()));
    assert!(!config.excludes(&"/a/b/".to_string()));
    assert!(!config.excludes(&"".to_string()));
}

#[test]
fn resolved_drops_what_did_not_resolve() {
    let config = Config::build(tokens(&["-i", "q", "a", "b", "c", "-not=x", "-not=y"])).unwrap();
    let config = config.resolved(
        vec![Some("/root/a".to_string()), None, Some("/root/c".to_string())],
        vec![None, Some("/root/y".to_string())],
    );
    assert_eq!("q", config.query);
    assert!(config.ignore_case);
    assert!(!config.recursive);
    assert_eq!(vec!["/root/a", "/root/c"], config.file_paths);
    assert_eq!(vec!["/root/y"], config.paths_to_ignore);
}

#[test]
fn resolved_may_leave_nothing_to_search() {
    let config = Config::build(tokens(&["q", "a", "-R"])).unwrap();
    let config = config.resolved(vec![None], Vec::new());
    assert!(config.file_paths.is_empty());
    assert!(config.paths_to_ignore.is_empty());
    assert!(config.recursive);
    assert_eq!("q", config.query);
}
