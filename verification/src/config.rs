//! The configuration of a search, and how command-line tokens become one.

use crate::text::chars_of;
use vstd::prelude::*;

verus! {

/// Why no configuration could be built.
#[derive(Debug, Clone, Copy, PartialEq, Eq, Structural)]
pub enum ConfigError {
    /// Fewer than two tokens were left once the options were taken out: the
    /// query, a path to search, or both are missing.
    InvalidArguments,
}

impl ConfigError {
    /// What to tell the user about this error.
    pub fn message(&self) -> (text: &'static str)
        ensures
            text@ == "query and at least one path are required"@,
    {
        match self {
            ConfigError::InvalidArguments => "query and at least one path are required",
        }
    }
}

/// What to search for, where, and how.
#[derive(Debug)]
pub struct Config {
    /// The text to search for.
    pub query: String,
    /// The files and directories to search, in the order in which they were
    /// given.
    pub file_paths: Vec<String>,
    /// Whether a line is compared with the query in lowercase.
    pub ignore_case: bool,
    /// Whether an option asked for directories to be searched with all that
    /// is below them. Directories are searched that way in any case; the
    /// field records what was asked.
    pub recursive: bool,
    /// The files and directories to leave out, wherever the search comes
    /// upon them. A path is left out when it is equal to one of these,
    /// character for character.
    pub paths_to_ignore: Vec<String>,
}

/// A configuration as a contract speaks of it.
pub struct ConfigView {
    pub query: Seq<char>,
    pub file_paths: Seq<Seq<char>>,
    pub ignore_case: bool,
    pub recursive: bool,
    pub paths_to_ignore: Seq<Seq<char>>,
}

impl View for Config {
    type V = ConfigView;

    open spec fn view(&self) -> ConfigView {
        ConfigView {
            query: self.query@,
            file_paths: self.file_paths.deep_view(),
            ignore_case: self.ignore_case,
            recursive: self.recursive,
            paths_to_ignore: self.paths_to_ignore.deep_view(),
        }
    }
}

impl ConfigView {
    /// Whether `path` is to be left out of the search.
    pub open spec fn excludes(self, path: Seq<char>) -> bool {
        self.paths_to_ignore.contains(path)
    }
}

/// `letter` is an `i`, small or capital.
pub open spec fn is_letter_i(letter: char) -> bool {
    letter == 'i' || letter == 'I'
}

/// `letter` is an `r`, small or capital.
pub open spec fn is_letter_r(letter: char) -> bool {
    letter == 'r' || letter == 'R'
}

/// `token` is a hyphen followed by the letters `i` and `r`, one of each, in
/// either order and either case. Such a token asks for directories to be
/// searched with all that is below them, and for nothing else: it does not
/// ask for a search that ignores case.
pub open spec fn is_combined_option(token: Seq<char>) -> bool {
    &&& token.len() == 3
    &&& token[0] == '-'
    &&& (is_letter_i(token[1]) && is_letter_r(token[2])) || (is_letter_r(token[1])
        && is_letter_i(token[2]))
}

/// `token` asks for a search that ignores case: it is `-i` or `--ignore`,
/// and no other token does.
pub open spec fn asks_ignore_case(token: Seq<char>) -> bool {
    token == "-i"@ || token == "--ignore"@
}

/// `token` asks for directories to be searched with all that is below them:
/// `-r`, `-R`, or the two letters `i` and `r` written as one option.
pub open spec fn asks_recursive(token: Seq<char>) -> bool {
    token == "-r"@ || token == "-R"@ || is_combined_option(token)
}

/// The path that `token` excludes, where it has the form `-not=<path>` or
/// `--exclude-dir=<path>`: all that follows the first `=`, which may be
/// empty.
pub open spec fn excluded_by(token: Seq<char>) -> Option<Seq<char>> {
    if "-not="@.is_prefix_of(token) {
        Some(token.skip("-not="@.len() as int))
    } else if "--exclude-dir="@.is_prefix_of(token) {
        Some(token.skip("--exclude-dir="@.len() as int))
    } else {
        None
    }
}

/// `token` is no option: it is the query or a path to search. Every token
/// that is not exactly one of the option forms is of this kind, also one
/// that begins with a hyphen.
pub open spec fn is_positional(token: Seq<char>) -> bool {
    !asks_ignore_case(token) && !asks_recursive(token) && excluded_by(token) is None
}

/// The test that a token is positional.
pub open spec fn positional() -> spec_fn(Seq<char>) -> bool {
    |token: Seq<char>| is_positional(token)
}

/// The path that a token excludes, if it excludes one.
pub open spec fn exclusion() -> spec_fn(Seq<char>) -> Option<Seq<char>> {
    |token: Seq<char>| excluded_by(token)
}

/// What the tokens of a command line, without the name of the program, say.
///
/// The positional tokens are the query followed by the paths to search, and
/// at least one path is called for. The options may stand anywhere among
/// them, and one given twice says no more than one given once. The paths to
/// leave out come in the order of their options.
pub open spec fn parsed(tokens: Seq<Seq<char>>) -> Result<ConfigView, ConfigError> {
    let plain = tokens.filter(positional());
    if plain.len() < 2 {
        Err(ConfigError::InvalidArguments)
    } else {
        Ok(
            ConfigView {
                query: plain[0],
                file_paths: plain.skip(1),
                ignore_case: exists|k: int|
                    0 <= k < tokens.len() && asks_ignore_case(#[trigger] tokens[k]),
                recursive: exists|k: int|
                    0 <= k < tokens.len() && asks_recursive(#[trigger] tokens[k]),
                paths_to_ignore: tokens.filter_map(exclusion()),
            },
        )
    }
}

/// The paths among `outcomes` that were resolved, in order.
pub open spec fn resolved_among(outcomes: Seq<Option<Seq<char>>>) -> Seq<Seq<char>> {
    outcomes.filter_map(|outcome: Option<Seq<char>>| outcome)
}

/// Whether `chars` spell `word`.
fn spells(chars: &[char], word: &str) -> (yes: bool)
    ensures
        yes == (chars@ == word@),
{
    let len = word.unicode_len();
    if chars.len() != len {
        return false;
    }
    let mut k: usize = 0;
    while k < len
        invariant
            k <= len,
            len == word@.len(),
            len == chars@.len(),
            forall|j: int| 0 <= j < k ==> chars@[j] == word@[j],
        decreases len - k,
    {
        if chars[k] != word.get_char(k) {
            return false;
        }
        k += 1;
    }
    assert(chars@ =~= word@);
    true
}

/// The length of `word` where `chars` begin with it.
fn begins_with(chars: &[char], word: &str) -> (len: Option<usize>)
    ensures
        len is Some <==> word@.is_prefix_of(chars@),
        len matches Some(n) ==> n == word@.len(),
{
    let len = word.unicode_len();
    if chars.len() < len {
        return None;
    }
    let mut k: usize = 0;
    while k < len
        invariant
            k <= len,
            len == word@.len(),
            len <= chars@.len(),
            forall|j: int| 0 <= j < k ==> chars@[j] == word@[j],
        decreases len - k,
    {
        if chars[k] != word.get_char(k) {
            return None;
        }
        k += 1;
    }
    assert(word@ =~= chars@.subrange(0, len as int));
    Some(len)
}

/// Whether `chars` are the letters `i` and `r` written as one option.
fn is_combined(chars: &[char]) -> (yes: bool)
    ensures
        yes == is_combined_option(chars@),
{
    if chars.len() != 3 || chars[0] != '-' {
        return false;
    }
    let first_i = chars[1] == 'i' || chars[1] == 'I';
    let first_r = chars[1] == 'r' || chars[1] == 'R';
    let second_i = chars[2] == 'i' || chars[2] == 'I';
    let second_r = chars[2] == 'r' || chars[2] == 'R';
    (first_i && second_r) || (first_r && second_i)
}

/// Where the path begins in a token that excludes one.
fn exclusion_start(chars: &[char]) -> (start: Option<usize>)
    ensures
        match start {
            Some(at) => at <= chars@.len() && excluded_by(chars@) == Some(chars@.skip(at as int)),
            None => excluded_by(chars@) is None,
        },
{
    match begins_with(chars, "-not=") {
        Some(at) => Some(at),
        None => begins_with(chars, "--exclude-dir="),
    }
}

impl Config {
    /// Builds a configuration from the tokens of a command line, the name of
    /// the program left out.
    ///
    /// Fails when fewer than two positional tokens are given. Paths are taken
    /// as they are written; `resolved` then puts in what they resolve to.
    pub fn build(args: Vec<String>) -> (built: Result<Config, ConfigError>)
        ensures
            match built {
                Ok(config) => parsed(args.deep_view()) == Ok::<ConfigView, ConfigError>(config@),
                Err(error) => parsed(args.deep_view()) == Err::<ConfigView, ConfigError>(error),
            },
            built is Err <==> args.deep_view().filter(positional()).len() < 2,
            built matches Ok(config) ==> config.file_paths.len() >= 1,
    {
        let ghost tokens = args.deep_view();
        let mut plain: Vec<String> = Vec::new();
        let mut paths_to_ignore: Vec<String> = Vec::new();
        let mut ignore_case = false;
        let mut recursive = false;
        let mut k: usize = 0;
        proof {
            reveal(Seq::filter);
            assert(tokens.take(0).filter(positional()) == Seq::<Seq<char>>::empty());
            assert(tokens.take(0).filter_map(exclusion()) == Seq::<Seq<char>>::empty());
        }
        while k < args.len()
            invariant
                k <= args.len(),
                tokens == args.deep_view(),
                plain.deep_view() == tokens.take(k as int).filter(positional()),
                paths_to_ignore.deep_view() == tokens.take(k as int).filter_map(exclusion()),
                ignore_case == exists|j: int| 0 <= j < k && asks_ignore_case(#[trigger] tokens[j]),
                recursive == exists|j: int| 0 <= j < k && asks_recursive(#[trigger] tokens[j]),
            decreases args.len() - k,
        {
            let token = args[k].as_str();
            let chars = chars_of(token);
            assert(chars@ == tokens[k as int]);
            let combined = is_combined(chars.as_slice());
            let wants_ignore_case = spells(chars.as_slice(), "-i") || spells(
                chars.as_slice(),
                "--ignore",
            );
            let wants_recursive = combined || spells(chars.as_slice(), "-r") || spells(
                chars.as_slice(),
                "-R",
            );
            let start = exclusion_start(chars.as_slice());
            proof {
                reveal(Seq::filter);
                let longer = tokens.take(k + 1);
                assert(longer.drop_last() == tokens.take(k as int));
                assert(longer.last() == tokens[k as int]);
            }
            let ghost plain_before = plain.deep_view();
            let ghost ignored_before = paths_to_ignore.deep_view();
            ignore_case = ignore_case || wants_ignore_case;
            recursive = recursive || wants_recursive;
            if let Some(at) = start {
                let path = token.substring_char(at, chars.len()).to_owned();
                paths_to_ignore.push(path);
                proof {
                    assert(path@ == tokens[k as int].skip(at as int));
                    assert(paths_to_ignore.deep_view() == ignored_before.push(path@));
                    assert(ignored_before + seq![path@] == ignored_before.push(path@));
                }
            } else if !wants_ignore_case && !wants_recursive {
                let word = args[k].clone();
                plain.push(word);
                proof {
                    assert(plain.deep_view() == plain_before.push(tokens[k as int]));
                }
            }
            k += 1;
        }
        assert(tokens.take(k as int) == tokens);
        if plain.len() < 2 {
            return Err(ConfigError::InvalidArguments);
        }
        let mut file_paths: Vec<String> = Vec::new();
        let mut n: usize = 1;
        while n < plain.len()
            invariant
                1 <= n <= plain.len(),
                file_paths.deep_view() == plain.deep_view().subrange(1, n as int),
            decreases plain.len() - n,
        {
            let ghost before = file_paths.deep_view();
            let path = plain[n].clone();
            file_paths.push(path);
            assert(file_paths.deep_view() == before.push(plain.deep_view()[n as int]));
            n += 1;
        }
        assert(plain.deep_view().subrange(1, n as int) == plain.deep_view().skip(1));
        let query = plain[0].clone();
        assert(query@ == plain.deep_view()[0]);
        Ok(Config { query, file_paths, ignore_case, recursive, paths_to_ignore })
    }

    /// Whether `path` is to be left out of the search: whether it is equal to
    /// one of the paths to ignore.
    pub fn excludes(&self, path: &String) -> (yes: bool)
        ensures
            yes == self@.excludes(path@),
    {
        let mut k: usize = 0;
        while k < self.paths_to_ignore.len()
            invariant
                k <= self.paths_to_ignore.len(),
                forall|j: int| 0 <= j < k ==> self.paths_to_ignore.deep_view()[j] != path@,
            decreases self.paths_to_ignore.len() - k,
        {
            if self.paths_to_ignore[k] == *path {
                assert(self.paths_to_ignore.deep_view()[k as int] == path@);
                return true;
            }
            k += 1;
        }
        false
    }

    /// Puts what the paths of this configuration resolve to in their place.
    ///
    /// `roots` and `excluded` hold, for each path to search and each path to
    /// ignore, the canonical form it resolved to, or `None` where it did not
    /// resolve. A path that did not resolve is dropped without a word; the
    /// others keep their order. The paths to search may all be dropped: the
    /// search then finds nothing.
    pub fn resolved(self, roots: Vec<Option<String>>, excluded: Vec<Option<String>>) -> (config:
        Config)
        ensures
            config@ == (ConfigView {
                file_paths: resolved_among(roots.deep_view()),
                paths_to_ignore: resolved_among(excluded.deep_view()),
                ..self@
            }),
    {
        let file_paths = present(roots);
        let paths_to_ignore = present(excluded);
        Config {
            query: self.query,
            file_paths,
            ignore_case: self.ignore_case,
            recursive: self.recursive,
            paths_to_ignore,
        }
    }
}

/// The paths among `outcomes` that were resolved, in order.
fn present(outcomes: Vec<Option<String>>) -> (paths: Vec<String>)
    ensures
        paths.deep_view() == resolved_among(outcomes.deep_view()),
{
    let ghost all = outcomes.deep_view();
    let mut paths: Vec<String> = Vec::new();
    let mut k: usize = 0;
    assert(resolved_among(all.take(0)) == Seq::<Seq<char>>::empty());
    while k < outcomes.len()
        invariant
            k <= outcomes.len(),
            all == outcomes.deep_view(),
            paths.deep_view() == resolved_among(all.take(k as int)),
        decreases outcomes.len() - k,
    {
        proof {
            let longer = all.take(k + 1);
            assert(longer.drop_last() == all.take(k as int));
            assert(longer.last() == all[k as int]);
        }
        let ghost before = paths.deep_view();
        if let Some(path) = &outcomes[k] {
            let kept = path.clone();
            paths.push(kept);
            proof {
                assert(paths.deep_view() == before.push(kept@));
                assert(before + seq![kept@] == before.push(kept@));
            }
        }
        k += 1;
    }
    assert(all.take(k as int) == all);
    paths
}

} // verus!
