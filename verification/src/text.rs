//! Sequences of characters: where one occurs in another, and how a text is
//! cut into lines.

use vstd::prelude::*;

verus! {

/// `needle` stands in `hay` at offset `at`.
pub open spec fn occurs_at(hay: Seq<char>, needle: Seq<char>, at: int) -> bool {
    &&& 0 <= at
    &&& at + needle.len() <= hay.len()
    &&& hay.subrange(at, at + needle.len()) == needle
}

/// `needle` is a contiguous part of `hay`. The empty sequence is a part of
/// every sequence.
pub open spec fn contains(hay: Seq<char>, needle: Seq<char>) -> bool {
    exists|at: int| occurs_at(hay, needle, at)
}

/// `at` is the least offset at which `needle` stands in `hay`.
pub open spec fn is_first_occurrence(hay: Seq<char>, needle: Seq<char>, at: int) -> bool {
    &&& occurs_at(hay, needle, at)
    &&& forall|earlier: int| 0 <= earlier < at ==> !occurs_at(hay, needle, earlier)
}

/// The least offset at which `needle` stands in `hay`, if it stands there at
/// all.
pub open spec fn first_occurrence(hay: Seq<char>, needle: Seq<char>) -> Option<int> {
    if contains(hay, needle) {
        Some(choose|at: int| is_first_occurrence(hay, needle, at))
    } else {
        None
    }
}

/// A first occurrence is the only one: whatever offset is the least is the
/// one that `first_occurrence` names.
pub proof fn lemma_first_occurrence_is(hay: Seq<char>, needle: Seq<char>, at: int)
    requires
        is_first_occurrence(hay, needle, at),
    ensures
        first_occurrence(hay, needle) == Some(at),
{
    let chosen = choose|at: int| is_first_occurrence(hay, needle, at);
    assert(is_first_occurrence(hay, needle, chosen));
    if chosen < at {
        assert(!occurs_at(hay, needle, chosen));
    }
    if at < chosen {
        assert(!occurs_at(hay, needle, at));
    }
}

/// Where `needle` stands in `hay` at all, it stands somewhere first.
proof fn lemma_some_occurrence_is_first(hay: Seq<char>, needle: Seq<char>, at: int)
    requires
        occurs_at(hay, needle, at),
    ensures
        exists|first: int| is_first_occurrence(hay, needle, first),
    decreases at,
{
    if exists|earlier: int| 0 <= earlier < at && occurs_at(hay, needle, earlier) {
        let earlier = choose|earlier: int| 0 <= earlier < at && occurs_at(hay, needle, earlier);
        lemma_some_occurrence_is_first(hay, needle, earlier);
    } else {
        assert(is_first_occurrence(hay, needle, at));
    }
}

/// The offset that `first_occurrence` names is the least at which `needle`
/// stands in `hay`.
pub proof fn lemma_first_occurrence_is_least(hay: Seq<char>, needle: Seq<char>)
    ensures
        first_occurrence(hay, needle) matches Some(at) ==> is_first_occurrence(hay, needle, at),
        first_occurrence(hay, needle) is Some <==> contains(hay, needle),
{
    if contains(hay, needle) {
        let at = choose|at: int| occurs_at(hay, needle, at);
        lemma_some_occurrence_is_first(hay, needle, at);
    }
}

/// `at` is where the first line of `text` ends: the offset of its first line
/// feed, or the length of `text` where it holds none.
pub open spec fn is_first_break(text: Seq<char>, at: int) -> bool {
    &&& 0 <= at <= text.len()
    &&& at < text.len() ==> text[at] == '\n'
    &&& forall|before: int| 0 <= before < at ==> text[before] != '\n'
}

/// The offset of the first line feed of `text`, or its length where it holds
/// none.
pub open spec fn first_break(text: Seq<char>) -> int {
    choose|at: int| is_first_break(text, at)
}

/// `line` without the carriage return at its end, if it ends in one.
pub open spec fn without_return(line: Seq<char>) -> Seq<char> {
    if line.len() > 0 && line.last() == '\r' {
        line.drop_last()
    } else {
        line
    }
}

/// The lines of `text`.
///
/// A line ends at a line feed, or at a carriage return directly followed by
/// one; neither belongs to the line. What follows the last line feed is a
/// line of its own unless it is empty, so a text that ends in a line ending
/// has no empty line after it, and the empty text has no line at all. A
/// carriage return that no line feed follows is an ordinary character.
pub open spec fn lines_of(text: Seq<char>) -> Seq<Seq<char>>
    decreases text.len(),
{
    let at = first_break(text);
    if text.len() == 0 {
        Seq::empty()
    } else if 0 <= at < text.len() {
        seq![without_return(text.take(at))] + lines_of(text.skip(at + 1))
    } else {
        seq![text]
    }
}

/// The parts of `text` that `spans` delimits, each span giving the offset
/// of a part's first character and the offset after its last.
pub open spec fn spanned(text: Seq<char>, spans: Seq<(usize, usize)>) -> Seq<Seq<char>> {
    spans.map_values(|span: (usize, usize)| text.subrange(span.0 as int, span.1 as int))
}

/// Every span of `spans` lies within a text of `len` characters.
pub open spec fn spans_within(spans: Seq<(usize, usize)>, len: int) -> bool {
    forall|k: int| 0 <= k < spans.len() ==> (#[trigger] spans[k]).0 <= spans[k].1 <= len
}

/// Only one offset is the first break of a text.
pub proof fn lemma_first_break_is(text: Seq<char>, at: int)
    requires
        is_first_break(text, at),
    ensures
        first_break(text) == at,
{
    let chosen = first_break(text);
    assert(is_first_break(text, chosen));
    if chosen < at {
        assert(text[chosen] != '\n');
    }
    if at < chosen {
        assert(text[at] != '\n');
    }
}

/// The characters of `text`, in order.
pub fn chars_of(text: &str) -> (chars: Vec<char>)
    ensures
        chars@ == text@,
{
    let mut chars: Vec<char> = Vec::new();
    for c in it: text.chars()
        invariant
            chars@ == it.seq().take(it.index()),
            it.seq() == text@,
    {
        chars.push(c);
    }
    chars
}

/// Whether `needle` stands in `hay` at offset `at`.
fn stands_at(hay: &[char], needle: &[char], at: usize) -> (yes: bool)
    requires
        at + needle.len() <= hay.len(),
    ensures
        yes == occurs_at(hay@, needle@, at as int),
{
    let mut k: usize = 0;
    while k < needle.len()
        invariant
            k <= needle.len(),
            at + needle.len() <= hay.len(),
            forall|j: int| 0 <= j < k ==> hay@[at + j] == needle@[j],
        decreases needle.len() - k,
    {
        if hay[at + k] != needle[k] {
            proof {
                let part = hay@.subrange(at as int, at + needle.len());
                assert(part[k as int] == hay@[at + k]);
            }
            return false;
        }
        k += 1;
    }
    assert(hay@.subrange(at as int, at + needle.len()) =~= needle@);
    true
}

/// The offset of the first occurrence of `needle` in `hay`.
pub fn find(hay: &[char], needle: &[char]) -> (found: Option<usize>)
    ensures
        found is Some <==> contains(hay@, needle@),
        found matches Some(at) ==> is_first_occurrence(hay@, needle@, at as int),
        match found {
            Some(at) => first_occurrence(hay@, needle@) == Some(at as int),
            None => first_occurrence(hay@, needle@) is None,
        },
{
    if needle.len() > hay.len() {
        return None;
    }
    let last: usize = hay.len() - needle.len();
    let mut at: usize = 0;
    loop
        invariant
            last == hay.len() - needle.len(),
            at <= last,
            forall|earlier: int| 0 <= earlier < at ==> !occurs_at(hay@, needle@, earlier),
        decreases last - at,
    {
        if stands_at(hay, needle, at) {
            proof {
                lemma_first_occurrence_is(hay@, needle@, at as int);
            }
            return Some(at);
        }
        if at == last {
            return None;
        }
        at += 1;
    }
}

/// Cuts `text` into its lines, each given as the span of `text` it covers.
pub(crate) fn line_spans(text: &[char]) -> (spans: Vec<(usize, usize)>)
    ensures
        spans_within(spans@, text@.len() as int),
        spanned(text@, spans@) == lines_of(text@),
{
    let mut spans: Vec<(usize, usize)> = Vec::new();
    let mut start: usize = 0;
    let mut at: usize = 0;
    proof {
        assert(text@.skip(0) == text@);
        assert(spanned(text@, spans@) + lines_of(text@) == lines_of(text@));
    }
    while at < text.len()
        invariant
            start <= at <= text.len(),
            forall|inside: int| start <= inside < at ==> text@[inside] != '\n',
            spans_within(spans@, text@.len() as int),
            lines_of(text@) == spanned(text@, spans@) + lines_of(text@.skip(start as int)),
        decreases text.len() - at,
    {
        if text[at] == '\n' {
            let end: usize = if at > start && text[at - 1] == '\r' {
                at - 1
            } else {
                at
            };
            proof {
                let rest = text@.skip(start as int);
                lemma_first_break_is(rest, at - start);
                assert(rest.take(at - start) == text@.subrange(start as int, at as int));
                assert(without_return(rest.take(at - start)) == text@.subrange(
                    start as int,
                    end as int,
                ));
                assert(rest.skip(at - start + 1) == text@.skip(at + 1));
                assert(spanned(text@, spans@.push((start, end))) == spanned(text@, spans@)
                    + seq![text@.subrange(start as int, end as int)]);
            }
            spans.push((start, end));
            start = at + 1;
        }
        at += 1;
    }
    if start < text.len() {
        proof {
            let rest = text@.skip(start as int);
            lemma_first_break_is(rest, rest.len() as int);
            assert(rest == text@.subrange(start as int, text@.len() as int));
            assert(lines_of(text@.skip(text@.len() as int)) == Seq::<Seq<char>>::empty());
            assert(spanned(text@, spans@.push((start, text.len()))) == spanned(text@, spans@)
                + seq![text@.subrange(start as int, text@.len() as int)]);
        }
        spans.push((start, text.len()));
    } else {
        assert(spanned(text@, spans@) + Seq::<Seq<char>>::empty() == spanned(text@, spans@));
    }
    spans
}

} // verus!
