//! The directories that zoxide knows: how its answer is read, how they are searched, and in
//! which order they are shown.
//!
//! Scores are floating point numbers; here they are held and ordered by their bits.

use crate::paths::{is_same_place, paths_equal, Place};
use crate::protocol::SessionInfo;
use crate::text::{
    between, byte_offset, char_width, chars_of, is_alphanumeric, is_ascii_alphanumeric, is_white,
    joined, law_blank_is_all_white, lemma_offset_after, lemma_offsets_grow, lemma_word_end_before,
    lemma_word_end_whole, lowered, same_text, split_between, split_words, texts, to_lower, trim,
    trim_start, trimmed, trimmed_start, word_end, words,
};
use vstd::prelude::*;

verus! {

/// A directory with the score that zoxide gives it, as the bits of the number.
#[derive(Debug)]
pub struct ZoxideEntry {
    pub path: String,
    pub zoxide_score: u64,
}

/// A directory that was found, with zoxide's score and the score of the search.
#[derive(Debug)]
pub struct ZoxideMatch {
    pub path: String,
    pub zoxide_score: u64,
    pub total_score: u64,
}

impl Clone for ZoxideMatch {
    fn clone(&self) -> (r: Self)
        ensures
            r == *self,
    {
        ZoxideMatch {
            path: self.path.clone(),
            zoxide_score: self.zoxide_score,
            total_score: self.total_score,
        }
    }
}

/// The message of a failed query: what zoxide wrote to its error output, if anything.
pub fn query_failure(stderr: &str) -> (r: String)
    ensures
        r@ == if trimmed(stderr@).len() == 0 {
            "zoxide query failed"@
        } else {
            "zoxide query failed: "@ + trimmed(stderr@)
        },
{
    let text = trim(stderr);
    if text.unicode_len() == 0 {
        "zoxide query failed".to_owned()
    } else {
        joined("zoxide query failed: ", text)
    }
}

/// The score and the path on a line of zoxide's answer, if the line holds both.
pub open spec fn scored_line(line: Seq<char>) -> Option<(Seq<char>, Seq<char>)> {
    let text = trimmed_start(line);
    let end = word_end(text);
    let path = trimmed(text.skip(end));
    if end < text.len() && path.len() > 0 {
        Some((text.take(end), path))
    } else {
        None
    }
}

/// Reads a line of zoxide's answer: the score, as it is written, and the path.
pub fn parse_scored_zoxide_line(line: &str) -> (r: Option<(String, String)>)
    ensures
        match r {
            Some((score, path)) => scored_line(line@) == Some((score@, path@)),
            None => scored_line(line@) is None,
        },
{
    let text = trim_start(line);
    let chars = chars_of(text);
    let mut end: usize = 0;
    assert(chars@.skip(0) =~= chars@);
    while end < chars.len() && !chars[end].is_whitespace()
        invariant
            chars@ == text@,
            end <= chars@.len(),
            word_end(text@) == end + word_end(chars@.skip(end as int)),
        decreases chars@.len() - end,
    {
        assert(chars@.skip(end as int)[0] == chars@[end as int]);
        assert(chars@.skip(end as int).drop_first() =~= chars@.skip(end + 1));
        end += 1;
    }
    assert(end < chars@.len() ==> chars@.skip(end as int)[0] == chars@[end as int]);
    let n = chars.len();
    if end == n {
        return None;
    }
    let score = text.substring_char(0, end);
    let rest = text.substring_char(end, n);
    assert(score@ =~= text@.take(end as int));
    assert(rest@ =~= text@.skip(end as int));
    let path = trim(rest);
    if path.unicode_len() == 0 {
        None
    } else {
        Some((score.to_owned(), path.to_owned()))
    }
}

/// The scores and paths on the lines that hold both, in order.
pub open spec fn scored_of(lines: Seq<Seq<char>>) -> Seq<(Seq<char>, Seq<char>)>
    decreases lines.len(),
{
    if lines.len() == 0 {
        Seq::empty()
    } else {
        let front = scored_of(lines.drop_last());
        match scored_line(lines.last()) {
            Some(scored) => front.push(scored),
            None => front,
        }
    }
}

/// Pairs of strings as pairs of texts.
pub open spec fn pair_texts(pairs: Seq<(String, String)>) -> Seq<(Seq<char>, Seq<char>)> {
    pairs.map_values(|pair: (String, String)| (pair.0@, pair.1@))
}

/// Each pair stands for its two texts, in order.
pub proof fn law_pair_texts(pairs: Seq<(String, String)>, i: int)
    requires
        0 <= i < pairs.len(),
    ensures
        pair_texts(pairs).len() == pairs.len(),
        pair_texts(pairs)[i] == (pairs[i].0@, pairs[i].1@),
{
}

/// Reads zoxide's answer: the score and the path of each line that holds both. A carriage
/// return at the end of a line is white space like any other.
pub fn scored_lines(text: &str) -> (r: Vec<(String, String)>)
    ensures
        pair_texts(r@) == scored_of(between(text@, '\n')),
{
    let lines = split_between(text, '\n');
    let mut found: Vec<(String, String)> = Vec::new();
    let mut i: usize = 0;
    assert(pair_texts(found@) =~= scored_of(texts(lines@).take(0)));
    while i < lines.len()
        invariant
            i <= lines@.len(),
            pair_texts(found@) == scored_of(texts(lines@).take(i as int)),
        decreases lines@.len() - i,
    {
        let ghost before = pair_texts(found@);
        proof {
            let front = texts(lines@).take(i + 1);
            assert(front.drop_last() =~= texts(lines@).take(i as int));
            assert(front.last() == lines@[i as int]@);
        }
        if let Some(scored) = parse_scored_zoxide_line(lines[i].as_str()) {
            let ghost texts_of = (scored.0@, scored.1@);
            found.push(scored);
            assert(pair_texts(found@) =~= before.push(texts_of));
        }
        i += 1;
    }
    assert(texts(lines@).take(i as int) =~= texts(lines@));
    found
}

/// The first place from `from` on where a character stands.
pub open spec fn find_from(s: Seq<char>, c: char, from: int) -> Option<int>
    decreases s.len() - from,
{
    if from < 0 || from >= s.len() {
        None
    } else if s[from] == c {
        Some(from)
    } else {
        find_from(s, c, from + 1)
    }
}

/// Where the characters of a term are found in a text, each behind the one before, as early as
/// possible.
pub open spec fn find_term(term: Seq<char>, s: Seq<char>) -> Option<Seq<int>>
    decreases term.len(),
{
    if term.len() == 0 {
        Some(Seq::empty())
    } else {
        match find_term(term.drop_last(), s) {
            Some(places) => {
                let from = if places.len() == 0 {
                    0
                } else {
                    places.last() + 1
                };
                match find_from(s, term.last(), from) {
                    Some(at) => Some(places.push(at)),
                    None => None,
                }
            },
            None => None,
        }
    }
}

/// Where a character of a term was found: its offset in bytes, whether a word begins there, and
/// how far it is from the character before, in bytes.
#[derive(Debug, Clone, Copy, PartialEq, Eq)]
pub struct TermStep {
    pub found: usize,
    pub boundary: bool,
    pub distance: Option<usize>,
}

/// Whether a word begins at a place: nothing stands before it, or no letter or digit.
pub open spec fn begins_word(s: Seq<char>, at: int) -> bool {
    at == 0 || !is_alphanumeric(s[at - 1])
}

/// Whether a step tells of the character found at the place with this number.
pub open spec fn is_step(s: Seq<char>, places: Seq<int>, k: int, step: TermStep) -> bool {
    &&& step.found == byte_offset(s, places[k])
    &&& step.boundary == begins_word(s, places[k])
    &&& match step.distance {
        Some(distance) => k > 0 && distance == byte_offset(s, places[k]) - byte_offset(
            s,
            places[k - 1],
        ),
        None => k == 0,
    }
}

/// Whether steps tell of all the places.
pub open spec fn are_steps(s: Seq<char>, places: Seq<int>, steps: Seq<TermStep>) -> bool {
    &&& steps.len() == places.len()
    &&& forall|k: int| 0 <= k < places.len() ==> is_step(s, places, k, #[trigger] steps[k])
}

/// A term that was found, with the lengths of the term and of the text in characters.
#[derive(Debug)]
pub struct TermMatch {
    pub steps: Vec<TermStep>,
    pub term_len: usize,
    pub candidate_len: usize,
}

/// Whether a term was found as told.
pub open spec fn is_term_match(term: Seq<char>, s: Seq<char>, found: TermMatch) -> bool {
    &&& find_term(term, s) matches Some(places) && are_steps(s, places, found.steps@)
    &&& found.term_len == term.len()
    &&& found.candidate_len == s.len()
}

proof fn lemma_find_from_bounds(s: Seq<char>, c: char, from: int)
    requires
        0 <= from,
    ensures
        find_from(s, c, from) matches Some(at) ==> from <= at < s.len() && s[at] == c,
    decreases s.len() - from,
{
    if from < s.len() && s[from] != c {
        lemma_find_from_bounds(s, c, from + 1);
    }
}

proof fn lemma_find_term_places(term: Seq<char>, s: Seq<char>)
    ensures
        find_term(term, s) matches Some(places) ==> {
            &&& places.len() == term.len()
            &&& forall|k: int| 0 <= k < places.len() ==> 0 <= #[trigger] places[k] < s.len()
            &&& forall|j: int, k: int| 0 <= j < k < places.len() ==> places[j] < places[k]
        },
    decreases term.len(),
{
    if term.len() > 0 {
        lemma_find_term_places(term.drop_last(), s);
        if let Some(places) = find_term(term.drop_last(), s) {
            let from = if places.len() == 0 {
                0
            } else {
                places.last() + 1
            };
            lemma_find_from_bounds(s, term.last(), from);
        }
    }
}

/// The characters of a term are found in order.
pub proof fn law_terms_are_found_in_order(term: Seq<char>, s: Seq<char>)
    ensures
        find_term(term, s) matches Some(places) ==> {
            &&& places.len() == term.len()
            &&& forall|k: int|
                0 <= k < places.len() ==> 0 <= #[trigger] places[k] < s.len() && s[places[k]]
                    == term[k]
            &&& forall|j: int, k: int| 0 <= j < k < places.len() ==> places[j] < places[k]
        },
    decreases term.len(),
{
    lemma_find_term_places(term, s);
    if term.len() > 0 {
        law_terms_are_found_in_order(term.drop_last(), s);
        if let Some(places) = find_term(term.drop_last(), s) {
            let from = if places.len() == 0 {
                0
            } else {
                places.last() + 1
            };
            lemma_find_from_bounds(s, term.last(), from);
            if let Some(at) = find_from(s, term.last(), from) {
                let all = places.push(at);
                assert forall|k: int| 0 <= k < all.len() implies 0 <= #[trigger] all[k] < s.len()
                    && s[all[k]] == term[k] by {
                    if k < places.len() {
                        assert(s[places[k]] == term.drop_last()[k]);
                    }
                }
            }
        }
    }
}

/// The first character from `from` on that is the one sought, with its offset in bytes, where
/// `offset` is that of `from`.
fn find_char_from(candidate: &Vec<char>, needle: char, from: usize, offset: usize) -> (r: Option<
    (usize, usize),
>)
    requires
        from <= candidate@.len(),
        offset == byte_offset(candidate@, from as int),
        vstd::utf8::encode_utf8(candidate@).len() <= usize::MAX,
    ensures
        match r {
            Some((at, found)) => {
                &&& find_from(candidate@, needle, from as int) == Some(at as int)
                &&& from <= at < candidate@.len()
                &&& found == byte_offset(candidate@, at as int)
            },
            None => find_from(candidate@, needle, from as int) is None,
        },
{
    let mut i: usize = from;
    let mut found: usize = offset;
    while i < candidate.len()
        invariant
            from <= i <= candidate@.len(),
            found == byte_offset(candidate@, i as int),
            vstd::utf8::encode_utf8(candidate@).len() <= usize::MAX,
            find_from(candidate@, needle, from as int) == find_from(
                candidate@,
                needle,
                i as int,
            ),
        decreases candidate@.len() - i,
    {
        if candidate[i] == needle {
            return Some((i, found));
        }
        proof {
            lemma_offset_after(candidate@, i as int);
            lemma_offsets_grow(candidate@, i + 1, i + 1);
        }
        found = found + char_width(candidate[i]);
        i += 1;
    }
    None
}

/// Whether a word begins at a place.
fn is_boundary(candidate: &Vec<char>, at: usize) -> (r: bool)
    requires
        at < candidate@.len(),
    ensures
        r == begins_word(candidate@, at as int),
{
    at == 0 || !is_ascii_alphanumeric(candidate[at - 1])
}

/// Looks for a term in a text.
pub fn fuzzy_term(term: &str, candidate: &str) -> (r: Option<TermMatch>)
    ensures
        match r {
            Some(found) => is_term_match(term@, candidate@, found),
            None => find_term(term@, candidate@) is None,
        },
{
    let total = candidate.as_bytes().len();
    let needles = chars_of(term);
    let text = chars_of(candidate);
    let text_len = text.len();
    let mut steps: Vec<TermStep> = Vec::new();
    let mut from: usize = 0;
    let mut offset: usize = 0;
    let mut previous: Option<usize> = None;
    let mut i: usize = 0;
    let ghost mut places = Seq::<int>::empty();
    assert(needles@.take(0) =~= Seq::empty());
    assert(text@.take(0) =~= Seq::empty());
    while i < needles.len()
        invariant
            needles@ == term@,
            text@ == candidate@,
            vstd::utf8::encode_utf8(text@).len() == total,
            i <= needles@.len(),
            find_term(term@.take(i as int), text@) == Some(places),
            places.len() == i,
            are_steps(text@, places, steps@),
            from == if i == 0 {
                0
            } else {
                places.last() + 1
            },
            from <= text@.len(),
            text@.len() == text_len,
            i > 0 ==> 0 <= places.last(),
            offset == byte_offset(text@, from as int),
            match previous {
                Some(found) => i > 0 && found == byte_offset(text@, places.last()),
                None => i == 0,
            },
        decreases needles@.len() - i,
    {
        let ghost front = term@.take(i + 1);
        proof {
            assert(front.drop_last() =~= term@.take(i as int));
            assert(front.last() == needles@[i as int]);
        }
        match find_char_from(&text, needles[i], from, offset) {
            Some((at, found)) => {
                let boundary = is_boundary(&text, at);
                proof {
                    lemma_offset_after(text@, at as int);
                    lemma_offsets_grow(text@, at as int, at + 1);
                    lemma_offsets_grow(text@, at + 1, at + 1);
                    if i > 0 {
                        assert(0 <= places.last());
                        lemma_offsets_grow(text@, places.last(), at as int);
                    }
                }
                let distance: Option<usize> = match previous {
                    Some(before) => Some(found - before),
                    None => None,
                };
                let step = TermStep { found, boundary, distance };
                let ghost told = steps@;
                steps.push(step);
                proof {
                    let before = places;
                    places = before.push(at as int);
                    assert forall|k: int| 0 <= k < places.len() implies is_step(
                        text@,
                        places,
                        k,
                        #[trigger] steps@[k],
                    ) by {
                        if k < i {
                            assert(is_step(text@, before, k, told[k]));
                        }
                    }
                }
                previous = Some(found);
                offset = found + char_width(text[at]);
                from = at + 1;
            },
            None => {
                proof {
                    lemma_find_term_prefix(term@, text@, i + 1);
                }
                return None;
            },
        }
        i += 1;
    }
    assert(term@.take(i as int) =~= term@);
    Some(TermMatch { steps, term_len: needles.len(), candidate_len: text_len })
}

/// A term whose front is not found is not found.
proof fn lemma_find_term_prefix(term: Seq<char>, s: Seq<char>, n: int)
    requires
        0 <= n <= term.len(),
        find_term(term.take(n), s) is None,
    ensures
        find_term(term, s) is None,
    decreases term.len() - n,
{
    if n == term.len() {
        assert(term.take(n) =~= term);
    } else {
        assert(term.take(n + 1).drop_last() =~= term.take(n));
        lemma_find_term_prefix(term, s, n + 1);
    }
}

/// Whether the characters of a term stand in a text in their order, with anything between them.
pub open spec fn is_spread(term: Seq<char>, s: Seq<char>) -> bool {
    exists|places: Seq<int>| #[trigger] are_places(term, s, places)
}

/// Whether these are places for the characters of a term, one behind the other.
pub open spec fn are_places(term: Seq<char>, s: Seq<char>, places: Seq<int>) -> bool {
    &&& places.len() == term.len()
    &&& forall|k: int|
        0 <= k < places.len() ==> 0 <= #[trigger] places[k] < s.len() && s[places[k]] == term[k]
    &&& forall|j: int, k: int| 0 <= j < k < places.len() ==> places[j] < places[k]
}

/// A term is found exactly where its characters stand in the text in their order.
pub proof fn law_terms_are_found_where_spread(term: Seq<char>, s: Seq<char>)
    ensures
        find_term(term, s) is Some <==> is_spread(term, s),
{
    law_terms_are_found_in_order(term, s);
    if let Some(places) = find_term(term, s) {
        assert(are_places(term, s, places));
    }
    if is_spread(term, s) {
        let places = choose|places: Seq<int>| #[trigger] are_places(term, s, places);
        lemma_found_no_later(term, s, places);
    }
}

proof fn lemma_found_no_later(term: Seq<char>, s: Seq<char>, places: Seq<int>)
    requires
        are_places(term, s, places),
    ensures
        find_term(term, s) matches Some(found) && found.len() == term.len() && (term.len() > 0
            ==> found.last() <= places.last()),
    decreases term.len(),
{
    if term.len() > 0 {
        let (init, front) = (term.drop_last(), places.drop_last());
        assert(are_places(init, s, front)) by {
            assert forall|k: int| 0 <= k < front.len() implies 0 <= #[trigger] front[k] < s.len()
                && s[front[k]] == init[k] by {
                assert(front[k] == places[k]);
            }
        }
        lemma_found_no_later(init, s, front);
        lemma_find_term_places(init, s);
        let found = find_term(init, s).unwrap();
        let from = if found.len() == 0 {
            0
        } else {
            found.last() + 1
        };
        let at = places.last();
        assert(s[at] == term.last());
        if found.len() > 0 {
            assert(front.last() == places[places.len() - 2]);
            assert(places[places.len() - 2] < places[places.len() - 1]);
        }
        lemma_find_from_no_later(s, term.last(), from, at);
    }
}

proof fn lemma_find_from_no_later(s: Seq<char>, c: char, from: int, at: int)
    requires
        0 <= from <= at < s.len(),
        s[at] == c,
    ensures
        find_from(s, c, from) matches Some(found) && found <= at,
    decreases at - from,
{
    if from < at && s[from] != c {
        lemma_find_from_no_later(s, c, from + 1, at);
    }
}

/// Each character of a term is found as early as it can be: at its first place behind that of
/// the character before.
pub proof fn law_terms_are_found_early(term: Seq<char>, s: Seq<char>, k: int, at: int)
    requires
        find_term(term, s) is Some,
        0 <= k < term.len(),
        0 <= at < find_term(term, s).unwrap()[k],
        k > 0 ==> find_term(term, s).unwrap()[k - 1] < at,
    ensures
        s[at] != term[k],
    decreases term.len(),
{
    let init = term.drop_last();
    lemma_find_term_places(init, s);
    lemma_find_term_places(term, s);
    let found = find_term(init, s).unwrap();
    assert(find_term(term, s).unwrap()[k] < s.len());
    if k < init.len() {
        law_terms_are_found_early(init, s, k, at);
    } else {
        let from = if found.len() == 0 {
            0
        } else {
            found.last() + 1
        };
        if s[at] == term[k] {
            lemma_find_from_no_later(s, term[k], from, at);
        }
    }
}

/// What is told of a found term: the bytes before each of its characters, whether the character
/// before is no letter and no digit of ASCII, and how many bytes lie between one character and
/// the next.
pub proof fn law_steps_tell_the_places(term: Seq<char>, s: Seq<char>, found: TermMatch, k: int)
    requires
        is_term_match(term, s, found),
        0 <= k < term.len(),
    ensures
        found.term_len == term.len(),
        found.candidate_len == s.len(),
        found.steps@.len() == term.len(),
        exists|places: Seq<int>| #[trigger]
            are_places(term, s, places) && {
                let step = found.steps@[k];
                &&& step.found == vstd::utf8::encode_utf8(s.take(places[k])).len()
                &&& step.boundary <==> (places[k] == 0 || !({
                    let before = s[places[k] - 1];
                    ||| '0' <= before <= '9'
                    ||| 'A' <= before <= 'Z'
                    ||| 'a' <= before <= 'z'
                }))
                &&& k == 0 <==> step.distance is None
                &&& k > 0 ==> (step.distance matches Some(distance) && found.steps@[k - 1].found
                    + distance == step.found)
            },
{
    law_terms_are_found_in_order(term, s);
    let places = find_term(term, s).unwrap();
    assert(are_places(term, s, places));
    assert(is_step(s, places, k, found.steps@[k]));
    if k > 0 {
        assert(is_step(s, places, k - 1, found.steps@[k - 1]));
    }
}

/// The terms of a query: its words in lower case.
pub open spec fn query_terms(query: Seq<char>) -> Seq<Seq<char>> {
    words(lowered(trimmed(query)))
}

/// The terms of a query.
pub fn terms_of(query: &str) -> (r: Vec<String>)
    ensures
        texts(r@) == query_terms(query@),
{
    split_words(to_lower(trim(query)).as_str())
}

/// Whether every term of a query is found in a path.
pub open spec fn matches_query(query: Seq<char>, path: Seq<char>) -> bool {
    forall|k: int|
        0 <= k < query_terms(query).len() ==> find_term(
            #[trigger] query_terms(query)[k],
            lowered(path),
        ) is Some
}

/// Looks for every term of a query in a path.
pub fn fuzzy_match(query: &str, path: &str) -> (r: Option<Vec<TermMatch>>)
    ensures
        r is Some <==> matches_query(query@, path@),
        r matches Some(found) ==> {
            &&& found@.len() == query_terms(query@).len()
            &&& forall|k: int|
                0 <= k < found@.len() ==> is_term_match(
                    query_terms(query@)[k],
                    lowered(path@),
                    #[trigger] found@[k],
                )
        },
{
    let terms = terms_of(query);
    let candidate = to_lower(path);
    let mut found: Vec<TermMatch> = Vec::new();
    let mut i: usize = 0;
    assert(texts(terms@).len() == terms@.len());
    while i < terms.len()
        invariant
            texts(terms@) == query_terms(query@),
            terms@.len() == query_terms(query@).len(),
            candidate@ == lowered(path@),
            i <= terms@.len(),
            found@.len() == i,
            forall|k: int|
                0 <= k < i ==> is_term_match(
                    query_terms(query@)[k],
                    lowered(path@),
                    #[trigger] found@[k],
                ),
        decreases terms@.len() - i,
    {
        assert(texts(terms@)[i as int] == terms@[i as int]@);
        match fuzzy_term(terms[i].as_str(), candidate.as_str()) {
            Some(term) => {
                found.push(term);
            },
            None => {
                return None;
            },
        }
        i += 1;
    }
    assert forall|k: int| 0 <= k < query_terms(query@).len() implies find_term(
        #[trigger] query_terms(query@)[k],
        lowered(path@),
    ) is Some by {
        assert(is_term_match(query_terms(query@)[k], lowered(path@), found@[k]));
    }
    Some(found)
}

/// The place of a number in the order of all floating point numbers, by its bits: the positive
/// ones by their bits, and before them the negative ones the other way round.
pub open spec fn score_key(bits: u64) -> int {
    if bits < 0x8000_0000_0000_0000 {
        bits as int
    } else {
        0x7fff_ffff_ffff_ffff - bits
    }
}

/// The key by which `f64::total_cmp` orders a number with these bits.
pub fn total_order(bits: u64) -> (r: i64)
    ensures
        r == score_key(bits),
{
    if bits < 0x8000_0000_0000_0000 {
        bits as i64
    } else {
        let magnitude: i64 = (bits - 0x8000_0000_0000_0000) as i64;
        -magnitude - 1
    }
}

/// By what something is put in order: the larger comes first, and where the first numbers are
/// equal the second decides.
#[derive(Debug, Clone, Copy)]
pub struct SortKey {
    pub first: i64,
    pub second: i64,
}

/// Whether the one at `i` comes before the one at `j`; of equals the earlier does.
pub open spec fn comes_before(keys: Seq<SortKey>, i: int, j: int) -> bool {
    ||| keys[i].first > keys[j].first
    ||| keys[i].first == keys[j].first && keys[i].second > keys[j].second
    ||| keys[i].first == keys[j].first && keys[i].second == keys[j].second && i < j
}

/// Whether `order` names every place once, in order.
pub open spec fn is_order(keys: Seq<SortKey>, order: Seq<usize>) -> bool {
    &&& order.len() == keys.len()
    &&& forall|a: int| 0 <= a < order.len() ==> (#[trigger] order[a]) < keys.len()
    &&& forall|a: int, b: int|
        0 <= a < b < order.len() ==> #[trigger] comes_before(
            keys,
            order[a] as int,
            order[b] as int,
        )
    &&& forall|i: int| 0 <= i < keys.len() ==> #[trigger] is_named(order, i)
}

/// Whether a place is named.
pub open spec fn is_named(order: Seq<usize>, i: int) -> bool {
    exists|a: int| 0 <= a < order.len() && #[trigger] order[a] == i
}

/// There is only one such order.
pub proof fn law_order_is_unique(keys: Seq<SortKey>, x: Seq<usize>, y: Seq<usize>)
    requires
        is_order(keys, x),
        is_order(keys, y),
    ensures
        x == y,
{
    assert forall|n: int| 0 <= n <= x.len() implies #[trigger] x.take(n) == y.take(n) by {
        lemma_same_front(keys, x, y, n);
    }
    assert(x.take(x.len() as int) =~= x);
    assert(y.take(x.len() as int) =~= y);
}

proof fn lemma_same_front(keys: Seq<SortKey>, x: Seq<usize>, y: Seq<usize>, n: int)
    requires
        is_order(keys, x),
        is_order(keys, y),
        0 <= n <= x.len(),
    ensures
        x.take(n) == y.take(n),
    decreases n,
{
    if n > 0 {
        lemma_same_front(keys, x, y, n - 1);
        let m = n - 1;
        if x[m] != y[m] {
            assert(is_named(y, x[m] as int));
            let b = choose|b: int| 0 <= b < y.len() && #[trigger] y[b] == x[m];
            assert(is_named(x, y[m] as int));
            let a = choose|a: int| 0 <= a < x.len() && #[trigger] x[a] == y[m];
            if b < m {
                assert(y.take(m)[b] == x.take(m)[b]);
                assert(comes_before(keys, x[b] as int, x[m] as int));
            }
            if a < m {
                assert(y.take(m)[a] == x.take(m)[a]);
                assert(comes_before(keys, y[a] as int, y[m] as int));
            }
            assert(comes_before(keys, y[m] as int, y[b] as int));
            assert(comes_before(keys, x[m] as int, x[a] as int));
        }
        assert(x.take(n) =~= x.take(m).push(x[m]));
        assert(y.take(n) =~= y.take(m).push(y[m]));
    } else {
        assert(x.take(0) =~= y.take(0));
    }
}

/// An order names every place, and of two places the one with the larger first number comes
/// first, then the one with the larger second number, then the earlier one.
pub proof fn law_orders(keys: Seq<SortKey>, order: Seq<usize>, a: int, b: int)
    requires
        is_order(keys, order),
        0 <= a < b < order.len(),
    ensures
        order.len() == keys.len(),
        order[a] < keys.len() && order[b] < keys.len(),
        order[a] != order[b],
        ({
            let (x, y) = (keys[order[a] as int], keys[order[b] as int]);
            ||| x.first > y.first
            ||| x.first == y.first && x.second > y.second
            ||| x.first == y.first && x.second == y.second && order[a] < order[b]
        }),
        forall|i: usize| i < keys.len() ==> #[trigger] order.contains(i),
{
    assert(comes_before(keys, order[a] as int, order[b] as int));
    assert forall|i: usize| i < keys.len() implies #[trigger] order.contains(i) by {
        assert(is_named(order, i as int));
    }
}

/// Puts places in order.
pub fn order_by(keys: &[SortKey]) -> (r: Vec<usize>)
    ensures
        is_order(keys@, r@),
{
    let mut order: Vec<usize> = Vec::new();
    let mut i: usize = 0;
    while i < keys.len()
        invariant
            i <= keys@.len(),
            is_order(keys@.take(i as int), order@),
        decreases keys@.len() - i,
    {
        let ghost front = keys@.take(i as int);
        let ghost more = keys@.take(i + 1);
        let ghost before = order@;
        let key = keys[i];
        let mut at: usize = 0;
        while at < order.len() && !(key.first > keys[order[at]].first || (key.first
            == keys[order[at]].first && key.second > keys[order[at]].second))
            invariant
                i < keys@.len(),
                key == keys@[i as int],
                front == keys@.take(i as int),
                more == keys@.take(i + 1),
                order@ == before,
                is_order(front, before),
                at <= before.len(),
                forall|a: int| 0 <= a < at ==> #[trigger] comes_before(
                    more,
                    before[a] as int,
                    i as int,
                ),
            decreases before.len() - at,
        {
            assert(before[at as int] < front.len());
            assert(comes_before(more, before[at as int] as int, i as int));
            at += 1;
        }
        order.insert(at, i);
        proof {
            let after = order@;
            assert(after =~= before.insert(at as int, i));
            assert forall|a: int| at <= a < before.len() implies #[trigger] comes_before(
                more,
                i as int,
                before[a] as int,
            ) by {
                assert(before[a] < front.len());
                assert(before[at as int] < front.len());
                if a > at {
                    assert(comes_before(front, before[at as int] as int, before[a] as int));
                }
            }
            assert forall|a: int, b: int| 0 <= a < b < after.len() implies #[trigger] comes_before(
                more,
                after[a] as int,
                after[b] as int,
            ) by {
                if a < at && b == at {
                    assert(comes_before(more, before[a] as int, i as int));
                } else if a == at {
                    assert(comes_before(more, i as int, before[b - 1] as int));
                } else {
                    let x = if a < at {
                        a
                    } else {
                        a - 1
                    };
                    let y = if b < at {
                        b
                    } else {
                        b - 1
                    };
                    assert(after[a] == before[x] && after[b] == before[y]);
                    assert(before[x] < front.len() && before[y] < front.len());
                    assert(comes_before(front, before[x] as int, before[y] as int));
                }
            }
            assert forall|k: int| 0 <= k < more.len() implies #[trigger] is_named(after, k) by {
                if k == i {
                    assert(after[at as int] == k);
                } else {
                    assert(is_named(before, k));
                    let a = choose|a: int| 0 <= a < before.len() && #[trigger] before[a] == k;
                    let x = if a < at {
                        a
                    } else {
                        a + 1
                    };
                    assert(after[x] == k);
                }
            }
            assert forall|a: int| 0 <= a < after.len() implies (#[trigger] after[a])
                < more.len() by {
                if a < at {
                    assert(after[a] == before[a]);
                } else if a > at {
                    assert(after[a] == before[a - 1]);
                }
            }
        }
        i += 1;
    }
    assert(keys@.take(i as int) =~= keys@);
    order
}

/// The score of an entry in a search: zoxide's own where nothing is sought, else the one given.
pub open spec fn total_of(
    query: Seq<char>,
    entries: Seq<ZoxideEntry>,
    totals: Seq<u64>,
    i: int,
) -> u64 {
    if trimmed(query).len() == 0 {
        entries[i].zoxide_score
    } else {
        totals[i]
    }
}

/// Whether an entry is to be shown before another: by the score of the search, then by
/// zoxide's, then by the order in which zoxide gave them.
pub open spec fn outranks(
    query: Seq<char>,
    entries: Seq<ZoxideEntry>,
    totals: Seq<u64>,
    i: int,
    j: int,
) -> bool {
    let (a, b) = (
        score_key(total_of(query, entries, totals, i)),
        score_key(total_of(query, entries, totals, j)),
    );
    let (x, y) = (score_key(entries[i].zoxide_score), score_key(entries[j].zoxide_score));
    a > b || (a == b && (x > y || (x == y && i < j)))
}

/// Whether `ranking` names every entry that matches a query once, the best first.
pub open spec fn is_ranking(
    query: Seq<char>,
    entries: Seq<ZoxideEntry>,
    totals: Seq<u64>,
    ranking: Seq<int>,
) -> bool {
    &&& forall|a: int|
        0 <= a < ranking.len() ==> 0 <= #[trigger] ranking[a] < entries.len() && matches_query(
            query,
            entries[ranking[a]].path@,
        )
    &&& forall|a: int, b: int|
        0 <= a < b < ranking.len() ==> #[trigger] outranks(
            query,
            entries,
            totals,
            ranking[a],
            ranking[b],
        )
    &&& forall|i: int|
        0 <= i < entries.len() && matches_query(query, (#[trigger] entries[i]).path@)
            ==> ranking.contains(i)
}

/// There is only one such ranking, so the best entries are certain.
pub proof fn law_ranking_is_unique(
    query: Seq<char>,
    entries: Seq<ZoxideEntry>,
    totals: Seq<u64>,
    x: Seq<int>,
    y: Seq<int>,
)
    requires
        is_ranking(query, entries, totals, x),
        is_ranking(query, entries, totals, y),
    ensures
        x == y,
{
    if x.len() <= y.len() {
        lemma_ranking_lengths(query, entries, totals, x, y);
    } else {
        lemma_ranking_lengths(query, entries, totals, y, x);
    }
    lemma_same_ranking_front(query, entries, totals, x, y, x.len() as int);
    assert(x.take(x.len() as int) =~= x);
    assert(y.take(x.len() as int) =~= y);
}

proof fn lemma_ranking_lengths(
    query: Seq<char>,
    entries: Seq<ZoxideEntry>,
    totals: Seq<u64>,
    x: Seq<int>,
    y: Seq<int>,
)
    requires
        is_ranking(query, entries, totals, x),
        is_ranking(query, entries, totals, y),
        x.len() <= y.len(),
    ensures
        x.len() == y.len(),
{
    let m = x.len() as int;
    if m < y.len() {
        lemma_same_ranking_front(query, entries, totals, x, y, m);
        assert(matches_query(query, entries[y[m]].path@));
        let a = choose|a: int| 0 <= a < x.len() && x[a] == y[m];
        assert(x.take(m)[a] == y.take(m)[a]);
        assert(outranks(query, entries, totals, y[a], y[m]));
    }
}

proof fn lemma_same_ranking_front(
    query: Seq<char>,
    entries: Seq<ZoxideEntry>,
    totals: Seq<u64>,
    x: Seq<int>,
    y: Seq<int>,
    n: int,
)
    requires
        is_ranking(query, entries, totals, x),
        is_ranking(query, entries, totals, y),
        0 <= n <= x.len(),
        n <= y.len(),
    ensures
        x.take(n) == y.take(n),
    decreases n,
{
    if n > 0 {
        let m = n - 1;
        lemma_same_ranking_front(query, entries, totals, x, y, m);
        if x[m] != y[m] {
            assert(matches_query(query, entries[x[m]].path@));
            assert(matches_query(query, entries[y[m]].path@));
            let b = choose|b: int| 0 <= b < y.len() && y[b] == x[m];
            let a = choose|a: int| 0 <= a < x.len() && x[a] == y[m];
            if b < m {
                assert(y.take(m)[b] == x.take(m)[b]);
                assert(outranks(query, entries, totals, x[b], x[m]));
            }
            if a < m {
                assert(y.take(m)[a] == x.take(m)[a]);
                assert(outranks(query, entries, totals, y[a], y[m]));
            }
            assert(outranks(query, entries, totals, y[m], y[b]));
            assert(outranks(query, entries, totals, x[m], x[a]));
        }
        assert(x.take(n) =~= x.take(m).push(x[m]));
        assert(y.take(n) =~= y.take(m).push(y[m]));
    } else {
        assert(x.take(0) =~= y.take(0));
    }
}

/// Whether a match is made of an entry.
pub open spec fn is_match_of(
    query: Seq<char>,
    entries: Seq<ZoxideEntry>,
    totals: Seq<u64>,
    i: int,
    found: ZoxideMatch,
) -> bool {
    &&& found.path@ == entries[i].path@
    &&& found.zoxide_score == entries[i].zoxide_score
    &&& found.total_score == total_of(query, entries, totals, i)
}

/// Whether `found` holds the best entries that match a query, as many as the limit allows.
pub open spec fn is_best(
    query: Seq<char>,
    entries: Seq<ZoxideEntry>,
    totals: Seq<u64>,
    limit: int,
    found: Seq<ZoxideMatch>,
) -> bool {
    exists|ranking: Seq<int>| #[trigger]
        is_ranking(query, entries, totals, ranking) && {
            &&& found.len() == if ranking.len() < limit {
                ranking.len() as int
            } else {
                limit
            }
            &&& forall|k: int|
                0 <= k < found.len() ==> is_match_of(
                    query,
                    entries,
                    totals,
                    ranking[k],
                    #[trigger] found[k],
                )
        }
}

/// Whether a number comes before another in the order of all floating point numbers, largest
/// first, by their bits: the sign is the first bit, and below it the negative numbers count the
/// other way round.
pub open spec fn is_above(a: u64, b: u64) -> bool {
    if a < 0x8000_0000_0000_0000 {
        b >= 0x8000_0000_0000_0000 || a > b
    } else {
        b >= 0x8000_0000_0000_0000 && a < b
    }
}

/// The keys are in the order of the numbers.
pub proof fn law_keys_order_numbers(a: u64, b: u64)
    ensures
        score_key(a) > score_key(b) <==> is_above(a, b),
        score_key(a) == score_key(b) <==> a == b,
{
}

/// Whether an entry is to be shown before another, by these scores of the search.
pub open spec fn is_better(entries: Seq<ZoxideEntry>, scores: Seq<u64>, i: int, j: int) -> bool {
    ||| is_above(scores[i], scores[j])
    ||| scores[i] == scores[j] && is_above(entries[i].zoxide_score, entries[j].zoxide_score)
    ||| scores[i] == scores[j] && entries[i].zoxide_score == entries[j].zoxide_score && i < j
}

/// Whether what is found comes from the entries at these places, with these scores, the better
/// one first.
pub open spec fn comes_from(
    entries: Seq<ZoxideEntry>,
    scores: Seq<u64>,
    found: Seq<ZoxideMatch>,
    places: Seq<int>,
) -> bool {
    &&& places.len() == found.len()
    &&& forall|k: int|
        0 <= k < places.len() ==> {
            &&& 0 <= #[trigger] places[k] < entries.len()
            &&& found[k].path@ == entries[places[k]].path@
            &&& found[k].zoxide_score == entries[places[k]].zoxide_score
            &&& found[k].total_score == scores[places[k]]
        }
    &&& forall|j: int, k: int|
        0 <= j < k < places.len() ==> is_better(
            entries,
            scores,
            #[trigger] places[j],
            #[trigger] places[k],
        )
}

/// Whether what is found is what a search with this query is to show: entries in whose paths, in
/// lower case, all words of the query are spread, the better ones first, and none left out but
/// for worse ones beyond the limit.
pub open spec fn is_search(
    query: Seq<char>,
    entries: Seq<ZoxideEntry>,
    scores: Seq<u64>,
    limit: int,
    found: Seq<ZoxideMatch>,
    places: Seq<int>,
) -> bool {
    &&& comes_from(entries, scores, found, places)
    &&& forall|k: int|
        0 <= k < places.len() ==> all_spread(query, entries[#[trigger] places[k]].path@)
    &&& found.len() <= limit
    &&& forall|i: int|
        0 <= i < entries.len() && all_spread(query, (#[trigger] entries[i]).path@)
            && !places.contains(i) ==> found.len() == limit && forall|k: int|
            0 <= k < places.len() ==> is_better(entries, scores, #[trigger] places[k], i)
}

/// Whether all words of a query are spread in a path, in lower case.
pub open spec fn all_spread(query: Seq<char>, path: Seq<char>) -> bool {
    forall|k: int|
        0 <= k < words(lowered(trimmed(query))).len() ==> is_spread(
            #[trigger] words(lowered(trimmed(query)))[k],
            lowered(path),
        )
}

/// A search with something to seek shows the matching entries by the scores of the search, and
/// gives each its score; without it all entries are shown, by zoxide's own scores.
pub proof fn law_search_shows_the_best(
    query: Seq<char>,
    entries: Seq<ZoxideEntry>,
    totals: Seq<u64>,
    own: Seq<u64>,
    limit: int,
    found: Seq<ZoxideMatch>,
)
    requires
        is_best(query, entries, totals, limit, found),
        totals.len() == entries.len(),
        own.len() == entries.len(),
        forall|i: int| 0 <= i < entries.len() ==> own[i] == (#[trigger] entries[i]).zoxide_score,
        0 <= limit,
    ensures
        (exists|i: int| 0 <= i < query.len() && !is_white(#[trigger] query[i])) ==> exists|
            places: Seq<int>,
        | #[trigger]
            is_search(query, entries, totals, limit, found, places),
        (forall|i: int| 0 <= i < query.len() ==> is_white(#[trigger] query[i])) ==> exists|
            places: Seq<int>,
        | #[trigger]
            is_search(Seq::empty(), entries, own, limit, found, places),
{
    let ranking = choose|ranking: Seq<int>| #[trigger]
        is_ranking(query, entries, totals, ranking) && {
            &&& found.len() == if ranking.len() < limit {
                ranking.len() as int
            } else {
                limit
            }
            &&& forall|k: int|
                0 <= k < found.len() ==> is_match_of(
                    query,
                    entries,
                    totals,
                    ranking[k],
                    #[trigger] found[k],
                )
        };
    let places = ranking.take(found.len() as int);
    law_blank_is_all_white(query);
    let blank = trimmed(query).len() == 0;
    let scores = if blank {
        own
    } else {
        totals
    };
    let sought = if blank {
        Seq::empty()
    } else {
        query
    };
    assert forall|i: int| 0 <= i < entries.len() implies all_spread(
        sought,
        (#[trigger] entries[i]).path@,
    ) == matches_query(query, entries[i].path@) by {
        lemma_all_spread(query, entries[i].path@);
        if blank {
            lemma_all_spread(Seq::empty(), entries[i].path@);
            lemma_blank_query(query);
            lemma_blank_query(Seq::empty());
        }
    }
    assert forall|i: int, j: int| 0 <= i < entries.len() && 0 <= j < entries.len() implies (
    #[trigger] outranks(query, entries, totals, i, j) <==> is_better(entries, scores, i, j)) by {
        law_keys_order_numbers(scores[i], scores[j]);
        law_keys_order_numbers(entries[i].zoxide_score, entries[j].zoxide_score);
    }
    assert(comes_from(entries, scores, found, places)) by {
        assert forall|k: int| 0 <= k < places.len() implies {
            &&& 0 <= #[trigger] places[k] < entries.len()
            &&& found[k].path@ == entries[places[k]].path@
            &&& found[k].zoxide_score == entries[places[k]].zoxide_score
            &&& found[k].total_score == scores[places[k]]
        } by {
            assert(places[k] == ranking[k]);
            assert(is_match_of(query, entries, totals, ranking[k], found[k]));
        }
        assert forall|j: int, k: int| 0 <= j < k < places.len() implies is_better(
            entries,
            scores,
            #[trigger] places[j],
            #[trigger] places[k],
        ) by {
            assert(places[j] == ranking[j] && places[k] == ranking[k]);
            assert(outranks(query, entries, totals, ranking[j], ranking[k]));
        }
    }
    assert forall|k: int| 0 <= k < places.len() implies all_spread(
        sought,
        entries[#[trigger] places[k]].path@,
    ) by {
        assert(places[k] == ranking[k]);
        assert(entries[ranking[k]] == entries[places[k]]);
    }
    assert forall|i: int|
        0 <= i < entries.len() && all_spread(sought, (#[trigger] entries[i]).path@)
            && !places.contains(i) implies found.len() == limit && forall|k: int|
        0 <= k < places.len() ==> is_better(entries, scores, #[trigger] places[k], i) by {
        assert(ranking.contains(i));
        let at = choose|at: int| 0 <= at < ranking.len() && ranking[at] == i;
        if at < places.len() {
            assert(places[at] == i);
        }
        assert forall|k: int| 0 <= k < places.len() implies is_better(
            entries,
            scores,
            #[trigger] places[k],
            i,
        ) by {
            assert(places[k] == ranking[k]);
            assert(outranks(query, entries, totals, ranking[k], ranking[at]));
        }
    }
    assert(is_search(sought, entries, scores, limit, found, places));
}

/// Where something is sought and two entries match, the one with the higher score of the search
/// stands before the other, whatever zoxide's own scores are.
pub proof fn law_higher_scores_come_first(
    query: Seq<char>,
    entries: Seq<ZoxideEntry>,
    totals: Seq<u64>,
    limit: int,
    found: Seq<ZoxideMatch>,
    i: int,
    j: int,
)
    requires
        is_best(query, entries, totals, limit, found),
        totals.len() == entries.len(),
        0 <= limit,
        exists|k: int| 0 <= k < query.len() && !is_white(#[trigger] query[k]),
        0 <= i < entries.len(),
        0 <= j < entries.len(),
        all_spread(query, entries[i].path@),
        all_spread(query, entries[j].path@),
        score_key(totals[i]) > score_key(totals[j]),
    ensures
        is_above(totals[i], totals[j]),
        exists|places: Seq<int>| #[trigger]
            comes_from(entries, totals, found, places) && (places.contains(j) ==> stands_before(
                places,
                i,
                j,
            )),
{
    let own = Seq::new(entries.len(), |k: int| entries[k].zoxide_score);
    law_search_shows_the_best(query, entries, totals, own, limit, found);
    law_keys_order_numbers(totals[i], totals[j]);
    let places = choose|places: Seq<int>| #[trigger]
        is_search(query, entries, totals, limit, found, places);
    if places.contains(j) {
        let b = choose|b: int| 0 <= b < places.len() && places[b] == j;
        if !places.contains(i) {
            assert(is_better(entries, totals, places[b], i));
        }
        let a = choose|a: int| 0 <= a < places.len() && places[a] == i;
        if b < a {
            assert(is_better(entries, totals, places[b], places[a]));
        }
        assert(places[a] == i && places[b] == j && a < b);
    }
}

/// Whether one number stands before another.
pub open spec fn stands_before(places: Seq<int>, i: int, j: int) -> bool {
    exists|a: int, b: int|
        0 <= a < b < places.len() && #[trigger] places[a] == i && #[trigger] places[b] == j
}

proof fn lemma_all_spread(query: Seq<char>, path: Seq<char>)
    ensures
        all_spread(query, path) == matches_query(query, path),
{
    let terms = query_terms(query);
    assert forall|k: int| 0 <= k < terms.len() implies is_spread(#[trigger] terms[k], lowered(path))
        == (find_term(terms[k], lowered(path)) is Some) by {
        law_terms_are_found_where_spread(terms[k], lowered(path));
    }
}

proof fn lemma_blank_query(query: Seq<char>)
    requires
        trimmed(query).len() == 0,
    ensures
        query_terms(query).len() == 0,
{
    assert(lowered(trimmed(query)) =~= Seq::empty());
}

/// Searches the entries. `totals` holds the scores of the search for those that match; what it
/// holds for others, and all of it where nothing is sought, does not matter.
pub fn fuzzy_filter(
    query: &str,
    entries: &[ZoxideEntry],
    totals: &[u64],
    limit: usize,
) -> (r: Vec<ZoxideMatch>)
    requires
        totals@.len() == entries@.len(),
    ensures
        is_best(query@, entries@, totals@, limit as int, r@),
{
    let blank = trim(query).unicode_len() == 0;
    let mut kept: Vec<usize> = Vec::new();
    let mut keys: Vec<SortKey> = Vec::new();
    let mut i: usize = 0;
    while i < entries.len()
        invariant
            totals@.len() == entries@.len(),
            blank == (trimmed(query@).len() == 0),
            i <= entries@.len(),
            kept@.len() == keys@.len(),
            forall|a: int|
                0 <= a < kept@.len() ==> (#[trigger] kept@[a]) < i && matches_query(
                    query@,
                    entries@[kept@[a] as int].path@,
                ) && is_key_of(query@, entries@, totals@, kept@[a] as int, keys@[a]),
            forall|a: int, b: int| 0 <= a < b < kept@.len() ==> kept@[a] < kept@[b],
            forall|k: int|
                0 <= k < i && matches_query(query@, (#[trigger] entries@[k]).path@)
                    ==> exists|a: int| 0 <= a < kept@.len() && #[trigger] kept@[a] == k,
        decreases entries@.len() - i,
    {
        let ghost kept_before = kept@;
        if fuzzy_match(query, entries[i].path.as_str()).is_some() {
            let total = if blank {
                entries[i].zoxide_score
            } else {
                totals[i]
            };
            keys.push(
                SortKey {
                    first: total_order(total),
                    second: total_order(entries[i].zoxide_score),
                },
            );
            kept.push(i);
            assert(kept@[kept@.len() - 1] == i);
            assert forall|k: int|
                0 <= k < i + 1 && matches_query(
                    query@,
                    (#[trigger] entries@[k]).path@,
                ) implies exists|a: int| 0 <= a < kept@.len() && #[trigger] kept@[a] == k by {
                if k < i {
                    let a = choose|a: int|
                        0 <= a < kept_before.len() && #[trigger] kept_before[a] == k;
                    assert(kept@[a] == k);
                }
            }
        }
        i += 1;
    }
    let order = order_by(&keys);
    let ghost ranking = Seq::new(order@.len(), |a: int| kept@[order@[a] as int] as int);
    proof {
        lemma_ranking(query@, entries@, totals@, kept@, keys@, order@, ranking);
    }
    let mut r: Vec<ZoxideMatch> = Vec::new();
    let mut k: usize = 0;
    while k < order.len() && k < limit
        invariant
            totals@.len() == entries@.len(),
            blank == (trimmed(query@).len() == 0),
            kept@.len() == keys@.len(),
            is_order(keys@, order@),
            ranking == Seq::new(order@.len(), |a: int| kept@[order@[a] as int] as int),
            forall|a: int| 0 <= a < kept@.len() ==> (#[trigger] kept@[a]) < entries@.len(),
            k <= order@.len(),
            k <= limit,
            r@.len() == k,
            forall|a: int|
                0 <= a < k ==> is_match_of(
                    query@,
                    entries@,
                    totals@,
                    ranking[a],
                    #[trigger] r@[a],
                ),
        decreases order@.len() - k,
    {
        let entry = kept[order[k]];
        let total = if blank {
            entries[entry].zoxide_score
        } else {
            totals[entry]
        };
        r.push(
            ZoxideMatch {
                path: entries[entry].path.clone(),
                zoxide_score: entries[entry].zoxide_score,
                total_score: total,
            },
        );
        k += 1;
    }
    assert(is_ranking(query@, entries@, totals@, ranking));
    r
}

spec fn is_key_of(
    query: Seq<char>,
    entries: Seq<ZoxideEntry>,
    totals: Seq<u64>,
    i: int,
    key: SortKey,
) -> bool {
    key.first == score_key(total_of(query, entries, totals, i)) && key.second == score_key(
        entries[i].zoxide_score,
    )
}

proof fn lemma_ranking(
    query: Seq<char>,
    entries: Seq<ZoxideEntry>,
    totals: Seq<u64>,
    kept: Seq<usize>,
    keys: Seq<SortKey>,
    order: Seq<usize>,
    ranking: Seq<int>,
)
    requires
        kept.len() == keys.len(),
        is_order(keys, order),
        ranking == Seq::new(order.len(), |a: int| kept[order[a] as int] as int),
        forall|a: int|
            0 <= a < kept.len() ==> (#[trigger] kept[a]) < entries.len() && matches_query(
                query,
                entries[kept[a] as int].path@,
            ) && is_key_of(query, entries, totals, kept[a] as int, keys[a]),
        forall|a: int, b: int| 0 <= a < b < kept.len() ==> kept[a] < kept[b],
        forall|k: int|
            0 <= k < entries.len() && matches_query(query, (#[trigger] entries[k]).path@)
                ==> exists|a: int| 0 <= a < kept.len() && #[trigger] kept[a] == k,
    ensures
        is_ranking(query, entries, totals, ranking),
{
    assert forall|a: int| 0 <= a < ranking.len() implies 0 <= #[trigger] ranking[a] < entries.len()
        && matches_query(query, entries[ranking[a]].path@) by {
        let x = order[a] as int;
        assert(x < keys.len());
        assert(kept[x] < entries.len());
    }
    assert forall|a: int, b: int| 0 <= a < b < ranking.len() implies #[trigger] outranks(
        query,
        entries,
        totals,
        ranking[a],
        ranking[b],
    ) by {
        let (x, y) = (order[a] as int, order[b] as int);
        assert(comes_before(keys, x, y));
        assert(is_key_of(query, entries, totals, kept[x] as int, keys[x]));
        assert(is_key_of(query, entries, totals, kept[y] as int, keys[y]));
    }
    assert forall|i: int|
        0 <= i < entries.len() && matches_query(
            query,
            (#[trigger] entries[i]).path@,
        ) implies ranking.contains(i) by {
        let x = choose|x: int| 0 <= x < kept.len() && #[trigger] kept[x] == i;
        assert(is_named(order, x));
        let a = choose|a: int| 0 <= a < order.len() && #[trigger] order[a] == x;
        assert(ranking[a] == i);
    }
}

/// The first session, by the order of the list, whose directory is this place.
pub open spec fn is_first_at(places: Seq<Place>, place: Place, i: int) -> bool {
    &&& 0 <= i < places.len()
    &&& is_same_place(places[i], place)
    &&& forall|k: int| 0 <= k < i ==> !is_same_place(#[trigger] places[k], place)
}

/// Finds the first session whose directory is this place; `places` are the directories of the
/// sessions.
pub fn session_at(places: &[Place], place: &Place) -> (r: Option<usize>)
    ensures
        match r {
            Some(i) => is_first_at(places@, *place, i as int),
            None => forall|k: int| 0 <= k < places@.len() ==> !is_same_place(
                #[trigger] places@[k],
                *place,
            ),
        },
{
    let mut i: usize = 0;
    while i < places.len()
        invariant
            i <= places@.len(),
            forall|k: int| 0 <= k < i ==> !is_same_place(#[trigger] places@[k], *place),
        decreases places@.len() - i,
    {
        if paths_equal(&places[i], place) {
            return Some(i);
        }
        i += 1;
    }
    None
}

/// Whether the active session is the one with this name.
pub open spec fn is_active(active: Option<String>, name: Seq<char>) -> bool {
    active matches Some(current) && current@ == name
}

/// How early a directory is shown: first that of the active session, then those of other
/// sessions, then the rest.
pub open spec fn rank(
    sessions: Seq<SessionInfo>,
    places: Seq<Place>,
    active: Option<String>,
    place: Place,
) -> u8 {
    if exists|i: int| #[trigger]
        is_first_at(places, place, i) && is_active(active, sessions[i].name@) {
        0
    } else if exists|i: int| is_first_at(places, place, i) {
        1
    } else {
        2
    }
}

/// A directory comes first where the first session in it is the active one, second where it is
/// another.
pub proof fn law_rank_of_a_session(
    sessions: Seq<SessionInfo>,
    places: Seq<Place>,
    active: Option<String>,
    place: Place,
    i: int,
)
    requires
        0 <= i < places.len(),
        is_same_place(places[i], place),
        forall|k: int| 0 <= k < i ==> !is_same_place(#[trigger] places[k], place),
    ensures
        rank(sessions, places, active, place) == (match active {
            Some(name) => if name@ == sessions[i].name@ {
                0int
            } else {
                1
            },
            None => 1,
        }),
{
    assert(is_first_at(places, place, i));
    assert forall|k: int| #[trigger] is_first_at(places, place, k) implies k == i by {
        if k < i {
            assert(!is_same_place(places[k], place));
        } else if i < k {
            assert(!is_same_place(places[i], place));
        }
    }
}

/// A directory without a session comes last.
pub proof fn law_rank_without_a_session(
    sessions: Seq<SessionInfo>,
    places: Seq<Place>,
    active: Option<String>,
    place: Place,
)
    requires
        forall|k: int| 0 <= k < places.len() ==> !is_same_place(#[trigger] places[k], place),
    ensures
        rank(sessions, places, active, place) == 2,
{
    assert forall|k: int| !(#[trigger] is_first_at(places, place, k)) by {
        if 0 <= k < places.len() {
            assert(!is_same_place(places[k], place));
        }
    }
}

/// On a line of zoxide's answer, the score is the first word, and the path all behind it, both
/// without the white space around them.
pub proof fn law_scored_lines(front: Seq<char>, score: Seq<char>, white: char, path: Seq<char>)
    requires
        forall|i: int| 0 <= i < front.len() ==> is_white(#[trigger] front[i]),
        score.len() > 0,
        forall|i: int| 0 <= i < score.len() ==> !is_white(#[trigger] score[i]),
        is_white(white),
    ensures
        trimmed(path).len() > 0 ==> scored_line(front + score.push(white) + path) == Some(
            (score, trimmed(path)),
        ),
        trimmed(path).len() == 0 ==> scored_line(front + score.push(white) + path) is None,
        scored_line(front + score) is None,
        scored_line(front) is None,
{
    let line = front + score.push(white) + path;
    let text = score.push(white) + path;
    assert(line =~= front + text);
    assert(text[0] == score[0]);
    lemma_trimmed_start_after(front, text);
    assert(!is_white(score[0]));
    lemma_trimmed_start_after(front, score);
    assert(front + Seq::<char>::empty() =~= front);
    lemma_trimmed_start_after(front, Seq::empty());
    lemma_word_end_before(score, white, path);
    lemma_word_end_whole(score);
    assert(text.take(score.len() as int) =~= score);
    let rest = text.skip(score.len() as int);
    assert(rest[0] == white);
    assert(rest.drop_first() =~= path);
}

proof fn lemma_trimmed_start_after(front: Seq<char>, text: Seq<char>)
    requires
        forall|i: int| 0 <= i < front.len() ==> is_white(#[trigger] front[i]),
        text.len() > 0 ==> !is_white(text[0]),
    ensures
        trimmed_start(front + text) == text,
    decreases front.len(),
{
    if front.len() == 0 {
        assert(front + text =~= text);
    } else {
        let rest = front.drop_first();
        assert((front + text)[0] == front[0]);
        assert((front + text).drop_first() =~= rest + text);
        assert forall|i: int| 0 <= i < rest.len() implies is_white(#[trigger] rest[i]) by {
            assert(rest[i] == front[i + 1]);
        }
        lemma_trimmed_start_after(rest, text);
    }
}

/// The lines that hold a score and a path are read, in order, and no others.
pub proof fn law_lines_are_read_in_order(lines: Seq<Seq<char>>, more: Seq<Seq<char>>)
    ensures
        scored_of(Seq::empty()) == Seq::<(Seq<char>, Seq<char>)>::empty(),
        lines.len() == 1 ==> scored_of(lines) == (match scored_line(lines[0]) {
            Some(scored) => seq![scored],
            None => Seq::empty(),
        }),
        scored_of(lines + more) == scored_of(lines) + scored_of(more),
    decreases more.len(),
{
    if lines.len() == 1 {
        assert(lines.drop_last() =~= Seq::empty());
        assert(scored_of(lines.drop_last()) =~= Seq::empty());
        if let Some(scored) = scored_line(lines[0]) {
            assert(scored_of(lines) =~= seq![scored]);
        }
    }
    if more.len() == 0 {
        assert(lines + more =~= lines);
        assert(scored_of(lines + more) =~= scored_of(lines) + scored_of(more));
    } else {
        law_lines_are_read_in_order(lines, more.drop_last());
        assert((lines + more).drop_last() =~= lines + more.drop_last());
        assert(scored_of(lines + more) =~= scored_of(lines) + scored_of(more));
    }
}

/// How early a directory is shown; `places` are the directories of the sessions.
pub fn zoxide_rank_for_path(
    sessions: &[SessionInfo],
    places: &[Place],
    active: &Option<String>,
    place: &Place,
) -> (r: u8)
    requires
        places@.len() == sessions@.len(),
    ensures
        r == rank(sessions@, places@, *active, *place),
{
    match session_at(places, place) {
        Some(i) => {
            assert(is_first_at(places@, *place, i as int));
            assert forall|k: int| #[trigger] is_first_at(places@, *place, k) implies k == i by {
                if k < i {
                    assert(!is_same_place(places@[k], *place));
                } else if i < k {
                    assert(!is_same_place(places@[i as int], *place));
                }
            }
            match active {
                Some(name) => if same_text(name.as_str(), sessions[i].name.as_str()) {
                    0
                } else {
                    1
                },
                None => 1,
            }
        },
        None => {
            assert forall|k: int| !(#[trigger] is_first_at(places@, *place, k)) by {
                if 0 <= k < places@.len() {
                    assert(!is_same_place(places@[k], *place));
                }
            }
            2
        },
    }
}

} // verus!
