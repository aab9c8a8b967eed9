//! Character-level text operations and their models on `Seq<char>`.

use vstd::prelude::*;

verus! {

/// The characters with the Unicode property `White_Space`.
pub open spec fn is_white(c: char) -> bool {
    ||| '\u{9}' <= c <= '\u{d}'
    ||| c == '\u{20}'
    ||| c == '\u{85}'
    ||| c == '\u{a0}'
    ||| c == '\u{1680}'
    ||| '\u{2000}' <= c <= '\u{200a}'
    ||| c == '\u{2028}'
    ||| c == '\u{2029}'
    ||| c == '\u{202f}'
    ||| c == '\u{205f}'
    ||| c == '\u{3000}'
}

/// `char::is_whitespace` of std: true exactly of the characters with the property
/// `White_Space`, which `is_white` lists.
pub assume_specification[ char::is_whitespace ](c: char) -> (r: bool)
    ensures
        r == is_white(c),
;

/// `String::push` of std: appends one character.
pub assume_specification[ String::push ](s: &mut String, c: char)
    ensures
        final(s)@ == old(s)@.push(c),
;

/// The characters of a string, in order.
pub fn chars_of(s: &str) -> (r: Vec<char>)
    ensures
        r@ == s@,
{
    let mut r: Vec<char> = Vec::new();
    for c in it: s.chars()
        invariant
            it.seq() == s@,
            r@ == s@.take(it.index() as int),
    {
        r.push(c);
        assert(s@.take(it.index() as int + 1) == s@.take(it.index() as int).push(c));
    }
    assert(s@.take(s@.len() as int) == s@);
    r
}

/// Whether two strings hold the same characters.
pub fn same_text(a: &str, b: &str) -> (r: bool)
    ensures
        r == (a@ == b@),
{
    let x = a.as_bytes();
    let y = b.as_bytes();
    proof {
        vstd::utf8::encode_utf8_decode_utf8(a@);
        vstd::utf8::encode_utf8_decode_utf8(b@);
    }
    if x.len() != y.len() {
        return false;
    }
    let mut i: usize = 0;
    while i < x.len()
        invariant
            x@ == vstd::utf8::encode_utf8(a@),
            y@ == vstd::utf8::encode_utf8(b@),
            x@.len() == y@.len(),
            i <= x@.len(),
            x@.take(i as int) == y@.take(i as int),
        decreases x@.len() - i,
    {
        if x[i] != y[i] {
            return false;
        }
        i += 1;
        assert(x@.take(i as int) == x@.take(i - 1).push(x@[i - 1]));
        assert(y@.take(i as int) == y@.take(i - 1).push(y@[i - 1]));
    }
    assert(x@.take(i as int) == x@);
    assert(y@.take(i as int) == y@);
    true
}

/// `s` without the white space in front.
pub open spec fn trimmed_start(s: Seq<char>) -> Seq<char>
    decreases s.len(),
{
    if s.len() > 0 && is_white(s[0]) {
        trimmed_start(s.drop_first())
    } else {
        s
    }
}

/// `s` without the white space at the end.
pub open spec fn trimmed_end(s: Seq<char>) -> Seq<char>
    decreases s.len(),
{
    if s.len() > 0 && is_white(s.last()) {
        trimmed_end(s.drop_last())
    } else {
        s
    }
}

/// `s` without the white space at either end.
pub open spec fn trimmed(s: Seq<char>) -> Seq<char> {
    trimmed_end(trimmed_start(s))
}

/// Trimming a text that was trimmed changes nothing.
pub proof fn law_trimmed_is_stable(s: Seq<char>)
    ensures
        trimmed(trimmed(s)) == trimmed(s),
{
    lemma_trimmed_start_clean(s);
    lemma_trimmed_end_clean(trimmed_start(s));
}

proof fn lemma_trimmed_start_clean(s: Seq<char>)
    ensures
        trimmed_start(s).len() > 0 ==> !is_white(
            trimmed_start(s)[0],
        ),
    decreases s.len(),
{
    if s.len() > 0 && is_white(s[0]) {
        lemma_trimmed_start_clean(s.drop_first());
    }
}

proof fn lemma_trimmed_end_clean(s: Seq<char>)
    ensures
        trimmed_end(s).len() > 0 ==> {
            &&& !is_white(trimmed_end(s).last())
            &&& trimmed_end(s)[0] == s[0]
        },
        trimmed_end(s).len() <= s.len(),
    decreases s.len(),
{
    if s.len() > 0 && is_white(s.last()) {
        lemma_trimmed_end_clean(s.drop_last());
    }
}

/// What is trimmed off is white space, and all that stands at either end: the trimmed text is
/// what is left between the places returned.
pub proof fn law_trimmed_leaves_the_middle(s: Seq<char>) -> (at: (int, int))
    ensures
        0 <= at.0 <= at.1 <= s.len(),
        trimmed(s) == s.subrange(at.0, at.1),
        forall|i: int| 0 <= i < at.0 || at.1 <= i < s.len() ==> is_white(#[trigger] s[i]),
        at.0 < at.1 ==> !is_white(s[at.0]) && !is_white(s[at.1 - 1]),
{
    let from = lemma_trimmed_start_place(s);
    let rest = s.skip(from);
    let to = law_trimmed_end_leaves_the_front(rest);
    assert(rest.take(to) =~= s.subrange(from, from + to));
    assert forall|i: int| from + to <= i < s.len() implies is_white(#[trigger] s[i]) by {
        assert(rest[i - from] == s[i]);
    }
    assert(to > 0 ==> rest[0] == s[from] && rest[to - 1] == s[from + to - 1]);
    (from, from + to)
}

proof fn lemma_trimmed_start_place(s: Seq<char>) -> (from: int)
    ensures
        0 <= from <= s.len(),
        trimmed_start(s) == s.skip(from),
        forall|i: int| 0 <= i < from ==> is_white(#[trigger] s[i]),
        from < s.len() ==> !is_white(s[from]),
    decreases s.len(),
{
    if s.len() > 0 && is_white(s[0]) {
        let rest = s.drop_first();
        let from = lemma_trimmed_start_place(rest);
        assert(rest.skip(from) =~= s.skip(from + 1));
        assert forall|i: int| 0 <= i < from + 1 implies is_white(#[trigger] s[i]) by {
            if i > 0 {
                assert(rest[i - 1] == s[i]);
            }
        }
        from + 1
    } else {
        assert(s.skip(0) =~= s);
        0
    }
}

/// What is trimmed off the end is white space, and all that stands there.
pub proof fn law_trimmed_end_leaves_the_front(s: Seq<char>) -> (to: int)
    ensures
        0 <= to <= s.len(),
        trimmed_end(s) == s.take(to),
        forall|i: int| to <= i < s.len() ==> is_white(#[trigger] s[i]),
        to > 0 ==> !is_white(s[to - 1]),
    decreases s.len(),
{
    if s.len() > 0 && is_white(s.last()) {
        let rest = s.drop_last();
        let to = law_trimmed_end_leaves_the_front(rest);
        assert(rest.take(to) =~= s.take(to));
        assert forall|i: int| to <= i < s.len() implies is_white(#[trigger] s[i]) by {
            if i < rest.len() {
                assert(rest[i] == s[i]);
            }
        }
        assert(to > 0 ==> rest[to - 1] == s[to - 1]);
        to
    } else {
        assert(s.take(s.len() as int) =~= s);
        s.len() as int
    }
}

/// Nothing is left of a text exactly where it is all white space.
pub proof fn law_blank_is_all_white(s: Seq<char>)
    ensures
        trimmed(s).len() == 0 <==> forall|i: int| 0 <= i < s.len() ==> is_white(#[trigger] s[i]),
{
    let at = law_trimmed_leaves_the_middle(s);
    if forall|i: int| 0 <= i < s.len() ==> is_white(#[trigger] s[i]) {
        assert(at.0 < at.1 ==> is_white(s[at.0]));
    }
}

/// `str::trim_start`.
pub fn trim_start<'a>(s: &'a str) -> (r: &'a str)
    ensures
        r@ == trimmed_start(s@),
{
    let chars = chars_of(s);
    let n = chars.len();
    let mut i: usize = 0;
    assert(s@.skip(0) =~= s@);
    while i < n && chars[i].is_whitespace()
        invariant
            n == chars@.len(),
            chars@ == s@,
            i <= n,
            trimmed_start(s@) == trimmed_start(s@.skip(i as int)),
        decreases n - i,
    {
        assert(s@.skip(i as int).drop_first() =~= s@.skip(i + 1));
        i += 1;
    }
    assert(s@.skip(i as int) =~= s@.subrange(i as int, n as int));
    s.substring_char(i, n)
}

/// `str::trim_end`.
pub fn trim_end<'a>(s: &'a str) -> (r: &'a str)
    ensures
        r@ == trimmed_end(s@),
{
    let chars = chars_of(s);
    let mut n = chars.len();
    assert(s@.take(n as int) =~= s@);
    while n > 0 && chars[n - 1].is_whitespace()
        invariant
            chars@ == s@,
            n <= chars@.len(),
            trimmed_end(s@) == trimmed_end(s@.take(n as int)),
        decreases n,
    {
        assert(s@.take(n as int).drop_last() =~= s@.take(n - 1));
        n -= 1;
    }
    assert(s@.take(n as int) =~= s@.subrange(0, n as int));
    s.substring_char(0, n)
}

/// `str::trim`.
pub fn trim<'a>(s: &'a str) -> (r: &'a str)
    ensures
        r@ == trimmed(s@),
{
    trim_end(trim_start(s))
}

/// The lower case of an ASCII capital; every other character as it is.
pub open spec fn lower(c: char) -> char {
    if 'A' <= c <= 'Z' {
        ((c as u32) + 32) as char
    } else {
        c
    }
}

/// Every ASCII capital in lower case.
pub open spec fn lowered(s: Seq<char>) -> Seq<char> {
    s.map_values(|c: char| lower(c))
}

/// Lower case changes the letters from `A` to `Z`, each to the one 32 places on, and nothing else.
pub proof fn law_lower_case(s: Seq<char>, i: int)
    requires
        0 <= i < s.len(),
    ensures
        lowered(s).len() == s.len(),
        0x41 <= s[i] as u32 <= 0x5a ==> lowered(s)[i] as u32 == s[i] as u32 + 32,
        !(0x41 <= s[i] as u32 <= 0x5a) ==> lowered(s)[i] == s[i],
{
}

/// `char::to_ascii_lowercase`.
pub fn lower_char(c: char) -> (r: char)
    ensures
        r == lower(c),
{
    if 'A' <= c && c <= 'Z' {
        (c as u8 + 32) as char
    } else {
        c
    }
}

/// `str::to_ascii_lowercase`.
pub fn to_lower(s: &str) -> (r: String)
    ensures
        r@ == lowered(s@),
{
    let mut r = String::new();
    for c in it: s.chars()
        invariant
            it.seq() == s@,
            r@ == lowered(s@.take(it.index() as int)),
    {
        r.push(lower_char(c));
        assert(lowered(s@.take(it.index() + 1)) =~= lowered(s@.take(it.index() as int)).push(
            lower(c),
        ));
    }
    assert(s@.take(s@.len() as int) =~= s@);
    r
}

/// Whether a character is an ASCII letter or digit.
pub open spec fn is_alphanumeric(c: char) -> bool {
    'a' <= c <= 'z' || 'A' <= c <= 'Z' || '0' <= c <= '9'
}

/// `char::is_ascii_alphanumeric`.
pub fn is_ascii_alphanumeric(c: char) -> (r: bool)
    ensures
        r == is_alphanumeric(c),
{
    ('a' <= c && c <= 'z') || ('A' <= c && c <= 'Z') || ('0' <= c && c <= '9')
}

/// The decimal digits of a number.
pub open spec fn digits(n: nat) -> Seq<char>
    decreases n,
{
    let last = ('0' as u32 + (n % 10) as u32) as char;
    if n < 10 {
        seq![last]
    } else {
        digits(n / 10).push(last)
    }
}

/// A number in decimal.
pub fn decimal(n: u128) -> (r: String)
    ensures
        r@ == digits(n as nat),
    decreases n,
{
    let last = (48u8 + (n % 10) as u8) as char;
    if n < 10 {
        let mut r = String::new();
        r.push(last);
        assert(r@ =~= digits(n as nat));
        r
    } else {
        let mut r = decimal(n / 10);
        r.push(last);
        r
    }
}

/// `a` followed by `b`.
pub fn joined(a: &str, b: &str) -> (r: String)
    ensures
        r@ == a@ + b@,
{
    let mut r = a.to_owned();
    r.append(b);
    r
}

/// The order of texts: that of the first characters that differ, and a text comes after each
/// of its proper prefixes.
pub open spec fn precedes(a: Seq<char>, b: Seq<char>) -> bool
    decreases a.len(),
{
    if a.len() == 0 || b.len() == 0 {
        a.len() < b.len()
    } else if a[0] != b[0] {
        a[0] < b[0]
    } else {
        precedes(a.drop_first(), b.drop_first())
    }
}

/// The first difference decides the order; without one, the shorter text comes first.
pub proof fn law_order_by_first_difference(
    same: Seq<char>,
    x: char,
    a: Seq<char>,
    y: char,
    b: Seq<char>,
)
    ensures
        (x as u32) < (y as u32) ==> precedes(same.push(x) + a, same.push(y) + b),
        (x as u32) < (y as u32) ==> !precedes(same.push(y) + b, same.push(x) + a),
        precedes(same, same.push(x) + a),
        !precedes(same.push(x) + a, same),
        !precedes(same, same),
    decreases same.len(),
{
    let (s, t) = (same.push(x) + a, same.push(y) + b);
    if same.len() == 0 {
        assert(s[0] == x && t[0] == y);
    } else {
        let rest = same.drop_first();
        assert(s[0] == same[0] && t[0] == same[0]);
        assert(s.drop_first() =~= rest.push(x) + a);
        assert(t.drop_first() =~= rest.push(y) + b);
        law_order_by_first_difference(rest, x, a, y, b);
    }
}

/// Of two texts, exactly one of these holds: the first precedes the second, the second
/// precedes the first, they are equal.
pub proof fn law_order_is_total(a: Seq<char>, b: Seq<char>)
    ensures
        a == b ==> !precedes(a, b),
        precedes(a, b) ==> !precedes(b, a),
        a == b || precedes(a, b) || precedes(b, a),
    decreases a.len(),
{
    if a.len() > 0 && b.len() > 0 && a[0] == b[0] {
        law_order_is_total(a.drop_first(), b.drop_first());
        if a.drop_first() == b.drop_first() {
            assert(a =~= seq![a[0]] + a.drop_first());
            assert(b =~= seq![b[0]] + b.drop_first());
        }
    } else if a.len() == 0 && b.len() == 0 {
        assert(a =~= b);
    }
}

/// The order is transitive.
pub proof fn law_order_is_transitive(a: Seq<char>, b: Seq<char>, c: Seq<char>)
    requires
        precedes(a, b),
        precedes(b, c),
    ensures
        precedes(a, c),
    decreases a.len(),
{
    if a.len() > 0 && c.len() > 0 && a[0] == b[0] && b[0] == c[0] {
        law_order_is_transitive(a.drop_first(), b.drop_first(), c.drop_first());
    }
}

/// `str::lt`: whether the first text precedes the second.
pub fn text_precedes(a: &str, b: &str) -> (r: bool)
    ensures
        r == precedes(a@, b@),
{
    let x = chars_of(a);
    let y = chars_of(b);
    let mut i: usize = 0;
    assert(x@.skip(0) =~= x@);
    assert(y@.skip(0) =~= y@);
    while i < x.len() && i < y.len()
        invariant
            i <= x@.len(),
            i <= y@.len(),
            x@ == a@,
            y@ == b@,
            precedes(a@, b@) == precedes(x@.skip(i as int), y@.skip(i as int)),
        decreases x@.len() - i,
    {
        if x[i] != y[i] {
            return x[i] < y[i];
        }
        assert(x@.skip(i as int).drop_first() =~= x@.skip(i + 1));
        assert(y@.skip(i as int).drop_first() =~= y@.skip(i + 1));
        i += 1;
    }
    x.len() < y.len()
}

/// Whether `part` stands in `s` at `at`.
pub open spec fn is_part_at(s: Seq<char>, at: int, part: Seq<char>) -> bool {
    0 <= at <= s.len() - part.len() && s.subrange(at, at + part.len()) == part
}

/// Whether `part` stands somewhere in `s`.
pub open spec fn holds_part(s: Seq<char>, part: Seq<char>) -> bool {
    exists|at: int| is_part_at(s, at, part)
}

/// A part stands in a text exactly where the text is the part with something, or nothing, before
/// and behind it.
pub proof fn law_parts(s: Seq<char>, part: Seq<char>)
    ensures
        holds_part(s, part) <==> exists|a: Seq<char>, b: Seq<char>| s == #[trigger] (a + part + b),
{
    if holds_part(s, part) {
        let at = choose|at: int| is_part_at(s, at, part);
        let (a, b) = (s.take(at), s.skip(at + part.len()));
        assert(s =~= a + part + b);
    }
    if exists|a: Seq<char>, b: Seq<char>| s == #[trigger] (a + part + b) {
        let (a, b): (Seq<char>, Seq<char>) = choose|a: Seq<char>, b: Seq<char>|
            s == #[trigger] (a + part + b);
        assert(s.subrange(a.len() as int, a.len() as int + part.len()) =~= part);
        assert(is_part_at(s, a.len() as int, part));
    }
}

/// `str::contains`: whether `part` stands somewhere in `s`.
pub fn contains_text(s: &str, part: &str) -> (r: bool)
    ensures
        r == holds_part(s@, part@),
{
    let x = chars_of(s);
    let y = chars_of(part);
    if y.len() > x.len() {
        return false;
    }
    let last: usize = x.len() - y.len();
    let mut at: usize = 0;
    loop
        invariant
            x@ == s@,
            y@ == part@,
            last == x@.len() - y@.len(),
            at <= last,
            forall|k: int| 0 <= k < at ==> !is_part_at(s@, k, part@),
        decreases last - at,
    {
        let n = x.len();
        let mut i: usize = 0;
        while i < y.len() && x[at + i] == y[i]
            invariant
                x@ == s@,
                y@ == part@,
                last == x@.len() - y@.len(),
                at <= last,
                i <= y@.len(),
                x@.len() == n,
                forall|k: int| 0 <= k < i ==> x@[at + k] == y@[k],
            decreases y@.len() - i,
        {
            i += 1;
        }
        if i == y.len() {
            assert(s@.subrange(at as int, at + part@.len()) =~= part@);
            assert(is_part_at(s@, at as int, part@));
            return true;
        }
        assert(s@.subrange(at as int, at + part@.len())[i as int] != part@[i as int]);
        if at == last {
            return false;
        }
        at += 1;
    }
}

/// The end of the run of characters in front that are not white space.
pub open spec fn word_end(s: Seq<char>) -> int
    decreases s.len(),
{
    if s.len() > 0 && !is_white(s[0]) {
        1 + word_end(s.drop_first())
    } else {
        0
    }
}

proof fn lemma_word_end_bounds(s: Seq<char>)
    ensures
        0 <= word_end(s) <= s.len(),
        s.len() > 0 && !is_white(s[0]) ==> word_end(s) > 0,
    decreases s.len(),
{
    if s.len() > 0 && !is_white(s[0]) {
        lemma_word_end_bounds(s.drop_first());
    }
}

/// The words of a text: its longest runs without white space.
pub open spec fn words(s: Seq<char>) -> Seq<Seq<char>>
    decreases s.len(),
{
    if s.len() == 0 {
        Seq::empty()
    } else if is_white(s[0]) {
        words(s.drop_first())
    } else if 0 < word_end(s) <= s.len() {
        seq![s.take(word_end(s))] + words(s.skip(word_end(s)))
    } else {
        Seq::empty()
    }
}

/// A text without white space, unless it is empty, is one word.
pub proof fn law_word_alone(s: Seq<char>)
    requires
        forall|i: int| 0 <= i < s.len() ==> !is_white(#[trigger] s[i]),
    ensures
        s.len() == 0 ==> words(s) == Seq::<Seq<char>>::empty(),
        s.len() > 0 ==> words(s) == seq![s],
{
    if s.len() > 0 {
        lemma_word_end_whole(s);
        assert(s.take(s.len() as int) =~= s);
        assert(s.skip(s.len() as int) =~= Seq::empty());
        assert(!is_white(s[0]));
        assert(words(s.skip(s.len() as int)) =~= Seq::empty());
        assert(words(s) =~= seq![s]);
    }
}

/// A text without white space is a word to its end.
pub proof fn lemma_word_end_whole(s: Seq<char>)
    requires
        forall|i: int| 0 <= i < s.len() ==> !is_white(#[trigger] s[i]),
    ensures
        word_end(s) == s.len(),
    decreases s.len(),
{
    if s.len() > 0 {
        let rest = s.drop_first();
        assert forall|i: int| 0 <= i < rest.len() implies !is_white(#[trigger] rest[i]) by {
            assert(rest[i] == s[i + 1]);
        }
        lemma_word_end_whole(rest);
    }
}

/// White space parts words: those of two texts with white space between them are those of both.
pub proof fn law_words_of_two(a: Seq<char>, white: char, b: Seq<char>)
    requires
        is_white(white),
    ensures
        words(a.push(white) + b) == words(a) + words(b),
    decreases a.len(),
{
    let s = a.push(white) + b;
    if a.len() == 0 {
        assert(s[0] == white);
        assert(s.drop_first() =~= b);
        assert(words(a) + words(b) =~= words(b));
    } else if is_white(a[0]) {
        assert(s[0] == a[0]);
        assert(s.drop_first() =~= a.drop_first().push(white) + b);
        law_words_of_two(a.drop_first(), white, b);
    } else {
        let n = word_end(a);
        assert(s[0] == a[0]);
        lemma_word_end_bounds(a);
        lemma_word_end_before(a, white, b);
        assert(s.take(n) =~= a.take(n));
        assert(s.skip(n) =~= a.skip(n).push(white) + b);
        law_words_of_two(a.skip(n), white, b);
        assert(words(s) =~= words(a) + words(b));
    }
}

/// White space ends a word.
pub proof fn lemma_word_end_before(a: Seq<char>, white: char, b: Seq<char>)
    requires
        is_white(white),
    ensures
        word_end(a.push(white) + b) == word_end(a),
    decreases a.len(),
{
    let s = a.push(white) + b;
    if a.len() == 0 {
        assert(s[0] == white);
    } else {
        assert(s[0] == a[0]);
        if !is_white(a[0]) {
            assert(s.drop_first() =~= a.drop_first().push(white) + b);
            lemma_word_end_before(a.drop_first(), white, b);
        }
    }
}

/// The texts that strings hold.
pub open spec fn texts(strings: Seq<String>) -> Seq<Seq<char>> {
    strings.map_values(|s: String| s@)
}

/// Each string stands for its text, in order.
pub proof fn law_texts(strings: Seq<String>, i: int)
    requires
        0 <= i < strings.len(),
    ensures
        texts(strings).len() == strings.len(),
        texts(strings)[i] == strings[i]@,
{
}

/// `str::split_whitespace`: the words of a text.
pub fn split_words(s: &str) -> (r: Vec<String>)
    ensures
        texts(r@) == words(s@),
{
    let chars = chars_of(s);
    let mut r: Vec<String> = Vec::new();
    let mut i: usize = 0;
    assert(chars@.skip(0) =~= chars@);
    assert(texts(r@) =~= Seq::empty());
    assert(texts(r@) + words(chars@) =~= words(chars@));
    while i < chars.len()
        invariant
            chars@ == s@,
            i <= chars@.len(),
            texts(r@) + words(chars@.skip(i as int)) == words(s@),
        decreases chars@.len() - i,
    {
        let ghost rest = chars@.skip(i as int);
        assert(rest[0] == chars@[i as int]);
        if chars[i].is_whitespace() {
            assert(rest.drop_first() =~= chars@.skip(i + 1));
            i += 1;
        } else {
            let start: usize = i;
            let mut word = String::new();
            assert(chars@.subrange(start as int, i as int) =~= word@);
            while i < chars.len() && !chars[i].is_whitespace()
                invariant
                    start <= i <= chars@.len(),
                    rest == chars@.skip(start as int),
                    word@ == chars@.subrange(start as int, i as int),
                    word_end(rest) == (i - start) + word_end(chars@.skip(i as int)),
                    i == start ==> start < chars@.len() && !is_white(chars@[start as int]),
                decreases chars@.len() - i,
            {
                let ghost here = chars@.skip(i as int);
                assert(here[0] == chars@[i as int]);
                assert(here.drop_first() =~= chars@.skip(i + 1));
                word.push(chars[i]);
                i += 1;
                assert(word@ =~= chars@.subrange(start as int, i as int));
            }
            proof {
                let here = chars@.skip(i as int);
                assert(i < chars@.len() ==> here[0] == chars@[i as int]);
                assert(word_end(here) == 0);
                lemma_word_end_bounds(rest);
                assert(rest.take(word_end(rest)) =~= word@);
                assert(rest.skip(word_end(rest)) =~= here);
            }
            let ghost before = texts(r@);
            r.push(word);
            assert(texts(r@) =~= before.push(word@));
            assert(texts(r@) + words(chars@.skip(i as int)) =~= before + words(rest));
        }
    }
    assert(chars@.skip(i as int) =~= Seq::empty());
    assert(texts(r@) + words(chars@.skip(i as int)) =~= texts(r@));
    r
}

/// The runs between the places where a character stands, empty ones included.
pub open spec fn between(s: Seq<char>, sep: char) -> Seq<Seq<char>>
    decreases s.len(),
{
    if s.len() == 0 {
        seq![Seq::empty()]
    } else {
        let front = between(s.drop_last(), sep);
        if s.last() == sep {
            front.push(Seq::empty())
        } else {
            front.drop_last().push(front.last().push(s.last()))
        }
    }
}

/// A text without the character is one run; the runs of two texts with the character between
/// them are those of both.
pub proof fn law_between(a: Seq<char>, sep: char, b: Seq<char>)
    ensures
        !a.contains(sep) ==> between(a, sep) == seq![a],
        between(a.push(sep) + b, sep) == between(a, sep) + between(b, sep),
{
    if !a.contains(sep) {
        lemma_one_run(a, sep);
    }
    lemma_runs_of_two(a, sep, b);
}

proof fn lemma_one_run(s: Seq<char>, sep: char)
    requires
        !s.contains(sep),
    ensures
        between(s, sep) == seq![s],
    decreases s.len(),
{
    if s.len() > 0 {
        let init = s.drop_last();
        assert(s.contains(s.last()));
        assert forall|i: int| 0 <= i < init.len() implies init[i] != sep by {
            assert(s.contains(s[i]));
        }
        lemma_one_run(init, sep);
        assert(init.push(s.last()) =~= s);
        assert(between(s, sep) =~= seq![s]);
    } else {
        assert(s =~= Seq::empty());
    }
}

/// There is always a run.
pub proof fn lemma_some_run(s: Seq<char>, sep: char)
    ensures
        between(s, sep).len() >= 1,
    decreases s.len(),
{
    if s.len() > 0 {
        lemma_some_run(s.drop_last(), sep);
    }
}

proof fn lemma_runs_of_two(a: Seq<char>, sep: char, b: Seq<char>)
    ensures
        between(a.push(sep) + b, sep) == between(a, sep) + between(b, sep),
    decreases b.len(),
{
    let s = a.push(sep) + b;
    if b.len() == 0 {
        assert(s =~= a.push(sep));
        assert(s.drop_last() =~= a);
        assert(between(s, sep) =~= between(a, sep) + between(b, sep));
    } else {
        lemma_runs_of_two(a, sep, b.drop_last());
        assert(s.drop_last() =~= a.push(sep) + b.drop_last());
        lemma_some_run(b.drop_last(), sep);
        let (x, y) = (between(a, sep), between(b.drop_last(), sep));
        assert((x + y).drop_last() =~= x + y.drop_last());
        assert((x + y).last() == y.last());
        assert(between(s, sep) =~= x + between(b, sep));
    }
}

/// Splits a text at a character; there is one run more than there are such characters.
pub fn split_between(s: &str, sep: char) -> (r: Vec<String>)
    ensures
        texts(r@) == between(s@, sep),
        r@.len() > 0,
{
    let chars = chars_of(s);
    let mut done: Vec<String> = Vec::new();
    let mut current = String::new();
    let mut i: usize = 0;
    assert(chars@.take(0) =~= Seq::empty());
    assert(texts(done@).push(current@) =~= between(chars@.take(0), sep));
    while i < chars.len()
        invariant
            chars@ == s@,
            i <= chars@.len(),
            texts(done@).push(current@) == between(chars@.take(i as int), sep),
        decreases chars@.len() - i,
    {
        let ghost before = texts(done@);
        let ghost run = current@;
        let c = chars[i];
        i += 1;
        proof {
            let front = chars@.take(i as int);
            assert(front.drop_last() =~= chars@.take(i - 1));
            assert(front.last() == c);
            assert(before.push(run).drop_last() =~= before);
        }
        if c == sep {
            done.push(current);
            current = String::new();
            assert(texts(done@) =~= before.push(run));
        } else {
            current.push(c);
        }
    }
    assert(chars@.take(i as int) =~= s@);
    let ghost before = texts(done@);
    let ghost run = current@;
    done.push(current);
    assert(texts(done@) =~= before.push(run));
    done
}

/// The offset in bytes of the character at `at`: the length of what stands before it.
pub open spec fn byte_offset(s: Seq<char>, at: int) -> int {
    vstd::utf8::encode_utf8(s.take(at)).len() as int
}

/// The number of bytes of a character.
pub fn char_width(c: char) -> (r: usize)
    ensures
        r == vstd::utf8::encode_scalar(c as u32).len(),
        1 <= r <= 4,
{
    let code: u32 = c as u32;
    if code <= 0x7f {
        1
    } else if code <= 0x7ff {
        2
    } else if code <= 0xffff {
        3
    } else {
        4
    }
}

/// The encoding of a text with a character added.
pub proof fn lemma_encode_push(s: Seq<char>, c: char)
    ensures
        vstd::utf8::encode_utf8(s.push(c)) == vstd::utf8::encode_utf8(s)
            + vstd::utf8::encode_scalar(c as u32),
    decreases s.len(),
{
    reveal_with_fuel(vstd::utf8::encode_utf8, 2);
    if s.len() == 0 {
        assert(s.push(c).drop_first() =~= s);
        assert(vstd::utf8::encode_utf8(s.push(c)) =~= vstd::utf8::encode_utf8(s)
            + vstd::utf8::encode_scalar(c as u32));
    } else {
        lemma_encode_push(s.drop_first(), c);
        assert(s.push(c).drop_first() =~= s.drop_first().push(c));
        assert(vstd::utf8::encode_utf8(s.push(c)) =~= vstd::utf8::encode_utf8(s)
            + vstd::utf8::encode_scalar(c as u32));
    }
}

/// The offset after a character.
pub proof fn lemma_offset_after(s: Seq<char>, at: int)
    requires
        0 <= at < s.len(),
    ensures
        byte_offset(s, at + 1) == byte_offset(s, at) + vstd::utf8::encode_scalar(
            s[at] as u32,
        ).len(),
{
    lemma_encode_push(s.take(at), s[at]);
    assert(s.take(at + 1) =~= s.take(at).push(s[at]));
}

/// Offsets grow with the place, up to the length of the whole in bytes.
pub proof fn lemma_offsets_grow(s: Seq<char>, a: int, b: int)
    requires
        0 <= a <= b <= s.len(),
    ensures
        0 <= byte_offset(s, a),
        byte_offset(s, a) + (b - a) <= byte_offset(s, b) <= vstd::utf8::encode_utf8(s).len(),
    decreases s.len() - a,
{
    assert(s.take(s.len() as int) =~= s);
    if a < b {
        lemma_offset_after(s, a);
        lemma_offsets_grow(s, a + 1, b);
    } else if b < s.len() {
        lemma_offset_after(s, b);
        lemma_offsets_grow(s, b + 1, b + 1);
    }
}

} // verus!
