//! Names for new sessions.

use crate::paths::{file_name, name_of};
use crate::protocol::SessionInfo;
use crate::text::{
    chars_of, decimal, digits, is_alphanumeric, is_ascii_alphanumeric, is_white, joined, lower,
    lower_char, lowered, same_text, texts, trimmed, trimmed_end, trimmed_start,
};
use vstd::prelude::*;

verus! {

/// The names of sessions.
pub open spec fn names(sessions: Seq<SessionInfo>) -> Seq<Seq<char>> {
    sessions.map_values(|session: SessionInfo| session.name@)
}

/// Whether a session has this name.
pub open spec fn is_taken(sessions: Seq<SessionInfo>, name: Seq<char>) -> bool {
    names(sessions).contains(name)
}

/// Whether a session has this name.
pub fn name_is_taken(sessions: &[SessionInfo], name: &str) -> (r: bool)
    ensures
        r == is_taken(sessions@, name@),
{
    let mut i: usize = 0;
    while i < sessions.len()
        invariant
            i <= sessions@.len(),
            forall|k: int| 0 <= k < i ==> names(sessions@)[k] != name@,
        decreases sessions@.len() - i,
    {
        assert(names(sessions@)[i as int] == sessions@[i as int].name@);
        if same_text(sessions[i].name.as_str(), name) {
            return true;
        }
        i += 1;
    }
    false
}

/// A name is taken exactly where some session has it, letter for letter.
pub proof fn law_taken_names(sessions: Seq<SessionInfo>, name: Seq<char>)
    ensures
        is_taken(sessions, name) <==> exists|i: int|
            0 <= i < sessions.len() && (#[trigger] sessions[i]).name@ == name,
{
    if is_taken(sessions, name) {
        let i = choose|i: int| 0 <= i < names(sessions).len() && names(sessions)[i] == name;
        assert(sessions[i].name@ == name);
    }
    if exists|i: int| 0 <= i < sessions.len() && (#[trigger] sessions[i]).name@ == name {
        let i = choose|i: int| 0 <= i < sessions.len() && (#[trigger] sessions[i]).name@ == name;
        assert(names(sessions)[i] == name);
    }
}

/// A stem with a number behind it.
pub open spec fn numbered(stem: Seq<char>, n: nat) -> Seq<char> {
    stem.push('-') + digits(n)
}

/// Whether `name` is the first free one of the stem, the stem with 2, the stem with 3, and so
/// on.
pub open spec fn is_first_free(
    sessions: Seq<SessionInfo>,
    stem: Seq<char>,
    name: Seq<char>,
) -> bool {
    if !is_taken(sessions, stem) {
        name == stem
    } else {
        exists|n: nat| #[trigger] is_first_free_number(sessions, stem, n) && name == numbered(stem, n)
    }
}

/// Whether `n` is the least number from 2 on that makes a free name of the stem.
pub open spec fn is_first_free_number(
    sessions: Seq<SessionInfo>,
    stem: Seq<char>,
    n: nat,
) -> bool {
    &&& n >= 2
    &&& !is_taken(sessions, numbered(stem, n))
    &&& forall|k: nat| 2 <= k < n ==> #[trigger] is_taken(sessions, numbered(stem, k))
}

/// The number that digits write.
pub open spec fn value(s: Seq<char>) -> int
    decreases s.len(),
{
    if s.len() == 0 {
        0
    } else {
        value(s.drop_last()) * 10 + (s.last() as int - '0' as int)
    }
}

proof fn lemma_digits_value(n: nat)
    ensures
        value(digits(n)) == n,
    decreases n,
{
    if n >= 10 {
        lemma_digits_value(n / 10);
        assert(digits(n).drop_last() =~= digits(n / 10));
    } else {
        assert(digits(n).drop_last() =~= Seq::empty());
        reveal_with_fuel(value, 2);
    }
}

/// A number in decimal is made of digits, does not begin with zero unless it is zero, and reads
/// as the number.
pub proof fn law_decimal(n: nat)
    ensures
        value(digits(n)) == n,
        digits(n).len() > 0,
        forall|i: int| 0 <= i < digits(n).len() ==> '0' <= #[trigger] digits(n)[i] <= '9',
        n > 0 ==> digits(n)[0] != '0',
    decreases n,
{
    lemma_digits_value(n);
    if n >= 10 {
        law_decimal(n / 10);
        let front = digits(n / 10);
        assert forall|i: int| 0 <= i < digits(n).len() implies '0' <= #[trigger] digits(n)[i]
            <= '9' by {
            if i < front.len() {
                assert(digits(n)[i] == front[i]);
            }
        }
        assert(digits(n)[0] == front[0]);
    }
}

/// The name for a new session is the stem where that is free; else the stem, a dash and the
/// least number from two on that makes it free.
pub proof fn law_first_free_names(sessions: Seq<SessionInfo>, stem: Seq<char>, name: Seq<char>)
    requires
        is_first_free(sessions, stem, name),
    ensures
        !is_taken(sessions, name),
        !is_taken(sessions, stem) ==> name == stem,
        is_taken(sessions, stem) ==> exists|n: nat|
            {
                &&& n >= 2
                &&& name == stem + seq!['-'] + #[trigger] digits(n)
                &&& forall|k: nat|
                    2 <= k < n ==> is_taken(sessions, stem + seq!['-'] + #[trigger] digits(k))
            },
{
    if is_taken(sessions, stem) {
        let n = choose|n: nat| #[trigger]
            is_first_free_number(sessions, stem, n) && name == numbered(stem, n);
        assert(stem.push('-') =~= stem + seq!['-']);
        assert forall|k: nat| 2 <= k < n implies is_taken(
            sessions,
            stem + seq!['-'] + #[trigger] digits(k),
        ) by {
            assert(is_taken(sessions, numbered(stem, k)));
        }
        assert(name == stem + seq!['-'] + digits(n));
    }
}

/// Different numbers give different names.
pub proof fn law_numbered_names_differ(stem: Seq<char>, a: nat, b: nat)
    requires
        numbered(stem, a) == numbered(stem, b),
    ensures
        a == b,
{
    lemma_digits_value(a);
    lemma_digits_value(b);
    let k = stem.len() + 1;
    assert(numbered(stem, a).skip(k as int) =~= digits(a));
    assert(numbered(stem, b).skip(k as int) =~= digits(b));
}

/// Not more numbered names can be taken than there are sessions.
proof fn lemma_taken_bound(sessions: Seq<SessionInfo>, stem: Seq<char>, n: nat)
    requires
        n >= 2,
        forall|k: nat| 2 <= k < n ==> #[trigger] is_taken(sessions, numbered(stem, k)),
    ensures
        n - 2 <= sessions.len(),
{
    let candidates = Seq::new((n - 2) as nat, |i: int| numbered(stem, (i + 2) as nat));
    let taken = names(sessions);
    assert(candidates.no_duplicates()) by {
        assert forall|i: int, j: int|
            0 <= i < candidates.len() && 0 <= j < candidates.len() && i
                != j implies candidates[i] != candidates[j] by {
            if candidates[i] == candidates[j] {
                law_numbered_names_differ(stem, (i + 2) as nat, (j + 2) as nat);
            }
        }
    }
    candidates.unique_seq_to_set();
    taken.lemma_cardinality_of_set();
    assert(candidates.to_set().subset_of(taken.to_set())) by {
        assert forall|name: Seq<char>| candidates.to_set().contains(
            name,
        ) implies #[trigger] taken.to_set().contains(name) by {
            let i = choose|i: int| 0 <= i < candidates.len() && candidates[i] == name;
            assert(is_taken(sessions, numbered(stem, (i + 2) as nat)));
        }
    }
    vstd::set_lib::lemma_len_subset(candidates.to_set(), taken.to_set());
}

proof fn lemma_some_number_is_free(sessions: Seq<SessionInfo>, stem: Seq<char>, from: nat) -> (n:
    nat)
    requires
        from >= 2,
        forall|k: nat| 2 <= k < from ==> #[trigger] is_taken(sessions, numbered(stem, k)),
    ensures
        is_first_free_number(sessions, stem, n),
    decreases sessions.len() + 3 - from,
{
    lemma_taken_bound(sessions, stem, from);
    if is_taken(sessions, numbered(stem, from)) {
        lemma_some_number_is_free(sessions, stem, from + 1)
    } else {
        from
    }
}

/// Whatever sessions there are, some name of a stem is free.
pub proof fn law_some_name_is_free(sessions: Seq<SessionInfo>, stem: Seq<char>) -> (name: Seq<char>)
    ensures
        is_first_free(sessions, stem, name),
        !is_taken(sessions, name),
{
    if is_taken(sessions, stem) {
        let n = lemma_some_number_is_free(sessions, stem, 2);
        numbered(stem, n)
    } else {
        stem
    }
}

/// The first free name of a stem.
pub fn first_free_name(stem: &str, sessions: &[SessionInfo]) -> (r: String)
    ensures
        is_first_free(sessions@, stem@, r@),
        !is_taken(sessions@, r@),
{
    if !name_is_taken(sessions, stem) {
        return stem.to_owned();
    }
    let count = sessions.len();
    let mut n: u128 = 2;
    loop
        invariant
            is_taken(sessions@, stem@),
            count == sessions@.len(),
            2 <= n <= count + 2,
            forall|k: nat| 2 <= k < n ==> #[trigger] is_taken(sessions@, numbered(stem@, k)),
        decreases count + 2 - n,
    {
        proof {
            reveal_strlit("-");
        }
        let candidate = joined(joined(stem, "-").as_str(), decimal(n).as_str());
        assert(candidate@ =~= numbered(stem@, n as nat));
        if !name_is_taken(sessions, candidate.as_str()) {
            assert(is_first_free_number(sessions@, stem@, n as nat));
            return candidate;
        }
        n += 1;
        proof {
            lemma_taken_bound(sessions@, stem@, n as nat);
        }
    }
}

/// Whether a character may stand in a name that is made from a path.
pub open spec fn is_name_char(c: char) -> bool {
    is_alphanumeric(c) || c == '-' || c == '_'
}

/// What stands for the character at `i`: itself, in lower case, if it may stand in a name, and
/// one dash for each run of others.
pub open spec fn name_piece(s: Seq<char>, i: int) -> Seq<char> {
    if is_name_char(s[i]) {
        seq![lower(s[i])]
    } else if i == 0 || is_name_char(s[i - 1]) {
        seq!['-']
    } else {
        Seq::empty()
    }
}

/// What stands for a text in a name.
pub open spec fn name_body(s: Seq<char>) -> Seq<char>
    decreases s.len(),
{
    if s.len() == 0 {
        Seq::empty()
    } else {
        name_body(s.drop_last()) + name_piece(s, s.len() - 1)
    }
}

/// `s` without the dashes in front.
pub open spec fn undashed_start(s: Seq<char>) -> Seq<char>
    decreases s.len(),
{
    if s.len() > 0 && s[0] == '-' {
        undashed_start(s.drop_first())
    } else {
        s
    }
}

/// `s` without the dashes at the end.
pub open spec fn undashed_end(s: Seq<char>) -> Seq<char>
    decreases s.len(),
{
    if s.len() > 0 && s.last() == '-' {
        undashed_end(s.drop_last())
    } else {
        s
    }
}

/// The name that is made from a text.
pub open spec fn sanitized(raw: Seq<char>) -> Seq<char> {
    undashed_end(undashed_start(name_body(raw)))
}

/// Makes a name from a text: lower case letters, digits, dashes and underscores, no dash at
/// either end.
pub fn sanitize_session_name(raw: &str) -> (r: String)
    ensures
        r@ == sanitized(raw@),
{
    let chars = chars_of(raw);
    let mut out: Vec<char> = Vec::new();
    let mut last_dash = false;
    let mut i: usize = 0;
    assert(chars@.take(0) =~= Seq::empty());
    while i < chars.len()
        invariant
            chars@ == raw@,
            i <= chars@.len(),
            out@ == name_body(chars@.take(i as int)),
            last_dash == (i > 0 && !is_name_char(chars@[i - 1])),
        decreases chars@.len() - i,
    {
        let c = chars[i];
        let ghost front = chars@.take(i + 1);
        proof {
            assert(front.drop_last() =~= chars@.take(i as int));
            assert(front.last() == c);
            assert(i > 0 ==> front[i - 1] == chars@[i - 1]);
        }
        let ghost before = out@;
        if is_ascii_alphanumeric(c) {
            out.push(lower_char(c));
            last_dash = false;
            assert(out@ =~= before + seq![lower(c)]);
        } else if c == '-' || c == '_' {
            out.push(c);
            last_dash = false;
            assert(lower(c) == c);
            assert(out@ =~= before + seq![lower(c)]);
        } else if !last_dash {
            out.push('-');
            last_dash = true;
            assert(out@ =~= before + seq!['-']);
        } else {
            assert(out@ =~= before + Seq::<char>::empty());
        }
        i += 1;
    }
    assert(chars@.take(i as int) =~= raw@);
    let mut start: usize = 0;
    assert(out@.skip(0) =~= out@);
    while start < out.len() && out[start] == '-'
        invariant
            start <= out@.len(),
            undashed_start(out@) == undashed_start(out@.skip(start as int)),
        decreases out@.len() - start,
    {
        assert(out@.skip(start as int)[0] == '-');
        assert(out@.skip(start as int).drop_first() =~= out@.skip(start + 1));
        start += 1;
    }
    let ghost head = out@.skip(start as int);
    assert(undashed_start(out@) == head);
    let mut end: usize = out.len();
    assert(out@.subrange(start as int, end as int) =~= head);
    while end > start && out[end - 1] == '-'
        invariant
            start <= end <= out@.len(),
            undashed_end(head) == undashed_end(out@.subrange(start as int, end as int)),
        decreases end,
    {
        let ghost here = out@.subrange(start as int, end as int);
        assert(here.last() == '-');
        assert(here.drop_last() =~= out@.subrange(start as int, end - 1));
        end -= 1;
    }
    let mut r = String::new();
    let mut k: usize = start;
    assert(r@ =~= out@.subrange(start as int, start as int));
    while k < end
        invariant
            start <= k <= end <= out@.len(),
            r@ == out@.subrange(start as int, k as int),
        decreases end - k,
    {
        r.push(out[k]);
        k += 1;
        assert(r@ =~= out@.subrange(start as int, k as int));
    }
    proof {
        let kept = out@.subrange(start as int, end as int);
        if kept.len() > 0 {
            assert(kept.last() == out@[end - 1]);
        }
        assert(undashed_end(kept) == kept);
    }
    r
}

/// Whether a text is such as `sanitize_session_name` leaves as it is: characters of names in
/// lower case, no dash at either end.
pub open spec fn is_clean(s: Seq<char>) -> bool {
    &&& forall|i: int| 0 <= i < s.len() ==> #[trigger] is_clean_char(s[i])
    &&& s.len() > 0 ==> s[0] != '-' && s.last() != '-'
}

/// Whether a character may stand in a clean name.
pub open spec fn is_clean_char(c: char) -> bool {
    is_name_char(c) && lower(c) == c
}

proof fn lemma_undashed(s: Seq<char>)
    requires
        forall|i: int| 0 <= i < s.len() ==> is_clean_char(#[trigger] s[i]),
    ensures
        is_clean(undashed_end(undashed_start(s))),
{
    lemma_undashed_start(s);
    lemma_undashed_end(undashed_start(s));
}

proof fn lemma_undashed_start(s: Seq<char>)
    requires
        forall|i: int| 0 <= i < s.len() ==> is_clean_char(#[trigger] s[i]),
    ensures
        ({
            let t = undashed_start(s);
            &&& forall|i: int| 0 <= i < t.len() ==> is_clean_char(#[trigger] t[i])
            &&& t.len() > 0 ==> t[0] != '-'
        }),
    decreases s.len(),
{
    if s.len() > 0 && s[0] == '-' {
        lemma_undashed_start(s.drop_first());
    }
}

proof fn lemma_undashed_end(s: Seq<char>)
    requires
        forall|i: int| 0 <= i < s.len() ==> is_clean_char(#[trigger] s[i]),
        s.len() > 0 ==> s[0] != '-',
    ensures
        is_clean(undashed_end(s)),
    decreases s.len(),
{
    if s.len() > 0 && s.last() == '-' {
        lemma_undashed_end(s.drop_last());
    }
}

proof fn lemma_body_is_clean(s: Seq<char>)
    ensures
        forall|i: int| 0 <= i < name_body(s).len() ==> is_clean_char(#[trigger] name_body(s)[i]),
    decreases s.len(),
{
    if s.len() > 0 {
        lemma_body_is_clean(s.drop_last());
        let front = name_body(s.drop_last());
        let piece = name_piece(s, s.len() - 1);
        assert forall|i: int| 0 <= i < name_body(s).len() implies is_clean_char(
            #[trigger] name_body(s)[i],
        ) by {
            if i < front.len() {
                assert(name_body(s)[i] == front[i]);
                assert(is_clean_char(front[i]));
            } else {
                assert(name_body(s)[i] == piece[i - front.len()]);
            }
        }
    }
}

proof fn lemma_clean_body(s: Seq<char>)
    requires
        forall|i: int| 0 <= i < s.len() ==> is_clean_char(#[trigger] s[i]),
    ensures
        name_body(s) == s,
    decreases s.len(),
{
    if s.len() > 0 {
        lemma_clean_body(s.drop_last());
        assert(is_clean_char(s[s.len() - 1]));
        assert(name_body(s) =~= s);
    }
}

/// A name made from any text is clean.
pub proof fn law_sanitized_names_are_clean(raw: Seq<char>)
    ensures
        is_clean(sanitized(raw)),
{
    lemma_body_is_clean(raw);
    lemma_undashed(name_body(raw));
}

/// A clean name is left as it is.
pub proof fn law_clean_names_stay(name: Seq<char>)
    requires
        is_clean(name),
    ensures
        sanitized(name) == name,
{
    lemma_clean_body(name);
}

/// To make a name twice is to make it once.
pub proof fn law_sanitizing_is_stable(raw: Seq<char>)
    ensures
        sanitized(sanitized(raw)) == sanitized(raw),
{
    law_sanitized_names_are_clean(raw);
    law_clean_names_stay(sanitized(raw));
}

/// Whether all characters may stand in a name: ASCII letters, digits, dashes and underscores.
pub open spec fn all_name_chars(s: Seq<char>) -> bool {
    forall|i: int|
        0 <= i < s.len() ==> {
            ||| '0' <= #[trigger] s[i] <= '9'
            ||| 'A' <= s[i] <= 'Z'
            ||| 'a' <= s[i] <= 'z'
            ||| s[i] == '-'
            ||| s[i] == '_'
        }
}

/// Whether none may.
pub open spec fn no_name_chars(s: Seq<char>) -> bool {
    forall|i: int|
        0 <= i < s.len() ==> !({
            ||| '0' <= #[trigger] s[i] <= '9'
            ||| 'A' <= s[i] <= 'Z'
            ||| 'a' <= s[i] <= 'z'
            ||| s[i] == '-'
            ||| s[i] == '_'
        })
}

/// What may stand in a name does, in lower case, and each run of other characters becomes one
/// dash.
pub proof fn law_names_keep_their_characters(front: Seq<char>, run: Seq<char>, rest: Seq<char>)
    requires
        all_name_chars(front),
        no_name_chars(run),
        run.len() > 0,
        rest.len() > 0 ==> all_name_chars(rest.take(1)),
    ensures
        name_body(front) == lowered(front),
        name_body(front + run + rest) == lowered(front) + seq!['-'] + name_body(rest),
{
    lemma_name_chars(front);
    let head = front + run;
    lemma_run_is_a_dash(front, run);
    assert(rest.len() > 0 ==> rest.take(1)[0] == rest[0]);
    lemma_body_of_two(head, rest);
    assert(name_body(front + run + rest) =~= lowered(front) + seq!['-'] + name_body(rest));
}

proof fn lemma_name_chars(s: Seq<char>)
    requires
        all_name_chars(s),
    ensures
        name_body(s) == lowered(s),
    decreases s.len(),
{
    if s.len() > 0 {
        let init = s.drop_last();
        assert forall|i: int| 0 <= i < init.len() implies {
            ||| '0' <= #[trigger] init[i] <= '9'
            ||| 'A' <= init[i] <= 'Z'
            ||| 'a' <= init[i] <= 'z'
            ||| init[i] == '-'
            ||| init[i] == '_'
        } by {
            assert(init[i] == s[i]);
        }
        lemma_name_chars(init);
        assert(is_name_char(s[s.len() - 1]));
        assert(name_body(s) =~= lowered(s));
    } else {
        assert(lowered(s) =~= Seq::empty());
    }
}

proof fn lemma_run_is_a_dash(front: Seq<char>, run: Seq<char>)
    requires
        all_name_chars(front),
        no_name_chars(run),
        run.len() > 0,
    ensures
        name_body(front + run) == name_body(front) + seq!['-'],
    decreases run.len(),
{
    let s = front + run;
    let last = s.len() - 1;
    assert(s[last] == run[run.len() - 1]);
    assert(!is_name_char(s[last]));
    if run.len() == 1 {
        assert(s.drop_last() =~= front);
        if last > 0 {
            assert(s[last - 1] == front[last - 1]);
            assert(is_name_char(s[last - 1]));
        }
    } else {
        let init = run.drop_last();
        assert forall|i: int| 0 <= i < init.len() implies !({
            ||| '0' <= #[trigger] init[i] <= '9'
            ||| 'A' <= init[i] <= 'Z'
            ||| 'a' <= init[i] <= 'z'
            ||| init[i] == '-'
            ||| init[i] == '_'
        }) by {
            assert(init[i] == run[i]);
        }
        lemma_run_is_a_dash(front, init);
        assert(s.drop_last() =~= front + init);
        assert(s[last - 1] == run[run.len() - 2]);
        assert(!is_name_char(s[last - 1]));
        assert(name_body(s) =~= name_body(front) + seq!['-']);
    }
}

proof fn lemma_body_of_two(head: Seq<char>, rest: Seq<char>)
    requires
        rest.len() > 0 ==> is_name_char(rest[0]),
    ensures
        name_body(head + rest) == name_body(head) + name_body(rest),
    decreases rest.len(),
{
    let s = head + rest;
    if rest.len() == 0 {
        assert(s =~= head);
        assert(name_body(s) =~= name_body(head) + name_body(rest));
    } else {
        let init = rest.drop_last();
        lemma_body_of_two(head, init);
        assert(s.drop_last() =~= head + init);
        let last = s.len() - 1;
        assert(s[last] == rest[rest.len() - 1]);
        if rest.len() > 1 {
            assert(s[last - 1] == rest[rest.len() - 2]);
        }
        assert(name_piece(s, last) == name_piece(rest, rest.len() - 1));
        assert(name_body(s) =~= name_body(head) + name_body(rest));
    }
}

/// A name loses the dashes at its ends, all of them and nothing else: it is what is left between
/// the places returned.
pub proof fn law_outer_dashes_go(raw: Seq<char>) -> (at: (int, int))
    ensures
        0 <= at.0 <= at.1 <= name_body(raw).len(),
        sanitized(raw) == name_body(raw).subrange(at.0, at.1),
        forall|i: int|
            0 <= i < at.0 || at.1 <= i < name_body(raw).len() ==> #[trigger] name_body(raw)[i]
                == '-',
        at.0 < at.1 ==> name_body(raw)[at.0] != '-' && name_body(raw)[at.1 - 1] != '-',
{
    let s = name_body(raw);
    let from = lemma_undashed_start_place(s);
    let rest = s.skip(from);
    let to = lemma_undashed_end_place(rest);
    assert(rest.take(to) =~= s.subrange(from, from + to));
    assert forall|i: int| from + to <= i < s.len() implies #[trigger] s[i] == '-' by {
        assert(rest[i - from] == s[i]);
    }
    assert(to > 0 ==> rest[0] == s[from] && rest[to - 1] == s[from + to - 1]);
    (from, from + to)
}

proof fn lemma_undashed_start_place(s: Seq<char>) -> (from: int)
    ensures
        0 <= from <= s.len(),
        undashed_start(s) == s.skip(from),
        forall|i: int| 0 <= i < from ==> #[trigger] s[i] == '-',
        from < s.len() ==> s[from] != '-',
    decreases s.len(),
{
    if s.len() > 0 && s[0] == '-' {
        let rest = s.drop_first();
        let from = lemma_undashed_start_place(rest);
        assert(rest.skip(from) =~= s.skip(from + 1));
        assert forall|i: int| 0 <= i < from + 1 implies #[trigger] s[i] == '-' by {
            if i > 0 {
                assert(rest[i - 1] == s[i]);
            }
        }
        from + 1
    } else {
        assert(s.skip(0) =~= s);
        0
    }
}

proof fn lemma_undashed_end_place(s: Seq<char>) -> (to: int)
    ensures
        0 <= to <= s.len(),
        undashed_end(s) == s.take(to),
        forall|i: int| to <= i < s.len() ==> #[trigger] s[i] == '-',
        to > 0 ==> s[to - 1] != '-',
    decreases s.len(),
{
    if s.len() > 0 && s.last() == '-' {
        let rest = s.drop_last();
        let to = lemma_undashed_end_place(rest);
        assert(rest.take(to) =~= s.take(to));
        assert forall|i: int| to <= i < s.len() implies #[trigger] s[i] == '-' by {
            if i < rest.len() {
                assert(rest[i] == s[i]);
            }
        }
        assert(to > 0 ==> rest[to - 1] == s[to - 1]);
        to
    } else {
        assert(s.take(s.len() as int) =~= s);
        s.len() as int
    }
}

/// The stem of the name for a directory: made from the directory's own name, if anything is
/// left of it.
pub open spec fn directory_stem(path: Seq<char>) -> Seq<char> {
    match name_of(path) {
        Some(name) => if sanitized(name).len() > 0 {
            sanitized(name)
        } else {
            "session"@
        },
        None => "session"@,
    }
}

/// The stem is what is made of the directory's own name; where there is none, or nothing is left
/// of it, the stem is `session`.
pub proof fn law_directory_stems(path: Seq<char>)
    ensures
        name_of(path) matches Some(name) ==> sanitized(name).len() > 0 ==> directory_stem(path)
            == sanitized(name),
        name_of(path) matches Some(name) ==> sanitized(name).len() == 0 ==> directory_stem(path)
            == seq!['s', 'e', 's', 's', 'i', 'o', 'n'],
        name_of(path) is None ==> directory_stem(path) == seq!['s', 'e', 's', 's', 'i', 'o', 'n'],
{
    reveal_strlit("session");
    assert("session"@ =~= seq!['s', 'e', 's', 's', 'i', 'o', 'n']);
}

/// The name for a new session in a directory.
pub fn next_session_name(path: &str, sessions: &[SessionInfo]) -> (r: String)
    ensures
        is_first_free(sessions@, directory_stem(path@), r@),
        !is_taken(sessions@, r@),
{
    let stem = match file_name(path) {
        Some(name) => {
            let clean = sanitize_session_name(name.as_str());
            if clean.as_str().unicode_len() > 0 {
                clean
            } else {
                "session".to_owned()
            }
        },
        None => "session".to_owned(),
    };
    first_free_name(stem.as_str(), sessions)
}

/// The first of the first `max_attempts` candidates that is free.
pub fn pick_unique_candidate(
    sessions: &[SessionInfo],
    candidates: &[String],
    max_attempts: usize,
) -> (r: Option<usize>)
    ensures
        match r {
            Some(i) => {
                &&& i < candidates@.len()
                &&& i < max_attempts
                &&& !is_taken(sessions@, candidates@[i as int]@)
                &&& forall|k: int| 0 <= k < i ==> is_taken(sessions@, (#[trigger] candidates@[k])@)
            },
            None => forall|k: int|
                0 <= k < candidates@.len() && k < max_attempts ==> is_taken(
                    sessions@,
                    (#[trigger] candidates@[k])@,
                ),
        },
{
    let mut i: usize = 0;
    while i < candidates.len() && i < max_attempts
        invariant
            i <= candidates@.len(),
            i <= max_attempts,
            forall|k: int| 0 <= k < i ==> is_taken(sessions@, (#[trigger] candidates@[k])@),
        decreases candidates@.len() - i,
    {
        if !name_is_taken(sessions, candidates[i].as_str()) {
            return Some(i);
        }
        i += 1;
    }
    None
}

/// The name to fall back to.
pub fn fallback_session_name(sessions: &[SessionInfo]) -> (r: String)
    ensures
        is_first_free(sessions@, "session"@, r@),
        !is_taken(sessions@, r@),
{
    first_free_name("session", sessions)
}

/// Whether `name` is the first free one of the first `max_attempts` candidates, or the one to
/// fall back to where none is free.
pub open spec fn is_suggestion(
    sessions: Seq<SessionInfo>,
    candidates: Seq<Seq<char>>,
    max_attempts: int,
    name: Seq<char>,
) -> bool {
    ||| exists|i: int|
        {
            &&& 0 <= i < candidates.len()
            &&& i < max_attempts
            &&& name == #[trigger] candidates[i]
            &&& !is_taken(sessions, candidates[i])
            &&& forall|k: int| 0 <= k < i ==> is_taken(sessions, #[trigger] candidates[k])
        }
    ||| {
        &&& forall|k: int|
            0 <= k < candidates.len() && k < max_attempts ==> is_taken(
                sessions,
                #[trigger] candidates[k],
            )
        &&& is_first_free(sessions, "session"@, name)
    }
}

/// The first candidate that is free is suggested, if it is among those that may be tried; where
/// all of these are taken, the name to fall back to is.
pub proof fn law_suggested_candidates(
    sessions: Seq<SessionInfo>,
    candidates: Seq<Seq<char>>,
    max_attempts: int,
    name: Seq<char>,
    i: int,
)
    requires
        is_suggestion(sessions, candidates, max_attempts, name),
    ensures
        0 <= i < candidates.len() && i < max_attempts && !is_taken(sessions, candidates[i]) && (
        forall|k: int| 0 <= k < i ==> is_taken(sessions, #[trigger] candidates[k])) ==> name
            == candidates[i],
        (forall|k: int|
            0 <= k < candidates.len() && k < max_attempts ==> is_taken(
                sessions,
                #[trigger] candidates[k],
            )) ==> is_first_free(sessions, seq!['s', 'e', 's', 's', 'i', 'o', 'n'], name),
{
    reveal_strlit("session");
    assert("session"@ =~= seq!['s', 'e', 's', 's', 'i', 'o', 'n']);
}

/// Suggests a name out of candidates.
pub fn suggest_session_name_from_candidates(
    sessions: &[SessionInfo],
    candidates: &[String],
    max_attempts: usize,
) -> (r: String)
    ensures
        is_suggestion(sessions@, texts(candidates@), max_attempts as int, r@),
        !is_taken(sessions@, r@),
{
    match pick_unique_candidate(sessions, candidates, max_attempts) {
        Some(i) => {
            proof {
                let all = texts(candidates@);
                assert(all[i as int] == candidates@[i as int]@);
                assert forall|k: int| 0 <= k < i implies is_taken(sessions@, #[trigger] all[k]) by {
                    assert(all[k] == candidates@[k]@);
                }
            }
            candidates[i].clone()
        },
        None => {
            proof {
                let all = texts(candidates@);
                assert forall|k: int| 0 <= k < all.len() && k < max_attempts implies is_taken(
                    sessions@,
                    #[trigger] all[k],
                ) by {
                    assert(all[k] == candidates@[k]@);
                }
            }
            fallback_session_name(sessions)
        },
    }
}

/// How many generated names are tried at most: twice as many as there are, within bounds.
pub fn max_attempts(adjectives: usize, nouns: usize) -> (r: usize)
    ensures
        r == if 2 * (adjectives * nouns) < 64 {
            64
        } else if 2 * (adjectives * nouns) > 50_000 {
            50_000
        } else {
            2 * (adjectives * nouns)
        },
{
    assert(0 <= adjectives * nouns <= 0xffff_ffff_ffff_ffff * 0xffff_ffff_ffff_ffff)
        by (nonlinear_arith)
        requires
            0 <= adjectives <= 0xffff_ffff_ffff_ffff,
            0 <= nouns <= 0xffff_ffff_ffff_ffff,
    ;
    let space: u128 = adjectives as u128 * nouns as u128;
    if space < 32 {
        64
    } else if space > 25_000 {
        50_000
    } else {
        (2 * space) as usize
    }
}

/// `names::Generator`: a source of random names.
#[verifier::external_type_specification]
#[verifier::external_body]
pub struct ExGenerator<'a>(names::Generator<'a>);

/// Whether a name has the form of the generated ones: an adjective, a dash and a noun, all in
/// lower case letters and dashes.
pub open spec fn is_generated_form(name: Seq<char>) -> bool {
    &&& exists|adjective: Seq<char>, noun: Seq<char>|
        adjective.len() > 0 && noun.len() > 0 && name == #[trigger] (adjective.push('-') + noun)
    &&& forall|i: int|
        0 <= i < name.len() ==> 'a' <= (#[trigger] name[i]) <= 'z' || name[i] == '-'
}

/// Whether a source draws from the word lists of the crate, without numbers.
pub uninterp spec fn draws_plain_names(source: names::Generator<'static>) -> bool;

/// `names::Generator::default`: a source of names of the plain form, from the crate's own lists
/// of words.
#[verifier::external_body]
fn name_source() -> (r: names::Generator<'static>)
    ensures
        draws_plain_names(r),
{
    names::Generator::default()
}

/// `next` of `names::Generator`: another random name, never none. Every one has the form of
/// the generated names; nothing more is known of it. A source with other lists is left out:
/// they may hold other words, or none, where `next` panics.
#[verifier::external_body]
fn next_name(source: &mut names::Generator<'static>) -> (r: Option<String>)
    requires
        draws_plain_names(*old(source)),
    ensures
        draws_plain_names(*final(source)),
        r is Some,
        r matches Some(name) ==> is_generated_form(name@),
{
    source.next()
}

/// The length of `names::ADJECTIVES`, as many as the crate's list of adjectives has lines.
#[verifier::external_body]
fn adjective_count() -> (r: usize)
    ensures
        r == 1124,
{
    names::ADJECTIVES.len()
}

/// The length of `names::NOUNS`, as many as the crate's list of nouns has lines.
#[verifier::external_body]
fn noun_count() -> (r: usize)
    ensures
        r == 981,
{
    names::NOUNS.len()
}

/// Whether some session has a name of the generated form.
pub open spec fn has_generated_name(sessions: Seq<SessionInfo>) -> bool {
    exists|i: int| 0 <= i < sessions.len() && is_generated_form(#[trigger] sessions[i].name@)
}

/// How many generated names are tried at most, with the word lists there are.
pub fn draw_limit() -> (r: usize)
    ensures
        r == 50_000,
{
    assert(2 * (1124 * 981) > 50_000) by (nonlinear_arith);
    max_attempts(adjective_count(), noun_count())
}

/// What to do with a name that was drawn.
#[derive(Debug)]
pub enum DrawStep {
    /// Take it.
    Take(String),
    /// Draw another, with so many tries left.
    Again(usize),
    /// Give up and fall back.
    FallBack,
}

/// Decides about a name that was drawn, with `left` tries left when it was: a free one is taken,
/// and there is another draw as long as this was not the last.
pub fn after_draw(sessions: &[SessionInfo], drawn: String, left: usize) -> (r: DrawStep)
    requires
        left > 0,
    ensures
        match r {
            DrawStep::Take(name) => !is_taken(sessions@, drawn@) && name@ == drawn@,
            DrawStep::Again(fewer) => is_taken(sessions@, drawn@) && left > 1 && fewer == left - 1,
            DrawStep::FallBack => is_taken(sessions@, drawn@) && left == 1,
        },
{
    if !name_is_taken(sessions, drawn.as_str()) {
        DrawStep::Take(drawn)
    } else if left > 1 {
        DrawStep::Again(left - 1)
    } else {
        DrawStep::FallBack
    }
}

/// Suggests a name: a generated one that is free, or else the one to fall back to. Without a
/// session that has a generated name, there is no falling back.
pub fn suggest_session_name(sessions: &[SessionInfo]) -> (r: String)
    ensures
        !is_taken(sessions@, r@),
        is_generated_form(r@) || is_first_free(sessions@, "session"@, r@),
        has_generated_name(sessions@) || is_generated_form(r@),
{
    let mut left = draw_limit();
    let mut source = name_source();
    loop
        invariant
            left > 0,
            draws_plain_names(source),
        decreases left,
    {
        match next_name(&mut source) {
            Some(name) => match after_draw(sessions, name, left) {
                DrawStep::Take(name) => {
                    return name;
                },
                DrawStep::Again(fewer) => {
                    left = fewer;
                },
                DrawStep::FallBack => {
                    return fallback_session_name(sessions);
                },
            },
            None => {
                return fallback_session_name(sessions);
            },
        }
    }
}

/// A suggested name is never blank.
pub proof fn law_suggestions_are_not_blank(sessions: Seq<SessionInfo>, name: Seq<char>)
    requires
        is_generated_form(name) || is_first_free(sessions, "session"@, name),
    ensures
        trimmed(name).len() > 0,
{
    reveal_strlit("session");
    if is_generated_form(name) {
        let (adjective, noun): (Seq<char>, Seq<char>) = choose|
            adjective: Seq<char>,
            noun: Seq<char>,
        |
            adjective.len() > 0 && noun.len() > 0 && name == #[trigger] (adjective.push('-')
                + noun);
        assert(name.len() > 0);
        assert('a' <= name[0] <= 'z' || name[0] == '-');
        assert(!is_white(name[0]));
    } else if is_taken(sessions, "session"@) {
        let n = choose|n: nat| #[trigger]
            is_first_free_number(sessions, "session"@, n) && name == numbered("session"@, n);
        assert(name[0] == 's');
    } else {
        assert(name[0] == 's');
    }
    assert(trimmed_start(name) == name);
    lemma_trimmed_end_keeps_front(name);
}

proof fn lemma_trimmed_end_keeps_front(s: Seq<char>)
    requires
        s.len() > 0,
        !is_white(s[0]),
    ensures
        trimmed_end(s).len() > 0,
    decreases s.len(),
{
    if is_white(s.last()) {
        assert(s.len() > 1);
        lemma_trimmed_end_keeps_front(s.drop_last());
    }
}

} // verus!
