//! Where terminal control sequences end.
//!
//! A control sequence starts with the byte ESC. Control strings (OSC, DCS, APC) run up to
//! the terminator ESC `\`, which OSC may replace by BEL. A CSI sequence runs up to its
//! first byte in the range `@` to `~`.

use crate::bytes::{has_window, is_window};
use vstd::prelude::*;

verus! {

/// The byte that introduces every control sequence.
pub const ESC: u8 = 0x1b;

/// The byte that may end an OSC string.
pub const BEL: u8 = 0x07;

/// The second byte of the string terminator ESC `\`.
pub const BACKSLASH: u8 = 0x5c;

/// `[`, the byte after ESC that opens a CSI sequence.
pub const CSI_OPEN: u8 = 0x5b;

/// `]`, the byte after ESC that opens an OSC string.
pub const OSC_OPEN: u8 = 0x5d;

/// `P`, the byte after ESC that opens a DCS string.
pub const DCS_OPEN: u8 = 0x50;

/// `_`, the byte after ESC that opens an APC string.
pub const APC_OPEN: u8 = 0x5f;

/// `;`, which separates the parameters of a sequence.
pub const SEMICOLON: u8 = 0x3b;

/// `?`, which marks private parameters and queries.
pub const QUESTION: u8 = 0x3f;

/// Whether the two-byte string terminator stands at `at`.
pub open spec fn terminator_at(s: Seq<u8>, at: int) -> bool {
    0 <= at && at + 1 < s.len() && s[at] == ESC && s[at + 1] == BACKSLASH
}

/// The position just past the first terminator that starts at or after `from`. With `bel`
/// a BEL is a terminator too.
pub open spec fn string_end(s: Seq<u8>, from: int, bel: bool) -> Option<int>
    decreases s.len() - from,
{
    if from < 0 || from >= s.len() {
        None
    } else if bel && s[from] == BEL {
        Some(from + 1)
    } else if terminator_at(s, from) {
        Some(from + 2)
    } else {
        string_end(s, from + 1, bel)
    }
}

/// Whether a byte ends a CSI sequence.
pub open spec fn is_csi_final(byte: u8) -> bool {
    0x40 <= byte <= 0x7e
}

/// The position of the first byte at or after `from` that ends a CSI sequence.
pub open spec fn csi_final(s: Seq<u8>, from: int) -> Option<int>
    decreases s.len() - from,
{
    if from < 0 || from >= s.len() {
        None
    } else if is_csi_final(s[from]) {
        Some(from)
    } else {
        csi_final(s, from + 1)
    }
}

/// A string ends past the place where the search began, and inside the data.
pub broadcast proof fn lemma_string_end_bounds(s: Seq<u8>, from: int, bel: bool)
    ensures
        #[trigger] string_end(s, from, bel) matches Some(e) ==> 0 <= from < e <= s.len(),
    decreases s.len() - from,
{
    if 0 <= from < s.len() {
        lemma_string_end_bounds(s, from + 1, bel);
    }
}

/// A CSI sequence ends where the search began or later, and inside the data.
pub broadcast proof fn lemma_csi_final_bounds(s: Seq<u8>, from: int)
    ensures
        #[trigger] csi_final(s, from) matches Some(f) ==> 0 <= from <= f < s.len() && is_csi_final(
            s[f],
        ),
    decreases s.len() - from,
{
    if 0 <= from < s.len() {
        lemma_csi_final_bounds(s, from + 1);
    }
}

/// Searching a suffix finds what searching the whole data finds from there.
pub proof fn lemma_string_end_skip(s: Seq<u8>, start: int, from: int, bel: bool)
    requires
        0 <= start <= s.len(),
        0 <= from,
    ensures
        string_end(s.skip(start), from, bel) == (match string_end(s, start + from, bel) {
            Some(e) => Some(e - start),
            None => None,
        }),
    decreases s.len() - from,
{
    if from < s.skip(start).len() {
        lemma_string_end_skip(s, start, from + 1, bel);
    }
}

/// Searching a suffix finds what searching the whole data finds from there.
pub proof fn lemma_csi_final_skip(s: Seq<u8>, start: int, from: int)
    requires
        0 <= start <= s.len(),
        0 <= from,
    ensures
        csi_final(s.skip(start), from) == (match csi_final(s, start + from) {
            Some(f) => Some(f - start),
            None => None,
        }),
    decreases s.len() - from,
{
    if from < s.skip(start).len() {
        lemma_csi_final_skip(s, start, from + 1);
    }
}

/// What follows a complete string does not move its end.
pub proof fn lemma_string_end_extend(s: Seq<u8>, more: Seq<u8>, from: int, bel: bool)
    requires
        string_end(s, from, bel) is Some,
    ensures
        string_end(s + more, from, bel) == string_end(s, from, bel),
    decreases s.len() - from,
{
    let t = s + more;
    assert(t[from] == s[from]);
    if !(bel && s[from] == BEL) && !terminator_at(s, from) {
        lemma_string_end_bounds(s, from + 1, bel);
        assert(t[from + 1] == s[from + 1]);
        lemma_string_end_extend(s, more, from + 1, bel);
    }
}

/// What follows a complete CSI sequence does not move its end.
pub proof fn lemma_csi_final_extend(s: Seq<u8>, more: Seq<u8>, from: int)
    requires
        csi_final(s, from) is Some,
    ensures
        csi_final(s + more, from) == csi_final(s, from),
    decreases s.len() - from,
{
    let t = s + more;
    assert(t[from] == s[from]);
    if !is_csi_final(s[from]) {
        lemma_csi_final_extend(s, more, from + 1);
    }
}

/// The first byte that can end a CSI sequence does.
pub proof fn lemma_csi_final_at(s: Seq<u8>, from: int, at: int)
    requires
        0 <= from <= at < s.len(),
        is_csi_final(s[at]),
        forall|i: int| from <= i < at ==> !is_csi_final(s[i]),
    ensures
        csi_final(s, from) == Some(at),
    decreases at - from,
{
    if from < at {
        lemma_csi_final_at(s, from + 1, at);
    }
}

/// Without a byte that can end it, a CSI sequence has no end.
pub proof fn lemma_csi_final_none(s: Seq<u8>, from: int)
    requires
        0 <= from,
        forall|i: int| from <= i < s.len() ==> !is_csi_final(s[i]),
    ensures
        csi_final(s, from) is None,
    decreases s.len() - from,
{
    if from < s.len() {
        lemma_csi_final_none(s, from + 1);
    }
}

/// Without a terminator, a string has no end.
pub proof fn lemma_string_end_none(s: Seq<u8>, from: int, bel: bool)
    requires
        0 <= from,
        forall|i: int|
            from <= i < s.len() ==> !(#[trigger] terminator_at(s, i)) && (bel ==> s[i] != BEL),
    ensures
        string_end(s, from, bel) is None,
    decreases s.len() - from,
{
    if from < s.len() {
        assert(!terminator_at(s, from));
        lemma_string_end_none(s, from + 1, bel);
    }
}

/// Whether bytes can be the parameters of a CSI sequence: none is in the range `@` to `~`.
pub open spec fn are_params(params: Seq<u8>) -> bool {
    forall|i: int| 0 <= i < params.len() ==> !(0x40 <= #[trigger] params[i] <= 0x7e)
}

/// Whether bytes can be the body of a control string: no ESC `\` stands in them, nor, with `bel`,
/// a BEL.
pub open spec fn are_body(body: Seq<u8>, bel: bool) -> bool {
    &&& forall|i: int|
        0 <= i < body.len() - 1 && #[trigger] body[i] == 0x1b ==> body[i + 1] != 0x5c
    &&& bel ==> !body.contains(0x07)
}

/// The two ways to say what the body of a control string can be agree.
pub proof fn lemma_are_body(body: Seq<u8>, bel: bool)
    requires
        are_body(body, bel),
    ensures
        is_body(body, bel),
{
    let end = seq![ESC, BACKSLASH];
    if has_window(body, end) {
        let i = choose|i: int| is_window(body, i, end);
        assert(body.subrange(i, i + 2)[0] == body[i]);
        assert(body.subrange(i, i + 2)[1] == body[i + 1]);
    }
}

/// The first terminator ends a string.
pub proof fn lemma_string_end_at(s: Seq<u8>, from: int, at: int, bel: bool)
    requires
        0 <= from <= at,
        terminator_at(s, at),
        forall|i: int|
            from <= i < at ==> !(#[trigger] terminator_at(s, i)) && (bel ==> s[i] != BEL),
    ensures
        string_end(s, from, bel) == Some(at + 2),
    decreases at - from,
{
    if from < at {
        assert(!terminator_at(s, from));
        lemma_string_end_at(s, from + 1, at, bel);
    }
}

/// The first BEL ends a string that it may end.
pub proof fn lemma_string_end_at_bel(s: Seq<u8>, from: int, at: int)
    requires
        0 <= from <= at < s.len(),
        s[at] == BEL,
        forall|i: int| from <= i < at ==> !(#[trigger] terminator_at(s, i)) && s[i] != BEL,
    ensures
        string_end(s, from, true) == Some(at + 1),
    decreases at - from,
{
    if from < at {
        assert(!terminator_at(s, from));
        lemma_string_end_at_bel(s, from + 1, at);
    }
}

/// Whether a control string with this body ends only where its terminator is put: there is no
/// terminator inside, nor, with `bel`, a BEL.
pub open spec fn is_body(body: Seq<u8>, bel: bool) -> bool {
    &&& !has_window(body, seq![ESC, BACKSLASH])
    &&& bel ==> !body.contains(BEL)
}

/// No terminator starts inside the body of a control string.
pub proof fn lemma_body_has_no_end(head: Seq<u8>, body: Seq<u8>, end: Seq<u8>, bel: bool)
    requires
        is_body(body, bel),
        end.len() > 0,
        end[0] != BACKSLASH,
    ensures
        forall|i: int|
            head.len() <= i < head.len() + body.len() ==> !(#[trigger] terminator_at(
                head + body + end,
                i,
            )) && (bel ==> (head + body + end)[i] != BEL),
{
    let s = head + body + end;
    assert forall|i: int| head.len() <= i < head.len() + body.len() implies !(
    #[trigger] terminator_at(s, i)) && (bel ==> s[i] != BEL) by {
        let k = i - head.len();
        assert(s[i] == body[k]);
        assert(body.contains(body[k]));
        if terminator_at(s, i) {
            if k + 1 < body.len() {
                assert(s[i + 1] == body[k + 1]);
                assert(body.subrange(k, k + 2) =~= seq![ESC, BACKSLASH]);
                assert(is_window(body, k, seq![ESC, BACKSLASH]));
            } else {
                assert(s[i + 1] == end[0]);
            }
        }
    }
}

/// The end of the OSC string whose body starts at `from`: past the first BEL or ESC `\`.
pub fn osc_end(data: &[u8], from: usize) -> (r: Option<usize>)
    ensures
        string_end(data@, from as int, true) == (match r {
            Some(e) => Some(e as int),
            None => None,
        }),
{
    let mut i: usize = from;
    while i < data.len()
        invariant
            from <= i,
            string_end(data@, from as int, true) == string_end(data@, i as int, true),
        decreases data@.len() - i,
    {
        if data[i] == BEL {
            return Some(i + 1);
        }
        if data[i] == ESC && i + 1 < data.len() && data[i + 1] == BACKSLASH {
            return Some(i + 2);
        }
        i += 1;
    }
    None
}

/// The end of the control string whose body starts at `from`: past the first ESC `\`.
pub fn st_end(data: &[u8], from: usize) -> (r: Option<usize>)
    ensures
        string_end(data@, from as int, false) == (match r {
            Some(e) => Some(e as int),
            None => None,
        }),
{
    let mut i: usize = from;
    while i < data.len()
        invariant
            from <= i,
            string_end(data@, from as int, false) == string_end(data@, i as int, false),
        decreases data@.len() - i,
    {
        if data[i] == ESC && i + 1 < data.len() && data[i + 1] == BACKSLASH {
            return Some(i + 2);
        }
        i += 1;
    }
    None
}

/// The position of the byte that ends the CSI sequence whose parameters start at `from`.
pub fn csi_end(data: &[u8], from: usize) -> (r: Option<usize>)
    ensures
        csi_final(data@, from as int) == (match r {
            Some(f) => Some(f as int),
            None => None,
        }),
{
    let mut i: usize = from;
    while i < data.len()
        invariant
            from <= i,
            csi_final(data@, from as int) == csi_final(data@, i as int),
        decreases data@.len() - i,
    {
        if 0x40 <= data[i] && data[i] <= 0x7e {
            return Some(i);
        }
        i += 1;
    }
    None
}

} // verus!
