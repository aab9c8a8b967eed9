//! Scanners for the two byte streams of an attached session.
//!
//! Output of the session may hold queries that only the outer terminal can answer: the
//! forwarder picks them out. Input from the outer terminal may hold its replies in the form
//! of control strings: the filter takes them out. Both see the stream in chunks and keep a
//! sequence that is still incomplete until the next chunk.

use crate::ansi::{
    are_body, are_params, csi_end, csi_final, is_body, is_csi_final, lemma_are_body,
    lemma_body_has_no_end, lemma_csi_final_at, lemma_csi_final_none, lemma_string_end_at,
    lemma_string_end_at_bel, lemma_string_end_none, osc_end, st_end, string_end, terminator_at,
    BACKSLASH, BEL, CSI_OPEN, DCS_OPEN, ESC, OSC_OPEN, QUESTION, SEMICOLON,
};
use crate::bytes::{
    append_bytes, append_range, contains_window, copy_range, has_prefix, has_window, is_between,
    is_window, lemma_piece_at, lemma_piece_place, pieces, same_bytes, split_on, views,
};
use vstd::prelude::*;

verus! {

/// The final byte of a device attributes request.
pub const FINAL_ATTRIBUTES: u8 = 0x63;

/// The final byte of a device status request.
pub const FINAL_STATUS: u8 = 0x6e;

/// The final byte of a window operation.
pub const FINAL_WINDOW: u8 = 0x74;

/// `Z`, the byte after ESC of the legacy identification request.
pub const IDENTIFY: u8 = 0x5a;

/// How a scanner reads the front of its data: `None` while the sequence there is incomplete,
/// otherwise the number of bytes it takes and what it emits for them.
pub type Reading = spec_fn(Seq<u8>) -> Option<(int, Seq<u8>)>;

/// What a scan leaves: the bytes emitted, and the incomplete sequence held back.
pub ghost struct Scan {
    pub out: Seq<u8>,
    pub held: Seq<u8>,
}

/// Reads sequence after sequence until the data is used up or the rest is incomplete.
pub open spec fn scan(reading: Reading, s: Seq<u8>) -> Scan
    decreases s.len(),
{
    if s.len() == 0 {
        Scan { out: Seq::empty(), held: Seq::empty() }
    } else {
        match reading(s) {
            Some((n, emitted)) => if 0 < n <= s.len() {
                let rest = scan(reading, s.skip(n));
                Scan { out: emitted + rest.out, held: rest.held }
            } else {
                Scan { out: Seq::empty(), held: s }
            },
            None => Scan { out: Seq::empty(), held: s },
        }
    }
}

/// A reading that takes at least one byte, and that no later byte changes.
pub open spec fn is_settled(reading: Reading) -> bool {
    &&& forall|s: Seq<u8>|
        s.len() > 0 && #[trigger] reading(s) is Some ==> 0 < reading(s).unwrap().0 <= s.len()
    &&& forall|s: Seq<u8>, more: Seq<u8>|
        s.len() > 0 && reading(s) is Some ==> #[trigger] reading(s + more) == reading(s)
}

/// Scanning in two chunks, with what the first held back put before the second, emits and
/// holds back what one scan of the whole does.
pub proof fn law_scan_in_chunks(reading: Reading, a: Seq<u8>, b: Seq<u8>)
    requires
        is_settled(reading),
    ensures
        scan(reading, a + b).out == scan(reading, a).out + scan(
            reading,
            scan(reading, a).held + b,
        ).out,
        scan(reading, a + b).held == scan(reading, scan(reading, a).held + b).held,
    decreases a.len(),
{
    if a.len() == 0 {
        assert(a + b == b);
        assert(scan(reading, a).held + b == b);
    } else if reading(a) is Some {
        assert(reading(a + b) == reading(a));
        let n = reading(a).unwrap().0;
        assert((a + b).skip(n) == a.skip(n) + b);
        law_scan_in_chunks(reading, a.skip(n), b);
        assert(scan(reading, a + b).out == scan(reading, a).out + scan(
            reading,
            scan(reading, a).held + b,
        ).out);
    } else {
        assert(scan(reading, a).held + b == a + b);
    }
}

/// The window operations that ask for a report.
pub open spec fn is_window_report(code: Seq<u8>) -> bool {
    ||| code == seq![0x31u8, 0x31u8]
    ||| code == seq![0x31u8, 0x33u8]
    ||| code == seq![0x31u8, 0x34u8]
    ||| code == seq![0x31u8, 0x38u8]
    ||| code == seq![0x31u8, 0x39u8]
    ||| code == seq![0x32u8, 0x30u8]
}

/// Device attributes and status requests, and window operations with a report code among
/// their parameters.
pub open spec fn csi_asks(params: Seq<u8>, final_byte: u8) -> bool {
    ||| final_byte == FINAL_ATTRIBUTES
    ||| final_byte == FINAL_STATUS
    ||| final_byte == FINAL_WINDOW && exists|i: int|
        0 <= i < pieces(params, SEMICOLON).len() && is_window_report(
            #[trigger] pieces(params, SEMICOLON)[i],
        )
}

/// DCS strings whose body opens with `$q` or `+q`.
pub open spec fn dcs_asks(sequence: Seq<u8>) -> bool {
    sequence.len() >= 4 && {
        let body = sequence.subrange(2, sequence.len() - 2);
        seq![0x24u8, 0x71u8].is_prefix_of(body) || seq![0x2bu8, 0x71u8].is_prefix_of(body)
    }
}

/// OSC strings that hold `;?`.
pub open spec fn osc_asks(sequence: Seq<u8>) -> bool {
    sequence.len() >= 4 && has_window(sequence, seq![SEMICOLON, QUESTION])
}

/// How the query forwarder reads: it emits the sequences that are queries, whole, and
/// nothing else.
pub open spec fn forward_reading(s: Seq<u8>) -> Option<(int, Seq<u8>)> {
    if s[0] != ESC {
        Some((1, Seq::empty()))
    } else if s.len() < 2 {
        None
    } else if s[1] == CSI_OPEN {
        match csi_final(s, 2) {
            Some(f) => Some(
                (
                    f + 1,
                    if csi_asks(s.subrange(2, f), s[f]) {
                        s.take(f + 1)
                    } else {
                        Seq::empty()
                    },
                ),
            ),
            None => None,
        }
    } else if s[1] == OSC_OPEN {
        match string_end(s, 2, true) {
            Some(e) => Some(
                (
                    e,
                    if osc_asks(s.take(e)) {
                        s.take(e)
                    } else {
                        Seq::empty()
                    },
                ),
            ),
            None => None,
        }
    } else if s[1] == DCS_OPEN {
        match string_end(s, 2, false) {
            Some(e) => Some(
                (
                    e,
                    if dcs_asks(s.take(e)) {
                        s.take(e)
                    } else {
                        Seq::empty()
                    },
                ),
            ),
            None => None,
        }
    } else if s[1] == IDENTIFY {
        Some((2, s.take(2)))
    } else {
        Some((1, Seq::empty()))
    }
}

/// How the reply filter reads: it drops OSC and DCS strings and lets every other byte pass.
pub open spec fn filter_reading(s: Seq<u8>) -> Option<(int, Seq<u8>)> {
    if s[0] != ESC {
        Some((1, s.take(1)))
    } else if s.len() < 2 {
        None
    } else if s[1] == OSC_OPEN {
        match string_end(s, 2, true) {
            Some(e) => Some((e, Seq::empty())),
            None => None,
        }
    } else if s[1] == DCS_OPEN {
        match string_end(s, 2, false) {
            Some(e) => Some((e, Seq::empty())),
            None => None,
        }
    } else {
        Some((1, s.take(1)))
    }
}

/// `forward_reading` as a value.
pub open spec fn forwarding() -> Reading {
    |s: Seq<u8>| forward_reading(s)
}

/// `filter_reading` as a value.
pub open spec fn filtering() -> Reading {
    |s: Seq<u8>| filter_reading(s)
}

/// The forwarder's scan.
pub open spec fn forward_scan(s: Seq<u8>) -> Scan {
    scan(forwarding(), s)
}

/// The filter's scan.
pub open spec fn filter_scan(s: Seq<u8>) -> Scan {
    scan(filtering(), s)
}

proof fn lemma_forward_extend(s: Seq<u8>, more: Seq<u8>)
    requires
        s.len() > 0,
        forward_reading(s) is Some,
    ensures
        0 < forward_reading(s).unwrap().0 <= s.len(),
        forward_reading(s + more) == forward_reading(s),
{
    let t = s + more;
    assert(t[0] == s[0]);
    if s[0] == ESC && s.len() >= 2 {
        assert(t[1] == s[1]);
        if s[1] == CSI_OPEN {
            crate::ansi::lemma_csi_final_bounds(s, 2);
            crate::ansi::lemma_csi_final_extend(s, more, 2);
            let f = csi_final(s, 2)->0;
            assert(t.subrange(2, f) == s.subrange(2, f));
            assert(t.take(f + 1) == s.take(f + 1));
        } else if s[1] == OSC_OPEN {
            crate::ansi::lemma_string_end_bounds(s, 2, true);
            crate::ansi::lemma_string_end_extend(s, more, 2, true);
            let e = string_end(s, 2, true)->0;
            assert(t.take(e) == s.take(e));
        } else if s[1] == DCS_OPEN {
            crate::ansi::lemma_string_end_bounds(s, 2, false);
            crate::ansi::lemma_string_end_extend(s, more, 2, false);
            let e = string_end(s, 2, false)->0;
            assert(t.take(e) == s.take(e));
        } else {
            assert(t.take(2) == s.take(2));
        }
    }
}

/// No later byte changes what the forwarder reads.
pub proof fn lemma_forward_settled()
    ensures
        is_settled(forwarding()),
{
    let reading = forwarding();
    assert forall|s: Seq<u8>| s.len() > 0 && #[trigger] reading(s) is Some implies 0 < reading(
        s,
    ).unwrap().0 <= s.len() by {
        lemma_forward_extend(s, Seq::empty());
    }
    assert forall|s: Seq<u8>, more: Seq<u8>|
        s.len() > 0 && reading(s) is Some implies #[trigger] reading(s + more) == reading(s) by {
        lemma_forward_extend(s, more);
    }
}

proof fn lemma_filter_extend(s: Seq<u8>, more: Seq<u8>)
    requires
        s.len() > 0,
        filter_reading(s) is Some,
    ensures
        0 < filter_reading(s).unwrap().0 <= s.len(),
        filter_reading(s + more) == filter_reading(s),
{
    let t = s + more;
    assert(t[0] == s[0]);
    assert(t.take(1) == s.take(1));
    if s[0] == ESC && s.len() >= 2 {
        assert(t[1] == s[1]);
        if s[1] == OSC_OPEN {
            crate::ansi::lemma_string_end_bounds(s, 2, true);
            crate::ansi::lemma_string_end_extend(s, more, 2, true);
        } else if s[1] == DCS_OPEN {
            crate::ansi::lemma_string_end_bounds(s, 2, false);
            crate::ansi::lemma_string_end_extend(s, more, 2, false);
        }
    }
}

/// No later byte changes what the filter reads.
pub proof fn lemma_filter_settled()
    ensures
        is_settled(filtering()),
{
    let reading = filtering();
    assert forall|s: Seq<u8>| s.len() > 0 && #[trigger] reading(s) is Some implies 0 < reading(
        s,
    ).unwrap().0 <= s.len() by {
        lemma_filter_extend(s, Seq::empty());
    }
    assert forall|s: Seq<u8>, more: Seq<u8>|
        s.len() > 0 && reading(s) is Some implies #[trigger] reading(s + more) == reading(s) by {
        lemma_filter_extend(s, more);
    }
}

/// A query is forwarded whole however the output is cut into chunks: what two calls forward
/// is what one call on both chunks would, and the same incomplete sequence is kept.
pub proof fn law_forward_in_chunks(carry: Seq<u8>, a: Seq<u8>, b: Seq<u8>)
    ensures
        forward_scan(carry + (a + b)).out == forward_scan(carry + a).out + forward_scan(
            forward_scan(carry + a).held + b,
        ).out,
        forward_scan(carry + (a + b)).held == forward_scan(
            forward_scan(carry + a).held + b,
        ).held,
{
    lemma_forward_settled();
    assert(carry + (a + b) == (carry + a) + b);
    law_scan_in_chunks(forwarding(), carry + a, b);
}

/// A reply is dropped whole however the input is cut into chunks: what two calls let pass is
/// what one call on both chunks would, and the same incomplete sequence is kept.
pub proof fn law_filter_in_chunks(carry: Seq<u8>, a: Seq<u8>, b: Seq<u8>)
    ensures
        filter_scan(carry + (a + b)).out == filter_scan(carry + a).out + filter_scan(
            filter_scan(carry + a).held + b,
        ).out,
        filter_scan(carry + (a + b)).held == filter_scan(filter_scan(carry + a).held + b).held,
{
    lemma_filter_settled();
    assert(carry + (a + b) == (carry + a) + b);
    law_scan_in_chunks(filtering(), carry + a, b);
}

/// Input without ESC passes unchanged, and nothing is held back.
pub proof fn law_filter_passes_plain_input(s: Seq<u8>)
    requires
        !s.contains(ESC),
    ensures
        filter_scan(s).out == s,
        filter_scan(s).held == Seq::<u8>::empty(),
    decreases s.len(),
{
    if s.len() > 0 {
        assert(s.contains(s[0]));
        assert forall|i: int| 0 <= i < s.skip(1).len() implies s.skip(1)[i] != ESC by {
            assert(s.contains(s[i + 1]));
        }
        law_filter_passes_plain_input(s.skip(1));
        assert(s.take(1) + s.skip(1) == s);
    }
}

/// Output without ESC holds no query, and nothing is held back.
pub proof fn law_forward_ignores_plain_output(s: Seq<u8>)
    requires
        !s.contains(ESC),
    ensures
        forward_scan(s).out == Seq::<u8>::empty(),
        forward_scan(s).held == Seq::<u8>::empty(),
    decreases s.len(),
{
    if s.len() > 0 {
        assert(s.contains(s[0]));
        assert forall|i: int| 0 <= i < s.skip(1).len() implies s.skip(1)[i] != ESC by {
            assert(s.contains(s[i + 1]));
        }
        law_forward_ignores_plain_output(s.skip(1));
    }
}

proof fn lemma_forward_sequence(
    before: Seq<u8>,
    sequence: Seq<u8>,
    emitted: Seq<u8>,
    rest: Seq<u8>,
)
    requires
        forward_scan(before).held.len() == 0,
        sequence.len() > 0,
        forward_reading(sequence) == Some((sequence.len() as int, emitted)),
    ensures
        forward_scan(before + (sequence + rest)).out == forward_scan(before).out + (emitted
            + forward_scan(rest).out),
        forward_scan(before + (sequence + rest)).held == forward_scan(rest).held,
{
    lemma_forward_settled();
    law_scan_in_chunks(forwarding(), before, sequence + rest);
    assert(forward_scan(before).held + (sequence + rest) =~= sequence + rest);
    let reading = forwarding();
    assert(reading(sequence + rest) == reading(sequence));
    assert((sequence + rest).skip(sequence.len() as int) =~= rest);
}

/// A CSI sequence that is a query is forwarded whole; what stands before it, with no sequence
/// left incomplete, and what follows it are treated as if they stood alone.
pub proof fn law_csi_queries_are_forwarded(
    before: Seq<u8>,
    params: Seq<u8>,
    final_byte: u8,
    rest: Seq<u8>,
)
    requires
        forward_scan(before).held.len() == 0,
        forall|i: int| 0 <= i < params.len() ==> !is_csi_final(params[i]),
        csi_asks(params, final_byte),
    ensures
        ({
            let query = seq![ESC, CSI_OPEN] + params + seq![final_byte];
            &&& forward_scan(before + (query + rest)).out == forward_scan(before).out + (query
                + forward_scan(rest).out)
            &&& forward_scan(before + (query + rest)).held == forward_scan(rest).held
        }),
{
    let query = seq![ESC, CSI_OPEN] + params + seq![final_byte];
    let f = 2 + params.len() as int;
    assert(query[0] == ESC && query[1] == CSI_OPEN && query[f] == final_byte);
    assert forall|i: int| 2 <= i < f implies !is_csi_final(query[i]) by {
        assert(query[i] == params[i - 2]);
    }
    lemma_csi_final_at(query, 2, f);
    assert(query.subrange(2, f) =~= params);
    assert(query.take(f + 1) =~= query);
    lemma_forward_sequence(before, query, query, rest);
}

/// A CSI sequence that is no query is not forwarded; what stands before it, with no sequence
/// left incomplete, and what follows it are treated as if they stood alone.
pub proof fn law_other_csi_is_not_forwarded(
    before: Seq<u8>,
    params: Seq<u8>,
    final_byte: u8,
    rest: Seq<u8>,
)
    requires
        forward_scan(before).held.len() == 0,
        forall|i: int| 0 <= i < params.len() ==> !is_csi_final(params[i]),
        is_csi_final(final_byte),
        !csi_asks(params, final_byte),
    ensures
        ({
            let sequence = seq![ESC, CSI_OPEN] + params + seq![final_byte];
            &&& forward_scan(before + (sequence + rest)).out == forward_scan(before).out
                + forward_scan(rest).out
            &&& forward_scan(before + (sequence + rest)).held == forward_scan(rest).held
        }),
{
    let sequence = seq![ESC, CSI_OPEN] + params + seq![final_byte];
    let f = 2 + params.len() as int;
    assert(sequence[0] == ESC && sequence[1] == CSI_OPEN && sequence[f] == final_byte);
    assert forall|i: int| 2 <= i < f implies !is_csi_final(sequence[i]) by {
        assert(sequence[i] == params[i - 2]);
    }
    lemma_csi_final_at(sequence, 2, f);
    assert(sequence.subrange(2, f) =~= params);
    lemma_forward_sequence(before, sequence, Seq::empty(), rest);
    assert(Seq::<u8>::empty() + forward_scan(rest).out =~= forward_scan(rest).out);
}

/// A reply in the form of an OSC string, ended by BEL or by ESC `\`, is dropped; what stands
/// before it, with no sequence left incomplete, and what follows are treated as if they stood
/// alone.
pub proof fn law_osc_replies_are_dropped(
    before: Seq<u8>,
    body: Seq<u8>,
    with_bel: bool,
    rest: Seq<u8>,
)
    requires
        filter_scan(before).held.len() == 0,
        is_body(body, true),
    ensures
        ({
            let end = if with_bel {
                seq![BEL]
            } else {
                seq![ESC, BACKSLASH]
            };
            let reply = seq![ESC, OSC_OPEN] + body + end;
            &&& filter_scan(before + (reply + rest)).out == filter_scan(before).out + filter_scan(
                rest,
            ).out
            &&& filter_scan(before + (reply + rest)).held == filter_scan(rest).held
        }),
{
    let end = if with_bel {
        seq![BEL]
    } else {
        seq![ESC, BACKSLASH]
    };
    let reply = seq![ESC, OSC_OPEN] + body + end;
    let at = 2 + body.len() as int;
    assert(reply[0] == ESC && reply[1] == OSC_OPEN && reply[at] == end[0]);
    lemma_body_has_no_end(seq![ESC, OSC_OPEN], body, end, true);
    if with_bel {
        lemma_string_end_at_bel(reply, 2, at);
    } else {
        assert(reply[at + 1] == BACKSLASH);
        lemma_string_end_at(reply, 2, at, true);
    }
    lemma_filter_sequence(before, reply, rest);
}

/// A reply in the form of a DCS string is dropped; what stands before it, with no sequence left
/// incomplete, and what follows are treated as if they stood alone.
pub proof fn law_dcs_replies_are_dropped(before: Seq<u8>, body: Seq<u8>, rest: Seq<u8>)
    requires
        filter_scan(before).held.len() == 0,
        is_body(body, false),
    ensures
        ({
            let reply = seq![ESC, DCS_OPEN] + body + seq![ESC, BACKSLASH];
            &&& filter_scan(before + (reply + rest)).out == filter_scan(before).out + filter_scan(
                rest,
            ).out
            &&& filter_scan(before + (reply + rest)).held == filter_scan(rest).held
        }),
{
    let reply = seq![ESC, DCS_OPEN] + body + seq![ESC, BACKSLASH];
    let at = 2 + body.len() as int;
    assert(reply[0] == ESC && reply[1] == DCS_OPEN && reply[at] == ESC && reply[at + 1]
        == BACKSLASH);
    lemma_body_has_no_end(seq![ESC, DCS_OPEN], body, seq![ESC, BACKSLASH], false);
    lemma_string_end_at(reply, 2, at, false);
    lemma_filter_sequence(before, reply, rest);
}

proof fn lemma_filter_sequence(before: Seq<u8>, reply: Seq<u8>, rest: Seq<u8>)
    requires
        filter_scan(before).held.len() == 0,
        reply.len() > 0,
        filter_reading(reply) == Some((reply.len() as int, Seq::<u8>::empty())),
    ensures
        filter_scan(before + (reply + rest)).out == filter_scan(before).out + filter_scan(rest).out,
        filter_scan(before + (reply + rest)).held == filter_scan(rest).held,
{
    lemma_filter_settled();
    law_scan_in_chunks(filtering(), before, reply + rest);
    assert(filter_scan(before).held + (reply + rest) =~= reply + rest);
    let reading = filtering();
    assert(reading(reply + rest) == reading(reply));
    assert((reply + rest).skip(reply.len() as int) =~= rest);
    assert(Seq::<u8>::empty() + filter_scan(rest).out =~= filter_scan(rest).out);
}

/// Whether the parameters of a window operation name a report: 11, 13, 14, 18, 19 or 20 stands
/// between semicolons or the ends.
pub open spec fn names_report(params: Seq<u8>) -> bool {
    exists|from: int|
        {
            &&& #[trigger] is_between(params, 0x3b, from, from + 2)
            &&& (params[from] == 0x31 && (params[from + 1] == 0x31 || params[from + 1] == 0x33
                || params[from + 1] == 0x34 || params[from + 1] == 0x38 || params[from + 1]
                == 0x39)) || (params[from] == 0x32 && params[from + 1] == 0x30)
        }
}

proof fn lemma_names_report(params: Seq<u8>)
    ensures
        names_report(params) <==> exists|i: int|
            0 <= i < pieces(params, SEMICOLON).len() && is_window_report(
                #[trigger] pieces(params, SEMICOLON)[i],
            ),
{
    let all = pieces(params, SEMICOLON);
    if names_report(params) {
        let from = choose|from: int|
            {
                &&& #[trigger] is_between(params, 0x3b, from, from + 2)
                &&& (params[from] == 0x31 && (params[from + 1] == 0x31 || params[from + 1] == 0x33
                    || params[from + 1] == 0x34 || params[from + 1] == 0x38 || params[from + 1]
                    == 0x39)) || (params[from] == 0x32 && params[from + 1] == 0x30)
            };
        let k = lemma_piece_at(params, SEMICOLON, from, from + 2);
        assert(all[k] =~= seq![params[from], params[from + 1]]);
        assert(is_window_report(all[k]));
    }
    if exists|i: int| 0 <= i < all.len() && is_window_report(#[trigger] all[i]) {
        let i = choose|i: int| 0 <= i < all.len() && is_window_report(#[trigger] all[i]);
        let at = lemma_piece_place(params, SEMICOLON, i);
        assert(all[i].len() == 2);
        assert(all[i][0] == params[at.0] && all[i][1] == params[at.0 + 1]);
        assert(is_between(params, 0x3b, at.0, at.0 + 2));
    }
}

/// Of the CSI sequences, those that end in `c` or `n` are forwarded, and those that end in `t`
/// and name a report; no other is. What stands before, with no sequence left incomplete, and
/// what follows are treated as if they stood alone.
pub proof fn law_forwarded_csi_sequences(
    before: Seq<u8>,
    params: Seq<u8>,
    final_byte: u8,
    rest: Seq<u8>,
)
    requires
        forward_scan(before).held.len() == 0,
        are_params(params),
        0x40 <= final_byte <= 0x7e,
    ensures
        ({
            let sequence = seq![0x1bu8, 0x5bu8] + params + seq![final_byte];
            let scanned = forward_scan(before + (sequence + rest));
            &&& final_byte == 0x63 || final_byte == 0x6e || (final_byte == 0x74 && names_report(
                params,
            )) ==> scanned.out == forward_scan(before).out + sequence + forward_scan(rest).out
            &&& final_byte != 0x63 && final_byte != 0x6e && !(final_byte == 0x74 && names_report(
                params,
            )) ==> scanned.out == forward_scan(before).out + forward_scan(rest).out
            &&& scanned.held == forward_scan(rest).held
        }),
{
    lemma_names_report(params);
    let sequence = seq![0x1bu8, 0x5bu8] + params + seq![final_byte];
    if csi_asks(params, final_byte) {
        law_csi_queries_are_forwarded(before, params, final_byte, rest);
        assert(forward_scan(before).out + (sequence + forward_scan(rest).out) =~= forward_scan(
            before,
        ).out + sequence + forward_scan(rest).out);
    } else {
        law_other_csi_is_not_forwarded(before, params, final_byte, rest);
    }
}

/// Of the OSC strings, ended by BEL or by ESC `\`, those that hold `;?` are forwarded, and no
/// other is.
pub proof fn law_forwarded_osc_strings(
    before: Seq<u8>,
    body: Seq<u8>,
    with_bel: bool,
    rest: Seq<u8>,
)
    requires
        forward_scan(before).held.len() == 0,
        are_body(body, true),
    ensures
        ({
            let end = if with_bel {
                seq![0x07u8]
            } else {
                seq![0x1bu8, 0x5cu8]
            };
            let sequence = seq![0x1bu8, 0x5du8] + body + end;
            let scanned = forward_scan(before + (sequence + rest));
            let asks = exists|i: int|
                0 <= i < body.len() - 1 && #[trigger] body[i] == 0x3b && body[i + 1] == 0x3f;
            &&& scanned.out == forward_scan(before).out + (if asks {
                sequence
            } else {
                Seq::empty()
            }) + forward_scan(rest).out
            &&& scanned.held == forward_scan(rest).held
        }),
{
    let end = if with_bel {
        seq![0x07u8]
    } else {
        seq![0x1bu8, 0x5cu8]
    };
    let s = seq![0x1bu8, 0x5du8] + body + end;
    let at = 2 + body.len() as int;
    let query = seq![SEMICOLON, QUESTION];
    lemma_are_body(body, true);
    lemma_body_has_no_end(seq![ESC, OSC_OPEN], body, end, true);
    assert(s[at] == end[0]);
    if with_bel {
        lemma_string_end_at_bel(s, 2, at);
    } else {
        assert(s[at + 1] == BACKSLASH);
        lemma_string_end_at(s, 2, at, true);
    }
    assert(s.take(s.len() as int) =~= s);
    if exists|i: int| 0 <= i < body.len() - 1 && #[trigger] body[i] == 0x3b && body[i + 1] == 0x3f {
        let i = choose|i: int|
            0 <= i < body.len() - 1 && #[trigger] body[i] == 0x3b && body[i + 1] == 0x3f;
        assert(s[i + 2] == body[i] && s[i + 3] == body[i + 1]);
        assert(s.subrange(i + 2, i + 4) =~= query);
        assert(is_window(s, i + 2, query));
    }
    if has_window(s, query) {
        let i = choose|i: int| is_window(s, i, query);
        assert(s.subrange(i, i + 2)[0] == s[i]);
        assert(s.subrange(i, i + 2)[1] == s[i + 1]);
        assert(s[0] == 0x1b && s[1] == 0x5d);
        assert(i >= 2);
        if i + 1 < at {
            assert(s[i] == body[i - 2] && s[i + 1] == body[i - 1]);
        } else {
            assert(i == at - 1 ==> s[i + 1] == end[0]);
            assert(i == at ==> s[i] == end[0]);
            assert(false);
        }
    }
    let emitted = if osc_asks(s) {
        s
    } else {
        Seq::empty()
    };
    lemma_forward_sequence(before, s, emitted, rest);
    assert(forward_scan(before).out + (emitted + forward_scan(rest).out) =~= forward_scan(
        before,
    ).out + emitted + forward_scan(rest).out);
}

/// Of the DCS strings, those whose body opens with `$q` or `+q` are forwarded, and no other is.
pub proof fn law_forwarded_dcs_strings(before: Seq<u8>, body: Seq<u8>, rest: Seq<u8>)
    requires
        forward_scan(before).held.len() == 0,
        are_body(body, false),
    ensures
        ({
            let sequence = seq![0x1bu8, 0x50u8] + body + seq![0x1bu8, 0x5cu8];
            let scanned = forward_scan(before + (sequence + rest));
            let asks = body.len() >= 2 && (body[0] == 0x24 || body[0] == 0x2b) && body[1] == 0x71;
            &&& scanned.out == forward_scan(before).out + (if asks {
                sequence
            } else {
                Seq::empty()
            }) + forward_scan(rest).out
            &&& scanned.held == forward_scan(rest).held
        }),
{
    let s = seq![0x1bu8, 0x50u8] + body + seq![0x1bu8, 0x5cu8];
    let at = 2 + body.len() as int;
    lemma_are_body(body, false);
    lemma_body_has_no_end(seq![ESC, DCS_OPEN], body, seq![ESC, BACKSLASH], false);
    assert(s[at] == ESC && s[at + 1] == BACKSLASH);
    lemma_string_end_at(s, 2, at, false);
    assert(s.take(s.len() as int) =~= s);
    assert(s.subrange(2, s.len() - 2) =~= body);
    let (status, caps) = (seq![0x24u8, 0x71u8], seq![0x2bu8, 0x71u8]);
    if body.len() >= 2 {
        assert(body.subrange(0, 2) =~= seq![body[0], body[1]]);
        assert(status.is_prefix_of(body) <==> body[0] == 0x24 && body[1] == 0x71) by {
            if status.is_prefix_of(body) {
                assert(body.subrange(0, 2)[0] == status[0] && body.subrange(0, 2)[1] == status[1]);
            }
        }
        assert(caps.is_prefix_of(body) <==> body[0] == 0x2b && body[1] == 0x71) by {
            if caps.is_prefix_of(body) {
                assert(body.subrange(0, 2)[0] == caps[0] && body.subrange(0, 2)[1] == caps[1]);
            }
        }
    }
    let emitted = if dcs_asks(s) {
        s
    } else {
        Seq::empty()
    };
    lemma_forward_sequence(before, s, emitted, rest);
    assert(forward_scan(before).out + (emitted + forward_scan(rest).out) =~= forward_scan(
        before,
    ).out + emitted + forward_scan(rest).out);
}

/// What counts as a query among CSI sequences, whatever the bytes.
pub proof fn law_csi_queries(params: Seq<u8>, final_byte: u8)
    ensures
        csi_asks(params, final_byte) <==> final_byte == 0x63 || final_byte == 0x6e || (final_byte
            == 0x74 && names_report(params)),
{
    lemma_names_report(params);
}

/// What counts as a query among OSC and DCS strings, introducer and terminator included.
pub proof fn law_string_queries(sequence: Seq<u8>)
    ensures
        osc_asks(sequence) <==> sequence.len() >= 4 && exists|i: int|
            0 <= i < sequence.len() - 1 && #[trigger] sequence[i] == 0x3b && sequence[i + 1]
                == 0x3f,
        dcs_asks(sequence) <==> sequence.len() >= 6 && (sequence[2] == 0x24 || sequence[2] == 0x2b)
            && sequence[3] == 0x71,
{
    let window = seq![0x3bu8, 0x3fu8];
    if has_window(sequence, window) {
        let at = choose|at: int| is_window(sequence, at, window);
        let part = sequence.subrange(at, at + 2);
        assert(part[0] == sequence[at] && part[1] == sequence[at + 1]);
    }
    if exists|i: int|
        0 <= i < sequence.len() - 1 && #[trigger] sequence[i] == 0x3b && sequence[i + 1] == 0x3f {
        let i = choose|i: int|
            0 <= i < sequence.len() - 1 && #[trigger] sequence[i] == 0x3b && sequence[i + 1]
                == 0x3f;
        assert(sequence.subrange(i, i + 2) =~= window);
        assert(is_window(sequence, i, window));
    }
    if sequence.len() >= 4 {
        let body = sequence.subrange(2, sequence.len() - 2);
        if body.len() >= 2 {
            assert(body.subrange(0, 2) =~= seq![body[0], body[1]]);
            assert(seq![0x24u8, 0x71u8][0] == 0x24 && seq![0x24u8, 0x71u8][1] == 0x71);
            assert(seq![0x2bu8, 0x71u8][0] == 0x2b && seq![0x2bu8, 0x71u8][1] == 0x71);
        }
    }
}

/// ESC `Z` is forwarded. An ESC with any other byte behind it that opens no sequence is not, and
/// that byte is treated as if it stood alone.
pub proof fn law_forwarded_escapes(before: Seq<u8>, byte: u8, rest: Seq<u8>)
    requires
        forward_scan(before).held.len() == 0,
        byte != 0x5b && byte != 0x5d && byte != 0x50,
    ensures
        byte == 0x5a ==> forward_scan(before + (seq![0x1bu8, 0x5au8] + rest)).out == forward_scan(
            before,
        ).out + seq![0x1bu8, 0x5au8] + forward_scan(rest).out,
        byte == 0x5a ==> forward_scan(before + (seq![0x1bu8, 0x5au8] + rest)).held == forward_scan(
            rest,
        ).held,
        byte != 0x5a ==> forward_scan(before + (seq![0x1bu8, byte] + rest)).out == forward_scan(
            before,
        ).out + forward_scan(seq![byte] + rest).out,
        byte != 0x5a ==> forward_scan(before + (seq![0x1bu8, byte] + rest)).held == forward_scan(
            seq![byte] + rest,
        ).held,
{
    let s = seq![0x1bu8, byte] + rest;
    lemma_forward_settled();
    law_scan_in_chunks(forwarding(), before, s);
    assert(forward_scan(before).held + s =~= s);
    let reading = forwarding();
    if byte == 0x5a {
        assert(s.take(2) =~= seq![0x1bu8, 0x5au8]);
        assert(reading(s) == Some((2int, s.take(2))));
        assert(s.skip(2) =~= rest);
        assert(forward_scan(before).out + (s.take(2) + forward_scan(rest).out) =~= forward_scan(
            before,
        ).out + seq![0x1bu8, 0x5au8] + forward_scan(rest).out);
    } else {
        assert(reading(s) == Some((1int, Seq::<u8>::empty())));
        assert(s.skip(1) =~= seq![byte] + rest);
        assert(Seq::<u8>::empty() + forward_scan(s.skip(1)).out =~= forward_scan(s.skip(1)).out);
    }
}

/// Whether bytes are the beginning of a sequence that later bytes may complete: a lone ESC, or an
/// opening with nothing behind it that ends the sequence. Without `csi`, CSI sequences do not
/// count.
pub open spec fn is_beginning(tail: Seq<u8>, csi: bool) -> bool {
    &&& tail.len() >= 1
    &&& tail[0] == 0x1b
    &&& tail.len() == 1 || {
        ||| csi && tail[1] == 0x5b && are_params(tail.skip(2))
        ||| tail[1] == 0x5d && are_body(tail.skip(2), true)
        ||| tail[1] == 0x50 && are_body(tail.skip(2), false)
    }
}

proof fn lemma_beginning_has_no_end(tail: Seq<u8>)
    requires
        is_beginning(tail, true),
        tail.len() > 1,
    ensures
        tail[1] == 0x5b ==> csi_final(tail, 2) is None,
        tail[1] == 0x5d ==> string_end(tail, 2, true) is None,
        tail[1] == 0x50 ==> string_end(tail, 2, false) is None,
{
    let inner = tail.skip(2);
    if tail[1] == 0x5b {
        assert forall|i: int| 2 <= i < tail.len() implies !is_csi_final(tail[i]) by {
            assert(tail[i] == inner[i - 2]);
        }
        lemma_csi_final_none(tail, 2);
    } else {
        let bel = tail[1] == 0x5d;
        assert forall|i: int| 2 <= i < tail.len() implies !(#[trigger] terminator_at(tail, i)) && (
        bel ==> tail[i] != BEL) by {
            assert(tail[i] == inner[i - 2]);
            assert(inner.contains(inner[i - 2]));
            if i + 1 < tail.len() {
                assert(tail[i + 1] == inner[i - 1]);
            }
        }
        lemma_string_end_none(tail, 2, bel);
    }
}

/// The beginning of a sequence is not forwarded but held back, whole, for what follows.
pub proof fn law_forwarder_holds_a_beginning(before: Seq<u8>, tail: Seq<u8>)
    requires
        forward_scan(before).held.len() == 0,
        is_beginning(tail, true),
    ensures
        forward_scan(before + tail).out == forward_scan(before).out,
        forward_scan(before + tail).held == tail,
{
    lemma_forward_settled();
    law_scan_in_chunks(forwarding(), before, tail);
    assert(forward_scan(before).held + tail =~= tail);
    if tail.len() > 1 {
        lemma_beginning_has_no_end(tail);
    }
    assert(forward_scan(before).out + Seq::<u8>::empty() =~= forward_scan(before).out);
}

/// Input in which no ESC opens an OSC or DCS string, and which does not end in ESC, passes the
/// filter as it is: cursor keys, function keys and everything else that is typed.
pub proof fn law_filter_passes_keys(s: Seq<u8>)
    requires
        forall|i: int|
            0 <= i < s.len() - 1 && #[trigger] s[i] == 0x1b ==> s[i + 1] != 0x5d && s[i + 1]
                != 0x50,
        s.len() > 0 ==> s.last() != 0x1b,
    ensures
        filter_scan(s).out == s,
        filter_scan(s).held == Seq::<u8>::empty(),
    decreases s.len(),
{
    if s.len() > 0 {
        let rest = s.skip(1);
        assert forall|i: int| 0 <= i < rest.len() - 1 && #[trigger] rest[i] == 0x1b implies rest[i
            + 1] != 0x5d && rest[i + 1] != 0x50 by {
            assert(s[i + 1] == rest[i] && s[i + 2] == rest[i + 1]);
        }
        law_filter_passes_keys(rest);
        assert(s[0] == 0x1b ==> s.len() > 1);
        assert(s.take(1) + rest =~= s);
    }
}

/// A reply in the form of a control string is taken out whole: an OSC string, ended by BEL or by
/// ESC `\`, or a DCS string, ended by ESC `\`. What stands before, with no sequence left
/// incomplete, and what follows are treated as if they stood alone.
pub proof fn law_filter_takes_out_replies(
    before: Seq<u8>,
    body: Seq<u8>,
    with_bel: bool,
    rest: Seq<u8>,
)
    requires
        filter_scan(before).held.len() == 0,
    ensures
        are_body(body, true) ==> {
            let end = if with_bel {
                seq![0x07u8]
            } else {
                seq![0x1bu8, 0x5cu8]
            };
            let scanned = filter_scan(before + (seq![0x1bu8, 0x5du8] + body + end + rest));
            &&& scanned.out == filter_scan(before).out + filter_scan(rest).out
            &&& scanned.held == filter_scan(rest).held
        },
        are_body(body, false) ==> {
            let scanned = filter_scan(
                before + (seq![0x1bu8, 0x50u8] + body + seq![0x1bu8, 0x5cu8] + rest),
            );
            &&& scanned.out == filter_scan(before).out + filter_scan(rest).out
            &&& scanned.held == filter_scan(rest).held
        },
{
    if are_body(body, true) {
        lemma_are_body(body, true);
        law_osc_replies_are_dropped(before, body, with_bel, rest);
    }
    if are_body(body, false) {
        lemma_are_body(body, false);
        law_dcs_replies_are_dropped(before, body, rest);
    }
}

/// The beginning of a reply does not pass but is held back, whole, for what follows.
pub proof fn law_filter_holds_a_beginning(before: Seq<u8>, tail: Seq<u8>)
    requires
        filter_scan(before).held.len() == 0,
        is_beginning(tail, false),
    ensures
        filter_scan(before + tail).out == filter_scan(before).out,
        filter_scan(before + tail).held == tail,
{
    lemma_filter_settled();
    law_scan_in_chunks(filtering(), before, tail);
    assert(filter_scan(before).held + tail =~= tail);
    if tail.len() > 1 {
        lemma_beginning_has_no_end(tail);
    }
    assert(filter_scan(before).out + Seq::<u8>::empty() =~= filter_scan(before).out);
}

fn is_pair(code: &[u8], first: u8, second: u8) -> (r: bool)
    ensures
        r == (code@ == seq![first, second]),
{
    let pair = [first, second];
    assert(pair@ =~= seq![first, second]);
    same_bytes(code, &pair)
}

/// Whether a CSI sequence asks the terminal for a reply.
pub fn is_terminal_query_csi(params: &[u8], final_byte: u8) -> (r: bool)
    ensures
        r == csi_asks(params@, final_byte),
{
    if final_byte == FINAL_ATTRIBUTES || final_byte == FINAL_STATUS {
        return true;
    }
    if final_byte == FINAL_WINDOW {
        let codes = split_on(params, SEMICOLON);
        let mut i: usize = 0;
        while i < codes.len()
            invariant
                final_byte == FINAL_WINDOW,
                views(codes@) == pieces(params@, SEMICOLON),
                i <= codes@.len(),
                forall|k: int| 0 <= k < i ==> !is_window_report(pieces(params@, SEMICOLON)[k]),
            decreases codes@.len() - i,
        {
            let code = codes[i].as_slice();
            assert(views(codes@)[i as int] == code@);
            if is_pair(code, 0x31, 0x31) || is_pair(code, 0x31, 0x33) || is_pair(code, 0x31, 0x34)
                || is_pair(code, 0x31, 0x38) || is_pair(code, 0x31, 0x39) || is_pair(
                code,
                0x32,
                0x30,
            ) {
                assert(i < pieces(params@, SEMICOLON).len());
                assert(is_window_report(pieces(params@, SEMICOLON)[i as int]));
                return true;
            }
            i += 1;
        }
    }
    false
}

/// Whether a complete DCS string, introducer and terminator included, asks for a reply.
pub fn is_terminal_query_dcs(sequence: &[u8]) -> (r: bool)
    ensures
        r == dcs_asks(sequence@),
{
    if sequence.len() < 4 {
        return false;
    }
    let body = copy_range(sequence, 2, sequence.len() - 2);
    has_prefix(&body, &[0x24, 0x71]) || has_prefix(&body, &[0x2b, 0x71])
}

/// Whether a complete OSC string, introducer and terminator included, asks for a reply.
pub fn is_terminal_query_osc(sequence: &[u8]) -> (r: bool)
    ensures
        r == osc_asks(sequence@),
{
    if sequence.len() < 4 {
        return false;
    }
    contains_window(sequence, &[SEMICOLON, QUESTION])
}

/// Picks the terminal queries out of session output.
pub struct TerminalQueryForwarder {
    carry: Vec<u8>,
}

impl View for TerminalQueryForwarder {
    type V = Seq<u8>;

    /// The incomplete sequence kept for the next chunk.
    closed spec fn view(&self) -> Seq<u8> {
        self.carry@
    }
}

impl Default for TerminalQueryForwarder {
    fn default() -> (r: Self)
        ensures
            r@ == Seq::<u8>::empty(),
    {
        TerminalQueryForwarder { carry: Vec::new() }
    }
}

impl TerminalQueryForwarder {
    /// Takes the next chunk of output and returns the queries completed by it.
    pub fn extract_queries(&mut self, chunk: &[u8]) -> (out: Vec<u8>)
        ensures
            out@ == forward_scan(old(self)@ + chunk@).out,
            final(self)@ == forward_scan(old(self)@ + chunk@).held,
    {
        let mut data: Vec<u8> = Vec::new();
        append_bytes(&mut data, &self.carry);
        append_bytes(&mut data, chunk);
        assert(data@ =~= old(self)@ + chunk@);
        self.carry.clear();

        let ghost whole = forward_scan(data@);
        let mut out: Vec<u8> = Vec::new();
        let mut i: usize = 0;
        assert(data@.skip(0) =~= data@);
        while i < data.len()
            invariant_except_break
                i <= data@.len(),
                self.carry@.len() == 0,
                whole == forward_scan(data@),
                whole.out == out@ + forward_scan(data@.skip(i as int)).out,
                whole.held == forward_scan(data@.skip(i as int)).held,
            ensures
                whole.out == out@,
                whole.held == self.carry@,
            decreases data@.len() - i,
        {
            let ghost rest = data@.skip(i as int);
            let ghost at = i as int;
            assert(rest[0] == data@[at]);
            assert(forwarding()(rest) == forward_reading(rest));
            proof {
                crate::ansi::lemma_csi_final_skip(data@, at, 2);
                crate::ansi::lemma_string_end_skip(data@, at, 2, true);
                crate::ansi::lemma_string_end_skip(data@, at, 2, false);
                crate::ansi::lemma_csi_final_bounds(rest, 2);
                crate::ansi::lemma_string_end_bounds(rest, 2, true);
                crate::ansi::lemma_string_end_bounds(rest, 2, false);
            }
            if data[i] != ESC {
                i += 1;
                assert(rest.skip(1) =~= data@.skip(i as int));
                continue;
            }
            if i + 1 >= data.len() {
                append_range(&mut self.carry, &data, i, data.len());
                assert(self.carry@ =~= rest);
                break;
            }
            assert(rest[1] == data@[at + 1]);
            let kind = data[i + 1];
            if kind == CSI_OPEN {
                let Some(j) = csi_end(&data, i + 2) else {
                    append_range(&mut self.carry, &data, i, data.len());
                    assert(self.carry@ =~= rest);
                    break;
                };
                let params = copy_range(&data, i + 2, j);
                assert(params@ =~= rest.subrange(2, j - at));
                if is_terminal_query_csi(&params, data[j]) {
                    append_range(&mut out, &data, i, j + 1);
                    assert(data@.subrange(at, j + 1) =~= rest.take(j + 1 - at));
                }
                i = j + 1;
                assert(rest.skip(i - at) =~= data@.skip(i as int));
            } else if kind == OSC_OPEN {
                let Some(end) = osc_end(&data, i + 2) else {
                    append_range(&mut self.carry, &data, i, data.len());
                    assert(self.carry@ =~= rest);
                    break;
                };
                let sequence = copy_range(&data, i, end);
                assert(sequence@ =~= rest.take(end - at));
                if is_terminal_query_osc(&sequence) {
                    append_bytes(&mut out, &sequence);
                }
                i = end;
                assert(rest.skip(i - at) =~= data@.skip(i as int));
            } else if kind == DCS_OPEN {
                let Some(end) = st_end(&data, i + 2) else {
                    append_range(&mut self.carry, &data, i, data.len());
                    assert(self.carry@ =~= rest);
                    break;
                };
                let sequence = copy_range(&data, i, end);
                assert(sequence@ =~= rest.take(end - at));
                if is_terminal_query_dcs(&sequence) {
                    append_bytes(&mut out, &sequence);
                }
                i = end;
                assert(rest.skip(i - at) =~= data@.skip(i as int));
            } else if kind == IDENTIFY {
                append_range(&mut out, &data, i, i + 2);
                assert(data@.subrange(at, at + 2) =~= rest.take(2));
                i += 2;
                assert(rest.skip(2) =~= data@.skip(i as int));
            } else {
                i += 1;
                assert(rest.skip(1) =~= data@.skip(i as int));
            }
        }
        out
    }
}

/// Takes the terminal's own replies out of the input.
pub struct TerminalReplyFilter {
    carry: Vec<u8>,
}

impl View for TerminalReplyFilter {
    type V = Seq<u8>;

    /// The incomplete sequence kept for the next chunk.
    closed spec fn view(&self) -> Seq<u8> {
        self.carry@
    }
}

impl Default for TerminalReplyFilter {
    fn default() -> (r: Self)
        ensures
            r@ == Seq::<u8>::empty(),
    {
        TerminalReplyFilter { carry: Vec::new() }
    }
}

impl TerminalReplyFilter {
    /// Takes the next chunk of input and returns what is left of it.
    pub fn filter(&mut self, chunk: &[u8]) -> (out: Vec<u8>)
        ensures
            out@ == filter_scan(old(self)@ + chunk@).out,
            final(self)@ == filter_scan(old(self)@ + chunk@).held,
    {
        let mut data: Vec<u8> = Vec::new();
        append_bytes(&mut data, &self.carry);
        append_bytes(&mut data, chunk);
        assert(data@ =~= old(self)@ + chunk@);
        self.carry.clear();

        let ghost whole = filter_scan(data@);
        let mut out: Vec<u8> = Vec::new();
        let mut i: usize = 0;
        assert(data@.skip(0) =~= data@);
        while i < data.len()
            invariant_except_break
                i <= data@.len(),
                self.carry@.len() == 0,
                whole == filter_scan(data@),
                whole.out == out@ + filter_scan(data@.skip(i as int)).out,
                whole.held == filter_scan(data@.skip(i as int)).held,
            ensures
                whole.out == out@,
                whole.held == self.carry@,
            decreases data@.len() - i,
        {
            let ghost rest = data@.skip(i as int);
            let ghost at = i as int;
            assert(rest[0] == data@[at]);
            assert(filtering()(rest) == filter_reading(rest));
            proof {
                crate::ansi::lemma_string_end_skip(data@, at, 2, true);
                crate::ansi::lemma_string_end_skip(data@, at, 2, false);
                crate::ansi::lemma_string_end_bounds(rest, 2, true);
                crate::ansi::lemma_string_end_bounds(rest, 2, false);
            }
            if data[i] != ESC {
                out.push(data[i]);
                i += 1;
                assert(rest.skip(1) =~= data@.skip(i as int));
                continue;
            }
            if i + 1 >= data.len() {
                append_range(&mut self.carry, &data, i, data.len());
                assert(self.carry@ =~= rest);
                break;
            }
            assert(rest[1] == data@[at + 1]);
            let kind = data[i + 1];
            if kind == OSC_OPEN {
                let Some(end) = osc_end(&data, i + 2) else {
                    append_range(&mut self.carry, &data, i, data.len());
                    assert(self.carry@ =~= rest);
                    break;
                };
                i = end;
                assert(rest.skip(i - at) =~= data@.skip(i as int));
            } else if kind == DCS_OPEN {
                let Some(end) = st_end(&data, i + 2) else {
                    append_range(&mut self.carry, &data, i, data.len());
                    assert(self.carry@ =~= rest);
                    break;
                };
                i = end;
                assert(rest.skip(i - at) =~= data@.skip(i as int));
            } else {
                out.push(data[i]);
                i += 1;
                assert(rest.skip(1) =~= data@.skip(i as int));
            }
        }
        out
    }
}

} // verus!
