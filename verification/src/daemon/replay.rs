//! What a session's scrollback looks like when it is replayed to a new attachment.
//!
//! Replay must not make the new terminal answer old queries, nor move it to the alternate
//! screen that some program once entered. Everything else is replayed byte for byte.

use crate::ansi::{
    are_body, are_params, csi_end, csi_final, is_body, is_csi_final, lemma_are_body,
    lemma_body_has_no_end, lemma_csi_final_at, lemma_csi_final_bounds, lemma_csi_final_extend,
    lemma_csi_final_none, lemma_string_end_at, lemma_string_end_at_bel, lemma_string_end_extend,
    lemma_string_end_none, osc_end, st_end, string_end, terminator_at, APC_OPEN, BACKSLASH, BEL,
    CSI_OPEN, ESC, OSC_OPEN, QUESTION, SEMICOLON,
};
use crate::bytes::{
    append_bytes, append_range, contains_byte, contains_window, has_prefix, has_window, is_between,
    is_window, joined, lemma_joined_pieces, lemma_piece_at, lemma_piece_place, lemma_pieces_of_two,
    pieces, same_bytes, split_on, views, window_at,
};
use vstd::prelude::*;
use vstd::slice::slice_subrange;

verus! {

/// `h`, the final byte that sets modes.
pub const FINAL_SET: u8 = 0x68;

/// `l`, the final byte that resets modes.
pub const FINAL_RESET: u8 = 0x6c;

/// OSC bodies that ask for the foreground (`10;?`) or background (`11;?`) colour.
pub open spec fn osc_asks(payload: Seq<u8>) -> bool {
    ||| seq![0x31u8, 0x30u8, SEMICOLON, QUESTION].is_prefix_of(payload)
    ||| seq![0x31u8, 0x31u8, SEMICOLON, QUESTION].is_prefix_of(payload)
}

/// CSI sequences that are queries or replies: `n`, `c` and `R` always, `u` with private
/// parameters, `p` and `y` with private parameters and a `$`.
pub open spec fn csi_asks(params: Seq<u8>, final_byte: u8) -> bool {
    let private = params.len() > 0 && params[0] == QUESTION;
    ||| final_byte == 0x6e
    ||| final_byte == 0x63
    ||| final_byte == 0x52
    ||| final_byte == 0x75 && private
    ||| (final_byte == 0x70 || final_byte == 0x79) && private && params.contains(0x24u8)
}

/// APC bodies of the graphics protocol that are queries (`a=q`) or replies (`OK`).
pub open spec fn apc_asks(payload: Seq<u8>) -> bool {
    &&& payload.len() > 0 && payload[0] == 0x47
    &&& {
        ||| has_window(payload, seq![0x61u8, 0x3du8, 0x71u8])
        ||| has_window(payload, seq![0x4fu8, 0x4bu8, SEMICOLON])
        ||| seq![SEMICOLON, 0x4fu8, 0x4bu8].is_suffix_of(payload)
    }
}

/// The private modes that switch to and from the alternate screen: 47, 1047 and 1049.
pub open spec fn switches_screen(mode: Seq<u8>) -> bool {
    ||| mode == seq![0x34u8, 0x37u8]
    ||| mode == seq![0x31u8, 0x30u8, 0x34u8, 0x37u8]
    ||| mode == seq![0x31u8, 0x30u8, 0x34u8, 0x39u8]
}

/// Whether replay leaves a mode out: the screen switches, and setting 1007 (scrolling as
/// cursor keys).
pub open spec fn is_left_out(mode: Seq<u8>, final_byte: u8) -> bool {
    ||| switches_screen(mode)
    ||| final_byte == FINAL_SET && mode == seq![0x31u8, 0x30u8, 0x30u8, 0x37u8]
}

/// Which entries of a list are modes: empty ones do not count.
pub open spec fn is_listed() -> spec_fn(Seq<u8>) -> bool {
    |mode: Seq<u8>| mode.len() > 0
}

/// Which entries of a list are modes that replay keeps.
pub open spec fn keeps(final_byte: u8) -> spec_fn(Seq<u8>) -> bool {
    |mode: Seq<u8>| mode.len() > 0 && !is_left_out(mode, final_byte)
}

/// The modes that a private mode sequence lists.
pub open spec fn listed_modes(params: Seq<u8>) -> Seq<Seq<u8>> {
    pieces(params.skip(1), SEMICOLON).filter(is_listed())
}

/// The listed modes that replay keeps.
pub open spec fn kept_modes(params: Seq<u8>, final_byte: u8) -> Seq<Seq<u8>> {
    pieces(params.skip(1), SEMICOLON).filter(keeps(final_byte))
}

/// What replaces a private mode sequence: `None` if it leaves nothing out, otherwise the
/// same sequence with the kept modes only, or nothing if no mode is kept.
pub open spec fn rewritten(params: Seq<u8>, final_byte: u8) -> Option<Seq<u8>> {
    if final_byte != FINAL_SET && final_byte != FINAL_RESET {
        None
    } else if params.len() == 0 || params[0] != QUESTION {
        None
    } else {
        let kept = kept_modes(params, final_byte);
        if kept.len() == listed_modes(params).len() {
            None
        } else if kept.len() == 0 {
            Some(Seq::empty())
        } else {
            Some((seq![ESC, CSI_OPEN, QUESTION] + joined(kept, SEMICOLON)).push(final_byte))
        }
    }
}

/// How replay treats the front of `s`: the number of bytes taken and what stands for them.
pub open spec fn replay_step(s: Seq<u8>) -> (int, Seq<u8>) {
    let plain = (1int, s.take(1));
    if s[0] != ESC || s.len() < 2 {
        plain
    } else if s[1] == OSC_OPEN {
        match string_end(s, 2, true) {
            Some(e) => {
                let body = if s[e - 1] == BEL {
                    s.subrange(2, e - 1)
                } else {
                    s.subrange(2, e - 2)
                };
                (e, if osc_asks(body) { Seq::empty() } else { s.take(e) })
            },
            None => plain,
        }
    } else if s[1] == CSI_OPEN {
        match csi_final(s, 2) {
            Some(f) => {
                let params = s.subrange(2, f);
                let shown = match rewritten(params, s[f]) {
                    Some(other) => other,
                    None => if csi_asks(params, s[f]) { Seq::empty() } else { s.take(f + 1) },
                };
                (f + 1, shown)
            },
            None => plain,
        }
    } else if s[1] == APC_OPEN {
        match string_end(s, 2, false) {
            Some(e) => (e, if apc_asks(s.subrange(2, e - 2)) { Seq::empty() } else { s.take(e) }),
            None => plain,
        }
    } else {
        plain
    }
}

/// A step takes at least one byte and no more than there are.
pub proof fn lemma_replay_step_bounds(s: Seq<u8>)
    requires
        s.len() > 0,
    ensures
        0 < replay_step(s).0 <= s.len(),
{
    crate::ansi::lemma_csi_final_bounds(s, 2);
    crate::ansi::lemma_string_end_bounds(s, 2, true);
    crate::ansi::lemma_string_end_bounds(s, 2, false);
}

/// The bytes that are replayed for the scrollback `s`.
pub open spec fn replayed(s: Seq<u8>) -> Seq<u8>
    decreases s.len(),
{
    if s.len() == 0 {
        Seq::empty()
    } else {
        let (n, shown) = replay_step(s);
        if 0 < n <= s.len() {
            shown + replayed(s.skip(n))
        } else {
            Seq::empty()
        }
    }
}

/// Bytes before the first ESC are replayed as they are, whatever follows them.
pub proof fn law_replay_keeps_plain_prefix(plain: Seq<u8>, rest: Seq<u8>)
    requires
        !plain.contains(ESC),
    ensures
        replayed(plain + rest) == plain + replayed(rest),
    decreases plain.len(),
{
    if plain.len() == 0 {
        assert(plain + rest =~= rest);
        assert(plain + replayed(rest) =~= replayed(rest));
    } else {
        let s = plain + rest;
        assert(plain.contains(plain[0]));
        assert(s[0] == plain[0]);
        assert forall|i: int| 0 <= i < plain.skip(1).len() implies plain.skip(1)[i] != ESC by {
            assert(plain.contains(plain[i + 1]));
        }
        law_replay_keeps_plain_prefix(plain.skip(1), rest);
        assert(s.skip(1) =~= plain.skip(1) + rest);
        assert(s.take(1) + (plain.skip(1) + replayed(rest)) =~= plain + replayed(rest));
    }
}

/// Scrollback without ESC is replayed as it is.
pub proof fn law_replay_keeps_plain_text(s: Seq<u8>)
    requires
        !s.contains(ESC),
    ensures
        replayed(s) == s,
{
    law_replay_keeps_plain_prefix(s, Seq::empty());
    assert(s + Seq::<u8>::empty() =~= s);
}

proof fn lemma_single_piece(s: Seq<u8>, sep: u8)
    requires
        !s.contains(sep),
    ensures
        pieces(s, sep) == seq![s],
    decreases s.len(),
{
    if s.len() > 0 {
        let init = s.drop_last();
        assert(s.contains(s.last()));
        assert forall|i: int| 0 <= i < init.len() implies init[i] != sep by {
            assert(s.contains(s[i]));
        }
        lemma_single_piece(init, sep);
        assert(init.push(s.last()) =~= s);
        assert(pieces(s, sep) =~= seq![s]);
    } else {
        assert(s =~= Seq::empty());
    }
}

/// Whether the sequence at the front of `s`, if there is one, is complete: what follows does
/// not change how it is treated.
pub open spec fn is_complete(s: Seq<u8>) -> bool {
    s[0] == ESC ==> s.len() >= 2 && if s[1] == OSC_OPEN {
        string_end(s, 2, true) is Some
    } else if s[1] == CSI_OPEN {
        csi_final(s, 2) is Some
    } else if s[1] == APC_OPEN {
        string_end(s, 2, false) is Some
    } else {
        true
    }
}

/// Whether `s` consists of complete sequences and plain bytes.
pub open spec fn is_whole(s: Seq<u8>) -> bool
    decreases s.len(),
{
    s.len() == 0 || {
        let n = replay_step(s).0;
        &&& is_complete(s)
        &&& 0 < n <= s.len()
        &&& is_whole(s.skip(n))
    }
}

proof fn lemma_step_of_complete(s: Seq<u8>, more: Seq<u8>)
    requires
        s.len() > 0,
        is_complete(s),
    ensures
        replay_step(s + more) == replay_step(s),
{
    let t = s + more;
    assert(t[0] == s[0]);
    assert(t.take(1) =~= s.take(1));
    if s[0] == ESC {
        assert(t[1] == s[1]);
        if s[1] == OSC_OPEN {
            lemma_string_end_extend(s, more, 2, true);
            lemma_osc_tail(s, 2);
            let e = string_end(s, 2, true).unwrap();
            assert(t[e - 1] == s[e - 1]);
            assert(t.subrange(2, e - 1) =~= s.subrange(2, e - 1));
            assert(s[e - 1] != BEL ==> t.subrange(2, e - 2) =~= s.subrange(2, e - 2));
            assert(t.take(e) =~= s.take(e));
        } else if s[1] == CSI_OPEN {
            lemma_csi_final_extend(s, more, 2);
            lemma_csi_final_bounds(s, 2);
            let f = csi_final(s, 2).unwrap();
            assert(t[f] == s[f]);
            assert(t.subrange(2, f) =~= s.subrange(2, f));
            assert(t.take(f + 1) =~= s.take(f + 1));
        } else if s[1] == APC_OPEN {
            lemma_string_end_extend(s, more, 2, false);
            lemma_st_tail(s, 2);
            let e = string_end(s, 2, false).unwrap();
            assert(t.subrange(2, e - 2) =~= s.subrange(2, e - 2));
            assert(t.take(e) =~= s.take(e));
        }
    }
}

/// Scrollback that is cut between sequences is replayed part by part.
pub proof fn law_replay_in_parts(before: Seq<u8>, rest: Seq<u8>)
    requires
        is_whole(before),
    ensures
        replayed(before + rest) == replayed(before) + replayed(rest),
    decreases before.len(),
{
    if before.len() == 0 {
        assert(before + rest =~= rest);
        assert(replayed(before) + replayed(rest) =~= replayed(rest));
    } else {
        let (n, shown) = replay_step(before);
        lemma_step_of_complete(before, rest);
        assert((before + rest).skip(n) =~= before.skip(n) + rest);
        law_replay_in_parts(before.skip(n), rest);
        assert(replayed(before + rest) =~= replayed(before) + replayed(rest));
    }
}

proof fn lemma_replay_sequence(before: Seq<u8>, sequence: Seq<u8>, rest: Seq<u8>)
    requires
        is_whole(before),
        sequence.len() > 0,
        is_complete(sequence),
        replay_step(sequence).0 == sequence.len(),
    ensures
        replayed(before + (sequence + rest)) == replayed(before) + (replay_step(sequence).1
            + replayed(rest)),
{
    let end = sequence.skip(sequence.len() as int);
    assert(end =~= Seq::empty());
    assert(is_whole(end));
    assert(is_whole(sequence));
    law_replay_in_parts(sequence, rest);
    assert(replayed(end) =~= Seq::empty());
    assert(replayed(sequence) =~= replay_step(sequence).1);
    law_replay_in_parts(before, sequence + rest);
}

/// A sequence that sets or resets one mode which replay leaves out vanishes; what stands before
/// it, with no sequence left incomplete, and what follows are replayed as if they stood alone.
pub proof fn law_replay_drops_mode(before: Seq<u8>, mode: Seq<u8>, final_byte: u8, rest: Seq<u8>)
    requires
        is_whole(before),
        final_byte == FINAL_SET || final_byte == FINAL_RESET,
        is_left_out(mode, final_byte),
    ensures
        replayed(
            before + (seq![ESC, CSI_OPEN, QUESTION] + mode + seq![final_byte] + rest),
        ) == replayed(before) + replayed(rest),
{
    let s = seq![ESC, CSI_OPEN, QUESTION] + mode + seq![final_byte];
    let f = 3 + mode.len() as int;
    assert(s[0] == ESC && s[1] == CSI_OPEN && s[2] == QUESTION && s[f] == final_byte);
    assert forall|i: int| 2 <= i < f implies !is_csi_final(s[i]) by {
        if i > 2 {
            assert(s[i] == mode[i - 3]);
        }
    }
    lemma_csi_final_at(s, 2, f);
    let params = s.subrange(2, f);
    assert(params[0] == QUESTION);
    assert(params.skip(1) =~= mode);
    lemma_single_piece(mode, SEMICOLON);
    reveal_with_fuel(Seq::filter, 2);
    assert(seq![mode].drop_last() =~= Seq::<Seq<u8>>::empty());
    assert(seq![mode].last() == mode);
    assert(kept_modes(params, final_byte).len() == 0);
    assert(listed_modes(params).len() == 1);
    lemma_replay_sequence(before, s, rest);
    assert(Seq::<u8>::empty() + replayed(rest) =~= replayed(rest));
}

/// A CSI query or reply vanishes; what stands before it, with no sequence left incomplete, and
/// what follows are replayed as if they stood alone.
pub proof fn law_replay_drops_csi_query(
    before: Seq<u8>,
    params: Seq<u8>,
    final_byte: u8,
    rest: Seq<u8>,
)
    requires
        is_whole(before),
        forall|i: int| 0 <= i < params.len() ==> !is_csi_final(params[i]),
        csi_asks(params, final_byte),
    ensures
        replayed(
            before + (seq![ESC, CSI_OPEN] + params + seq![final_byte] + rest),
        ) == replayed(before) + replayed(rest),
{
    lemma_csi_step(params, final_byte);
    lemma_replay_sequence(before, seq![ESC, CSI_OPEN] + params + seq![final_byte], rest);
    assert(Seq::<u8>::empty() + replayed(rest) =~= replayed(rest));
}

/// A CSI sequence that is neither a query or reply nor lists a mode to leave out is replayed as
/// it is.
pub proof fn law_replay_keeps_other_csi(
    before: Seq<u8>,
    params: Seq<u8>,
    final_byte: u8,
    rest: Seq<u8>,
)
    requires
        is_whole(before),
        forall|i: int| 0 <= i < params.len() ==> !is_csi_final(params[i]),
        is_csi_final(final_byte),
        !csi_asks(params, final_byte),
        rewritten(params, final_byte) is None,
    ensures
        ({
            let sequence = seq![ESC, CSI_OPEN] + params + seq![final_byte];
            replayed(before + (sequence + rest)) == replayed(before) + (sequence + replayed(rest))
        }),
{
    lemma_csi_step(params, final_byte);
    lemma_replay_sequence(before, seq![ESC, CSI_OPEN] + params + seq![final_byte], rest);
}

proof fn lemma_csi_step(params: Seq<u8>, final_byte: u8)
    requires
        forall|i: int| 0 <= i < params.len() ==> !is_csi_final(params[i]),
        is_csi_final(final_byte),
    ensures
        ({
            let sequence = seq![ESC, CSI_OPEN] + params + seq![final_byte];
            &&& is_complete(sequence)
            &&& replay_step(sequence) == (
                sequence.len() as int,
                match rewritten(params, final_byte) {
                    Some(other) => other,
                    None => if csi_asks(params, final_byte) {
                        Seq::empty()
                    } else {
                        sequence
                    },
                },
            )
        }),
{
    let s = seq![ESC, CSI_OPEN] + params + seq![final_byte];
    let f = 2 + params.len() as int;
    assert(s[0] == ESC && s[1] == CSI_OPEN && s[f] == final_byte);
    assert forall|i: int| 2 <= i < f implies !is_csi_final(s[i]) by {
        assert(s[i] == params[i - 2]);
    }
    lemma_csi_final_at(s, 2, f);
    assert(s.subrange(2, f) =~= params);
    assert(s.take(f + 1) =~= s);
}

/// An OSC string, ended by BEL or by ESC `\`, vanishes if it is a colour query, and is replayed
/// as it is otherwise; what stands before it, with no sequence left incomplete, and what follows
/// are replayed as if they stood alone.
pub proof fn law_replay_of_osc(before: Seq<u8>, body: Seq<u8>, with_bel: bool, rest: Seq<u8>)
    requires
        is_whole(before),
        is_body(body, true),
    ensures
        ({
            let end = if with_bel {
                seq![BEL]
            } else {
                seq![ESC, BACKSLASH]
            };
            let sequence = seq![ESC, OSC_OPEN] + body + end;
            replayed(before + (sequence + rest)) == replayed(before) + (if osc_asks(body) {
                replayed(rest)
            } else {
                sequence + replayed(rest)
            })
        }),
{
    lemma_osc_step(body, with_bel);
    let end = if with_bel {
        seq![BEL]
    } else {
        seq![ESC, BACKSLASH]
    };
    lemma_replay_sequence(before, seq![ESC, OSC_OPEN] + body + end, rest);
    assert(Seq::<u8>::empty() + replayed(rest) =~= replayed(rest));
}

proof fn lemma_osc_step(body: Seq<u8>, with_bel: bool)
    requires
        is_body(body, true),
    ensures
        ({
            let end = if with_bel {
                seq![BEL]
            } else {
                seq![ESC, BACKSLASH]
            };
            let sequence = seq![ESC, OSC_OPEN] + body + end;
            &&& is_complete(sequence)
            &&& replay_step(sequence) == (
                sequence.len() as int,
                if osc_asks(body) {
                    Seq::empty()
                } else {
                    sequence
                },
            )
        }),
{
    let end = if with_bel {
        seq![BEL]
    } else {
        seq![ESC, BACKSLASH]
    };
    let s = seq![ESC, OSC_OPEN] + body + end;
    let at = 2 + body.len() as int;
    assert(s[0] == ESC && s[1] == OSC_OPEN && s[at] == end[0]);
    lemma_body_has_no_end(seq![ESC, OSC_OPEN], body, end, true);
    if with_bel {
        lemma_string_end_at_bel(s, 2, at);
    } else {
        assert(s[at + 1] == BACKSLASH);
        lemma_string_end_at(s, 2, at, true);
    }
    assert(s.subrange(2, at) =~= body);
    assert(s.take(s.len() as int) =~= s);
}

/// An APC string vanishes if it is a graphics query or reply, and is replayed as it is
/// otherwise; what stands before it, with no sequence left incomplete, and what follows are
/// replayed as if they stood alone.
pub proof fn law_replay_of_apc(before: Seq<u8>, body: Seq<u8>, rest: Seq<u8>)
    requires
        is_whole(before),
        is_body(body, false),
    ensures
        ({
            let sequence = seq![ESC, APC_OPEN] + body + seq![ESC, BACKSLASH];
            replayed(before + (sequence + rest)) == replayed(before) + (if apc_asks(body) {
                replayed(rest)
            } else {
                sequence + replayed(rest)
            })
        }),
{
    lemma_apc_step(body);
    lemma_replay_sequence(before, seq![ESC, APC_OPEN] + body + seq![ESC, BACKSLASH], rest);
    assert(Seq::<u8>::empty() + replayed(rest) =~= replayed(rest));
}

proof fn lemma_apc_step(body: Seq<u8>)
    requires
        is_body(body, false),
    ensures
        ({
            let sequence = seq![ESC, APC_OPEN] + body + seq![ESC, BACKSLASH];
            &&& is_complete(sequence)
            &&& replay_step(sequence) == (
                sequence.len() as int,
                if apc_asks(body) {
                    Seq::empty()
                } else {
                    sequence
                },
            )
        }),
{
    let s = seq![ESC, APC_OPEN] + body + seq![ESC, BACKSLASH];
    let at = 2 + body.len() as int;
    assert(s[0] == ESC && s[1] == APC_OPEN && s[at] == ESC && s[at + 1] == BACKSLASH);
    lemma_body_has_no_end(seq![ESC, APC_OPEN], body, seq![ESC, BACKSLASH], false);
    lemma_string_end_at(s, 2, at, false);
    assert(s.subrange(2, at) =~= body);
    assert(s.take(s.len() as int) =~= s);
}

/// Scrollback of two parts without incomplete sequences has none either.
pub proof fn law_whole_parts_are_whole(a: Seq<u8>, b: Seq<u8>)
    requires
        is_whole(a),
        is_whole(b),
    ensures
        is_whole(a + b),
    decreases a.len(),
{
    if a.len() == 0 {
        assert(a + b =~= b);
    } else {
        let n = replay_step(a).0;
        lemma_step_of_complete(a, b);
        lemma_complete_with_more(a, b);
        law_whole_parts_are_whole(a.skip(n), b);
        assert((a + b).skip(n) =~= a.skip(n) + b);
    }
}

proof fn lemma_complete_with_more(s: Seq<u8>, more: Seq<u8>)
    requires
        s.len() > 0,
        is_complete(s),
    ensures
        is_complete(s + more),
{
    let t = s + more;
    assert(t[0] == s[0]);
    if s[0] == ESC {
        assert(t[1] == s[1]);
        if s[1] == OSC_OPEN {
            lemma_string_end_extend(s, more, 2, true);
        } else if s[1] == CSI_OPEN {
            lemma_csi_final_extend(s, more, 2);
        } else if s[1] == APC_OPEN {
            lemma_string_end_extend(s, more, 2, false);
        }
    }
}

proof fn lemma_sequence_is_whole(before: Seq<u8>, sequence: Seq<u8>)
    requires
        is_whole(before),
        sequence.len() > 0,
        is_complete(sequence),
        replay_step(sequence).0 == sequence.len(),
    ensures
        is_whole(before + sequence),
{
    let end = sequence.skip(sequence.len() as int);
    assert(end =~= Seq::empty());
    assert(is_whole(end));
    assert(is_whole(sequence));
    law_whole_parts_are_whole(before, sequence);
}

/// Scrollback in which no ESC opens a CSI, OSC or APC sequence is replayed as it is, and where
/// it does not end in ESC, nothing in it is incomplete.
pub proof fn law_replay_keeps_what_opens_no_sequence(s: Seq<u8>)
    requires
        forall|i: int|
            0 <= i < s.len() - 1 && #[trigger] s[i] == 0x1b ==> s[i + 1] != 0x5b && s[i + 1]
                != 0x5d && s[i + 1] != 0x5f,
    ensures
        replayed(s) == s,
        s.len() == 0 || s.last() != 0x1b ==> is_whole(s),
    decreases s.len(),
{
    if s.len() > 0 {
        let rest = s.skip(1);
        assert forall|i: int| 0 <= i < rest.len() - 1 && #[trigger] rest[i] == 0x1b implies rest[i
            + 1] != 0x5b && rest[i + 1] != 0x5d && rest[i + 1] != 0x5f by {
            assert(s[i + 1] == rest[i] && s[i + 2] == rest[i + 1]);
        }
        law_replay_keeps_what_opens_no_sequence(rest);
        assert(s[0] == 0x1b && s.len() > 1 ==> s[1] != 0x5b);
        assert(s.take(1) + rest =~= s);
    }
}

/// Of the CSI sequences, replay leaves out those that end in `n`, `c` or `R`, those that end in
/// `u` and begin with `?`, and those that end in `p` or `y`, begin with `?` and hold a `$`. Every
/// other is replayed byte for byte, but for private modes, which are set or reset with `h` or `l`.
pub proof fn law_replayed_csi_sequences(
    before: Seq<u8>,
    params: Seq<u8>,
    final_byte: u8,
    rest: Seq<u8>,
)
    requires
        is_whole(before),
        are_params(params),
        0x40 <= final_byte <= 0x7e,
        !((final_byte == 0x68 || final_byte == 0x6c) && params.len() > 0 && params[0] == 0x3f),
    ensures
        ({
            let sequence = seq![0x1bu8, 0x5bu8] + params + seq![final_byte];
            let private = params.len() > 0 && params[0] == 0x3f;
            let asks = final_byte == 0x6e || final_byte == 0x63 || final_byte == 0x52 || (
            final_byte == 0x75 && private) || ((final_byte == 0x70 || final_byte == 0x79)
                && private && params.contains(0x24));
            &&& asks ==> replayed(before + (sequence + rest)) == replayed(before) + replayed(rest)
            &&& !asks ==> replayed(before + (sequence + rest)) == replayed(before) + sequence
                + replayed(rest)
            &&& is_whole(before + sequence)
        }),
{
    let sequence = seq![0x1bu8, 0x5bu8] + params + seq![final_byte];
    lemma_csi_step(params, final_byte);
    lemma_replay_sequence(before, sequence, rest);
    lemma_sequence_is_whole(before, sequence);
    assert(Seq::<u8>::empty() + replayed(rest) =~= replayed(rest));
    assert(replayed(before) + (sequence + replayed(rest)) =~= replayed(before) + sequence
        + replayed(rest));
}

/// Whether a mode is one of those that replay leaves out: 47, 1047 or 1049, and 1007 where it is
/// set.
pub open spec fn is_unwanted(mode: Seq<u8>, final_byte: u8) -> bool {
    ||| mode == seq![0x34u8, 0x37u8]
    ||| mode == seq![0x31u8, 0x30u8, 0x34u8, 0x37u8]
    ||| mode == seq![0x31u8, 0x30u8, 0x34u8, 0x39u8]
    ||| final_byte == 0x68 && mode == seq![0x31u8, 0x30u8, 0x30u8, 0x37u8]
}

proof fn lemma_filter_all<A>(s: Seq<A>, keep: spec_fn(A) -> bool)
    ensures
        (forall|i: int| 0 <= i < s.len() ==> keep(#[trigger] s[i])) ==> s.filter(keep) == s,
        s.filter(keep).len() == s.len() ==> s.filter(keep) == s,
        s.filter(keep).len() <= s.len(),
    decreases s.len(),
{
    reveal(Seq::filter);
    if s.len() > 0 {
        lemma_filter_all(s.drop_last(), keep);
        assert(s.drop_last().push(s.last()) =~= s);
        if forall|i: int| 0 <= i < s.len() ==> keep(#[trigger] s[i]) {
            assert(keep(s[s.len() - 1]));
            assert forall|i: int| 0 <= i < s.drop_last().len() implies keep(
                #[trigger] s.drop_last()[i],
            ) by {
                assert(keep(s[i]));
            }
        }
    }
}

proof fn lemma_modes_step(list: Seq<u8>, final_byte: u8)
    requires
        are_params(list),
        final_byte == 0x68 || final_byte == 0x6c,
    ensures
        ({
            let sequence = seq![0x1bu8, 0x5bu8, 0x3fu8] + list + seq![final_byte];
            let kept = pieces(list, SEMICOLON).filter(keeps(final_byte));
            &&& is_complete(sequence)
            &&& replay_step(sequence) == (
                sequence.len() as int,
                if kept.len() == pieces(list, SEMICOLON).filter(is_listed()).len() {
                    sequence
                } else if kept.len() == 0 {
                    Seq::empty()
                } else {
                    (seq![0x1bu8, 0x5bu8, 0x3fu8] + joined(kept, SEMICOLON)).push(final_byte)
                },
            )
        }),
{
    let params = seq![0x3fu8] + list;
    assert forall|i: int| 0 <= i < params.len() implies !(0x40 <= #[trigger] params[i] <= 0x7e) by {
        if i > 0 {
            assert(params[i] == list[i - 1]);
        }
    }
    lemma_csi_step(params, final_byte);
    assert(params.skip(1) =~= list);
    assert(seq![0x1bu8, 0x5bu8] + params + seq![final_byte] =~= seq![0x1bu8, 0x5bu8, 0x3fu8] + list
        + seq![final_byte]);
}

/// A sequence that sets or resets private modes, none of which replay leaves out, is replayed
/// byte for byte.
pub proof fn law_replay_keeps_other_modes(
    before: Seq<u8>,
    list: Seq<u8>,
    final_byte: u8,
    rest: Seq<u8>,
)
    requires
        is_whole(before),
        are_params(list),
        final_byte == 0x68 || final_byte == 0x6c,
        forall|from: int, to: int| #[trigger]
            is_between(list, 0x3b, from, to) ==> !is_unwanted(list.subrange(from, to), final_byte),
    ensures
        ({
            let sequence = seq![0x1bu8, 0x5bu8, 0x3fu8] + list + seq![final_byte];
            &&& replayed(before + (sequence + rest)) == replayed(before) + sequence + replayed(rest)
            &&& is_whole(before + sequence)
        }),
{
    let sequence = seq![0x1bu8, 0x5bu8, 0x3fu8] + list + seq![final_byte];
    let all = pieces(list, SEMICOLON);
    lemma_modes_step(list, final_byte);
    assert forall|i: int| 0 <= i < all.len() implies keeps(final_byte)(#[trigger] all[i])
        == is_listed()(all[i]) by {
        let at = lemma_piece_place(list, SEMICOLON, i);
        assert(is_between(list, 0x3b, at.0, at.1));
        assert(!is_unwanted(all[i], final_byte));
    }
    lemma_same_filter(all, keeps(final_byte), is_listed());
    lemma_replay_sequence(before, sequence, rest);
    lemma_sequence_is_whole(before, sequence);
    assert(replayed(before) + (sequence + replayed(rest)) =~= replayed(before) + sequence
        + replayed(rest));
}

proof fn lemma_same_filter<A>(s: Seq<A>, p: spec_fn(A) -> bool, q: spec_fn(A) -> bool)
    requires
        forall|i: int| 0 <= i < s.len() ==> p(#[trigger] s[i]) == q(s[i]),
    ensures
        s.filter(p) == s.filter(q),
    decreases s.len(),
{
    reveal(Seq::filter);
    if s.len() > 0 {
        let init = s.drop_last();
        assert forall|i: int| 0 <= i < init.len() implies p(#[trigger] init[i]) == q(init[i]) by {
            assert(p(s[i]) == q(s[i]));
        }
        lemma_same_filter(init, p, q);
        assert(p(s[s.len() - 1]) == q(s[s.len() - 1]));
    }
}

/// Whether a list of modes has no empty entry: it is not empty, and semicolons stand only between
/// other bytes.
pub open spec fn is_full_list(list: Seq<u8>) -> bool {
    &&& list.len() > 0 && list[0] != 0x3b && list.last() != 0x3b
    &&& forall|i: int|
        0 <= i < list.len() - 1 && #[trigger] list[i] == 0x3b ==> list[i + 1] != 0x3b
}

proof fn lemma_full_list(list: Seq<u8>)
    requires
        is_full_list(list),
    ensures
        pieces(list, SEMICOLON).filter(is_listed()) == pieces(list, SEMICOLON),
        pieces(list, SEMICOLON).len() > 0,
{
    let all = pieces(list, SEMICOLON);
    assert forall|i: int| 0 <= i < all.len() implies is_listed()(#[trigger] all[i]) by {
        let at = lemma_piece_place(list, SEMICOLON, i);
        if at.0 == at.1 {
            if at.0 > 0 && at.0 < list.len() {
                assert(list[at.0 - 1] == 0x3b && list[at.0] == 0x3b);
            }
        }
    }
    lemma_filter_all(all, is_listed());
    lemma_pieces_count(list);
}

proof fn lemma_pieces_count(list: Seq<u8>)
    ensures
        pieces(list, SEMICOLON).len() > 0,
    decreases list.len(),
{
    if list.len() > 0 {
        lemma_pieces_count(list.drop_last());
    }
}

/// A mode that replay leaves out counts for nothing among others: the sequence is replayed as if
/// the mode had not been listed. `front` and `back` are the modes before and behind it.
pub proof fn law_replay_ignores_unwanted_modes(
    before: Seq<u8>,
    front: Seq<u8>,
    mode: Seq<u8>,
    back: Seq<u8>,
    final_byte: u8,
    rest: Seq<u8>,
)
    requires
        is_whole(before),
        final_byte == 0x68 || final_byte == 0x6c,
        is_unwanted(mode, final_byte),
        front.len() > 0 ==> is_full_list(front) && are_params(front),
        back.len() > 0 ==> is_full_list(back) && are_params(back),
        front.len() > 0 || back.len() > 0,
    ensures
        ({
            let listed = if front.len() == 0 {
                mode.push(0x3b) + back
            } else if back.len() == 0 {
                front.push(0x3b) + mode
            } else {
                front.push(0x3b) + (mode.push(0x3b) + back)
            };
            let others = if front.len() == 0 {
                back
            } else if back.len() == 0 {
                front
            } else {
                front.push(0x3b) + back
            };
            let open = seq![0x1bu8, 0x5bu8, 0x3fu8];
            replayed(before + (open + listed + seq![final_byte] + rest)) == replayed(
                before + (open + others + seq![final_byte] + rest),
            )
        }),
{
    let sep = SEMICOLON;
    let open = seq![0x1bu8, 0x5bu8, 0x3fu8];
    let none = Seq::<Seq<u8>>::empty();
    assert(!mode.contains(sep));
    lemma_single_piece(mode, sep);
    if front.len() > 0 {
        lemma_full_list(front);
    }
    if back.len() > 0 {
        lemma_full_list(back);
    }
    if front.len() == 0 {
        let y = pieces(back, sep);
        lemma_pieces_of_two(mode, sep, back);
        assert(seq![mode] + y =~= none + seq![mode] + y);
        assert(none + y =~= y);
        lemma_none_listed();
        lemma_without_unwanted(mode.push(sep) + back, back, none, mode, y, final_byte);
        lemma_same_step(before, mode.push(sep) + back, back, final_byte, rest);
    } else if back.len() == 0 {
        let x = pieces(front, sep);
        lemma_pieces_of_two(front, sep, mode);
        assert(x + seq![mode] =~= x + seq![mode] + none);
        assert(x + none =~= x);
        lemma_none_listed();
        lemma_without_unwanted(front.push(sep) + mode, front, x, mode, none, final_byte);
        lemma_same_step(before, front.push(sep) + mode, front, final_byte, rest);
    } else {
        let (x, y) = (pieces(front, sep), pieces(back, sep));
        let listed = front.push(sep) + (mode.push(sep) + back);
        lemma_pieces_of_two(front, sep, mode.push(sep) + back);
        lemma_pieces_of_two(mode, sep, back);
        lemma_pieces_of_two(front, sep, back);
        assert(x + (seq![mode] + y) =~= x + seq![mode] + y);
        lemma_without_unwanted(listed, front.push(sep) + back, x, mode, y, final_byte);
        lemma_same_step(before, listed, front.push(sep) + back, final_byte, rest);
    }
}

proof fn lemma_none_listed()
    ensures
        Seq::<Seq<u8>>::empty().filter(is_listed()) == Seq::<Seq<u8>>::empty(),
{
    reveal(Seq::filter);
}

proof fn lemma_without_unwanted(
    listed: Seq<u8>,
    others: Seq<u8>,
    x: Seq<Seq<u8>>,
    mode: Seq<u8>,
    y: Seq<Seq<u8>>,
    final_byte: u8,
)
    requires
        is_unwanted(mode, final_byte),
        final_byte == 0x68 || final_byte == 0x6c,
        pieces(listed, SEMICOLON) == x + seq![mode] + y,
        pieces(others, SEMICOLON) == x + y,
        x.filter(is_listed()) == x,
        y.filter(is_listed()) == y,
    ensures
        ({
            let (all, rest) = (pieces(listed, SEMICOLON), pieces(others, SEMICOLON));
            &&& all.filter(keeps(final_byte)) == rest.filter(keeps(final_byte))
            &&& all.filter(is_listed()).len() == all.len()
            &&& rest.filter(is_listed()).len() == rest.len()
            &&& all.len() == rest.len() + 1
        }),
{
    let keep = keeps(final_byte);
    let one = seq![mode];
    assert(one.filter(keep) =~= Seq::empty() && one.filter(is_listed()) =~= one) by {
        reveal_with_fuel(Seq::filter, 2);
        assert(one.drop_last() =~= Seq::<Seq<u8>>::empty());
        assert(one.last() == mode);
    }
    Seq::filter_distributes_over_add(x, y, keep);
    Seq::filter_distributes_over_add(x + one, y, keep);
    Seq::filter_distributes_over_add(x, one, keep);
    assert((x + one + y).filter(keep) =~= (x + y).filter(keep));
    Seq::filter_distributes_over_add(x, y, is_listed());
    Seq::filter_distributes_over_add(x + one, y, is_listed());
    Seq::filter_distributes_over_add(x, one, is_listed());
}

proof fn lemma_same_step(
    before: Seq<u8>,
    listed: Seq<u8>,
    others: Seq<u8>,
    final_byte: u8,
    rest: Seq<u8>,
)
    requires
        is_whole(before),
        final_byte == 0x68 || final_byte == 0x6c,
        are_params(listed),
        are_params(others),
        ({
            let (all, fewer) = (pieces(listed, SEMICOLON), pieces(others, SEMICOLON));
            &&& all.filter(keeps(final_byte)) == fewer.filter(keeps(final_byte))
            &&& all.filter(is_listed()).len() == all.len()
            &&& fewer.filter(is_listed()).len() == fewer.len()
            &&& all.len() == fewer.len() + 1
            &&& fewer.len() > 0
        }),
    ensures
        ({
            let open = seq![0x1bu8, 0x5bu8, 0x3fu8];
            replayed(before + (open + listed + seq![final_byte] + rest)) == replayed(
                before + (open + others + seq![final_byte] + rest),
            )
        }),
{
    let open = seq![0x1bu8, 0x5bu8, 0x3fu8];
    let fewer = pieces(others, SEMICOLON);
    let kept = fewer.filter(keeps(final_byte));
    lemma_filter_all(fewer, keeps(final_byte));
    lemma_modes_step(listed, final_byte);
    lemma_modes_step(others, final_byte);
    if kept.len() == fewer.len() {
        lemma_joined_pieces(others, SEMICOLON);
        assert((open + joined(kept, SEMICOLON)).push(final_byte) =~= open + others
            + seq![final_byte]);
    }
    lemma_replay_sequence(before, open + listed + seq![final_byte], rest);
    lemma_replay_sequence(before, open + others + seq![final_byte], rest);
}

/// Whether a list of modes names one that replay leaves out.
pub open spec fn names_unwanted(list: Seq<u8>, final_byte: u8) -> bool {
    exists|from: int, to: int| #[trigger]
        is_between(list, 0x3b, from, to) && is_unwanted(list.subrange(from, to), final_byte)
}

/// Where a list names a mode that replay leaves out, empty entries count for nothing either,
/// between other entries, in front and at the end.
pub proof fn law_replay_ignores_empty_entries(
    before: Seq<u8>,
    front: Seq<u8>,
    back: Seq<u8>,
    final_byte: u8,
    rest: Seq<u8>,
)
    requires
        is_whole(before),
        final_byte == 0x68 || final_byte == 0x6c,
        are_params(front),
        are_params(back),
    ensures
        ({
            let (open, end) = (seq![0x1bu8, 0x5bu8, 0x3fu8], seq![final_byte] + rest);
            let part = seq![0x3bu8];
            &&& names_unwanted(front, final_byte) || names_unwanted(back, final_byte) ==> replayed(
                before + (open + (front + part + part + back) + end),
            ) == replayed(before + (open + (front + part + back) + end))
            &&& names_unwanted(back, final_byte) ==> replayed(
                before + (open + (part + back) + end),
            ) == replayed(before + (open + back + end))
            &&& names_unwanted(front, final_byte) ==> replayed(
                before + (open + (front + part) + end),
            ) == replayed(before + (open + front + end))
        }),
{
    let sep = SEMICOLON;
    let part = seq![0x3bu8];
    let empty = Seq::<u8>::empty();
    let none = Seq::<Seq<u8>>::empty();
    let (x, y) = (pieces(front, sep), pieces(back, sep));
    assert(pieces(empty, sep) =~= seq![empty]);
    lemma_pieces_of_two(front, sep, back);
    lemma_pieces_of_two(empty, sep, back);
    lemma_pieces_of_two(front, sep, empty.push(sep) + back);
    lemma_pieces_of_two(front, sep, empty);
    assert(front.push(sep) + (empty.push(sep) + back) =~= front + part + part + back);
    assert(front.push(sep) + back =~= front + part + back);
    assert(empty.push(sep) + back =~= part + back);
    assert(front.push(sep) + empty =~= front + part);
    if names_unwanted(front, final_byte) {
        let k = lemma_unwanted_piece(front, final_byte);
        assert((x + y)[k] == x[k]);
        assert((x + none)[k] == x[k]);
        assert(x + none =~= x);
        assert(x + seq![empty] + none =~= x + seq![empty]);
        lemma_without_empty(before, front + part, front, x, none, k, final_byte, rest);
        assert(x + (seq![empty] + y) =~= x + seq![empty] + y);
        lemma_without_empty(
            before,
            front + part + part + back,
            front + part + back,
            x,
            y,
            k,
            final_byte,
            rest,
        );
    }
    if names_unwanted(back, final_byte) {
        let k = lemma_unwanted_piece(back, final_byte);
        assert((x + y)[x.len() + k] == y[k]);
        assert((none + y)[k] == y[k]);
        assert(none + y =~= y);
        assert(none + seq![empty] + y =~= seq![empty] + y);
        lemma_without_empty(before, part + back, back, none, y, k, final_byte, rest);
        assert(x + (seq![empty] + y) =~= x + seq![empty] + y);
        lemma_without_empty(
            before,
            front + part + part + back,
            front + part + back,
            x,
            y,
            x.len() + k,
            final_byte,
            rest,
        );
    }
}

proof fn lemma_unwanted_piece(list: Seq<u8>, final_byte: u8) -> (k: int)
    requires
        names_unwanted(list, final_byte),
    ensures
        0 <= k < pieces(list, SEMICOLON).len(),
        is_unwanted(pieces(list, SEMICOLON)[k], final_byte),
{
    let (from, to): (int, int) = choose|from: int, to: int| #[trigger]
        is_between(list, 0x3b, from, to) && is_unwanted(list.subrange(from, to), final_byte);
    lemma_piece_at(list, SEMICOLON, from, to)
}

proof fn lemma_without_empty(
    before: Seq<u8>,
    listed: Seq<u8>,
    others: Seq<u8>,
    x: Seq<Seq<u8>>,
    y: Seq<Seq<u8>>,
    k: int,
    final_byte: u8,
    rest: Seq<u8>,
)
    requires
        is_whole(before),
        final_byte == 0x68 || final_byte == 0x6c,
        are_params(listed),
        are_params(others),
        pieces(listed, SEMICOLON) == x + seq![Seq::<u8>::empty()] + y,
        pieces(others, SEMICOLON) == x + y,
        0 <= k < (x + y).len(),
        is_unwanted((x + y)[k], final_byte),
    ensures
        ({
            let (open, end) = (seq![0x1bu8, 0x5bu8, 0x3fu8], seq![final_byte] + rest);
            replayed(before + (open + listed + end)) == replayed(before + (open + others + end))
        }),
{
    let open = seq![0x1bu8, 0x5bu8, 0x3fu8];
    lemma_empty_is_not_listed(x, y, k, final_byte);
    lemma_modes_step(listed, final_byte);
    lemma_modes_step(others, final_byte);
    lemma_replay_sequence(before, open + listed + seq![final_byte], rest);
    lemma_replay_sequence(before, open + others + seq![final_byte], rest);
    assert(open + listed + (seq![final_byte] + rest) =~= open + listed + seq![final_byte] + rest);
    assert(open + others + (seq![final_byte] + rest) =~= open + others + seq![final_byte] + rest);
}

proof fn lemma_empty_is_not_listed(x: Seq<Seq<u8>>, y: Seq<Seq<u8>>, k: int, final_byte: u8)
    requires
        final_byte == 0x68 || final_byte == 0x6c,
        0 <= k < (x + y).len(),
        is_unwanted((x + y)[k], final_byte),
    ensures
        ({
            let all = x + seq![Seq::<u8>::empty()] + y;
            &&& all.filter(keeps(final_byte)) == (x + y).filter(keeps(final_byte))
            &&& all.filter(is_listed()) == (x + y).filter(is_listed())
            &&& all.filter(keeps(final_byte)).len() < all.filter(is_listed()).len()
        }),
{
    let keep = keeps(final_byte);
    let one = seq![Seq::<u8>::empty()];
    assert(one.filter(keep) =~= Seq::empty() && one.filter(is_listed()) =~= Seq::empty()) by {
        reveal_with_fuel(Seq::filter, 2);
        assert(one.drop_last() =~= Seq::<Seq<u8>>::empty());
    }
    Seq::filter_distributes_over_add(x, y, keep);
    Seq::filter_distributes_over_add(x + one, y, keep);
    Seq::filter_distributes_over_add(x, one, keep);
    assert((x + one + y).filter(keep) =~= (x + y).filter(keep));
    Seq::filter_distributes_over_add(x, y, is_listed());
    Seq::filter_distributes_over_add(x + one, y, is_listed());
    Seq::filter_distributes_over_add(x, one, is_listed());
    assert((x + one + y).filter(is_listed()) =~= (x + y).filter(is_listed()));
    assert(!keep((x + y)[k]) && is_listed()((x + y)[k]));
    lemma_filter_fewer(x + y, keep, is_listed(), k);
}

proof fn lemma_filter_fewer<A>(
    s: Seq<A>,
    p: spec_fn(A) -> bool,
    q: spec_fn(A) -> bool,
    k: int,
)
    requires
        forall|a: A| #[trigger] p(a) ==> q(a),
        0 <= k <= s.len(),
        k < s.len() ==> !p(s[k]) && q(s[k]),
    ensures
        s.filter(p).len() <= s.filter(q).len(),
        k < s.len() ==> s.filter(p).len() < s.filter(q).len(),
    decreases s.len(),
{
    reveal(Seq::filter);
    if s.len() > 0 {
        let init = s.drop_last();
        if k < init.len() {
            assert(init[k] == s[k]);
            lemma_filter_fewer(init, p, q, k);
        } else {
            lemma_filter_fewer(init, p, q, init.len() as int);
        }
        assert(p(s.last()) ==> q(s.last()));
    }
}

/// A sequence with a single mode that replay leaves out vanishes.
pub proof fn law_replay_drops_a_lone_mode(
    before: Seq<u8>,
    mode: Seq<u8>,
    final_byte: u8,
    rest: Seq<u8>,
)
    requires
        is_whole(before),
        final_byte == 0x68 || final_byte == 0x6c,
        is_unwanted(mode, final_byte),
    ensures
        replayed(
            before + (seq![0x1bu8, 0x5bu8, 0x3fu8] + mode + seq![final_byte] + rest),
        ) == replayed(before) + replayed(rest),
{
    law_replay_drops_mode(before, mode, final_byte, rest);
}

/// What counts as a query or reply among CSI sequences and OSC strings, whatever the bytes.
pub proof fn law_queries_and_replies(params: Seq<u8>, final_byte: u8, payload: Seq<u8>)
    ensures
        csi_asks(params, final_byte) <==> {
            let private = params.len() > 0 && params[0] == 0x3f;
            ||| final_byte == 0x6e || final_byte == 0x63 || final_byte == 0x52
            ||| final_byte == 0x75 && private
            ||| (final_byte == 0x70 || final_byte == 0x79) && private && exists|i: int|
                0 <= i < params.len() && #[trigger] params[i] == 0x24
        },
        osc_asks(payload) <==> payload.len() >= 4 && payload[0] == 0x31 && (payload[1] == 0x30
            || payload[1] == 0x31) && payload[2] == 0x3b && payload[3] == 0x3f,
{
    let (x, y) = (seq![0x31u8, 0x30u8, 0x3bu8, 0x3fu8], seq![0x31u8, 0x31u8, 0x3bu8, 0x3fu8]);
    assert(x[0] == 0x31 && x[1] == 0x30 && x[2] == 0x3b && x[3] == 0x3f);
    assert(y[0] == 0x31 && y[1] == 0x31 && y[2] == 0x3b && y[3] == 0x3f);
    if payload.len() >= 4 {
        let front = payload.subrange(0, 4);
        assert(front =~= seq![payload[0], payload[1], payload[2], payload[3]]);
    }
    assert(params.contains(0x24) <==> exists|i: int|
        0 <= i < params.len() && #[trigger] params[i] == 0x24);
}

/// Of the OSC strings, ended by BEL or by ESC `\`, replay leaves out those whose body begins with
/// `10;?` or `11;?`; every other is replayed byte for byte.
pub proof fn law_replayed_osc_strings(
    before: Seq<u8>,
    body: Seq<u8>,
    with_bel: bool,
    rest: Seq<u8>,
)
    requires
        is_whole(before),
        are_body(body, true),
    ensures
        ({
            let end = if with_bel {
                seq![0x07u8]
            } else {
                seq![0x1bu8, 0x5cu8]
            };
            let sequence = seq![0x1bu8, 0x5du8] + body + end;
            let asks = body.len() >= 4 && body[0] == 0x31 && (body[1] == 0x30 || body[1] == 0x31)
                && body[2] == 0x3b && body[3] == 0x3f;
            &&& asks ==> replayed(before + (sequence + rest)) == replayed(before) + replayed(rest)
            &&& !asks ==> replayed(before + (sequence + rest)) == replayed(before) + sequence
                + replayed(rest)
            &&& is_whole(before + sequence)
        }),
{
    let end = if with_bel {
        seq![0x07u8]
    } else {
        seq![0x1bu8, 0x5cu8]
    };
    let s = seq![0x1bu8, 0x5du8] + body + end;
    lemma_are_body(body, true);
    law_replay_of_osc(before, body, with_bel, rest);
    lemma_osc_step(body, with_bel);
    lemma_sequence_is_whole(before, s);
    lemma_four_bytes(body, 0x31, 0x30, 0x3b, 0x3f);
    lemma_four_bytes(body, 0x31, 0x31, 0x3b, 0x3f);
    assert(replayed(before) + (s + replayed(rest)) =~= replayed(before) + s + replayed(rest));
}

proof fn lemma_four_bytes(s: Seq<u8>, a: u8, b: u8, c: u8, d: u8)
    ensures
        seq![a, b, c, d].is_prefix_of(s) <==> s.len() >= 4 && s[0] == a && s[1] == b && s[2] == c
            && s[3] == d,
{
    let front = seq![a, b, c, d];
    if s.len() >= 4 {
        let own = s.subrange(0, 4);
        assert(own =~= seq![s[0], s[1], s[2], s[3]]);
        if front.is_prefix_of(s) {
            assert(own[0] == front[0] && own[1] == front[1] && own[2] == front[2] && own[3]
                == front[3]);
        }
    }
}

proof fn lemma_three_bytes(s: Seq<u8>, a: u8, b: u8, c: u8)
    ensures
        has_window(s, seq![a, b, c]) <==> exists|i: int|
            0 <= i < s.len() - 2 && #[trigger] s[i] == a && s[i + 1] == b && s[i + 2] == c,
{
    let window = seq![a, b, c];
    if has_window(s, window) {
        let i = choose|i: int| is_window(s, i, window);
        let own = s.subrange(i, i + 3);
        assert(own[0] == s[i] && own[1] == s[i + 1] && own[2] == s[i + 2]);
    }
    if exists|i: int| 0 <= i < s.len() - 2 && #[trigger] s[i] == a && s[i + 1] == b && s[i + 2] == c
    {
        let i = choose|i: int|
            0 <= i < s.len() - 2 && #[trigger] s[i] == a && s[i + 1] == b && s[i + 2] == c;
        assert(s.subrange(i, i + 3) =~= window);
        assert(is_window(s, i, window));
    }
}

/// Of the APC strings, replay leaves out those of the graphics protocol, whose body begins with
/// `G`, that hold `a=q` or `OK;` or end in `;OK`; every other is replayed byte for byte.
pub proof fn law_replayed_apc_strings(before: Seq<u8>, body: Seq<u8>, rest: Seq<u8>)
    requires
        is_whole(before),
        are_body(body, false),
    ensures
        ({
            let sequence = seq![0x1bu8, 0x5fu8] + body + seq![0x1bu8, 0x5cu8];
            let n = body.len() as int;
            let query = exists|i: int|
                0 <= i < n - 2 && #[trigger] body[i] == 0x61 && body[i + 1] == 0x3d && body[i + 2]
                    == 0x71;
            let reply = exists|i: int|
                0 <= i < n - 2 && #[trigger] body[i] == 0x4f && body[i + 1] == 0x4b && body[i + 2]
                    == 0x3b;
            let end = n >= 3 && body[n - 3] == 0x3b && body[n - 2] == 0x4f && body[n - 1] == 0x4b;
            let asks = n > 0 && body[0] == 0x47 && (query || reply || end);
            &&& asks ==> replayed(before + (sequence + rest)) == replayed(before) + replayed(rest)
            &&& !asks ==> replayed(before + (sequence + rest)) == replayed(before) + sequence
                + replayed(rest)
            &&& is_whole(before + sequence)
        }),
{
    let s = seq![0x1bu8, 0x5fu8] + body + seq![0x1bu8, 0x5cu8];
    lemma_are_body(body, false);
    law_replay_of_apc(before, body, rest);
    lemma_apc_step(body);
    lemma_sequence_is_whole(before, s);
    lemma_three_bytes(body, 0x61, 0x3d, 0x71);
    lemma_three_bytes(body, 0x4f, 0x4b, 0x3b);
    let n = body.len() as int;
    let tail = seq![0x3bu8, 0x4fu8, 0x4bu8];
    if n >= 3 {
        let own = body.subrange(n - 3, n);
        assert(own =~= seq![body[n - 3], body[n - 2], body[n - 1]]);
        if tail.is_suffix_of(body) {
            assert(own[0] == tail[0] && own[1] == tail[1] && own[2] == tail[2]);
        }
    }
    assert(replayed(before) + (s + replayed(rest)) =~= replayed(before) + s + replayed(rest));
}

/// An ESC that opens no CSI, OSC or APC sequence, or one that never ends, is replayed, and what
/// follows it is treated as if it stood alone.
pub proof fn law_replay_keeps_other_escapes(before: Seq<u8>, rest: Seq<u8>)
    requires
        is_whole(before),
        rest.len() == 0 || {
            ||| rest[0] != 0x5b && rest[0] != 0x5d && rest[0] != 0x5f
            ||| rest[0] == 0x5b && are_params(rest.skip(1))
            ||| rest[0] == 0x5d && are_body(rest.skip(1), true)
            ||| rest[0] == 0x5f && are_body(rest.skip(1), false)
        },
    ensures
        replayed(before + (seq![0x1bu8] + rest)) == replayed(before) + seq![0x1bu8] + replayed(rest),
{
    let s = seq![0x1bu8] + rest;
    law_replay_in_parts(before, s);
    assert(s.skip(1) =~= rest);
    assert(s.take(1) =~= seq![0x1bu8]);
    if rest.len() > 0 {
        assert(s[1] == rest[0]);
        let inner = rest.skip(1);
        if rest[0] == 0x5b {
            assert forall|i: int| 2 <= i < s.len() implies !is_csi_final(s[i]) by {
                assert(s[i] == inner[i - 2]);
            }
            lemma_csi_final_none(s, 2);
        } else if rest[0] == 0x5d || rest[0] == 0x5f {
            let bel = rest[0] == 0x5d;
            assert forall|i: int| 2 <= i < s.len() implies !(#[trigger] terminator_at(s, i)) && (bel
                ==> s[i] != BEL) by {
                assert(s[i] == inner[i - 2]);
                assert(inner.contains(inner[i - 2]));
                if i + 1 < s.len() {
                    assert(s[i + 1] == inner[i - 1]);
                }
            }
            lemma_string_end_none(s, 2, bel);
        }
    }
    assert(replayed(s) =~= seq![0x1bu8] + replayed(rest));
    assert(replayed(before) + (seq![0x1bu8] + replayed(rest)) =~= replayed(before) + seq![0x1bu8]
        + replayed(rest));
}

proof fn lemma_joined_len(runs: Seq<Seq<u8>>, sep: u8)
    ensures
        runs.len() > 0 ==> joined(runs, sep).len() == total_len(runs) + runs.len() - 1,
        runs.len() == 0 ==> joined(runs, sep).len() == 0,
    decreases runs.len(),
{
    if runs.len() == 1 {
        assert(runs.drop_last() =~= Seq::empty());
        assert(total_len(runs.drop_last()) == 0);
    } else if runs.len() > 1 {
        lemma_joined_len(runs.drop_last(), sep);
    }
}

spec fn total_len(runs: Seq<Seq<u8>>) -> int
    decreases runs.len(),
{
    if runs.len() == 0 {
        0
    } else {
        total_len(runs.drop_last()) + runs.last().len()
    }
}

proof fn lemma_total_len_push(runs: Seq<Seq<u8>>, run: Seq<u8>)
    ensures
        total_len(runs.push(run)) == total_len(runs) + run.len(),
{
    assert(runs.push(run).drop_last() =~= runs);
}

proof fn lemma_pieces_len(s: Seq<u8>, sep: u8)
    ensures
        total_len(pieces(s, sep)) + pieces(s, sep).len() - 1 == s.len(),
        pieces(s, sep).len() >= 1,
    decreases s.len(),
{
    if s.len() == 0 {
        assert(pieces(s, sep).drop_last() =~= Seq::empty());
        assert(total_len(pieces(s, sep).drop_last()) == 0);
    } else {
        let before = pieces(s.drop_last(), sep);
        lemma_pieces_len(s.drop_last(), sep);
        if s.last() == sep {
            lemma_total_len_push(before, Seq::empty());
        } else {
            lemma_total_len_push(before.drop_last(), before.last().push(s.last()));
        }
    }
}

proof fn lemma_filter_len(runs: Seq<Seq<u8>>, keep: spec_fn(Seq<u8>) -> bool)
    ensures
        total_len(runs.filter(keep)) + runs.filter(keep).len() <= total_len(runs) + runs.len(),
    decreases runs.len(),
{
    reveal(Seq::filter);
    if runs.len() > 0 {
        let init = runs.drop_last();
        lemma_filter_len(init, keep);
        if keep(runs.last()) {
            lemma_total_len_push(init.filter(keep), runs.last());
        }
    }
}

/// Replay never shows more bytes than the scrollback holds.
pub proof fn law_replay_never_grows(s: Seq<u8>)
    ensures
        replayed(s).len() <= s.len(),
    decreases s.len(),
{
    if s.len() > 0 {
        lemma_replay_step_bounds(s);
        let (n, shown) = replay_step(s);
        law_replay_never_grows(s.skip(n));
        crate::ansi::lemma_csi_final_bounds(s, 2);
        if s[0] == ESC && s.len() >= 2 && s[1] == CSI_OPEN && csi_final(s, 2) is Some {
            let f = csi_final(s, 2).unwrap();
            let params = s.subrange(2, f);
            if rewritten(params, s[f]) is Some {
                let keep = |mode: Seq<u8>| mode.len() > 0 && !is_left_out(mode, s[f]);
                lemma_filter_len(pieces(params.skip(1), SEMICOLON), keep);
                lemma_pieces_len(params.skip(1), SEMICOLON);
                lemma_joined_len(kept_modes(params, s[f]), SEMICOLON);
            }
        }
        assert(shown.len() <= n);
    }
}

/// The end and the body of the OSC string that starts at `start`.
pub fn parse_osc(input: &[u8], start: usize) -> (r: Option<(usize, &[u8])>)
    requires
        start + 2 <= usize::MAX,
    ensures
        match r {
            Some((end, payload)) => {
                &&& string_end(input@, start + 2, true) == Some(end as int)
                &&& payload@ == input@.subrange(
                    start + 2,
                    if input@[end - 1] == BEL {
                        end - 1
                    } else {
                        end - 2
                    },
                )
            },
            None => string_end(input@, start + 2, true) is None,
        },
{
    let Some(end) = osc_end(input, start + 2) else {
        return None;
    };
    proof {
        lemma_osc_tail(input@, start + 2);
    }
    if input[end - 1] == BEL {
        Some((end, slice_subrange(input, start + 2, end - 1)))
    } else {
        Some((end, slice_subrange(input, start + 2, end - 2)))
    }
}

proof fn lemma_osc_tail(s: Seq<u8>, from: int)
    ensures
        string_end(s, from, true) matches Some(e) ==> {
            &&& 0 <= from < e <= s.len()
            &&& s[e - 1] != BEL ==> from <= e - 2 && s[e - 1] == BACKSLASH
        },
    decreases s.len() - from,
{
    if 0 <= from < s.len() {
        lemma_osc_tail(s, from + 1);
    }
}

proof fn lemma_st_tail(s: Seq<u8>, from: int)
    ensures
        string_end(s, from, false) matches Some(e) ==> 0 <= from <= e - 2 && e <= s.len(),
    decreases s.len() - from,
{
    if 0 <= from < s.len() {
        lemma_st_tail(s, from + 1);
    }
}

/// The end, the parameters and the final byte of the CSI sequence that starts at `start`.
pub fn parse_csi(input: &[u8], start: usize) -> (r: Option<(usize, &[u8], u8)>)
    requires
        start + 2 <= usize::MAX,
    ensures
        match r {
            Some((end, params, final_byte)) => {
                &&& csi_final(input@, start + 2) == Some(end - 1)
                &&& params@ == input@.subrange(start + 2, end - 1)
                &&& final_byte == input@[end - 1]
            },
            None => csi_final(input@, start + 2) is None,
        },
{
    let Some(at) = csi_end(input, start + 2) else {
        return None;
    };
    proof {
        crate::ansi::lemma_csi_final_bounds(input@, start + 2);
    }
    assert(at < input.len());
    Some((at + 1, slice_subrange(input, start + 2, at), input[at]))
}

/// The end and the body of the APC string that starts at `start`, if one starts there.
pub fn parse_apc(input: &[u8], start: usize) -> (r: Option<(usize, &[u8])>)
    requires
        start + 2 <= usize::MAX,
    ensures
        match r {
            Some((end, payload)) => {
                &&& start + 1 < input@.len() && input@[start as int] == ESC
                &&& input@[start + 1] == APC_OPEN
                &&& string_end(input@, start + 2, false) == Some(end as int)
                &&& payload@ == input@.subrange(start + 2, end - 2)
            },
            None => {
                ||| start + 1 >= input@.len()
                ||| input@[start as int] != ESC
                ||| input@[start + 1] != APC_OPEN
                ||| string_end(input@, start + 2, false) is None
            },
        },
{
    if start + 1 >= input.len() || input[start] != ESC || input[start + 1] != APC_OPEN {
        return None;
    }
    let Some(end) = st_end(input, start + 2) else {
        return None;
    };
    proof {
        lemma_st_tail(input@, start + 2);
    }
    Some((end, slice_subrange(input, start + 2, end - 2)))
}

/// Whether an OSC body is a colour query.
pub fn is_terminal_query_osc(payload: &[u8]) -> (r: bool)
    ensures
        r == osc_asks(payload@),
{
    let foreground = [0x31, 0x30, SEMICOLON, QUESTION];
    let background = [0x31, 0x31, SEMICOLON, QUESTION];
    assert(foreground@ =~= seq![0x31u8, 0x30u8, SEMICOLON, QUESTION]);
    assert(background@ =~= seq![0x31u8, 0x31u8, SEMICOLON, QUESTION]);
    has_prefix(payload, &foreground) || has_prefix(payload, &background)
}

/// Whether a CSI sequence is a query or a reply.
pub fn is_terminal_query_csi(params: &[u8], final_byte: u8) -> (r: bool)
    ensures
        r == csi_asks(params@, final_byte),
{
    let private = params.len() > 0 && params[0] == QUESTION;
    if final_byte == 0x6e || final_byte == 0x63 || final_byte == 0x52 {
        true
    } else if final_byte == 0x75 {
        private
    } else if final_byte == 0x70 || final_byte == 0x79 {
        private && contains_byte(params, 0x24)
    } else {
        false
    }
}

/// Whether a mode switches to or from the alternate screen.
pub fn is_alt_screen_mode(mode: &[u8]) -> (r: bool)
    ensures
        r == switches_screen(mode@),
{
    let plain = [0x34, 0x37];
    let clearing = [0x31, 0x30, 0x34, 0x37];
    let saving = [0x31, 0x30, 0x34, 0x39];
    assert(plain@ =~= seq![0x34u8, 0x37u8]);
    assert(clearing@ =~= seq![0x31u8, 0x30u8, 0x34u8, 0x37u8]);
    assert(saving@ =~= seq![0x31u8, 0x30u8, 0x34u8, 0x39u8]);
    same_bytes(mode, &plain) || same_bytes(mode, &clearing) || same_bytes(mode, &saving)
}

/// Whether an APC body is a graphics query or reply.
pub fn is_terminal_query_apc(payload: &[u8]) -> (r: bool)
    ensures
        r == apc_asks(payload@),
{
    if payload.len() == 0 || payload[0] != 0x47 {
        return false;
    }
    let query = [0x61, 0x3d, 0x71];
    let reply = [0x4f, 0x4b, SEMICOLON];
    let ending = [SEMICOLON, 0x4f, 0x4b];
    assert(query@ =~= seq![0x61u8, 0x3du8, 0x71u8]);
    assert(reply@ =~= seq![0x4fu8, 0x4bu8, SEMICOLON]);
    assert(ending@ =~= seq![SEMICOLON, 0x4fu8, 0x4bu8]);
    contains_window(payload, &query) || contains_window(payload, &reply) || (payload.len() >= 3
        && window_at(payload, payload.len() - 3, &ending))
}

/// The replacement of a private mode sequence, if it lists a mode that replay leaves out.
pub fn rewrite_replay_private_mode_csi(params: &[u8], final_byte: u8) -> (r: Option<Vec<u8>>)
    ensures
        rewritten(params@, final_byte) == (match r {
            Some(bytes) => Some(bytes@),
            None => None,
        }),
{
    if final_byte != FINAL_SET && final_byte != FINAL_RESET {
        return None;
    }
    if params.len() == 0 || params[0] != QUESTION {
        return None;
    }
    let modes = split_on(slice_subrange(params, 1, params.len()), SEMICOLON);
    let ghost all = pieces(params@.skip(1), SEMICOLON);
    let ghost listed = |mode: Seq<u8>| mode.len() > 0;
    let ghost kept = |mode: Seq<u8>| mode.len() > 0 && !is_left_out(mode, final_byte);
    assert(params@.subrange(1, params@.len() as int) =~= params@.skip(1));
    assert(views(modes@) == all);

    let scroll_keys = [0x31, 0x30, 0x30, 0x37];
    assert(scroll_keys@ =~= seq![0x31u8, 0x30u8, 0x30u8, 0x37u8]);
    let mut changed = false;
    let mut count: usize = 0;
    let mut list: Vec<u8> = Vec::new();
    let mut i: usize = 0;
    assert(all.take(0).filter(kept) =~= Seq::empty()) by {
        reveal(Seq::filter);
    }
    assert(all.take(0).filter(listed) =~= Seq::empty()) by {
        reveal(Seq::filter);
    }
    while i < modes.len()
        invariant
            views(modes@) == all,
            listed == (|mode: Seq<u8>| mode.len() > 0),
            kept == (|mode: Seq<u8>| mode.len() > 0 && !is_left_out(mode, final_byte)),
            scroll_keys@ == seq![0x31u8, 0x30u8, 0x30u8, 0x37u8],
            i <= modes@.len(),
            count == all.take(i as int).filter(kept).len(),
            count <= i,
            list@ == joined(all.take(i as int).filter(kept), SEMICOLON),
            all.take(i as int).filter(kept).len() <= all.take(i as int).filter(listed).len(),
            changed == (all.take(i as int).filter(kept).len() < all.take(i as int).filter(
                listed,
            ).len()),
        decreases modes@.len() - i,
    {
        let mode = modes[i].as_slice();
        assert(views(modes@)[i as int] == mode@);
        assert(all.take(i + 1).drop_last() =~= all.take(i as int));
        assert(all.take(i + 1).last() == mode@);
        reveal(Seq::filter);
        if mode.len() > 0 {
            if is_alt_screen_mode(mode) || final_byte == FINAL_SET && same_bytes(
                mode,
                &scroll_keys,
            ) {
                changed = true;
            } else {
                let ghost before = all.take(i as int).filter(kept);
                if count > 0 {
                    list.push(SEMICOLON);
                }
                append_bytes(&mut list, mode);
                count += 1;
                assert(before.push(mode@).drop_last() =~= before);
                assert(joined(before.push(mode@), SEMICOLON) =~= list@);
            }
        }
        i += 1;
    }
    assert(all.take(i as int) =~= all);
    if !changed {
        return None;
    }
    if count == 0 {
        return Some(Vec::new());
    }
    let mut out: Vec<u8> = Vec::new();
    out.push(ESC);
    out.push(CSI_OPEN);
    out.push(QUESTION);
    append_bytes(&mut out, &list);
    out.push(final_byte);
    assert(out@ =~= (seq![ESC, CSI_OPEN, QUESTION] + joined(
        kept_modes(params@, final_byte),
        SEMICOLON,
    )).push(final_byte));
    Some(out)
}

/// Treats the OSC string at `at`, if it is complete; returns its end.
fn replay_osc(input: &[u8], at: usize, out: &mut Vec<u8>) -> (end: usize)
    requires
        at + 1 < input@.len(),
        input@[at as int] == ESC,
        input@[at + 1] == OSC_OPEN,
    ensures
        end == at + replay_step(input@.skip(at as int)).0,
        final(out)@ == old(out)@ + replay_step(input@.skip(at as int)).1,
{
    let ghost rest = input@.skip(at as int);
    let ghost from = at as int;
    proof {
        crate::ansi::lemma_string_end_skip(input@, from, 2, true);
        lemma_osc_tail(input@, from + 2);
        assert(rest[0] == ESC && rest[1] == OSC_OPEN);
    }
    assert(at + 2 <= input.len());
    if let Some((stop, payload)) = parse_osc(input, at) {
        assert(rest[stop - from - 1] == input@[stop - 1]);
        assert(payload@ =~= rest.subrange(2, 2 + payload@.len() as int));
        assert(input@.subrange(from, stop as int) =~= rest.take(stop - from));
        if !is_terminal_query_osc(payload) {
            append_range(out, input, at, stop);
        }
        assert(out@ =~= old(out)@ + replay_step(rest).1);
        stop
    } else {
        out.push(input[at]);
        assert(out@ =~= old(out)@ + rest.take(1));
        at + 1
    }
}

/// Treats the CSI sequence at `at`, if it is complete; returns its end.
fn replay_csi(input: &[u8], at: usize, out: &mut Vec<u8>) -> (end: usize)
    requires
        at + 1 < input@.len(),
        input@[at as int] == ESC,
        input@[at + 1] == CSI_OPEN,
    ensures
        end == at + replay_step(input@.skip(at as int)).0,
        final(out)@ == old(out)@ + replay_step(input@.skip(at as int)).1,
{
    let ghost rest = input@.skip(at as int);
    let ghost from = at as int;
    proof {
        crate::ansi::lemma_csi_final_skip(input@, from, 2);
        crate::ansi::lemma_csi_final_bounds(input@, from + 2);
        assert(rest[0] == ESC && rest[1] == CSI_OPEN);
    }
    assert(at + 2 <= input.len());
    if let Some((stop, params, final_byte)) = parse_csi(input, at) {
        assert(rest[stop - from - 1] == input@[stop - 1]);
        assert(params@ =~= rest.subrange(2, stop - from - 1));
        assert(input@.subrange(from, stop as int) =~= rest.take(stop - from));
        if let Some(other) = rewrite_replay_private_mode_csi(params, final_byte) {
            append_bytes(out, &other);
        } else if !is_terminal_query_csi(params, final_byte) {
            append_range(out, input, at, stop);
        }
        assert(out@ =~= old(out)@ + replay_step(rest).1);
        stop
    } else {
        out.push(input[at]);
        assert(out@ =~= old(out)@ + rest.take(1));
        at + 1
    }
}

/// Treats the APC string at `at`, if it is complete; returns its end.
fn replay_apc(input: &[u8], at: usize, out: &mut Vec<u8>) -> (end: usize)
    requires
        at + 1 < input@.len(),
        input@[at as int] == ESC,
        input@[at + 1] == APC_OPEN,
    ensures
        end == at + replay_step(input@.skip(at as int)).0,
        final(out)@ == old(out)@ + replay_step(input@.skip(at as int)).1,
{
    let ghost rest = input@.skip(at as int);
    let ghost from = at as int;
    proof {
        crate::ansi::lemma_string_end_skip(input@, from, 2, false);
        lemma_st_tail(input@, from + 2);
        assert(rest[0] == ESC && rest[1] == APC_OPEN);
    }
    assert(at + 2 <= input.len());
    if let Some((stop, payload)) = parse_apc(input, at) {
        assert(payload@ =~= rest.subrange(2, stop - from - 2));
        assert(input@.subrange(from, stop as int) =~= rest.take(stop - from));
        if !is_terminal_query_apc(payload) {
            append_range(out, input, at, stop);
        }
        assert(out@ =~= old(out)@ + replay_step(rest).1);
        stop
    } else {
        out.push(input[at]);
        assert(out@ =~= old(out)@ + rest.take(1));
        at + 1
    }
}

/// Replaces what replay must not show.
pub fn filter_replay_bytes(input: &[u8]) -> (out: Vec<u8>)
    ensures
        out@ == replayed(input@),
{
    let mut out: Vec<u8> = Vec::new();
    let mut i: usize = 0;
    assert(input@.skip(0) =~= input@);
    while i < input.len()
        invariant
            i <= input@.len(),
            replayed(input@) == out@ + replayed(input@.skip(i as int)),
        decreases input@.len() - i,
    {
        let ghost rest = input@.skip(i as int);
        let ghost at = i as int;
        let ghost before = out@;
        proof {
            lemma_replay_step_bounds(rest);
        }
        let escaped = input[i] == ESC && i + 1 < input.len();
        if escaped && input[i + 1] == OSC_OPEN {
            i = replay_osc(input, i, &mut out);
        } else if escaped && input[i + 1] == CSI_OPEN {
            i = replay_csi(input, i, &mut out);
        } else if escaped && input[i + 1] == APC_OPEN {
            i = replay_apc(input, i, &mut out);
        } else {
            out.push(input[i]);
            assert(rest[0] == input@[at]);
            assert(rest.len() > 1 ==> rest[1] == input@[at + 1]);
            assert(out@ =~= before + rest.take(1));
            i += 1;
        }
        assert(rest.skip(i - at) =~= input@.skip(i as int));
        assert(before + (replay_step(rest).1 + replayed(input@.skip(i as int))) =~= out@ + replayed(
            input@.skip(i as int),
        ));
    }
    out
}

} // verus!
