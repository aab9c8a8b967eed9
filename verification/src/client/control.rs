//! The keys that control an attachment, in the input stream.
//!
//! A terminal sends a control key as one byte, or, in the extended keyboard protocol, as the
//! CSI sequence `ESC [ codepoint ; modifiers u`.

use crate::ansi::{CSI_OPEN, ESC, SEMICOLON};
use crate::bytes::copy_range;
use crate::client::terminal::{filter_scan, law_filter_passes_keys, TerminalReplyFilter};
use crate::config::{is_ctrl_letter, normalized, AppConfig};
use crate::text::{
    chars_of, digits, law_trimmed_is_stable, lower, lower_char, lowered, same_text, to_lower, trim,
    trimmed,
};
use vstd::arithmetic::power::{lemma_pow0, lemma_pow1, lemma_pow_adds, pow};
use vstd::prelude::*;
use vstd::slice::slice_subrange;

verus! {

/// The carriage return.
pub const CR: u8 = 0x0d;

/// The line feed.
pub const LF: u8 = 0x0a;

/// `u`, the final byte of an extended key.
pub const FINAL_KEY: u8 = 0x75;

/// The code point of the Enter key.
pub const ENTER: u32 = 13;

/// How long the Enter key that chose a session in the picker may still arrive, in milliseconds.
pub const SWALLOW_ENTER_MS: u64 = 300;

/// What a control key asks for.
#[derive(Copy, Clone, Debug, PartialEq, Eq, Structural)]
pub enum ControlAction {
    Switch,
    Detach,
}

/// One control key: the byte it sends, and its code points in the extended protocol.
#[derive(Copy, Clone, Debug, PartialEq, Eq)]
pub struct ControlKey {
    pub raw_byte: u8,
    pub csi_primary: u32,
    pub csi_shifted: Option<u32>,
}

/// The two keys of an attachment.
#[derive(Copy, Clone, Debug, PartialEq, Eq)]
pub struct ControlKeyBindings {
    pub switch: ControlKey,
    pub detach: ControlKey,
}

/// The key for Ctrl and a lower-case letter.
pub open spec fn letter_key(lowercase: u8) -> ControlKey {
    ControlKey {
        raw_byte: if lowercase >= 0x61 {
            (lowercase - 0x60) as u8
        } else {
            1
        },
        csi_primary: lowercase as u32,
        csi_shifted: Some(
            if 0x61 <= lowercase <= 0x7a {
                (lowercase - 0x20) as u32
            } else {
                lowercase as u32
            },
        ),
    }
}

/// The key for Ctrl and `]`.
pub open spec fn bracket_key() -> ControlKey {
    ControlKey { raw_byte: 0x1d, csi_primary: 0x5d, csi_shifted: None }
}

/// The key that a binding names, if it names one: `ctrl-]`, or `ctrl-` and a letter, in any
/// case and with white space around it.
pub open spec fn bound_key(binding: Seq<char>) -> Option<ControlKey> {
    if lowered(trimmed(binding)) == "ctrl-]"@ {
        Some(bracket_key())
    } else if is_ctrl_letter(trimmed(binding)) {
        Some(letter_key(lower(trimmed(binding)[5]) as u8))
    } else {
        None
    }
}

impl ControlKey {
    /// The key for Ctrl and the letter with this lower-case byte.
    pub fn ctrl_letter(lowercase: u8) -> (r: Self)
        ensures
            r == letter_key(lowercase),
    {
        let raw_byte: u8 = if lowercase >= 0x61 {
            lowercase - 0x60
        } else {
            1
        };
        let shifted: u8 = if 0x61 <= lowercase && lowercase <= 0x7a {
            lowercase - 0x20
        } else {
            lowercase
        };
        ControlKey { raw_byte, csi_primary: lowercase as u32, csi_shifted: Some(shifted as u32) }
    }

    /// The key for Ctrl and `]`.
    pub fn ctrl_right_bracket() -> (r: Self)
        ensures
            r == bracket_key(),
    {
        ControlKey { raw_byte: 0x1d, csi_primary: 0x5d, csi_shifted: None }
    }
}

/// Reads a binding.
pub fn parse_control_key_binding(binding: &str) -> (r: Option<ControlKey>)
    ensures
        r == bound_key(binding@),
{
    let binding = trim(binding);
    if same_text(to_lower(binding).as_str(), "ctrl-]") {
        return Some(ControlKey::ctrl_right_bracket());
    }
    let chars = chars_of(binding);
    if chars.len() == 6 {
        let last = chars[5];
        let prefix = binding.substring_char(0, 5);
        assert(prefix@ =~= binding@.take(5));
        if same_text(to_lower(prefix).as_str(), "ctrl-") && (('a' <= last && last <= 'z') || ('A'
            <= last && last <= 'Z')) {
            return Some(ControlKey::ctrl_letter(lower_char(last) as u8));
        }
    }
    None
}

impl ControlKeyBindings {
    /// The keys that the settings choose.
    pub fn from_config(config: &AppConfig) -> (r: Self)
        ensures
            Some(r.switch) == bound_key(normalized(config.keys.open@, "ctrl-g"@)),
            Some(r.detach) == bound_key(normalized(config.keys.detach@, "ctrl-]"@)),
    {
        proof {
            law_default_bindings();
            law_normalized_binding_names_a_key(config.keys.open@, "ctrl-g"@);
            law_normalized_binding_names_a_key(config.keys.detach@, "ctrl-]"@);
        }
        let switch = match parse_control_key_binding(config.open_key_binding()) {
            Some(key) => key,
            None => ControlKey::ctrl_letter(0x67),
        };
        let detach = match parse_control_key_binding(config.detach_key_binding()) {
            Some(key) => key,
            None => ControlKey::ctrl_right_bracket(),
        };
        ControlKeyBindings { switch, detach }
    }
}

/// The default bindings name Ctrl-G and Ctrl-].
pub proof fn law_default_bindings()
    ensures
        bound_key("ctrl-g"@) == Some(letter_key(0x67)),
        bound_key("ctrl-]"@) == Some(bracket_key()),
{
    reveal_strlit("ctrl-g");
    reveal_strlit("ctrl-]");
    reveal_strlit("ctrl-");
    let g = "ctrl-g"@;
    let bracket = "ctrl-]"@;
    reveal_with_fuel(crate::text::trimmed_start, 2);
    reveal_with_fuel(crate::text::trimmed_end, 2);
    assert(trimmed(g) == g);
    assert(trimmed(bracket) == bracket);
    assert(lowered(bracket) =~= bracket);
    assert(lowered(g)[5] == 'g');
    assert(bracket[5] == ']');
    assert(lowered(g.take(5)) =~= "ctrl-"@);
}

/// Whatever the user wrote, the binding in force names a key, provided the fallback does.
pub proof fn law_normalized_binding_names_a_key(value: Seq<char>, fallback: Seq<char>)
    requires
        bound_key(fallback) is Some,
    ensures
        bound_key(normalized(value, fallback)) is Some,
{
    law_trimmed_is_stable(value);
    law_default_bindings();
}

/// A binding is `ctrl-` in any case and a letter or `]`, with white space around it: the key of a
/// letter sends the byte of its place in the alphabet, and has the code points of both its cases;
/// that of `]` sends 0x1d and has the code point of `]` alone. Nothing else names a key.
pub proof fn law_bound_keys(binding: Seq<char>)
    ensures
        ({
            let text = trimmed(binding);
            let is_ctrl = text.len() == 6 && lowered(text.take(5)) == seq!['c', 't', 'r', 'l', '-'];
            let code = text[5] as u32;
            &&& is_ctrl && 0x61 <= code <= 0x7a ==> bound_key(binding) == Some(
                ControlKey {
                    raw_byte: (code - 0x60) as u8,
                    csi_primary: code,
                    csi_shifted: Some((code - 0x20) as u32),
                },
            )
            &&& is_ctrl && 0x41 <= code <= 0x5a ==> bound_key(binding) == Some(
                ControlKey {
                    raw_byte: (code - 0x40) as u8,
                    csi_primary: (code + 0x20) as u32,
                    csi_shifted: Some(code),
                },
            )
            &&& is_ctrl && code == 0x5d ==> bound_key(binding) == Some(
                ControlKey { raw_byte: 0x1d, csi_primary: 0x5d, csi_shifted: None },
            )
            &&& !(is_ctrl && (0x61 <= code <= 0x7a || 0x41 <= code <= 0x5a || code == 0x5d))
                ==> bound_key(binding) is None
        }),
{
    reveal_strlit("ctrl-]");
    reveal_strlit("ctrl-");
    let text = trimmed(binding);
    assert("ctrl-"@ =~= seq!['c', 't', 'r', 'l', '-']);
    let bracket = "ctrl-]"@;
    assert(bracket =~= seq!['c', 't', 'r', 'l', '-', ']']);
    if text.len() == 6 {
        assert(lowered(text).take(5) =~= lowered(text.take(5)));
        assert(lowered(text) =~= lowered(text).take(5).push(lowered(text)[5]));
        assert(bracket.take(5) =~= "ctrl-"@);
        assert(bracket =~= "ctrl-"@.push(']'));
        if lowered(text) == bracket {
            assert(lowered(text)[5] == ']');
        }
    } else {
        assert(lowered(text).len() == text.len());
    }
}

/// A binding that names a key stays in force as the same key; any other gives way to the
/// fallback.
pub proof fn law_normalized_keeps_the_key(value: Seq<char>, fallback: Seq<char>)
    ensures
        bound_key(value) is Some ==> bound_key(normalized(value, fallback)) == bound_key(value),
        bound_key(value) is None ==> normalized(value, fallback) == fallback,
{
    law_trimmed_is_stable(value);
    law_default_bindings();
}

/// Whether a byte is an ASCII digit.
pub open spec fn is_digit(byte: u8) -> bool {
    0x30 <= byte <= 0x39
}

/// The end of the run of digits that starts at `from`.
pub open spec fn digits_end(s: Seq<u8>, from: int) -> int
    decreases s.len() - from,
{
    if 0 <= from < s.len() && is_digit(s[from]) {
        digits_end(s, from + 1)
    } else {
        from
    }
}

/// The number that a run of digits writes.
pub open spec fn number(run: Seq<u8>) -> int
    decreases run.len(),
{
    if run.len() == 0 {
        0
    } else {
        number(run.drop_last()) * 10 + (run.last() - 0x30)
    }
}

/// A number, or the largest `u32` where it is larger.
pub open spec fn capped(n: int) -> u32 {
    if n > u32::MAX {
        u32::MAX
    } else {
        n as u32
    }
}

/// An extended key: its code point, its modifiers, and the length of its sequence.
pub ghost struct ExtendedKey {
    pub codepoint: u32,
    pub modifiers: u32,
    pub len: int,
}

/// The extended key at the front of `s`, if there is a complete one.
pub open spec fn extended_key(s: Seq<u8>) -> Option<ExtendedKey> {
    let code_end = digits_end(s, 2);
    let mods_end = digits_end(s, code_end + 1);
    if s.len() >= 2 && s[0] == ESC && s[1] == CSI_OPEN && 2 < code_end < s.len() && s[code_end]
        == SEMICOLON && code_end + 1 < mods_end < s.len() && s[mods_end] == FINAL_KEY {
        Some(
            ExtendedKey {
                codepoint: capped(number(s.subrange(2, code_end))),
                modifiers: capped(number(s.subrange(code_end + 1, mods_end))),
                len: mods_end + 1,
            },
        )
    } else {
        None
    }
}

/// Whether the modifiers of an extended key hold Ctrl: the modifiers are sent plus one, and
/// Ctrl is the third bit.
pub open spec fn holds_ctrl(modifiers: u32) -> bool {
    modifiers >= 1 && ((modifiers - 1) / 4) % 2 == 1
}

/// Whether a code point is one of a key's.
pub open spec fn matches_key(codepoint: u32, key: ControlKey) -> bool {
    codepoint == key.csi_primary || key.csi_shifted == Some(codepoint)
}

/// The action of the extended key at the front of `s`, with the length of its sequence.
pub open spec fn extended_control(s: Seq<u8>, bindings: ControlKeyBindings) -> Option<
    (int, ControlAction),
> {
    match extended_key(s) {
        Some(key) => if !holds_ctrl(key.modifiers) {
            None
        } else if matches_key(key.codepoint, bindings.switch) {
            Some((key.len, ControlAction::Switch))
        } else if matches_key(key.codepoint, bindings.detach) {
            Some((key.len, ControlAction::Detach))
        } else {
            None
        },
        None => None,
    }
}

/// The control key at the front of `s`, in either form.
pub open spec fn control_at(s: Seq<u8>, bindings: ControlKeyBindings) -> Option<
    (int, ControlAction),
> {
    if s[0] == bindings.switch.raw_byte {
        Some((1, ControlAction::Switch))
    } else if s[0] == bindings.detach.raw_byte {
        Some((1, ControlAction::Detach))
    } else if s[0] == ESC {
        extended_control(s, bindings)
    } else {
        None
    }
}

/// Whether the first control key in `s` is at `at`, `len` bytes long, and asks for `action`.
pub open spec fn is_first_control(
    s: Seq<u8>,
    bindings: ControlKeyBindings,
    at: int,
    len: int,
    action: ControlAction,
) -> bool {
    &&& 0 <= at < s.len()
    &&& control_at(s.skip(at), bindings) == Some((len, action))
    &&& no_control_before(s, bindings, at)
}

/// Whether no control key starts in `s` before `end`.
pub open spec fn no_control_before(s: Seq<u8>, bindings: ControlKeyBindings, end: int) -> bool {
    forall|i: int| 0 <= i < end ==> #[trigger] control_at(s.skip(i), bindings) is None
}

proof fn lemma_digits_end_bounds(s: Seq<u8>, from: int)
    requires
        0 <= from <= s.len(),
    ensures
        from <= digits_end(s, from) <= s.len(),
    decreases s.len() - from,
{
    if from < s.len() && is_digit(s[from]) {
        lemma_digits_end_bounds(s, from + 1);
    }
}

proof fn lemma_number_bound(run: Seq<u8>)
    requires
        forall|i: int| 0 <= i < run.len() ==> is_digit(#[trigger] run[i]),
    ensures
        number(run) >= 0,
    decreases run.len(),
{
    if run.len() > 0 {
        assert forall|i: int| 0 <= i < run.drop_last().len() implies is_digit(
            #[trigger] run.drop_last()[i],
        ) by {
            assert(is_digit(run[i]));
        }
        lemma_number_bound(run.drop_last());
        assert(is_digit(run[run.len() - 1]));
    }
}

/// Reads the run of digits at `from`: where it ends, and its number.
fn read_number(bytes: &[u8], from: usize) -> (r: (usize, u32))
    requires
        from <= bytes@.len(),
    ensures
        r.0 == digits_end(bytes@, from as int),
        from <= r.0 <= bytes@.len(),
        r.1 == capped(number(bytes@.subrange(from as int, r.0 as int))),
{
    let mut i: usize = from;
    let mut value: u32 = 0;
    while i < bytes.len() && (0x30 <= bytes[i] && bytes[i] <= 0x39)
        invariant
            from <= i <= bytes@.len(),
            digits_end(bytes@, from as int) == digits_end(bytes@, i as int),
            forall|k: int| from <= k < i ==> is_digit(bytes@[k]),
            value == capped(number(bytes@.subrange(from as int, i as int))),
        decreases bytes@.len() - i,
    {
        let digit: u32 = (bytes[i] - 0x30) as u32;
        let next: u64 = value as u64 * 10 + digit as u64;
        proof {
            let run = bytes@.subrange(from as int, i + 1);
            assert(run.drop_last() =~= bytes@.subrange(from as int, i as int));
            assert(run.last() == bytes@[i as int]);
            lemma_number_bound(bytes@.subrange(from as int, i as int));
        }
        value = if next > 0xffff_ffff {
            0xffff_ffff
        } else {
            next as u32
        };
        i += 1;
    }
    (i, value)
}

/// The extended key at the front of `bytes`: its code point, modifiers and length.
fn read_extended_key(bytes: &[u8]) -> (r: Option<(u32, u32, usize)>)
    ensures
        extended_key(bytes@) == (match r {
            Some((codepoint, modifiers, len)) => Some(
                ExtendedKey { codepoint, modifiers, len: len as int },
            ),
            None => None,
        }),
        r matches Some((_, _, len)) ==> len <= bytes@.len(),
{
    if bytes.len() < 2 || bytes[0] != ESC || bytes[1] != CSI_OPEN {
        return None;
    }
    let (code_end, codepoint) = read_number(bytes, 2);
    if code_end == 2 || code_end >= bytes.len() || bytes[code_end] != SEMICOLON {
        return None;
    }
    let (mods_end, modifiers) = read_number(bytes, code_end + 1);
    if mods_end == code_end + 1 || mods_end >= bytes.len() || bytes[mods_end] != FINAL_KEY {
        return None;
    }
    Some((codepoint, modifiers, mods_end + 1))
}

/// The length of the Enter key in its extended form at the front of `bytes`.
pub fn parse_csi_u_enter(bytes: &[u8]) -> (r: Option<usize>)
    ensures
        match extended_key(bytes@) {
            Some(key) => if key.codepoint == ENTER {
                r matches Some(len) && len == key.len
            } else {
                r is None
            },
            None => r is None,
        },
        r matches Some(len) ==> len <= bytes@.len(),
{
    match read_extended_key(bytes) {
        Some((codepoint, _, len)) => if codepoint == ENTER {
            Some(len)
        } else {
            None
        },
        None => None,
    }
}

/// Whether a code point is one of a key's.
pub fn control_codepoint_matches_binding(codepoint: u32, key: ControlKey) -> (r: bool)
    ensures
        r == matches_key(codepoint, key),
{
    if codepoint == key.csi_primary {
        return true;
    }
    match key.csi_shifted {
        Some(shifted) => shifted == codepoint,
        None => false,
    }
}

/// The control key in its extended form at the front of `bytes`.
pub fn parse_csi_u_control(bytes: &[u8], bindings: ControlKeyBindings) -> (r: Option<
    (usize, ControlAction),
>)
    ensures
        extended_control(bytes@, bindings) == (match r {
            Some((len, action)) => Some((len as int, action)),
            None => None,
        }),
{
    let Some((codepoint, modifiers, len)) = read_extended_key(bytes) else {
        return None;
    };
    let flags: u32 = if modifiers >= 1 {
        modifiers - 1
    } else {
        0
    };
    assert((flags & 4 != 0) == ((flags / 4) % 2 == 1)) by (bit_vector);
    if flags & 4 == 0 {
        return None;
    }
    if control_codepoint_matches_binding(codepoint, bindings.switch) {
        return Some((len, ControlAction::Switch));
    }
    if control_codepoint_matches_binding(codepoint, bindings.detach) {
        return Some((len, ControlAction::Detach));
    }
    None
}

/// The first control key in `bytes`: where it is, how long, and what it asks for.
pub fn find_control_key(bytes: &[u8], bindings: ControlKeyBindings) -> (r: Option<
    (usize, usize, ControlAction),
>)
    ensures
        match r {
            Some((at, len, action)) => is_first_control(
                bytes@,
                bindings,
                at as int,
                len as int,
                action,
            ),
            None => no_control_before(bytes@, bindings, bytes@.len() as int),
        },
{
    let mut i: usize = 0;
    while i < bytes.len()
        invariant
            i <= bytes@.len(),
            no_control_before(bytes@, bindings, i as int),
        decreases bytes@.len() - i,
    {
        let byte = bytes[i];
        assert(bytes@.skip(i as int)[0] == byte);
        if byte == bindings.switch.raw_byte {
            return Some((i, 1, ControlAction::Switch));
        }
        if byte == bindings.detach.raw_byte {
            return Some((i, 1, ControlAction::Detach));
        }
        if byte == ESC {
            let rest = slice_subrange(bytes, i, bytes.len());
            assert(rest@ =~= bytes@.skip(i as int));
            if let Some((len, action)) = parse_csi_u_control(rest, bindings) {
                return Some((i, len, action));
            }
        }
        i += 1;
    }
    None
}

/// The length of the Enter key at the front of `s`, in any of its forms.
pub open spec fn enter_len(s: Seq<u8>) -> Option<int> {
    if s.len() > 0 && (s[0] == CR || s[0] == LF) {
        Some(1)
    } else {
        match extended_key(s) {
            Some(key) => if key.codepoint == ENTER {
                Some(key.len)
            } else {
                None
            },
            None => None,
        }
    }
}

/// `s` without the Enter keys in front.
pub open spec fn without_enters(s: Seq<u8>) -> Seq<u8>
    decreases s.len(),
{
    match enter_len(s) {
        Some(n) => if 0 < n <= s.len() {
            without_enters(s.skip(n))
        } else {
            s
        },
        None => s,
    }
}

proof fn lemma_extended_key_len(s: Seq<u8>)
    ensures
        extended_key(s) matches Some(key) ==> 0 < key.len <= s.len(),
{
    if s.len() >= 2 {
        lemma_digits_end_bounds(s, 2);
        if digits_end(s, 2) < s.len() {
            lemma_digits_end_bounds(s, digits_end(s, 2) + 1);
        }
    }
}

/// What is left does not start with an Enter key, and is the end of what was there.
pub proof fn law_no_enter_is_left(s: Seq<u8>)
    ensures
        enter_len(without_enters(s)) is None,
        without_enters(s).is_suffix_of(s),
    decreases s.len(),
{
    lemma_extended_key_len(s);
    if let Some(n) = enter_len(s) {
        law_no_enter_is_left(s.skip(n));
        let rest = s.skip(n);
        let left = without_enters(rest);
        assert(s.subrange(s.len() - left.len(), s.len() as int) =~= rest.subrange(
            rest.len() - left.len(),
            rest.len() as int,
        ));
    }
}

/// Drops the Enter keys in front.
pub fn strip_leading_enter_events(bytes: &mut Vec<u8>)
    ensures
        final(bytes)@ == without_enters(old(bytes)@),
{
    let mut start: usize = 0;
    let ghost whole = bytes@;
    assert(whole.skip(0) =~= whole);
    loop
        invariant
            bytes@ == whole,
            start <= bytes@.len(),
            without_enters(whole) == without_enters(whole.skip(start as int)),
        ensures
            without_enters(whole) == whole.skip(start as int),
        decreases bytes@.len() - start,
    {
        let n = bytes.len();
        let rest = slice_subrange(bytes.as_slice(), start, n);
        assert(rest@ =~= whole.skip(start as int));
        proof {
            lemma_extended_key_len(rest@);
        }
        if rest.len() > 0 && (rest[0] == CR || rest[0] == LF) {
            assert(rest@.skip(1) =~= whole.skip(start + 1));
            start += 1;
        } else if let Some(len) = parse_csi_u_enter(rest) {
            assert(rest@.skip(len as int) =~= whole.skip(start + len));
            start += len;
        } else {
            break;
        }
    }
    let left = copy_range(bytes.as_slice(), start, bytes.len());
    assert(left@ =~= whole.skip(start as int));
    *bytes = left;
}

/// The bytes of the digits of a number.
pub open spec fn digit_bytes(n: nat) -> Seq<u8> {
    digits(n).map_values(|c: char| c as u8)
}

/// An extended key as a terminal sends it: ESC, `[`, the code point in decimal, `;`, the
/// modifiers in decimal, and `u`.
pub open spec fn extended_form(codepoint: u32, modifiers: u32) -> Seq<u8> {
    seq![0x1bu8, 0x5b] + digit_bytes(codepoint as nat) + seq![0x3bu8] + digit_bytes(
        modifiers as nat,
    ) + seq![0x75u8]
}

/// An extended key is read back as it was sent, whatever follows it.
pub proof fn law_extended_keys_are_read_back(codepoint: u32, modifiers: u32, rest: Seq<u8>)
    ensures
        extended_key(extended_form(codepoint, modifiers) + rest) == Some(
            ExtendedKey {
                codepoint,
                modifiers,
                len: extended_form(codepoint, modifiers).len() as int,
            },
        ),
{
    let (a, b) = (digit_bytes(codepoint as nat), digit_bytes(modifiers as nat));
    let s = extended_form(codepoint, modifiers) + rest;
    lemma_digit_bytes(codepoint as nat);
    lemma_digit_bytes(modifiers as nat);
    let code_end: int = 2 + a.len() as int;
    let mods_end: int = code_end + 1 + b.len();
    assert forall|i: int| 2 <= i < code_end implies is_digit(#[trigger] s[i]) by {
        assert(s[i] == a[i - 2]);
    }
    assert(s[code_end] == 0x3b);
    lemma_digits_end_at(s, 2, code_end);
    assert forall|i: int| code_end + 1 <= i < mods_end implies is_digit(#[trigger] s[i]) by {
        assert(s[i] == b[i - code_end - 1]);
    }
    assert(s[mods_end] == 0x75);
    lemma_digits_end_at(s, code_end + 1, mods_end);
    assert(s.subrange(2, code_end) =~= a);
    assert(s.subrange(code_end + 1, mods_end) =~= b);
}

proof fn lemma_digits_end_at(s: Seq<u8>, from: int, end: int)
    requires
        0 <= from <= end < s.len(),
        forall|i: int| from <= i < end ==> is_digit(#[trigger] s[i]),
        !is_digit(s[end]),
    ensures
        digits_end(s, from) == end,
    decreases end - from,
{
    if from < end {
        assert(is_digit(s[from]));
        lemma_digits_end_at(s, from + 1, end);
    }
}

proof fn lemma_digit_bytes(n: nat)
    ensures
        digit_bytes(n).len() > 0,
        forall|i: int| 0 <= i < digit_bytes(n).len() ==> is_digit(#[trigger] digit_bytes(n)[i]),
        number(digit_bytes(n)) == n,
    decreases n,
{
    let run = digit_bytes(n);
    if n < 10 {
        assert(run.drop_last() =~= Seq::empty());
        assert(run.last() == 0x30 + n);
        assert(number(run.drop_last()) == 0);
    } else {
        lemma_digit_bytes(n / 10);
        let front = digit_bytes(n / 10);
        assert(run.drop_last() =~= front);
        assert(run.last() == 0x30 + n % 10);
        assert forall|i: int| 0 <= i < run.len() implies is_digit(#[trigger] run[i]) by {
            if i < front.len() {
                assert(run[i] == front[i]);
            }
        }
    }
}

/// What is read as an extended key has its form: ESC, `[`, digits, `;`, digits and `u`.
pub proof fn law_extended_keys_have_their_form(s: Seq<u8>) -> (ends: (int, int))
    requires
        extended_key(s) is Some,
    ensures
        2 < ends.0 < ends.1 - 1,
        extended_key(s).unwrap().len == ends.1 + 1 <= s.len(),
        s[0] == 0x1b && s[1] == 0x5b && s[ends.0] == 0x3b && s[ends.1] == 0x75,
        forall|i: int|
            2 <= i < ends.0 || ends.0 < i < ends.1 ==> 0x30 <= #[trigger] s[i] <= 0x39,
{
    let code_end = digits_end(s, 2);
    let mods_end = digits_end(s, code_end + 1);
    lemma_digits_in_run(s, 2);
    lemma_digits_in_run(s, code_end + 1);
    (code_end, mods_end)
}

proof fn lemma_digits_in_run(s: Seq<u8>, from: int)
    requires
        0 <= from <= s.len(),
    ensures
        forall|i: int| from <= i < digits_end(s, from) ==> 0x30 <= #[trigger] s[i] <= 0x39,
    decreases s.len() - from,
{
    if from < s.len() && is_digit(s[from]) {
        lemma_digits_in_run(s, from + 1);
    }
}

/// What a run of digits writes: a single digit its own number, and two runs together the number
/// of the first moved up by the digits of the second, and that of the second.
pub proof fn law_numbers(digit: u8, a: Seq<u8>, b: Seq<u8>)
    ensures
        0x30 <= digit <= 0x39 ==> number(seq![digit]) == digit - 0x30,
        number(a + b) == number(a) * pow(10, b.len()) + number(b),
    decreases b.len(),
{
    let one = seq![digit];
    assert(one.drop_last() =~= Seq::empty());
    assert(number(one.drop_last()) == 0);
    if b.len() == 0 {
        assert(a + b =~= a);
        lemma_pow0(10);
    } else {
        let init = b.drop_last();
        law_numbers(digit, a, init);
        assert((a + b).drop_last() =~= a + init);
        lemma_pow_adds(10, init.len(), 1);
        lemma_pow1(10);
        let (x, y, p) = (number(a), number(init), pow(10, init.len()));
        assert((x * p + y) * 10 == x * (p * 10) + y * 10) by (nonlinear_arith);
    }
}

/// An extended key may be written with any digits: each number counts as what its digits write,
/// or as the largest there is where that is more.
pub proof fn law_extended_keys_of_any_digits(code: Seq<u8>, mods: Seq<u8>, rest: Seq<u8>)
    requires
        code.len() > 0,
        mods.len() > 0,
        forall|i: int| 0 <= i < code.len() ==> 0x30 <= #[trigger] code[i] <= 0x39,
        forall|i: int| 0 <= i < mods.len() ==> 0x30 <= #[trigger] mods[i] <= 0x39,
    ensures
        extended_key(
            seq![0x1bu8, 0x5b] + code + seq![0x3bu8] + mods + seq![0x75u8] + rest,
        ) matches Some(key) && {
            &&& key.len == code.len() + mods.len() + 4
            &&& number(code) <= 0xffff_ffff ==> key.codepoint == number(code)
            &&& number(code) > 0xffff_ffff ==> key.codepoint == 0xffff_ffff
            &&& number(mods) <= 0xffff_ffff ==> key.modifiers == number(mods)
            &&& number(mods) > 0xffff_ffff ==> key.modifiers == 0xffff_ffff
        },
{
    let s = seq![0x1bu8, 0x5b] + code + seq![0x3bu8] + mods + seq![0x75u8] + rest;
    lemma_number_bound(code);
    lemma_number_bound(mods);
    let code_end: int = 2 + code.len() as int;
    let mods_end: int = code_end + 1 + mods.len();
    assert forall|i: int| 2 <= i < code_end implies is_digit(#[trigger] s[i]) by {
        assert(s[i] == code[i - 2]);
    }
    assert(s[code_end] == 0x3b);
    lemma_digits_end_at(s, 2, code_end);
    assert forall|i: int| code_end + 1 <= i < mods_end implies is_digit(#[trigger] s[i]) by {
        assert(s[i] == mods[i - code_end - 1]);
    }
    assert(s[mods_end] == 0x75);
    lemma_digits_end_at(s, code_end + 1, mods_end);
    assert(s.subrange(2, code_end) =~= code);
    assert(s.subrange(code_end + 1, mods_end) =~= mods);
}

/// An extended key with Ctrl held asks for the action of the binding that has its code point,
/// the switch first; without Ctrl, or with another code point, it asks for nothing. Ctrl is held
/// where the modifiers less one, halved twice, are odd.
pub proof fn law_extended_keys_control(
    codepoint: u32,
    modifiers: u32,
    rest: Seq<u8>,
    bindings: ControlKeyBindings,
)
    ensures
        ({
            let key = extended_form(codepoint, modifiers);
            let ctrl = modifiers >= 1 && ((modifiers - 1) / 2 / 2) % 2 == 1;
            let switch = codepoint == bindings.switch.csi_primary || bindings.switch.csi_shifted
                == Some(codepoint);
            let detach = codepoint == bindings.detach.csi_primary || bindings.detach.csi_shifted
                == Some(codepoint);
            extended_control(key + rest, bindings) == if ctrl && switch {
                Some((key.len() as int, ControlAction::Switch))
            } else if ctrl && detach {
                Some((key.len() as int, ControlAction::Detach))
            } else {
                None
            }
        }),
{
    law_extended_keys_are_read_back(codepoint, modifiers, rest);
}

/// Enter keys in front are dropped, as carriage returns, as line feeds, and in their extended
/// form whatever the modifiers.
pub proof fn law_leading_enters_are_dropped(modifiers: u32, rest: Seq<u8>)
    ensures
        without_enters(seq![0x0du8] + rest) == without_enters(rest),
        without_enters(seq![0x0au8] + rest) == without_enters(rest),
        without_enters(extended_form(13, modifiers) + rest) == without_enters(rest),
{
    assert((seq![0x0du8] + rest).skip(1) =~= rest);
    assert((seq![0x0au8] + rest).skip(1) =~= rest);
    law_extended_keys_are_read_back(13, modifiers, rest);
    let key = extended_form(13, modifiers);
    assert((key + rest).skip(key.len() as int) =~= rest);
    assert((key + rest)[0] == 0x1b);
}

/// Input that begins otherwise is left whole: with another byte, or with another key in its
/// extended form.
pub proof fn law_other_keys_are_not_dropped(s: Seq<u8>, codepoint: u32, modifiers: u32)
    ensures
        s.len() == 0 ==> without_enters(s) == s,
        s.len() > 0 && s[0] != 0x0d && s[0] != 0x0a && s[0] != 0x1b ==> without_enters(s) == s,
        s.len() > 1 && s[0] == 0x1b && s[1] != 0x5b ==> without_enters(s) == s,
        codepoint != 13 ==> without_enters(extended_form(codepoint, modifiers) + s)
            == extended_form(codepoint, modifiers) + s,
{
    law_extended_keys_are_read_back(codepoint, modifiers, s);
    assert((extended_form(codepoint, modifiers) + s)[0] == 0x1b);
}

/// What is to be done with a piece of input: bytes for the session, and perhaps an action
/// that ends the attachment.
pub struct InputStep {
    pub forward: Vec<u8>,
    pub action: Option<ControlAction>,
}

/// The input side of an attachment.
pub struct InputBridge {
    pub filter: TerminalReplyFilter,
    pub swallow_enter: bool,
    pub bindings: ControlKeyBindings,
}

/// The input that remains of a chunk once replies are taken out, and, while an Enter key is
/// to be swallowed, the Enter keys in front.
pub open spec fn input_left(carry: Seq<u8>, chunk: Seq<u8>, swallow: bool) -> Seq<u8> {
    if swallow {
        without_enters(filter_scan(carry + chunk).out)
    } else {
        filter_scan(carry + chunk).out
    }
}

/// Whether `step` forwards what stands before the first control key in `left` and asks for
/// the action of that key, or forwards all of it where there is none.
pub open spec fn splits_input(
    left: Seq<u8>,
    bindings: ControlKeyBindings,
    step: InputStep,
) -> bool {
    match step.action {
        Some(action) => exists|at: int, len: int|
            {
                &&& #[trigger] is_first_control(left, bindings, at, len, action)
                &&& step.forward@ == left.take(at)
            },
        None => {
            &&& step.forward@ == left
            &&& no_control_before(left, bindings, left.len() as int)
        },
    }
}

impl InputBridge {
    /// The input side at the start of an attachment.
    pub fn new(swallow_enter: bool, bindings: ControlKeyBindings) -> (r: Self)
        ensures
            r.filter@ == Seq::<u8>::empty(),
            r.swallow_enter == swallow_enter,
            r.bindings == bindings,
    {
        InputBridge { filter: TerminalReplyFilter::default(), swallow_enter, bindings }
    }

    /// Takes a chunk of input. The Enter that chose a session in the picker may still
    /// arrive: it is swallowed until other input came or the time for it has passed.
    pub fn on_input(&mut self, chunk: &[u8], time_passed: bool) -> (r: InputStep)
        ensures
            final(self).bindings == old(self).bindings,
            final(self).filter@ == filter_scan(old(self).filter@ + chunk@).held,
            final(self).swallow_enter == (old(self).swallow_enter && !time_passed && input_left(
                old(self).filter@,
                chunk@,
                true,
            ).len() == 0),
            splits_input(
                input_left(old(self).filter@, chunk@, old(self).swallow_enter && !time_passed),
                old(self).bindings,
                r,
            ),
    {
        let mut left = self.filter.filter(chunk);
        if self.swallow_enter {
            if time_passed {
                self.swallow_enter = false;
            } else {
                strip_leading_enter_events(&mut left);
                if left.len() > 0 {
                    self.swallow_enter = false;
                }
            }
        }
        if let Some((at, len, action)) = find_control_key(&left, self.bindings) {
            let forward = copy_range(&left, 0, at);
            assert(forward@ =~= left@.take(at as int));
            assert(is_first_control(left@, self.bindings, at as int, len as int, action));
            InputStep { forward, action: Some(action) }
        } else {
            InputStep { forward: left, action: None }
        }
    }
}

/// The byte of a control key in the input ends the attachment: an action is asked for, and
/// nothing from that byte on is forwarded.
pub proof fn law_control_bytes_end_the_attachment(
    left: Seq<u8>,
    bindings: ControlKeyBindings,
    i: int,
    step: InputStep,
)
    requires
        splits_input(left, bindings, step),
        0 <= i < left.len(),
        left[i] == bindings.switch.raw_byte || left[i] == bindings.detach.raw_byte,
    ensures
        step.action is Some,
        step.forward@.len() <= i,
        step.forward@.is_prefix_of(left),
{
    assert(left.skip(i)[0] == left[i]);
    assert(control_at(left.skip(i), bindings) is Some);
    if let Some(action) = step.action {
        let (at, len): (int, int) = choose|at: int, len: int|
            #[trigger] is_first_control(left, bindings, at, len, action) && step.forward@
                == left.take(at);
        assert(no_control_before(left, bindings, at));
        assert(step.forward@ =~= left.subrange(0, step.forward@.len() as int));
    }
}

/// Input without a control key passes whole.
pub proof fn law_other_input_passes(
    left: Seq<u8>,
    bindings: ControlKeyBindings,
    step: InputStep,
)
    requires
        splits_input(left, bindings, step),
        no_control_before(left, bindings, left.len() as int),
    ensures
        step.action is None,
        step.forward@ == left,
{
    if let Some(action) = step.action {
        let (at, len): (int, int) = choose|at: int, len: int|
            #[trigger] is_first_control(left, bindings, at, len, action) && step.forward@
                == left.take(at);
        assert(control_at(left.skip(at), bindings) is None);
    }
}

/// The first byte in the input that is that of a control key decides: what stands before it is
/// forwarded, and it asks for its action, the switch where both keys send it.
pub proof fn law_first_control_byte_decides(
    left: Seq<u8>,
    bindings: ControlKeyBindings,
    at: int,
    step: InputStep,
)
    requires
        splits_input(left, bindings, step),
        0 <= at < left.len(),
        left[at] == bindings.switch.raw_byte || left[at] == bindings.detach.raw_byte,
        forall|i: int|
            0 <= i < at ==> left[i] != bindings.switch.raw_byte && left[i]
                != bindings.detach.raw_byte && #[trigger] left[i] != 0x1b,
    ensures
        step.forward@ == left.take(at),
        step.action == Some(
            if left[at] == bindings.switch.raw_byte {
                ControlAction::Switch
            } else {
                ControlAction::Detach
            },
        ),
{
    lemma_plain_is_no_control(left, bindings, at);
    assert(left.skip(at)[0] == left[at]);
    assert(control_at(left.skip(at), bindings) is Some);
    lemma_first_control(left, bindings, at, step);
}

/// A control key in its extended form does the same, where it is not itself that of a control
/// byte and nothing before it could be a control key.
pub proof fn law_first_extended_key_decides(
    front: Seq<u8>,
    codepoint: u32,
    modifiers: u32,
    rest: Seq<u8>,
    bindings: ControlKeyBindings,
    step: InputStep,
)
    requires
        splits_input(front + (extended_form(codepoint, modifiers) + rest), bindings, step),
        bindings.switch.raw_byte != 0x1b,
        bindings.detach.raw_byte != 0x1b,
        forall|i: int|
            0 <= i < front.len() ==> front[i] != bindings.switch.raw_byte && front[i]
                != bindings.detach.raw_byte && #[trigger] front[i] != 0x1b,
        modifiers >= 1 && ((modifiers - 1) / 2 / 2) % 2 == 1,
        matches_key(codepoint, bindings.switch) || matches_key(codepoint, bindings.detach),
    ensures
        step.forward@ == front,
        step.action == Some(
            if codepoint == bindings.switch.csi_primary || bindings.switch.csi_shifted == Some(
                codepoint,
            ) {
                ControlAction::Switch
            } else {
                ControlAction::Detach
            },
        ),
{
    let key = extended_form(codepoint, modifiers) + rest;
    let left = front + key;
    let at = front.len() as int;
    assert forall|i: int| 0 <= i < at implies left[i] != bindings.switch.raw_byte && left[i]
        != bindings.detach.raw_byte && #[trigger] left[i] != 0x1b by {
        assert(left[i] == front[i]);
    }
    lemma_plain_is_no_control(left, bindings, at);
    law_extended_keys_control(codepoint, modifiers, rest, bindings);
    assert(left.skip(at) =~= key);
    assert(key[0] == 0x1b);
    lemma_first_control(left, bindings, at, step);
    assert(left.take(at) =~= front);
}

/// A control key is one of the two bytes, the switch first where both are the same, or else an
/// extended key.
pub proof fn law_control_keys(s: Seq<u8>, bindings: ControlKeyBindings)
    requires
        s.len() > 0,
    ensures
        s[0] == bindings.switch.raw_byte ==> control_at(s, bindings) == Some(
            (1int, ControlAction::Switch),
        ),
        s[0] == bindings.detach.raw_byte && s[0] != bindings.switch.raw_byte ==> control_at(
            s,
            bindings,
        ) == Some((1int, ControlAction::Detach)),
        s[0] != bindings.switch.raw_byte && s[0] != bindings.detach.raw_byte && s[0] == 0x1b
            ==> control_at(s, bindings) == extended_control(s, bindings),
        s[0] != bindings.switch.raw_byte && s[0] != bindings.detach.raw_byte && s[0] != 0x1b
            ==> control_at(s, bindings) is None,
{
}

/// The first control key in the input decides, in either form and whatever stands before it: what
/// stands before it is forwarded, and it asks for its action. Without any, all is forwarded.
pub proof fn law_first_control_key_decides(
    left: Seq<u8>,
    bindings: ControlKeyBindings,
    at: int,
    step: InputStep,
)
    requires
        splits_input(left, bindings, step),
        0 <= at <= left.len(),
        forall|i: int| 0 <= i < at ==> control_at(#[trigger] left.skip(i), bindings) is None,
        at < left.len() ==> control_at(left.skip(at), bindings) is Some,
    ensures
        step.forward@ == left.take(at),
        at == left.len() ==> step.action is None,
        at < left.len() ==> step.action == Some(control_at(left.skip(at), bindings).unwrap().1),
{
    assert forall|i: int| 0 <= i < at implies #[trigger] control_at(
        left.skip(i),
        bindings,
    ) is None by {
        assert(control_at(left.skip(i), bindings) is None);
    }
    if at < left.len() {
        lemma_first_control(left, bindings, at, step);
    } else {
        law_other_input_passes(left, bindings, step);
        assert(left.take(at) =~= left);
    }
}

/// Input in which nothing could be a control key is forwarded whole.
pub proof fn law_plain_input_is_forwarded(
    left: Seq<u8>,
    bindings: ControlKeyBindings,
    step: InputStep,
)
    requires
        splits_input(left, bindings, step),
        forall|i: int|
            0 <= i < left.len() ==> left[i] != bindings.switch.raw_byte && left[i]
                != bindings.detach.raw_byte && #[trigger] left[i] != 0x1b,
    ensures
        step.forward@ == left,
        step.action is None,
{
    lemma_plain_is_no_control(left, bindings, left.len() as int);
    law_other_input_passes(left, bindings, step);
}

proof fn lemma_plain_is_no_control(left: Seq<u8>, bindings: ControlKeyBindings, end: int)
    requires
        0 <= end <= left.len(),
        forall|i: int|
            0 <= i < end ==> left[i] != bindings.switch.raw_byte && left[i]
                != bindings.detach.raw_byte && #[trigger] left[i] != 0x1b,
    ensures
        no_control_before(left, bindings, end),
{
    assert forall|i: int| 0 <= i < end implies #[trigger] control_at(
        left.skip(i),
        bindings,
    ) is None by {
        assert(left.skip(i)[0] == left[i]);
    }
}

proof fn lemma_first_control(
    left: Seq<u8>,
    bindings: ControlKeyBindings,
    at: int,
    step: InputStep,
)
    requires
        splits_input(left, bindings, step),
        0 <= at < left.len(),
        control_at(left.skip(at), bindings) is Some,
        no_control_before(left, bindings, at),
    ensures
        step.action == Some(control_at(left.skip(at), bindings).unwrap().1),
        step.forward@ == left.take(at),
{
    if let Some(action) = step.action {
        let (found, len): (int, int) = choose|found: int, len: int|
            #[trigger] is_first_control(left, bindings, found, len, action) && step.forward@
                == left.take(found);
        if found < at {
            assert(control_at(left.skip(found), bindings) is None);
        } else if at < found {
            assert(no_control_before(left, bindings, found));
            assert(control_at(left.skip(at), bindings) is None);
        }
    }
}

/// Input without terminal replies is left as it came, but for the Enter keys in front while one
/// is to be swallowed.
pub proof fn law_keys_are_left(chunk: Seq<u8>)
    requires
        forall|i: int|
            0 <= i < chunk.len() - 1 && #[trigger] chunk[i] == 0x1b ==> chunk[i + 1] != 0x5d
                && chunk[i + 1] != 0x50,
        chunk.len() > 0 ==> chunk.last() != 0x1b,
    ensures
        input_left(Seq::empty(), chunk, false) == chunk,
        input_left(Seq::empty(), chunk, true) == without_enters(chunk),
{
    assert(Seq::<u8>::empty() + chunk =~= chunk);
    law_filter_passes_keys(chunk);
}

} // verus!
