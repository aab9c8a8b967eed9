//! The messages between a client and the daemon. Each travels as one line of JSON.

use crate::text::{is_white, lemma_encode_push, trim_end, trimmed_end};
use vstd::prelude::*;
use vstd::utf8::{
    char_is_scalar, decode_utf8, encode_scalar, encode_utf8, encode_utf8_decode_utf8,
    encode_utf8_valid_utf8, valid_utf8,
};

verus! {

/// What the daemon tells of a session.
#[derive(Debug)]
pub struct SessionInfo {
    pub name: String,
    pub cwd: String,
    pub pid: i32,
    pub attached: bool,
}

impl Clone for SessionInfo {
    fn clone(&self) -> (r: Self)
        ensures
            r == *self,
    {
        SessionInfo {
            name: self.name.clone(),
            cwd: self.cwd.clone(),
            pid: self.pid,
            attached: self.attached,
        }
    }
}

/// The variables that describe the client's terminal, as far as they are set.
#[derive(Debug, Clone)]
pub struct TerminalEnv {
    pub term: Option<String>,
    pub colorterm: Option<String>,
    pub term_program: Option<String>,
    pub term_program_version: Option<String>,
    pub terminfo: Option<String>,
    pub terminfo_dirs: Option<String>,
}

impl Default for TerminalEnv {
    fn default() -> (r: Self)
        ensures
            r.term is None,
            r.colorterm is None,
            r.term_program is None,
            r.term_program_version is None,
            r.terminfo is None,
            r.terminfo_dirs is None,
    {
        TerminalEnv {
            term: None,
            colorterm: None,
            term_program: None,
            term_program_version: None,
            terminfo: None,
            terminfo_dirs: None,
        }
    }
}

/// What a client asks of the daemon.
#[derive(Debug)]
pub enum Request {
    Ping,
    List,
    Create { name: String, cwd: Option<String>, terminal_env: Option<TerminalEnv> },
    Delete { name: String },
    Rename { from: String, to: String },
    Attach { name: String, rows: Option<u16>, cols: Option<u16>, replay: Option<bool> },
}

/// What the daemon answers.
#[derive(Debug)]
pub struct Response {
    pub ok: bool,
    pub error: Option<String>,
    pub sessions: Option<Vec<SessionInfo>>,
}

impl Response {
    /// Success with nothing to tell.
    pub fn ok() -> (r: Self)
        ensures
            r == (Response { ok: true, error: None, sessions: None }),
    {
        Response { ok: true, error: None, sessions: None }
    }

    /// Success with the list of sessions.
    pub fn with_sessions(sessions: Vec<SessionInfo>) -> (r: Self)
        ensures
            r == (Response { ok: true, error: None, sessions: Some(sessions) }),
    {
        Response { ok: true, error: None, sessions: Some(sessions) }
    }

    /// Failure with a message.
    pub fn err(message: String) -> (r: Self)
        ensures
            r == (Response { ok: false, error: Some(message), sessions: None }),
    {
        Response { ok: false, error: Some(message), sessions: None }
    }
}

/// The bytes that carry one message: the payload and a newline.
pub fn message_line(payload: &str) -> (r: Vec<u8>)
    ensures
        r@ == encode_utf8(payload@).push(0x0a),
{
    let mut r = payload.as_bytes_vec();
    r.push(0x0a);
    r
}

/// The payload of a received line: the line without the white space at its end.
pub fn line_payload<'a>(line: &'a str) -> (r: &'a str)
    ensures
        r@ == trimmed_end(line@),
{
    trim_end(line)
}

/// What is left to do after a byte of a line, or the end of the stream, was read.
#[derive(Debug, PartialEq, Eq, Structural, Clone, Copy)]
pub enum LineStep {
    /// Read on.
    More,
    /// The line is complete.
    Complete,
    /// The stream ended before anything was read.
    Closed,
}

/// Collects one line byte by byte, so that nothing after the line is consumed.
pub struct LineReader {
    bytes: Vec<u8>,
}

impl View for LineReader {
    type V = Seq<u8>;

    /// The bytes collected so far.
    closed spec fn view(&self) -> Seq<u8> {
        self.bytes@
    }
}

impl LineReader {
    /// A reader that has collected nothing.
    pub fn new() -> (r: Self)
        ensures
            r@ == Seq::<u8>::empty(),
    {
        LineReader { bytes: Vec::new() }
    }

    /// Takes what was read: a byte, or `None` at the end of the stream. A newline belongs to
    /// the line and completes it; so does the end of the stream, unless nothing came before.
    pub fn take(&mut self, read: Option<u8>) -> (r: LineStep)
        ensures
            match read {
                Some(byte) => {
                    &&& final(self)@ == old(self)@.push(byte)
                    &&& r == if byte == 0x0a {
                        LineStep::Complete
                    } else {
                        LineStep::More
                    }
                },
                None => {
                    &&& final(self)@ == old(self)@
                    &&& r == if old(self)@.len() == 0 {
                        LineStep::Closed
                    } else {
                        LineStep::Complete
                    }
                },
            },
    {
        match read {
            Some(byte) => {
                self.bytes.push(byte);
                if byte == 0x0a {
                    LineStep::Complete
                } else {
                    LineStep::More
                }
            },
            None => if self.bytes.len() == 0 {
                LineStep::Closed
            } else {
                LineStep::Complete
            },
        }
    }

    /// The collected line as text; `None` if it is not valid UTF-8.
    pub fn into_line(self) -> (r: Option<String>)
        ensures
            r is Some <==> valid_utf8(self@),
            r matches Some(line) ==> line@ == decode_utf8(self@),
    {
        decode_text(self.bytes)
    }
}

proof fn lemma_width_1(code: u32)
    by (bit_vector)
    requires
        code <= 0x7f,
    ensures
        ((code & 0x7F) as u8) as u32 == code,
{
}

proof fn lemma_wider(code: u32)
    by (bit_vector)
    ensures
        (0xC0u8 | ((code >> 6) & 0x1F) as u8) >= 0x80u8,
        (0xE0u8 | ((code >> 12) & 0x0F) as u8) >= 0x80u8,
        (0xF0u8 | ((code >> 18) & 0x7) as u8) >= 0x80u8,
        (0x80u8 | (code & 0x3F) as u8) >= 0x80u8,
        (0x80u8 | ((code >> 6) & 0x3F) as u8) >= 0x80u8,
        (0x80u8 | ((code >> 12) & 0x3F) as u8) >= 0x80u8,
{
}

proof fn lemma_char_no_newline(c: char)
    requires
        c != '\n',
    ensures
        !encode_scalar(c as u32).contains(0x0a),
{
    let code = c as u32;
    char_is_scalar(c);
    if code <= 0x7f {
        lemma_width_1(code);
    } else {
        lemma_wider(code);
    }
}

proof fn lemma_no_newline(text: Seq<char>)
    requires
        !text.contains('\n'),
    ensures
        !encode_utf8(text).contains(0x0a),
    decreases text.len(),
{
    if text.len() > 0 {
        let c = text.last();
        assert(text.contains(c));
        let front = text.drop_last();
        assert forall|i: int| 0 <= i < front.len() implies front[i] != '\n' by {
            assert(text.contains(text[i]));
        }
        lemma_no_newline(front);
        lemma_encode_push(front, c);
        assert(front.push(c) =~= text);
        lemma_char_no_newline(c);
        let tail = encode_scalar(c as u32);
        assert forall|i: int| 0 <= i < encode_utf8(text).len() implies encode_utf8(text)[i]
            != 0x0a by {
            if i < encode_utf8(front).len() {
                assert(encode_utf8(front).contains(encode_utf8(front)[i]));
            } else {
                assert(tail.contains(tail[i - encode_utf8(front).len()]));
            }
        }
    }
}

/// What one side writes, the other reads back. A payload without a newline, and without white
/// space at its end, is carried by a line whose only newline is its last byte, that is valid
/// UTF-8, and whose payload it is.
pub proof fn law_messages_are_read_back(payload: Seq<char>)
    requires
        !payload.contains('\n'),
        payload.len() > 0 ==> !is_white(payload.last()),
    ensures
        ({
            let line = encode_utf8(payload).push(0x0a);
            &&& !line.drop_last().contains(0x0a)
            &&& valid_utf8(line)
            &&& trimmed_end(decode_utf8(line)) == payload
        }),
{
    let line = encode_utf8(payload).push(0x0a);
    lemma_no_newline(payload);
    assert(line.drop_last() =~= encode_utf8(payload));
    lemma_encode_push(payload, '\n');
    lemma_width_1(0x0a);
    assert(encode_scalar(0x0a) =~= seq![0x0au8]);
    assert(line =~= encode_utf8(payload.push('\n')));
    encode_utf8_valid_utf8(payload.push('\n'));
    encode_utf8_decode_utf8(payload.push('\n'));
    assert(payload.push('\n').drop_last() =~= payload);
    reveal_with_fuel(trimmed_end, 2);
}

/// `String::from_utf8` of std: the text that the bytes encode, or nothing if they are not
/// valid UTF-8.
#[verifier::external_body]
fn decode_text(bytes: Vec<u8>) -> (r: Option<String>)
    ensures
        r is Some <==> valid_utf8(bytes@),
        r matches Some(line) ==> line@ == decode_utf8(bytes@),
{
    String::from_utf8(bytes).ok()
}

} // verus!
