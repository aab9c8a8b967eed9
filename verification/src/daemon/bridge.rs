//! The flow of bytes between an attached client and the terminal of its session.

use vstd::prelude::*;

verus! {

/// What was found ready: input from either side, or that a side is gone.
#[derive(Debug, Clone, Copy, PartialEq, Eq, Structural)]
pub struct Polled {
    pub client_input: bool,
    pub client_gone: bool,
    pub session_output: bool,
    pub session_gone: bool,
}

/// What to do next for an attachment.
#[derive(Debug, Clone, Copy, PartialEq, Eq, Structural)]
pub enum BridgeAction {
    /// Find out whether the attachment was superseded.
    Check,
    /// Wait until either side is ready.
    Poll,
    /// Read input of the client.
    ReadClient,
    /// Write that input to the session.
    WriteSession,
    /// Read output of the session.
    ReadSession,
    /// Keep that output with the session and write it to the client.
    KeepAndWriteClient,
    /// End the attachment.
    Stop,
    /// End the attachment with the error that occurred.
    Fail,
}

/// What came of an action.
#[derive(Debug, Clone, Copy, PartialEq, Eq, Structural)]
pub enum BridgeEvent {
    /// Of `Check`: whether the attachment was superseded.
    Superseded(bool),
    /// Of `Poll`.
    Ready(Polled),
    /// Of reading: how many bytes came.
    Read(usize),
    /// Of writing: all was written.
    Written,
    /// An error; `true` if it means that the other side has disconnected.
    Error(bool),
}

/// The flow of an attachment: what was last found ready, and what is being done about it.
pub struct Bridge {
    pub polled: Polled,
    pub action: BridgeAction,
}

/// What to do about the session once the client's input is dealt with.
pub open spec fn session_turn(polled: Polled) -> BridgeAction {
    if polled.session_output {
        BridgeAction::ReadSession
    } else {
        round_end(polled)
    }
}

/// What to do once both sides are dealt with.
pub open spec fn round_end(polled: Polled) -> BridgeAction {
    if polled.session_gone {
        BridgeAction::Stop
    } else {
        BridgeAction::Check
    }
}

/// What follows an action and what came of it. Each round checks that the attachment still
/// counts, waits, moves input of the client, moves output of the session, and stops where a
/// side is gone or has nothing more to send. A client that disconnects while output is
/// written to it ends the attachment; any other error is reported.
pub open spec fn next_action(
    action: BridgeAction,
    polled: Polled,
    event: BridgeEvent,
) -> BridgeAction {
    match (action, event) {
        (BridgeAction::Check, BridgeEvent::Superseded(superseded)) => if superseded {
            BridgeAction::Stop
        } else {
            BridgeAction::Poll
        },
        (BridgeAction::Poll, BridgeEvent::Ready(ready)) => if ready.client_gone {
            BridgeAction::Stop
        } else if ready.client_input {
            BridgeAction::ReadClient
        } else {
            session_turn(ready)
        },
        (BridgeAction::ReadClient, BridgeEvent::Read(count)) => if count == 0 {
            BridgeAction::Stop
        } else {
            BridgeAction::WriteSession
        },
        (BridgeAction::WriteSession, BridgeEvent::Written) => session_turn(polled),
        (BridgeAction::ReadSession, BridgeEvent::Read(count)) => if count == 0 {
            BridgeAction::Stop
        } else {
            BridgeAction::KeepAndWriteClient
        },
        (BridgeAction::KeepAndWriteClient, BridgeEvent::Written) => round_end(polled),
        (BridgeAction::KeepAndWriteClient, BridgeEvent::Error(disconnected)) => if disconnected {
            BridgeAction::Stop
        } else {
            BridgeAction::Fail
        },
        _ => BridgeAction::Fail,
    }
}

/// Whether an event can come of an action.
pub open spec fn answers(action: BridgeAction, event: BridgeEvent) -> bool {
    match action {
        BridgeAction::Check => event is Superseded || event is Error,
        BridgeAction::Poll => event is Ready || event is Error,
        BridgeAction::ReadClient => event is Read || event is Error,
        BridgeAction::WriteSession => event is Written || event is Error,
        BridgeAction::ReadSession => event is Read || event is Error,
        BridgeAction::KeepAndWriteClient => event is Written || event is Error,
        BridgeAction::Stop => false,
        BridgeAction::Fail => false,
    }
}

impl Bridge {
    /// The flow at the start of an attachment: nothing was found ready yet.
    pub fn new() -> (r: Self)
        ensures
            r.action == BridgeAction::Check,
            r.polled == (Polled {
                client_input: false,
                client_gone: false,
                session_output: false,
                session_gone: false,
            }),
    {
        Bridge {
            polled: Polled {
                client_input: false,
                client_gone: false,
                session_output: false,
                session_gone: false,
            },
            action: BridgeAction::Check,
        }
    }

    fn after_client(&self) -> (r: BridgeAction)
        ensures
            r == session_turn(self.polled),
    {
        if self.polled.session_output {
            BridgeAction::ReadSession
        } else {
            self.after_session()
        }
    }

    fn after_session(&self) -> (r: BridgeAction)
        ensures
            r == round_end(self.polled),
    {
        if self.polled.session_gone {
            BridgeAction::Stop
        } else {
            BridgeAction::Check
        }
    }

    /// Takes what came of the current action and moves on to the next.
    pub fn step(&mut self, event: BridgeEvent) -> (r: BridgeAction)
        requires
            answers(old(self).action, event),
        ensures
            final(self).action == next_action(old(self).action, old(self).polled, event),
            final(self).polled == match event {
                BridgeEvent::Ready(ready) => ready,
                _ => old(self).polled,
            },
            r == final(self).action,
    {
        let next = match event {
            BridgeEvent::Superseded(superseded) => if superseded {
                BridgeAction::Stop
            } else {
                BridgeAction::Poll
            },
            BridgeEvent::Ready(ready) => {
                self.polled = ready;
                if ready.client_gone {
                    BridgeAction::Stop
                } else if ready.client_input {
                    BridgeAction::ReadClient
                } else {
                    self.after_client()
                }
            },
            BridgeEvent::Read(count) => if count == 0 {
                BridgeAction::Stop
            } else if self.action == BridgeAction::ReadClient {
                BridgeAction::WriteSession
            } else {
                BridgeAction::KeepAndWriteClient
            },
            BridgeEvent::Written => if self.action == BridgeAction::WriteSession {
                self.after_client()
            } else {
                self.after_session()
            },
            BridgeEvent::Error(disconnected) => if disconnected && self.action
                == BridgeAction::KeepAndWriteClient {
                BridgeAction::Stop
            } else {
                BridgeAction::Fail
            },
        };
        self.action = next;
        next
    }
}

/// Output that was read is always kept, whatever else happens: what follows reading is to keep
/// it, unless nothing came or the reading failed.
pub proof fn law_output_is_kept(polled: Polled, event: BridgeEvent)
    requires
        answers(BridgeAction::ReadSession, event),
    ensures
        next_action(BridgeAction::ReadSession, polled, event) == (match event {
            BridgeEvent::Read(count) => if count > 0 {
                BridgeAction::KeepAndWriteClient
            } else {
                BridgeAction::Stop
            },
            _ => BridgeAction::Fail,
        }),
{
}

/// Nothing is read or written before the attachment was found to count, and after a round it
/// is checked again.
pub proof fn law_every_round_is_checked(action: BridgeAction, polled: Polled, event: BridgeEvent)
    requires
        answers(action, event),
    ensures
        next_action(action, polled, event) == BridgeAction::Poll ==> action == BridgeAction::Check
            && event == BridgeEvent::Superseded(false),
        next_action(action, polled, event) == BridgeAction::ReadClient ==> action
            == BridgeAction::Poll,
{
}

/// Input of the client is read exactly where it is ready and the client is not gone, and written
/// to the session exactly where some was read.
pub proof fn law_ready_input_is_moved(action: BridgeAction, polled: Polled, event: BridgeEvent)
    requires
        answers(action, event),
    ensures
        ({
            let next = next_action(action, polled, event);
            &&& next == BridgeAction::ReadClient <==> action == BridgeAction::Poll
                && (event matches BridgeEvent::Ready(ready) && ready.client_input
                && !ready.client_gone)
            &&& next == BridgeAction::WriteSession <==> action == BridgeAction::ReadClient
                && (event matches BridgeEvent::Read(count) && count > 0)
        }),
{
}

/// Output of the session is read exactly where it was found ready and all input that was ready
/// with it has been written, even where the session was found to be gone; it is kept and written
/// to the client exactly where some was read.
pub proof fn law_ready_output_is_moved(action: BridgeAction, polled: Polled, event: BridgeEvent)
    requires
        answers(action, event),
    ensures
        ({
            let next = next_action(action, polled, event);
            &&& next == BridgeAction::ReadSession <==> {
                ||| action == BridgeAction::Poll && (event matches BridgeEvent::Ready(ready)
                    && ready.session_output && !ready.client_input && !ready.client_gone)
                ||| action == BridgeAction::WriteSession && event == BridgeEvent::Written
                    && polled.session_output
            }
            &&& next == BridgeAction::KeepAndWriteClient <==> action == BridgeAction::ReadSession
                && (event matches BridgeEvent::Read(count) && count > 0)
        }),
{
}

/// An attachment ends exactly where it was superseded, where the client is gone, where either
/// side has nothing more to send, where the session is gone and nothing of it is left to read,
/// and where the client disconnects while output is written to it. It fails exactly with any
/// other error. It is waited for either side exactly where the attachment was found to count.
pub proof fn law_ends_of_an_attachment(action: BridgeAction, polled: Polled, event: BridgeEvent)
    requires
        answers(action, event),
    ensures
        ({
            let next = next_action(action, polled, event);
            &&& next == BridgeAction::Stop <==> {
                ||| event == BridgeEvent::Superseded(true)
                ||| event == BridgeEvent::Read(0)
                ||| (event matches BridgeEvent::Ready(ready) && (ready.client_gone || (
                ready.session_gone && !ready.client_input && !ready.session_output)))
                ||| event == BridgeEvent::Written && polled.session_gone && (action
                    == BridgeAction::KeepAndWriteClient || !polled.session_output)
                ||| event == BridgeEvent::Error(true) && action == BridgeAction::KeepAndWriteClient
            }
            &&& next == BridgeAction::Fail <==> event is Error && (event == BridgeEvent::Error(
                false,
            ) || action != BridgeAction::KeepAndWriteClient)
            &&& next == BridgeAction::Poll <==> event == BridgeEvent::Superseded(false)
        }),
{
}

/// Each round comes to its end: an action is followed by a later one of the round, by the
/// check that begins the next, or by the end of the attachment.
pub proof fn law_rounds_end(action: BridgeAction, polled: Polled, event: BridgeEvent)
    requires
        answers(action, event),
    ensures
        ({
            let next = next_action(action, polled, event);
            next == BridgeAction::Check || stage(action) < stage(next)
        }),
{
}

/// The place of an action in a round.
pub open spec fn stage(action: BridgeAction) -> int {
    match action {
        BridgeAction::Check => 0,
        BridgeAction::Poll => 1,
        BridgeAction::ReadClient => 2,
        BridgeAction::WriteSession => 3,
        BridgeAction::ReadSession => 4,
        BridgeAction::KeepAndWriteClient => 5,
        BridgeAction::Stop => 6,
        BridgeAction::Fail => 6,
    }
}

/// The kinds of input and output errors that matter here.
#[derive(Debug, Clone, Copy, PartialEq, Eq, Structural)]
pub enum ErrorClass {
    BrokenPipe,
    ConnectionAborted,
    ConnectionReset,
    NotConnected,
    Interrupted,
    Other,
}

/// Whether an error means that the other side has disconnected.
pub fn is_disconnect_error(class: ErrorClass) -> (r: bool)
    ensures
        r == (class == ErrorClass::BrokenPipe || class == ErrorClass::ConnectionAborted || class
            == ErrorClass::ConnectionReset || class == ErrorClass::NotConnected),
{
    match class {
        ErrorClass::BrokenPipe => true,
        ErrorClass::ConnectionAborted => true,
        ErrorClass::ConnectionReset => true,
        ErrorClass::NotConnected => true,
        ErrorClass::Interrupted => false,
        ErrorClass::Other => false,
    }
}

/// What a read or write call came to: a number of bytes, or an error.
#[derive(Debug, Clone, Copy, PartialEq, Eq, Structural)]
pub enum CallResult {
    Count(usize),
    Error(ErrorClass),
}

/// What to do after a read call.
#[derive(Debug, Clone, Copy, PartialEq, Eq, Structural)]
pub enum ReadStep {
    Done(usize),
    Again,
    Fail,
}

/// A read is over with its first result, but for one that was interrupted.
pub fn fd_read(result: CallResult) -> (r: ReadStep)
    ensures
        r == match result {
            CallResult::Count(count) => ReadStep::Done(count),
            CallResult::Error(ErrorClass::Interrupted) => ReadStep::Again,
            CallResult::Error(_) => ReadStep::Fail,
        },
{
    match result {
        CallResult::Count(count) => ReadStep::Done(count),
        CallResult::Error(ErrorClass::Interrupted) => ReadStep::Again,
        CallResult::Error(_) => ReadStep::Fail,
    }
}

/// What to do about the rest of what is to be written.
#[derive(Debug, Clone, Copy, PartialEq, Eq, Structural)]
pub enum WriteStep {
    /// All is written.
    Done,
    /// Write what is left.
    More,
    /// Nothing was taken; give up.
    Refused,
    /// Report the error.
    Fail,
}

/// The writing of some bytes in as many calls as it takes.
pub struct WriteAll {
    pub written: usize,
    pub len: usize,
}

impl WriteAll {
    /// So far, nothing of `len` bytes is written.
    pub fn new(len: usize) -> (r: Self)
        ensures
            r.written == 0,
            r.len == len,
    {
        WriteAll { written: 0, len }
    }

    /// What to do now.
    pub fn state(&self) -> (r: WriteStep)
        ensures
            r == if self.written < self.len {
                WriteStep::More
            } else {
                WriteStep::Done
            },
    {
        if self.written < self.len {
            WriteStep::More
        } else {
            WriteStep::Done
        }
    }

    /// Takes the result of a call that was given all that is left.
    pub fn fd_write_all(&mut self, result: CallResult) -> (r: WriteStep)
        requires
            old(self).written < old(self).len,
            result matches CallResult::Count(count) ==> count <= old(self).len
                - old(self).written,
        ensures
            final(self).len == old(self).len,
            final(self).written == old(self).written + (match result {
                CallResult::Count(count) => count as int,
                CallResult::Error(_) => 0,
            }),
            r == match result {
                CallResult::Count(count) => if count == 0 {
                    WriteStep::Refused
                } else if final(self).written < final(self).len {
                    WriteStep::More
                } else {
                    WriteStep::Done
                },
                CallResult::Error(ErrorClass::Interrupted) => WriteStep::More,
                CallResult::Error(_) => WriteStep::Fail,
            },
    {
        match result {
            CallResult::Count(count) => {
                if count == 0 {
                    return WriteStep::Refused;
                }
                self.written = self.written + count;
                self.state()
            },
            CallResult::Error(ErrorClass::Interrupted) => WriteStep::More,
            CallResult::Error(_) => WriteStep::Fail,
        }
    }
}

} // verus!
