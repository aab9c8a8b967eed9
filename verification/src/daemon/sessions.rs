//! The table of sessions that the daemon keeps.
//!
//! The table does not look into what stands for the terminal of a session: it is generic over
//! that handle.

use crate::ansi::ESC;
use crate::daemon::replay::{filter_replay_bytes, law_replay_keeps_plain_text, replayed};
use crate::protocol::SessionInfo;
use crate::text::{
    joined, law_order_is_total, law_order_is_transitive, precedes, same_text, text_precedes,
    trimmed,
};
use std::collections::VecDeque;
use vstd::prelude::*;

verus! {

/// The most output that is kept of a session, in bytes.
pub const SCROLLBACK_MAX_BYTES: usize = 524288;

/// A session: its name, its directory, its shell's process, the handle of its terminal,
/// whether a client is attached, the number of the latest attachment, and its latest output.
pub struct Session<M> {
    name: String,
    cwd: String,
    pid: i32,
    master: M,
    attached: bool,
    attach_id: u64,
    scrollback: VecDeque<u8>,
}

/// What a session holds.
#[verifier::ext_equal]
pub ghost struct SessionView<M> {
    pub name: Seq<char>,
    pub cwd: Seq<char>,
    pub pid: i32,
    pub master: M,
    pub attached: bool,
    pub attach_id: u64,
    pub scrollback: Seq<u8>,
}

impl<M> View for Session<M> {
    type V = SessionView<M>;

    closed spec fn view(&self) -> SessionView<M> {
        SessionView {
            name: self.name@,
            cwd: self.cwd@,
            pid: self.pid,
            master: self.master,
            attached: self.attached,
            attach_id: self.attach_id,
            scrollback: self.scrollback@,
        }
    }
}

impl<M> Session<M> {
    /// What must hold of a session: its name is not blank, its process has a number that can
    /// be signalled, and its output is within bounds.
    pub open spec fn wf(&self) -> bool {
        &&& trimmed(self@.name).len() > 0
        &&& self@.pid > 0
        &&& self@.scrollback.len() <= SCROLLBACK_MAX_BYTES
    }

    /// The processes to signal when the session ends: the group of its shell, and the shell.
    pub fn kill_targets(&self) -> (r: (i32, i32))
        requires
            self.wf(),
        ensures
            r == ((-self@.pid) as i32, self@.pid),
    {
        (-self.pid, self.pid)
    }
}

/// The sessions, ordered by name.
pub struct DaemonState<M> {
    sessions: Vec<Session<M>>,
}

/// Whether the sessions are in the order of their names, no name twice.
spec fn ordered<M>(s: Seq<Session<M>>) -> bool {
    forall|i: int, j: int| 0 <= i < j < s.len() ==> #[trigger] precedes(s[i]@.name, s[j]@.name)
}

spec fn is_at<M>(s: Seq<Session<M>>, name: Seq<char>, i: int) -> bool {
    0 <= i < s.len() && s[i]@.name == name
}

spec fn place<M>(s: Seq<Session<M>>, name: Seq<char>) -> int {
    choose|i: int| is_at(s, name, i)
}

spec fn table<M>(s: Seq<Session<M>>) -> Map<Seq<char>, SessionView<M>> {
    Map::new(|name: Seq<char>| exists|i: int| is_at(s, name, i), |name: Seq<char>| s[place(s, name)]@)
}

impl<M> View for DaemonState<M> {
    type V = Map<Seq<char>, SessionView<M>>;

    /// The sessions by name.
    closed spec fn view(&self) -> Map<Seq<char>, SessionView<M>> {
        table(self.sessions@)
    }
}

/// Whether an entry of the list tells of a session.
pub open spec fn tells<M>(info: SessionInfo, session: SessionView<M>) -> bool {
    &&& info.name@ == session.name
    &&& info.cwd@ == session.cwd
    &&& info.pid == session.pid
    &&& info.attached == session.attached
}

/// Whether a list tells of every session of a table once, in the order of their names.
pub open spec fn lists<M>(
    infos: Seq<SessionInfo>,
    sessions: Map<Seq<char>, SessionView<M>>,
) -> bool {
    &&& forall|i: int|
        0 <= i < infos.len() ==> sessions.contains_key((#[trigger] infos[i]).name@) && tells(
            infos[i],
            sessions[infos[i].name@],
        )
    &&& forall|name: Seq<char>| #[trigger]
        sessions.contains_key(name) ==> exists|i: int|
            0 <= i < infos.len() && (#[trigger] infos[i]).name@ == name
    &&& forall|i: int, j: int|
        0 <= i < j < infos.len() ==> #[trigger] precedes(infos[i].name@, infos[j].name@)
}

/// Whether a session is the first, by name, whose shell is this process.
pub open spec fn is_first_with_pid<M>(
    sessions: Map<Seq<char>, SessionView<M>>,
    pid: i32,
    name: Seq<char>,
) -> bool {
    &&& sessions.contains_key(name)
    &&& sessions[name].pid == pid
    &&& forall|other: Seq<char>| #[trigger]
        sessions.contains_key(other) && sessions[other].pid == pid ==> other == name || precedes(
            name,
            other,
        )
}

/// Whether `after` is the table without the first session, by name, whose shell is this
/// process; without such a session, nothing has changed.
pub open spec fn is_without_pid<M>(
    before: Map<Seq<char>, SessionView<M>>,
    pid: i32,
    after: Map<Seq<char>, SessionView<M>>,
) -> bool {
    ||| exists|name: Seq<char>| #[trigger]
        is_first_with_pid(before, pid, name) && after == before.remove(name)
    ||| after == before && forall|name: Seq<char>| #[trigger]
        before.contains_key(name) ==> before[name].pid != pid
}

/// A table after a session was made.
pub open spec fn after_create<M>(
    sessions: Map<Seq<char>, SessionView<M>>,
    name: Seq<char>,
    cwd: Seq<char>,
    pid: i32,
    master: M,
) -> Map<Seq<char>, SessionView<M>> {
    sessions.insert(
        name,
        SessionView {
            name,
            cwd,
            pid,
            master,
            attached: false,
            attach_id: 0,
            scrollback: Seq::empty(),
        },
    )
}

/// A table after a session was renamed.
pub open spec fn after_rename<M>(
    sessions: Map<Seq<char>, SessionView<M>>,
    from: Seq<char>,
    to: Seq<char>,
) -> Map<Seq<char>, SessionView<M>> {
    sessions.remove(from).insert(to, SessionView { name: to, ..sessions[from] })
}

/// A table after a client attached to a session.
pub open spec fn after_attach<M>(
    sessions: Map<Seq<char>, SessionView<M>>,
    name: Seq<char>,
) -> Map<Seq<char>, SessionView<M>> {
    sessions.insert(
        name,
        SessionView {
            attached: true,
            attach_id: next_id(sessions[name].attach_id),
            ..sessions[name]
        },
    )
}

/// A table after an attachment ended.
pub open spec fn after_finish<M>(
    sessions: Map<Seq<char>, SessionView<M>>,
    name: Seq<char>,
    id: u64,
) -> Map<Seq<char>, SessionView<M>> {
    if is_superseded(sessions, name, id) {
        sessions
    } else {
        sessions.insert(name, SessionView { attached: false, ..sessions[name] })
    }
}

/// A table after a session has shown output.
pub open spec fn after_output<M>(
    sessions: Map<Seq<char>, SessionView<M>>,
    name: Seq<char>,
    bytes: Seq<u8>,
) -> Map<Seq<char>, SessionView<M>> {
    if sessions.contains_key(name) {
        sessions.insert(
            name,
            SessionView {
                scrollback: last_bytes(
                    sessions[name].scrollback + bytes,
                    SCROLLBACK_MAX_BYTES as int,
                ),
                ..sessions[name]
            },
        )
    } else {
        sessions
    }
}

/// What a client that attaches is shown of the past.
pub open spec fn shown_on_attach<M>(session: SessionView<M>, replay: bool) -> Seq<u8> {
    if replay {
        replayed(session.scrollback)
    } else {
        Seq::empty()
    }
}

/// The last `n` bytes, or all if there are fewer.
pub open spec fn last_bytes(s: Seq<u8>, n: int) -> Seq<u8> {
    if s.len() <= n {
        s
    } else {
        s.skip(s.len() - n)
    }
}

/// An attachment: its number, and what to show of the past.
pub struct Attachment {
    pub id: u64,
    pub replay: Vec<u8>,
}

/// What came of asking for a child that has ended.
#[derive(Debug, Clone, Copy, PartialEq, Eq, Structural)]
pub enum ReapEvent {
    /// None has.
    StillAlive,
    /// This one exited or was killed.
    Gone(i32),
    /// One changed in another way.
    Other,
    /// It cannot be told.
    Failed,
}

proof fn lemma_table<M>(s: Seq<Session<M>>, i: int)
    requires
        ordered(s),
        0 <= i < s.len(),
    ensures
        table(s).contains_key(s[i]@.name),
        table(s)[s[i]@.name] == s[i]@,
        place(s, s[i]@.name) == i,
{
    let name = s[i]@.name;
    assert(is_at(s, name, i));
    let p = place(s, name);
    assert(is_at(s, name, p));
    law_order_is_total(s[p]@.name, s[i]@.name);
    if p < i {
        assert(precedes(s[p]@.name, s[i]@.name));
    }
    if i < p {
        assert(precedes(s[i]@.name, s[p]@.name));
    }
}

proof fn lemma_table_has<M>(s: Seq<Session<M>>, name: Seq<char>) -> (i: int)
    requires
        ordered(s),
        table(s).contains_key(name),
    ensures
        0 <= i < s.len(),
        s[i]@.name == name,
        table(s)[name] == s[i]@,
{
    place(s, name)
}

proof fn lemma_table_insert<M>(s: Seq<Session<M>>, at: int, session: Session<M>)
    requires
        ordered(s),
        ordered(s.insert(at, session)),
        0 <= at <= s.len(),
    ensures
        table(s.insert(at, session)) == table(s).insert(session@.name, session@),
        !table(s).contains_key(session@.name),
{
    let t = s.insert(at, session);
    assert(t[at] == session);
    lemma_table(t, at);
    assert forall|i: int| 0 <= i < s.len() implies s[i] == t[if i < at {
        i
    } else {
        i + 1
    }] by {}
    assert forall|name: Seq<char>| #[trigger] table(t).contains_key(name) implies table(s).insert(
        session@.name,
        session@,
    ).contains_key(name) && table(t)[name] == table(s).insert(session@.name, session@)[name] by {
        let i = lemma_table_has(t, name);
        if i != at {
            let k = if i < at {
                i
            } else {
                i - 1
            };
            assert(s[k] == t[i]);
            lemma_table(s, k);
            law_order_is_total(t[i]@.name, t[at]@.name);
            if i < at {
                assert(precedes(t[i]@.name, t[at]@.name));
            } else {
                assert(precedes(t[at]@.name, t[i]@.name));
            }
        }
    }
    assert forall|name: Seq<char>| #[trigger]
        table(s).contains_key(name) implies table(t).contains_key(name) && name
        != session@.name by {
        let i = lemma_table_has(s, name);
        let k = if i < at {
            i
        } else {
            i + 1
        };
        assert(t[k] == s[i]);
        lemma_table(t, k);
        law_order_is_total(t[k]@.name, t[at]@.name);
        if k < at {
            assert(precedes(t[k]@.name, t[at]@.name));
        } else {
            assert(precedes(t[at]@.name, t[k]@.name));
        }
    }
    assert(table(t) =~= table(s).insert(session@.name, session@));
}

proof fn lemma_table_remove<M>(s: Seq<Session<M>>, at: int)
    requires
        ordered(s),
        0 <= at < s.len(),
    ensures
        ordered(s.remove(at)),
        table(s.remove(at)) == table(s).remove(s[at]@.name),
{
    let t = s.remove(at);
    assert forall|i: int, j: int| 0 <= i < j < t.len() implies #[trigger] precedes(
        t[i]@.name,
        t[j]@.name,
    ) by {
        let a = if i < at {
            i
        } else {
            i + 1
        };
        let b = if j < at {
            j
        } else {
            j + 1
        };
        assert(t[i] == s[a] && t[j] == s[b]);
        assert(precedes(s[a]@.name, s[b]@.name));
    }
    assert(t.insert(at, s[at]) =~= s);
    lemma_table_insert(t, at, s[at]);
    assert(table(s).remove(s[at]@.name) =~= table(t));
}

proof fn lemma_table_update<M>(s: Seq<Session<M>>, at: int, session: Session<M>)
    requires
        ordered(s),
        0 <= at < s.len(),
        session@.name == s[at]@.name,
    ensures
        ordered(s.update(at, session)),
        table(s.update(at, session)) == table(s).insert(session@.name, session@),
{
    let t = s.update(at, session);
    assert forall|i: int| 0 <= i < t.len() implies (#[trigger] t[i])@.name == s[i]@.name by {}
    assert forall|i: int, j: int| 0 <= i < j < t.len() implies #[trigger] precedes(
        t[i]@.name,
        t[j]@.name,
    ) by {
        assert(precedes(s[i]@.name, s[j]@.name));
    }
    lemma_table_remove(s, at);
    assert(s.remove(at).insert(at, session) =~= t);
    lemma_table_insert(s.remove(at), at, session);
    assert(table(s).remove(session@.name).insert(session@.name, session@) =~= table(s).insert(
        session@.name,
        session@,
    ));
}

impl<M> DaemonState<M> {
    /// The table keeps its order, and its sessions are well formed.
    pub closed spec fn wf(&self) -> bool {
        &&& ordered(self.sessions@)
        &&& forall|i: int| 0 <= i < self.sessions@.len() ==> (#[trigger] self.sessions@[i]).wf()
    }

    /// In a well-formed table every session stands under its own name, which is not blank,
    /// has a process, and has output within bounds.
    pub proof fn law_sessions_are_well_formed(&self, name: Seq<char>)
        requires
            self.wf(),
            self@.contains_key(name),
        ensures
            self@[name].name == name,
            trimmed(name).len() > 0,
            self@[name].pid > 0,
            self@[name].scrollback.len() <= SCROLLBACK_MAX_BYTES,
    {
        let i = lemma_table_has(self.sessions@, name);
        assert(self.sessions@[i].wf());
    }

    /// The table of a daemon that has just started.
    pub fn new() -> (r: Self)
        ensures
            r.wf(),
            r@ == Map::<Seq<char>, SessionView<M>>::empty(),
    {
        let r = DaemonState { sessions: Vec::new() };
        assert(r@ =~= Map::empty());
        r
    }

    fn position(&self, name: &str) -> (r: Option<usize>)
        requires
            self.wf(),
        ensures
            match r {
                Some(i) => i < self.sessions@.len() && self.sessions@[i as int]@.name == name@,
                None => forall|i: int|
                    0 <= i < self.sessions@.len() ==> (#[trigger] self.sessions@[i])@.name != name@,
            },
            r is Some <==> self@.contains_key(name@),
    {
        let mut i: usize = 0;
        while i < self.sessions.len()
            invariant
                i <= self.sessions@.len(),
                forall|k: int| 0 <= k < i ==> (#[trigger] self.sessions@[k])@.name != name@,
            decreases self.sessions@.len() - i,
        {
            if same_text(self.sessions[i].name.as_str(), name) {
                assert(is_at(self.sessions@, name@, i as int));
                return Some(i);
            }
            i += 1;
        }
        None
    }

    /// Tells of every session.
    pub fn list(&self) -> (r: Vec<SessionInfo>)
        requires
            self.wf(),
        ensures
            lists(r@, self@),
    {
        let mut r: Vec<SessionInfo> = Vec::new();
        let mut i: usize = 0;
        while i < self.sessions.len()
            invariant
                i <= self.sessions@.len(),
                r@.len() == i,
                forall|k: int| 0 <= k < i ==> tells(#[trigger] r@[k], self.sessions@[k]@),
            decreases self.sessions@.len() - i,
        {
            let session = &self.sessions[i];
            r.push(
                SessionInfo {
                    name: session.name.clone(),
                    cwd: session.cwd.clone(),
                    pid: session.pid,
                    attached: session.attached,
                },
            );
            i += 1;
        }
        proof {
            let s = self.sessions@;
            assert forall|k: int| 0 <= k < r@.len() implies self@.contains_key(
                (#[trigger] r@[k]).name@,
            ) && tells(r@[k], self@[r@[k].name@]) by {
                assert(tells(r@[k], s[k]@));
                lemma_table(s, k);
            }
            assert forall|name: Seq<char>| #[trigger] self@.contains_key(name) implies exists|k: int|
                0 <= k < r@.len() && (#[trigger] r@[k]).name@ == name by {
                let k = lemma_table_has(s, name);
                assert(tells(r@[k], s[k]@));
            }
            assert forall|a: int, b: int| 0 <= a < b < r@.len() implies #[trigger] precedes(
                r@[a].name@,
                r@[b].name@,
            ) by {
                assert(tells(r@[a], s[a]@) && tells(r@[b], s[b]@));
                assert(precedes(s[a]@.name, s[b]@.name));
            }
        }
        r
    }

    /// Drops the first session, by name, whose shell is this process, if there is one.
    pub fn remove_by_pid(&mut self, pid: i32)
        requires
            old(self).wf(),
        ensures
            final(self).wf(),
            is_without_pid(old(self)@, pid, final(self)@),
    {
        let ghost s = self.sessions@;
        let mut i: usize = 0;
        while i < self.sessions.len()
            invariant
                i <= self.sessions@.len(),
                self.sessions@ == s,
                s == old(self).sessions@,
                old(self).wf(),
                forall|k: int| 0 <= k < i ==> (#[trigger] s[k])@.pid != pid,
            decreases self.sessions@.len() - i,
        {
            if self.sessions[i].pid == pid {
                proof {
                    let name = s[i as int]@.name;
                    lemma_table(s, i as int);
                    lemma_table_remove(s, i as int);
                    assert forall|other: Seq<char>| #[trigger]
                        table(s).contains_key(other) && table(s)[other].pid == pid implies other
                        == name || precedes(name, other) by {
                        let k = lemma_table_has(s, other);
                        if k > i {
                            assert(precedes(s[i as int]@.name, s[k]@.name));
                        }
                    }
                    assert(is_first_with_pid(table(s), pid, name));
                }
                self.sessions.remove(i);
                assert(self.sessions@ =~= s.remove(i as int));
                return;
            }
            i += 1;
        }
        proof {
            assert forall|name: Seq<char>| #[trigger]
                table(s).contains_key(name) implies table(s)[name].pid != pid by {
                let k = lemma_table_has(s, name);
            }
        }
    }

    /// Takes what came of asking for a child that has ended, and says whether to ask again.
    pub fn reap(&mut self, event: ReapEvent) -> (again: bool)
        requires
            old(self).wf(),
        ensures
            final(self).wf(),
            again == (event is Gone || event is Other),
            match event {
                ReapEvent::Gone(pid) => is_without_pid(old(self)@, pid, final(self)@),
                _ => final(self)@ == old(self)@,
            },
    {
        match event {
            ReapEvent::StillAlive => false,
            ReapEvent::Gone(pid) => {
                self.remove_by_pid(pid);
                true
            },
            ReapEvent::Other => true,
            ReapEvent::Failed => false,
        }
    }

    /// Whether a session of this name can be made.
    pub fn check_free(&self, name: &str) -> (r: Result<(), String>)
        requires
            self.wf(),
        ensures
            match r {
                Ok(_) => !self@.contains_key(name@),
                Err(message) => self@.contains_key(name@) && message@
                    == "session already exists: "@ + name@,
            },
    {
        match self.position(name) {
            Some(_) => Err(joined("session already exists: ", name)),
            None => Ok(()),
        }
    }

    fn insert(&mut self, session: Session<M>)
        requires
            old(self).wf(),
            session.wf(),
            !old(self)@.contains_key(session@.name),
        ensures
            final(self).wf(),
            final(self)@ == old(self)@.insert(session@.name, session@),
    {
        let ghost s = self.sessions@;
        let mut at: usize = 0;
        while at < self.sessions.len() && text_precedes(
            self.sessions[at].name.as_str(),
            session.name.as_str(),
        )
            invariant
                at <= self.sessions@.len(),
                self.sessions@ == s,
                forall|k: int| 0 <= k < at ==> precedes((#[trigger] s[k])@.name, session@.name),
            decreases self.sessions@.len() - at,
        {
            at += 1;
        }
        proof {
            let t = s.insert(at as int, session);
            assert forall|k: int| at <= k < s.len() implies precedes(
                session@.name,
                (#[trigger] s[k])@.name,
            ) by {
                lemma_table(s, at as int);
                law_order_is_total(s[at as int]@.name, session@.name);
                if k > at {
                    assert(precedes(s[at as int]@.name, s[k]@.name));
                    law_order_is_transitive(session@.name, s[at as int]@.name, s[k]@.name);
                }
            }
            assert forall|i: int, j: int| 0 <= i < j < t.len() implies #[trigger] precedes(
                t[i]@.name,
                t[j]@.name,
            ) by {
                if i < at && j < at {
                    assert(precedes(s[i]@.name, s[j]@.name));
                } else if i < at && j > at {
                    assert(t[j] == s[j - 1]);
                    assert(precedes(s[i]@.name, s[j - 1]@.name));
                } else if i > at {
                    assert(t[i] == s[i - 1] && t[j] == s[j - 1]);
                    assert(precedes(s[i - 1]@.name, s[j - 1]@.name));
                } else if i == at {
                    assert(t[j] == s[j - 1]);
                }
            }
            lemma_table_insert(s, at as int, session);
            assert forall|i: int| 0 <= i < t.len() implies (#[trigger] t[i]).wf() by {
                if i < at {
                    assert(t[i] == s[i]);
                } else if i > at {
                    assert(t[i] == s[i - 1]);
                }
            }
        }
        self.sessions.insert(at, session);
    }

    /// Adds a session whose shell was started, or passes on why it could not be.
    pub fn finish_create(
        &mut self,
        name: String,
        cwd: String,
        spawned: Result<(i32, M), String>,
    ) -> (r: Result<(), String>)
        requires
            old(self).wf(),
            trimmed(name@).len() > 0,
            !old(self)@.contains_key(name@),
            spawned matches Ok((pid, _)) ==> pid > 0,
        ensures
            final(self).wf(),
            match spawned {
                Ok((pid, master)) => {
                    &&& r is Ok
                    &&& final(self)@ == after_create(old(self)@, name@, cwd@, pid, master)
                },
                Err(message) => r == Err::<(), String>(message) && final(self)@ == old(self)@,
            },
    {
        match spawned {
            Ok((pid, master)) => {
                let session = Session {
                    name,
                    cwd,
                    pid,
                    master,
                    attached: false,
                    attach_id: 0,
                    scrollback: VecDeque::new(),
                };
                assert(session@.scrollback =~= Seq::empty());
                self.insert(session);
                Ok(())
            },
            Err(message) => Err(message),
        }
    }

    /// Takes a session out of the table.
    pub fn delete_session(&mut self, name: &str) -> (r: Result<Session<M>, String>)
        requires
            old(self).wf(),
        ensures
            final(self).wf(),
            match r {
                Ok(session) => {
                    &&& old(self)@.contains_key(name@)
                    &&& session@ == old(self)@[name@]
                    &&& session.wf()
                    &&& final(self)@ == old(self)@.remove(name@)
                },
                Err(message) => {
                    &&& !old(self)@.contains_key(name@)
                    &&& final(self)@ == old(self)@
                    &&& message@ == "session not found: "@ + name@
                },
            },
    {
        match self.position(name) {
            Some(at) => {
                proof {
                    lemma_table(self.sessions@, at as int);
                    lemma_table_remove(self.sessions@, at as int);
                }
                let session = self.sessions.remove(at);
                assert(self.sessions@ =~= old(self).sessions@.remove(at as int));
                Ok(session)
            },
            None => Err(joined("session not found: ", name)),
        }
    }

    /// Gives a session another name.
    pub fn rename_session(&mut self, from: &str, to: &str) -> (r: Result<(), String>)
        requires
            old(self).wf(),
            trimmed(to@).len() > 0,
        ensures
            final(self).wf(),
            match r {
                Ok(_) => {
                    &&& old(self)@.contains_key(from@)
                    &&& !old(self)@.contains_key(to@)
                    &&& final(self)@ == after_rename(old(self)@, from@, to@)
                },
                Err(message) => {
                    &&& final(self)@ == old(self)@
                    &&& old(self)@.contains_key(to@) || !old(self)@.contains_key(from@)
                    &&& message@ == if old(self)@.contains_key(to@) {
                        "session already exists: "@ + to@
                    } else {
                        "session not found: "@ + from@
                    }
                },
            },
    {
        match self.check_free(to) {
            Ok(_) => {},
            Err(message) => {
                return Err(message);
            },
        }
        match self.delete_session(from) {
            Ok(session) => {
                let mut session = session;
                session.name = to.to_owned();
                self.insert(session);
                Ok(())
            },
            Err(message) => Err(message),
        }
    }

    /// The handle of a session's terminal.
    pub fn master(&self, name: &str) -> (r: Option<&M>)
        requires
            self.wf(),
        ensures
            match r {
                Some(master) => self@.contains_key(name@) && *master == self@[name@].master,
                None => !self@.contains_key(name@),
            },
    {
        match self.position(name) {
            Some(at) => {
                proof {
                    lemma_table(self.sessions@, at as int);
                }
                Some(&self.sessions[at].master)
            },
            None => None,
        }
    }

    /// Starts an attachment: it gets the next number, and with it the session's output that
    /// can be shown again, if asked for.
    pub fn begin_attach(&mut self, name: &str, replay: bool) -> (r: Result<Attachment, String>)
        requires
            old(self).wf(),
        ensures
            final(self).wf(),
            match r {
                Ok(attachment) => {
                    &&& old(self)@.contains_key(name@)
                    &&& final(self)@ == after_attach(old(self)@, name@)
                    &&& attachment.id == final(self)@[name@].attach_id
                    &&& attachment.replay@ == shown_on_attach(old(self)@[name@], replay)
                },
                Err(message) => {
                    &&& !old(self)@.contains_key(name@)
                    &&& final(self)@ == old(self)@
                    &&& message@ == "session not found: "@ + name@
                },
            },
    {
        let at: usize = match self.position(name) {
            Some(at) => at,
            None => {
                return Err(joined("session not found: ", name));
            },
        };
        let ghost s = self.sessions@;
        proof {
            lemma_table(s, at as int);
        }
        let id: u64 = self.sessions[at].attach_id.wrapping_add(1);
        self.sessions[at].attach_id = id;
        self.sessions[at].attached = true;
        let replay = if replay {
            let past = bytes_of(&self.sessions[at].scrollback);
            filter_replay_bytes(&past)
        } else {
            Vec::new()
        };
        proof {
            let session = self.sessions@[at as int];
            assert(self.sessions@ =~= s.update(at as int, session));
            assert(s[at as int].wf());
            lemma_table_update(s, at as int, session);
        }
        Ok(Attachment { id, replay })
    }

    /// Ends an attachment. Where a newer one has taken its place, the session stays attached.
    pub fn finish_attach(&mut self, name: &str, id: u64)
        requires
            old(self).wf(),
        ensures
            final(self).wf(),
            final(self)@ == after_finish(old(self)@, name@, id),
    {
        if let Some(at) = self.position(name) {
            let ghost s = self.sessions@;
            proof {
                lemma_table(s, at as int);
            }
            if self.sessions[at].attach_id == id {
                self.sessions[at].attached = false;
                proof {
                    let session = self.sessions@[at as int];
                    assert(self.sessions@ =~= s.update(at as int, session));
                    assert(s[at as int].wf());
                    lemma_table_update(s, at as int, session);
                }
            }
        }
    }

    /// Whether an attachment is over because a newer one was made or the session is gone.
    pub fn attach_was_superseded(&self, name: &str, id: u64) -> (r: bool)
        requires
            self.wf(),
        ensures
            r == is_superseded(self@, name@, id),
    {
        match self.position(name) {
            Some(at) => {
                proof {
                    lemma_table(self.sessions@, at as int);
                }
                self.sessions[at].attach_id != id
            },
            None => true,
        }
    }

    /// Keeps output of a session, up to the bound.
    pub fn append_scrollback(&mut self, name: &str, bytes: &[u8])
        requires
            old(self).wf(),
        ensures
            final(self).wf(),
            final(self)@ == after_output(old(self)@, name@, bytes@),
    {
        if let Some(at) = self.position(name) {
            let ghost s = self.sessions@;
            proof {
                lemma_table(s, at as int);
                assert(s[at as int].wf());
            }
            push_output(&mut self.sessions[at].scrollback, bytes);
            proof {
                let session = self.sessions@[at as int];
                assert(self.sessions@ =~= s.update(at as int, session));
                lemma_table_update(s, at as int, session);
            }
        }
    }
}

/// The number after this one; after the largest comes zero.
pub open spec fn next_id(id: u64) -> u64 {
    if id == u64::MAX {
        0
    } else {
        (id + 1) as u64
    }
}

/// Whether an attachment is over because a newer one was made or the session is gone.
pub open spec fn is_superseded<M>(
    sessions: Map<Seq<char>, SessionView<M>>,
    name: Seq<char>,
    id: u64,
) -> bool {
    sessions.contains_key(name) ==> sessions[name].attach_id != id
}

fn bytes_of(queue: &VecDeque<u8>) -> (r: Vec<u8>)
    ensures
        r@ == queue@,
{
    let mut r: Vec<u8> = Vec::new();
    let mut i: usize = 0;
    while i < queue.len()
        invariant
            i <= queue@.len(),
            r@ == queue@.take(i as int),
        decreases queue@.len() - i,
    {
        r.push(queue[i]);
        i += 1;
        assert(queue@.take(i as int) =~= queue@.take(i - 1).push(queue@[i - 1]));
    }
    assert(queue@.take(i as int) =~= queue@);
    r
}

/// Adds output at the end and drops the oldest beyond the bound.
fn push_output(kept: &mut VecDeque<u8>, bytes: &[u8])
    requires
        old(kept)@.len() <= SCROLLBACK_MAX_BYTES,
    ensures
        final(kept)@ == last_bytes(old(kept)@ + bytes@, SCROLLBACK_MAX_BYTES as int),
{
    let ghost before = kept@;
    let n = bytes.len();
    let mut from: usize = 0;
    if n >= SCROLLBACK_MAX_BYTES {
        kept.clear();
        from = n - SCROLLBACK_MAX_BYTES;
        assert(kept@ =~= Seq::<u8>::empty());
    } else {
        assert(before.skip(0) =~= before);
        while kept.len() + n > SCROLLBACK_MAX_BYTES
            invariant
                n < SCROLLBACK_MAX_BYTES,
                before.len() <= SCROLLBACK_MAX_BYTES,
                kept@.len() <= before.len(),
                kept@ == before.skip(before.len() - kept@.len()),
                kept@.len() == before.len() || kept@.len() + n >= SCROLLBACK_MAX_BYTES,
            decreases kept@.len(),
        {
            let ghost current = kept@;
            let _ = kept.pop_front();
            assert(kept@ =~= current.skip(1));
            assert(current.skip(1) =~= before.skip(before.len() - current.len() + 1));
        }
    }
    let ghost start = kept@;
    let mut i: usize = from;
    assert(bytes@.subrange(from as int, i as int) =~= Seq::<u8>::empty());
    assert(start + Seq::<u8>::empty() =~= start);
    while i < bytes.len()
        invariant
            from <= i <= bytes@.len(),
            kept@ == start + bytes@.subrange(from as int, i as int),
        decreases bytes@.len() - i,
    {
        kept.push_back(bytes[i]);
        i += 1;
        assert(bytes@.subrange(from as int, i as int) =~= bytes@.subrange(from as int, i - 1).push(
            bytes@[i - 1],
        ));
        assert(kept@ =~= start + bytes@.subrange(from as int, i as int));
    }
    assert(kept@ =~= last_bytes(before + bytes@, SCROLLBACK_MAX_BYTES as int));
}

/// Output that arrives in two pieces is kept as if it had arrived in one.
pub proof fn law_scrollback_in_chunks(kept: Seq<u8>, first: Seq<u8>, second: Seq<u8>, max: int)
    requires
        0 <= max,
    ensures
        last_bytes(last_bytes(kept + first, max) + second, max) == last_bytes(
            kept + (first + second),
            max,
        ),
{
    let whole = kept + (first + second);
    assert(whole =~= kept + first + second);
    assert(last_bytes(last_bytes(kept + first, max) + second, max) =~= last_bytes(whole, max));
}

/// An attachment that is followed by another of the same session is superseded, and the newer
/// one is not.
pub proof fn law_newer_attach_supersedes<M>(
    sessions: Map<Seq<char>, SessionView<M>>,
    name: Seq<char>,
)
    ensures
        ({
            let older = after_attach(sessions, name);
            let newer = after_attach(older, name);
            &&& is_superseded(newer, name, older[name].attach_id)
            &&& !is_superseded(newer, name, newer[name].attach_id)
        }),
{
}

/// The end of a superseded attachment changes nothing: the newer client stays attached.
pub proof fn law_superseded_attach_ends_silently<M>(
    sessions: Map<Seq<char>, SessionView<M>>,
    name: Seq<char>,
)
    ensures
        ({
            let older = after_attach(sessions, name);
            let newer = after_attach(older, name);
            &&& after_finish(newer, name, older[name].attach_id) == newer
            &&& newer[name].attached
        }),
{
}

/// An attachment that ends without a newer one leaves the session detached and otherwise
/// as it was, but for the number of the attachment.
pub proof fn law_attach_ends_detached<M>(
    sessions: Map<Seq<char>, SessionView<M>>,
    name: Seq<char>,
)
    requires
        sessions.contains_key(name),
    ensures
        ({
            let during = after_attach(sessions, name);
            let after = after_finish(during, name, during[name].attach_id);
            after == sessions.insert(
                name,
                SessionView {
                    attached: false,
                    attach_id: next_id(sessions[name].attach_id),
                    ..sessions[name]
                },
            )
        }),
{
    let during = after_attach(sessions, name);
    let after = after_finish(during, name, during[name].attach_id);
    assert(after =~= sessions.insert(
        name,
        SessionView {
            attached: false,
            attach_id: next_id(sessions[name].attach_id),
            ..sessions[name]
        },
    ));
}

/// A new session stands in the table under its name, with its directory, its process and its
/// terminal, attached to nobody and with nothing shown. No other session changes.
pub proof fn law_create_adds_one_session<M>(
    sessions: Map<Seq<char>, SessionView<M>>,
    name: Seq<char>,
    cwd: Seq<char>,
    pid: i32,
    master: M,
    other: Seq<char>,
)
    ensures
        ({
            let after = after_create(sessions, name, cwd, pid, master);
            &&& after.contains_key(name)
            &&& after[name].name == name
            &&& after[name].cwd == cwd
            &&& after[name].pid == pid
            &&& after[name].master == master
            &&& !after[name].attached
            &&& after[name].attach_id == 0
            &&& after[name].scrollback.len() == 0
            &&& other != name ==> after.contains_key(other) == sessions.contains_key(other)
            &&& other != name && sessions.contains_key(other) ==> after[other] == sessions[other]
        }),
{
}

/// A renamed session stands in the table under its new name and no longer under the old one, and
/// is otherwise as it was. No other session changes.
pub proof fn law_rename_changes_the_name_alone<M>(
    sessions: Map<Seq<char>, SessionView<M>>,
    from: Seq<char>,
    to: Seq<char>,
    other: Seq<char>,
)
    requires
        sessions.contains_key(from),
    ensures
        ({
            let after = after_rename(sessions, from, to);
            &&& after.contains_key(to)
            &&& after[to].name == to
            &&& after[to].cwd == sessions[from].cwd
            &&& after[to].pid == sessions[from].pid
            &&& after[to].master == sessions[from].master
            &&& after[to].attached == sessions[from].attached
            &&& after[to].attach_id == sessions[from].attach_id
            &&& after[to].scrollback == sessions[from].scrollback
            &&& from != to ==> !after.contains_key(from)
            &&& other != from && other != to ==> after.contains_key(other)
                == sessions.contains_key(other)
            &&& other != from && other != to && sessions.contains_key(other) ==> after[other]
                == sessions[other]
        }),
{
}

/// A session that a client attaches to is attached, under the next number, and is otherwise as
/// it was; the number after the largest is zero. No other session changes.
pub proof fn law_attach_counts_on<M>(
    sessions: Map<Seq<char>, SessionView<M>>,
    name: Seq<char>,
    other: Seq<char>,
)
    requires
        sessions.contains_key(name),
    ensures
        ({
            let after = after_attach(sessions, name);
            &&& after.contains_key(name)
            &&& after[name].attached
            &&& (after[name].attach_id - sessions[name].attach_id - 1) % 0x1_0000_0000_0000_0000
                == 0
            &&& after[name].name == sessions[name].name
            &&& after[name].cwd == sessions[name].cwd
            &&& after[name].pid == sessions[name].pid
            &&& after[name].master == sessions[name].master
            &&& after[name].scrollback == sessions[name].scrollback
            &&& other != name ==> after.contains_key(other) == sessions.contains_key(other)
            &&& other != name && sessions.contains_key(other) ==> after[other] == sessions[other]
        }),
{
}

/// The end of the latest attachment of a session leaves it attached to nobody, and otherwise as
/// it was; the end of any other changes nothing. No other session changes.
pub proof fn law_finish_detaches_the_latest<M>(
    sessions: Map<Seq<char>, SessionView<M>>,
    name: Seq<char>,
    id: u64,
    other: Seq<char>,
)
    ensures
        ({
            let after = after_finish(sessions, name, id);
            let latest = sessions.contains_key(name) && sessions[name].attach_id == id;
            &&& !latest ==> after == sessions
            &&& latest ==> {
                &&& after.contains_key(name)
                &&& !after[name].attached
                &&& after[name].attach_id == id
                &&& after[name].name == sessions[name].name
                &&& after[name].cwd == sessions[name].cwd
                &&& after[name].pid == sessions[name].pid
                &&& after[name].master == sessions[name].master
                &&& after[name].scrollback == sessions[name].scrollback
            }
            &&& other != name ==> after.contains_key(other) == sessions.contains_key(other)
            &&& other != name && sessions.contains_key(other) ==> after[other] == sessions[other]
        }),
{
}

/// An attachment is over exactly where its session is gone or has another number by now.
pub proof fn law_superseded_attachments<M>(
    sessions: Map<Seq<char>, SessionView<M>>,
    name: Seq<char>,
    id: u64,
)
    ensures
        !sessions.contains_key(name) ==> is_superseded(sessions, name, id),
        sessions.contains_key(name) ==> (is_superseded(sessions, name, id)
            <==> sessions[name].attach_id != id),
{
}

/// Of what a session has shown, all is kept up to 524288 bytes, and of more the last so many;
/// the session is otherwise as it was. The output of a session that is not in the table is
/// dropped.
pub proof fn law_latest_output_is_kept<M>(
    sessions: Map<Seq<char>, SessionView<M>>,
    name: Seq<char>,
    bytes: Seq<u8>,
    i: int,
)
    ensures
        !sessions.contains_key(name) ==> after_output(sessions, name, bytes) == sessions,
        sessions.contains_key(name) ==> ({
            let after = after_output(sessions, name, bytes);
            let kept = after[name].scrollback;
            let past = sessions[name].scrollback;
            let n = past.len() + bytes.len();
            &&& after.contains_key(name)
            &&& n <= 524288 ==> kept.len() == n
            &&& n > 524288 ==> kept.len() == 524288
            &&& 0 <= i < kept.len() ==> kept[kept.len() - 1 - i] == if i < bytes.len() {
                bytes[bytes.len() - 1 - i]
            } else {
                past[past.len() - 1 - (i - bytes.len())]
            }
            &&& after[name].name == sessions[name].name
            &&& after[name].cwd == sessions[name].cwd
            &&& after[name].pid == sessions[name].pid
            &&& after[name].master == sessions[name].master
            &&& after[name].attached == sessions[name].attached
            &&& after[name].attach_id == sessions[name].attach_id
        }),
{
}

/// A client that does not ask for a replay is shown nothing of the past; one that does is shown
/// what is kept of it that can be shown again.
pub proof fn law_replay_is_asked_for<M>(session: SessionView<M>)
    ensures
        shown_on_attach(session, false).len() == 0,
        shown_on_attach(session, true) == replayed(session.scrollback),
{
}

/// The list holds, for each session and for nothing else, one entry with its name, its
/// directory, its process and whether it is attached, in the order of the names.
pub proof fn law_lists_tell_of_all_sessions<M>(
    infos: Seq<SessionInfo>,
    sessions: Map<Seq<char>, SessionView<M>>,
)
    requires
        lists(infos, sessions),
        forall|name: Seq<char>| #[trigger] sessions.contains_key(name) ==> sessions[name].name
            == name,
    ensures
        forall|i: int|
            0 <= i < infos.len() ==> {
                let name = (#[trigger] infos[i]).name@;
                &&& sessions.contains_key(name)
                &&& infos[i].cwd@ == sessions[name].cwd
                &&& infos[i].pid == sessions[name].pid
                &&& infos[i].attached == sessions[name].attached
            },
        forall|name: Seq<char>| #[trigger]
            sessions.contains_key(name) ==> exists|i: int|
                0 <= i < infos.len() && (#[trigger] infos[i]).name@ == name,
        forall|i: int, j: int|
            0 <= i < infos.len() && 0 <= j < infos.len() && i != j ==> (#[trigger] infos[i]).name@
                != (#[trigger] infos[j]).name@,
        forall|i: int, j: int|
            0 <= i < j < infos.len() ==> #[trigger] precedes(infos[i].name@, infos[j].name@),
{
    assert forall|i: int, j: int|
        0 <= i < infos.len() && 0 <= j < infos.len() && i != j implies (#[trigger] infos[i]).name@
        != (#[trigger] infos[j]).name@ by {
        law_order_is_total(infos[i].name@, infos[j].name@);
        if i < j {
            assert(precedes(infos[i].name@, infos[j].name@));
        } else {
            assert(precedes(infos[j].name@, infos[i].name@));
        }
    }
}

/// When a process has ended, the first session by name whose shell it was leaves the table, and
/// no other; the end of any other process changes nothing.
pub proof fn law_ended_shells_leave<M>(
    before: Map<Seq<char>, SessionView<M>>,
    pid: i32,
    after: Map<Seq<char>, SessionView<M>>,
    name: Seq<char>,
)
    requires
        is_without_pid(before, pid, after),
    ensures
        before.contains_key(name) && before[name].pid != pid ==> after.contains_key(name)
            && after[name] == before[name],
        !before.contains_key(name) ==> !after.contains_key(name),
        (forall|other: Seq<char>| #[trigger]
            before.contains_key(other) ==> before[other].pid != pid) ==> after == before,
        before.contains_key(name) && before[name].pid == pid && (forall|other: Seq<char>| #[trigger]
            before.contains_key(other) && before[other].pid == pid && other != name ==> precedes(
                name,
                other,
            )) ==> after == before.remove(name),
{
    if before.contains_key(name) && before[name].pid == pid && (forall|other: Seq<char>| #[trigger]
        before.contains_key(other) && before[other].pid == pid && other != name ==> precedes(
            name,
            other,
        )) {
        let first = choose|first: Seq<char>| #[trigger]
            is_first_with_pid(before, pid, first) && after == before.remove(first);
        law_order_is_total(first, name);
    }
}

/// A session that was made and removed leaves the table as it was.
pub proof fn law_delete_undoes_create<M>(
    sessions: Map<Seq<char>, SessionView<M>>,
    name: Seq<char>,
    cwd: Seq<char>,
    pid: i32,
    master: M,
)
    requires
        !sessions.contains_key(name),
    ensures
        after_create(sessions, name, cwd, pid, master).remove(name) == sessions,
{
    assert(after_create(sessions, name, cwd, pid, master).remove(name) =~= sessions);
}

/// A session that was renamed and renamed back leaves the table as it was.
pub proof fn law_rename_there_and_back<M>(
    sessions: Map<Seq<char>, SessionView<M>>,
    from: Seq<char>,
    to: Seq<char>,
)
    requires
        sessions.contains_key(from),
        sessions[from].name == from,
        !sessions.contains_key(to),
    ensures
        after_rename(after_rename(sessions, from, to), to, from) == sessions,
{
    assert(after_rename(after_rename(sessions, from, to), to, from) =~= sessions);
}

/// A new session has nothing to show of the past, whatever the other sessions have shown.
pub proof fn law_new_session_shows_nothing<M>(
    sessions: Map<Seq<char>, SessionView<M>>,
    name: Seq<char>,
    cwd: Seq<char>,
    pid: i32,
    master: M,
    replay: bool,
)
    ensures
        shown_on_attach(after_create(sessions, name, cwd, pid, master)[name], replay) == Seq::<
            u8,
        >::empty(),
{
}

/// The output of one session is kept with no other.
pub proof fn law_output_stays_with_its_session<M>(
    sessions: Map<Seq<char>, SessionView<M>>,
    name: Seq<char>,
    bytes: Seq<u8>,
    other: Seq<char>,
)
    requires
        other != name,
    ensures
        after_output(sessions, name, bytes).contains_key(other) == sessions.contains_key(other),
        sessions.contains_key(other) ==> after_output(sessions, name, bytes)[other]
            == sessions[other],
{
}

/// Output that arrives in two pieces leaves the table as if it had arrived in one.
pub proof fn law_output_in_chunks<M>(
    sessions: Map<Seq<char>, SessionView<M>>,
    name: Seq<char>,
    first: Seq<u8>,
    second: Seq<u8>,
)
    ensures
        after_output(after_output(sessions, name, first), name, second) == after_output(
            sessions,
            name,
            first + second,
        ),
{
    if sessions.contains_key(name) {
        law_scrollback_in_chunks(
            sessions[name].scrollback,
            first,
            second,
            SCROLLBACK_MAX_BYTES as int,
        );
    }
    assert(after_output(after_output(sessions, name, first), name, second) =~= after_output(
        sessions,
        name,
        first + second,
    ));
}

/// A client that attaches again sees a replay of what was shown before: all of what is kept and
/// what came last, as far as the bound reaches. Text without control sequences is seen as it
/// was.
pub proof fn law_reattach_shows_the_past<M>(
    sessions: Map<Seq<char>, SessionView<M>>,
    name: Seq<char>,
    output: Seq<u8>,
)
    requires
        sessions.contains_key(name),
    ensures
        ({
            let kept = last_bytes(
                sessions[name].scrollback + output,
                SCROLLBACK_MAX_BYTES as int,
            );
            let shown = shown_on_attach(after_output(sessions, name, output)[name], true);
            &&& shown == replayed(kept)
            &&& !kept.contains(ESC) ==> shown == kept
        }),
{
    let kept = last_bytes(sessions[name].scrollback + output, SCROLLBACK_MAX_BYTES as int);
    if !kept.contains(ESC) {
        law_replay_keeps_plain_text(kept);
    }
}

} // verus!
