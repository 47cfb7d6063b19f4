//! The store: sessions, messages and tool calls as relational rows, with
//! two full-text indexes kept consistent with them.
//!
//! The store lives in memory; whoever owns it decides how the rows reach
//! a file and back. Every operation keeps the store well formed: session
//! ids stay unique, the session index mirrors the session rows one to
//! one, the message index mirrors the message rows one to one, and no
//! message or tool call outlives its session.

use vstd::prelude::*;
use crate::model::{
    agent_str, is_create_call, is_delete_call, is_modify_call, role_str, SessionData,
};
use crate::text;
use crate::StoreError;

verus! {

/// One stored session, scalar attributes only.
#[derive(Debug, Clone)]
pub struct SessionRow {
    pub id: String,
    pub agent: String,
    pub project_path: Option<String>,
    pub project_name: Option<String>,
    pub summary: Option<String>,
    pub work_summary: Option<String>,
    pub llm_summary: Option<String>,
    pub started_at: Option<i64>,
    pub ended_at: Option<i64>,
    pub message_count: i64,
    pub files_created: i64,
    pub files_modified: i64,
    pub files_deleted: i64,
    pub tags: String,
}

/// The mathematical content of a session row.
#[verifier::ext_equal]
pub struct SessionRowV {
    pub id: Seq<char>,
    pub agent: Seq<char>,
    pub project_path: Option<Seq<char>>,
    pub project_name: Option<Seq<char>>,
    pub summary: Option<Seq<char>>,
    pub work_summary: Option<Seq<char>>,
    pub llm_summary: Option<Seq<char>>,
    pub started_at: Option<i64>,
    pub ended_at: Option<i64>,
    pub message_count: int,
    pub files_created: int,
    pub files_modified: int,
    pub files_deleted: int,
    pub tags: Seq<char>,
}

/// The view of an optional string.
pub open spec fn ostr(o: Option<String>) -> Option<Seq<char>> {
    match o {
        Some(s) => Some(s@),
        None => None,
    }
}

/// The view of an optional string, empty when absent.
pub open spec fn ostr_or_empty(o: Option<String>) -> Seq<char> {
    match o {
        Some(s) => s@,
        None => Seq::empty(),
    }
}

impl View for SessionRow {
    type V = SessionRowV;

    open spec fn view(&self) -> SessionRowV {
        SessionRowV {
            id: self.id@,
            agent: self.agent@,
            project_path: ostr(self.project_path),
            project_name: ostr(self.project_name),
            summary: ostr(self.summary),
            work_summary: ostr(self.work_summary),
            llm_summary: ostr(self.llm_summary),
            started_at: self.started_at,
            ended_at: self.ended_at,
            message_count: self.message_count as int,
            files_created: self.files_created as int,
            files_modified: self.files_modified as int,
            files_deleted: self.files_deleted as int,
            tags: self.tags@,
        }
    }
}

impl DeepView for SessionRow {
    type V = SessionRowV;

    open spec fn deep_view(&self) -> SessionRowV {
        self.view()
    }
}

/// One stored message.
#[derive(Debug, Clone)]
pub struct MessageRow {
    pub id: i64,
    pub session_id: String,
    pub role: String,
    pub content: String,
    pub timestamp: Option<i64>,
    pub files_changed: Vec<String>,
}

/// The mathematical content of a message row.
#[verifier::ext_equal]
pub struct MessageRowV {
    pub id: i64,
    pub session_id: Seq<char>,
    pub role: Seq<char>,
    pub content: Seq<char>,
    pub timestamp: Option<i64>,
    pub files_changed: Seq<Seq<char>>,
}

impl View for MessageRow {
    type V = MessageRowV;

    open spec fn view(&self) -> MessageRowV {
        MessageRowV {
            id: self.id,
            session_id: self.session_id@,
            role: self.role@,
            content: self.content@,
            timestamp: self.timestamp,
            files_changed: self.files_changed.deep_view(),
        }
    }
}

impl DeepView for MessageRow {
    type V = MessageRowV;

    open spec fn deep_view(&self) -> MessageRowV {
        self.view()
    }
}

/// One stored tool call.
#[derive(Debug, Clone)]
pub struct ToolCallRow {
    pub id: i64,
    pub session_id: String,
    pub tool_name: String,
    pub file_path: Option<String>,
    pub timestamp: Option<i64>,
}

/// The mathematical content of a tool-call row.
#[verifier::ext_equal]
pub struct ToolCallRowV {
    pub id: i64,
    pub session_id: Seq<char>,
    pub tool_name: Seq<char>,
    pub file_path: Option<Seq<char>>,
    pub timestamp: Option<i64>,
}

impl View for ToolCallRow {
    type V = ToolCallRowV;

    open spec fn view(&self) -> ToolCallRowV {
        ToolCallRowV {
            id: self.id,
            session_id: self.session_id@,
            tool_name: self.tool_name@,
            file_path: ostr(self.file_path),
            timestamp: self.timestamp,
        }
    }
}

impl DeepView for ToolCallRow {
    type V = ToolCallRowV;

    open spec fn deep_view(&self) -> ToolCallRowV {
        self.view()
    }
}

/// One row of the message index.
#[derive(Debug, Clone)]
pub struct MessageFtsRow {
    pub session_id: String,
    pub role: String,
    pub content: String,
}

/// The mathematical content of a message-index row.
#[verifier::ext_equal]
pub struct MessageFtsRowV {
    pub session_id: Seq<char>,
    pub role: Seq<char>,
    pub content: Seq<char>,
}

impl View for MessageFtsRow {
    type V = MessageFtsRowV;

    open spec fn view(&self) -> MessageFtsRowV {
        MessageFtsRowV {
            session_id: self.session_id@,
            role: self.role@,
            content: self.content@,
        }
    }
}

impl DeepView for MessageFtsRow {
    type V = MessageFtsRowV;

    open spec fn deep_view(&self) -> MessageFtsRowV {
        self.view()
    }
}

/// One row of the session index.
#[derive(Debug, Clone)]
pub struct SessionFtsRow {
    pub session_id: String,
    pub summary: String,
    pub work_summary: String,
    pub project_name: String,
    pub tags: String,
}

/// The mathematical content of a session-index row.
#[verifier::ext_equal]
pub struct SessionFtsRowV {
    pub session_id: Seq<char>,
    pub summary: Seq<char>,
    pub work_summary: Seq<char>,
    pub project_name: Seq<char>,
    pub tags: Seq<char>,
}

impl View for SessionFtsRow {
    type V = SessionFtsRowV;

    open spec fn view(&self) -> SessionFtsRowV {
        SessionFtsRowV {
            session_id: self.session_id@,
            summary: self.summary@,
            work_summary: self.work_summary@,
            project_name: self.project_name@,
            tags: self.tags@,
        }
    }
}

impl DeepView for SessionFtsRow {
    type V = SessionFtsRowV;

    open spec fn deep_view(&self) -> SessionFtsRowV {
        self.view()
    }
}

/// One match of a message search, joined with its session's metadata.
#[derive(Debug, Clone)]
pub struct SearchResult {
    pub session_id: String,
    pub agent: String,
    pub project_name: Option<String>,
    pub project_path: Option<String>,
    pub role: String,
    pub content: String,
    pub timestamp: Option<i64>,
    pub summary: Option<String>,
    pub started_at: Option<i64>,
}

/// The session store.
pub struct Database {
    sessions: Vec<SessionRow>,
    messages: Vec<MessageRow>,
    tool_calls: Vec<ToolCallRow>,
    messages_fts: Vec<MessageFtsRow>,
    sessions_fts: Vec<SessionFtsRow>,
    next_message_id: i64,
    next_tool_call_id: i64,
}

/// Whether some session of `ss` has the id `id`.
pub open spec fn has_session_id(ss: Seq<SessionRowV>, id: Seq<char>) -> bool {
    exists|j: int| 0 <= j < ss.len() && ss[j].id == id
}

/// The sessions of `ss` other than the one with id `x`.
pub open spec fn sessions_except(ss: Seq<SessionRowV>, x: Seq<char>) -> Seq<SessionRowV> {
    ss.filter(|r: SessionRowV| r.id != x)
}

/// The messages of `ms` that belong to the session `x`.
pub open spec fn messages_for(ms: Seq<MessageRowV>, x: Seq<char>) -> Seq<MessageRowV> {
    ms.filter(|m: MessageRowV| m.session_id == x)
}

/// The messages of `ms` outside the session `x`.
pub open spec fn messages_except(ms: Seq<MessageRowV>, x: Seq<char>) -> Seq<MessageRowV> {
    ms.filter(|m: MessageRowV| m.session_id != x)
}

/// The tool calls of `ts` that belong to the session `x`.
pub open spec fn tool_calls_for(ts: Seq<ToolCallRowV>, x: Seq<char>) -> Seq<ToolCallRowV> {
    ts.filter(|t: ToolCallRowV| t.session_id == x)
}

/// The tool calls of `ts` outside the session `x`.
pub open spec fn tool_calls_except(ts: Seq<ToolCallRowV>, x: Seq<char>) -> Seq<ToolCallRowV> {
    ts.filter(|t: ToolCallRowV| t.session_id != x)
}

/// The message-index rows of `fs` that belong to the session `x`.
pub open spec fn msg_fts_for(fs: Seq<MessageFtsRowV>, x: Seq<char>) -> Seq<MessageFtsRowV> {
    fs.filter(|f: MessageFtsRowV| f.session_id == x)
}

/// The message-index rows of `fs` outside the session `x`.
pub open spec fn msg_fts_except(fs: Seq<MessageFtsRowV>, x: Seq<char>) -> Seq<MessageFtsRowV> {
    fs.filter(|f: MessageFtsRowV| f.session_id != x)
}

/// The session-index rows of `fs` that belong to the session `x`.
pub open spec fn sess_fts_for(fs: Seq<SessionFtsRowV>, x: Seq<char>) -> Seq<SessionFtsRowV> {
    fs.filter(|f: SessionFtsRowV| f.session_id == x)
}

/// The session-index rows of `fs` outside the session `x`.
pub open spec fn sess_fts_except(fs: Seq<SessionFtsRowV>, x: Seq<char>) -> Seq<SessionFtsRowV> {
    fs.filter(|f: SessionFtsRowV| f.session_id != x)
}

impl Database {
    /// The stored sessions, in insertion order.
    pub closed spec fn sessions_view(self) -> Seq<SessionRowV> {
        self.sessions.deep_view()
    }

    /// The stored messages, in insertion order.
    pub closed spec fn messages_view(self) -> Seq<MessageRowV> {
        self.messages.deep_view()
    }

    /// The stored tool calls, in insertion order.
    pub closed spec fn tool_calls_view(self) -> Seq<ToolCallRowV> {
        self.tool_calls.deep_view()
    }

    /// The message index rows, in insertion order.
    pub closed spec fn messages_fts_view(self) -> Seq<MessageFtsRowV> {
        self.messages_fts.deep_view()
    }

    /// The session index rows, in insertion order.
    pub closed spec fn sessions_fts_view(self) -> Seq<SessionFtsRowV> {
        self.sessions_fts.deep_view()
    }

    /// Well-formedness: unique session ids; the session index aligned
    /// row for row with the sessions; the message index aligned row for
    /// row with the messages; no message or tool call without its
    /// session.
    pub open spec fn wf(self) -> bool {
        &&& forall|i: int, j: int|
            0 <= i < j < self.sessions_view().len() ==> self.sessions_view()[i].id
                != self.sessions_view()[j].id
        &&& self.sessions_fts_view().len() == self.sessions_view().len()
        &&& forall|i: int|
            0 <= i < self.sessions_view().len() ==> #[trigger] self.sessions_fts_view()[i].session_id
                == self.sessions_view()[i].id
        &&& self.messages_fts_view().len() == self.messages_view().len()
        &&& forall|i: int|
            0 <= i < self.messages_view().len() ==> #[trigger] self.messages_fts_view()[i].session_id
                == self.messages_view()[i].session_id
        &&& forall|i: int|
            0 <= i < self.messages_view().len() ==> #[trigger] self.messages_fts_view()[i].role
                == self.messages_view()[i].role
        &&& forall|i: int|
            0 <= i < self.messages_view().len() ==> #[trigger] self.messages_fts_view()[i].content
                == self.messages_view()[i].content
        &&& forall|i: int|
            0 <= i < self.messages_view().len() ==> has_session_id(
                self.sessions_view(),
                #[trigger] self.messages_view()[i].session_id,
            )
        &&& forall|i: int|
            0 <= i < self.tool_calls_view().len() ==> has_session_id(
                self.sessions_view(),
                #[trigger] self.tool_calls_view()[i].session_id,
            )
    }

    /// An empty store, held in memory.
    pub fn open_in_memory() -> (r: Result<Database, StoreError>)
        ensures
            match r {
                Ok(db) => {
                    &&& db.wf()
                    &&& db.sessions_view().len() == 0
                    &&& db.messages_view().len() == 0
                    &&& db.tool_calls_view().len() == 0
                    &&& db.messages_fts_view().len() == 0
                    &&& db.sessions_fts_view().len() == 0
                },
                Err(_) => false,
            },
    {
        Ok(
            Database {
                sessions: Vec::new(),
                messages: Vec::new(),
                tool_calls: Vec::new(),
                messages_fts: Vec::new(),
                sessions_fts: Vec::new(),
                next_message_id: 1,
                next_tool_call_id: 1,
            },
        )
    }

    /// How many sessions the store holds.
    pub fn session_count(&self) -> (r: Result<usize, StoreError>)
        ensures
            match r {
                Ok(n) => n == self.sessions_view().len(),
                Err(_) => false,
            },
    {
        Ok(self.sessions.len())
    }

    /// Whether a session with this id is stored.
    pub fn session_exists(&self, session_id: &str) -> (r: Result<bool, StoreError>)
        ensures
            match r {
                Ok(b) => b == has_session_id(self.sessions_view(), session_id@),
                Err(_) => false,
            },
    {
        Ok(self.find_session(session_id).is_some())
    }

    /// The index of the session with this id, if stored.
    fn find_session(&self, session_id: &str) -> (r: Option<usize>)
        ensures
            match r {
                Some(i) => i < self.sessions_view().len() && self.sessions_view()[i as int].id
                    == session_id@,
                None => !has_session_id(self.sessions_view(), session_id@),
            },
    {
        let idv = text::chars_of(session_id);
        let mut i: usize = 0;
        while i < self.sessions.len()
            invariant
                i <= self.sessions@.len(),
                idv@ == session_id@,
                forall|j: int| 0 <= j < i ==> self.sessions_view()[j].id != session_id@,
            decreases self.sessions@.len() - i,
        {
            let rid = text::chars_of(self.sessions[i].id.as_str());
            if text::eq_chars(&rid, &idv) {
                proof {
                    assert(self.sessions_view()[i as int].id == session_id@);
                }
                return Some(i);
            }
            i = i + 1;
        }
        None
    }

    /// The stored metadata row of one session, or nothing.
    pub fn get_session(&self, session_id: &str) -> (r: Result<Option<SessionRow>, StoreError>)
        ensures
            match r {
                Ok(Some(row)) => exists|i: int|
                    0 <= i < self.sessions_view().len() && self.sessions_view()[i] == row@
                        && row@.id == session_id@,
                Ok(None) => !has_session_id(self.sessions_view(), session_id@),
                Err(_) => false,
            },
    {
        match self.find_session(session_id) {
            Some(i) => {
                let row = clone_session_row(&self.sessions[i]);
                proof {
                    assert(self.sessions_view()[i as int] == row@);
                }
                Ok(Some(row))
            },
            None => Ok(None),
        }
    }

    /// The stored message count of one session; absent ids are errors.
    pub fn session_message_count(&self, session_id: &str) -> (r: Result<i64, StoreError>)
        ensures
            match r {
                Ok(n) => exists|i: int|
                    0 <= i < self.sessions_view().len() && self.sessions_view()[i].id
                        == session_id@ && self.sessions_view()[i].message_count == n,
                Err(e) => e == StoreError::SessionNotFound && !has_session_id(
                    self.sessions_view(),
                    session_id@,
                ),
            },
    {
        match self.find_session(session_id) {
            Some(i) => Ok(self.sessions[i].message_count),
            None => Err(StoreError::SessionNotFound),
        }
    }

    /// The messages of one session, in conversation order.
    pub fn get_messages(&self, session_id: &str) -> (r: Result<Vec<MessageRow>, StoreError>)
        ensures
            match r {
                Ok(v) => v.deep_view() == messages_for(self.messages_view(), session_id@),
                Err(_) => false,
            },
    {
        let idv = text::chars_of(session_id);
        let mut v: Vec<MessageRow> = Vec::new();
        let mut i: usize = 0;
        proof {
            reveal(Seq::filter);
            assert(self.messages_view().subrange(0, 0) =~= Seq::<MessageRowV>::empty());
            assert(v.deep_view() =~= Seq::<MessageRowV>::empty());
        }
        while i < self.messages.len()
            invariant
                i <= self.messages@.len(),
                self.messages_view().len() == self.messages@.len(),
                idv@ == session_id@,
                v.deep_view() == messages_for(
                    self.messages_view().subrange(0, i as int),
                    session_id@,
                ),
            decreases self.messages@.len() - i,
        {
            proof {
                reveal(Seq::filter);
                assert(self.messages_view().subrange(0, i + 1).drop_last() =~= self.messages_view()
                    .subrange(0, i as int));
                assert(self.messages_view().subrange(0, i + 1).last() == self.messages_view()[i as int]);
                assert(self.messages_view()[i as int] == self.messages@[i as int]@);
            }
            let rid = text::chars_of(self.messages[i].session_id.as_str());
            if text::eq_chars(&rid, &idv) {
                let ghost old_dv = v.deep_view();
                let row = clone_message_row(&self.messages[i]);
                let ghost rv = row@;
                v.push(row);
                proof {
                    assert(v.deep_view() =~= old_dv.push(rv));
                }
            }
            i = i + 1;
        }
        proof {
            assert(self.messages_view().subrange(0, self.messages@.len() as int) =~= self
                .messages_view());
        }
        Ok(v)
    }

    /// The tool calls of one session, in invocation order.
    pub fn get_tool_calls(&self, session_id: &str) -> (r: Result<Vec<ToolCallRow>, StoreError>)
        ensures
            match r {
                Ok(v) => v.deep_view() == tool_calls_for(self.tool_calls_view(), session_id@),
                Err(_) => false,
            },
    {
        let idv = text::chars_of(session_id);
        let mut v: Vec<ToolCallRow> = Vec::new();
        let mut i: usize = 0;
        proof {
            reveal(Seq::filter);
            assert(self.tool_calls_view().subrange(0, 0) =~= Seq::<ToolCallRowV>::empty());
            assert(v.deep_view() =~= Seq::<ToolCallRowV>::empty());
        }
        while i < self.tool_calls.len()
            invariant
                i <= self.tool_calls@.len(),
                self.tool_calls_view().len() == self.tool_calls@.len(),
                idv@ == session_id@,
                v.deep_view() == tool_calls_for(
                    self.tool_calls_view().subrange(0, i as int),
                    session_id@,
                ),
            decreases self.tool_calls@.len() - i,
        {
            proof {
                reveal(Seq::filter);
                assert(self.tool_calls_view().subrange(0, i + 1).drop_last() =~= self
                    .tool_calls_view().subrange(0, i as int));
                assert(self.tool_calls_view().subrange(0, i + 1).last() == self.tool_calls_view()[i as int]);
                assert(self.tool_calls_view()[i as int] == self.tool_calls@[i as int]@);
            }
            let rid = text::chars_of(self.tool_calls[i].session_id.as_str());
            if text::eq_chars(&rid, &idv) {
                let ghost old_dv = v.deep_view();
                let row = clone_tool_call_row(&self.tool_calls[i]);
                let ghost rv = row@;
                v.push(row);
                proof {
                    assert(v.deep_view() =~= old_dv.push(rv));
                }
            }
            i = i + 1;
        }
        proof {
            assert(self.tool_calls_view().subrange(0, self.tool_calls@.len() as int) =~= self
                .tool_calls_view());
        }
        Ok(v)
    }

    /// Empties the store.
    pub fn clear_all(&mut self) -> (r: Result<(), StoreError>)
        ensures
            r is Ok,
            final(self).wf(),
            final(self).sessions_view().len() == 0,
            final(self).messages_view().len() == 0,
            final(self).tool_calls_view().len() == 0,
            final(self).messages_fts_view().len() == 0,
            final(self).sessions_fts_view().len() == 0,
    {
        self.sessions = Vec::new();
        self.messages = Vec::new();
        self.tool_calls = Vec::new();
        self.messages_fts = Vec::new();
        self.sessions_fts = Vec::new();
        Ok(())
    }
}

fn clone_opt_string(o: &Option<String>) -> (r: Option<String>)
    ensures
        ostr(r) == ostr(*o),
{
    match o {
        Some(s) => Some(clone_string(s)),
        None => None,
    }
}

fn clone_string(s: &String) -> (r: String)
    ensures
        r@ == s@,
{
    let v = text::chars_of(s.as_str());
    text::string_from_chars(&v)
}

fn clone_string_vec(v: &Vec<String>) -> (r: Vec<String>)
    ensures
        r.deep_view() == v.deep_view(),
{
    let mut r: Vec<String> = Vec::new();
    let mut i: usize = 0;
    while i < v.len()
        invariant
            i <= v@.len(),
            r@.len() == i,
            forall|j: int| 0 <= j < i ==> r@[j]@ == v@[j]@,
        decreases v@.len() - i,
    {
        r.push(clone_string(&v[i]));
        i = i + 1;
    }
    proof {
        assert(r.deep_view() =~~= v.deep_view());
    }
    r
}

/// A copy of a session row with the same content.
pub fn clone_session_row(row: &SessionRow) -> (r: SessionRow)
    ensures
        r@ == row@,
{
    SessionRow {
        id: clone_string(&row.id),
        agent: clone_string(&row.agent),
        project_path: clone_opt_string(&row.project_path),
        project_name: clone_opt_string(&row.project_name),
        summary: clone_opt_string(&row.summary),
        work_summary: clone_opt_string(&row.work_summary),
        llm_summary: clone_opt_string(&row.llm_summary),
        started_at: row.started_at,
        ended_at: row.ended_at,
        message_count: row.message_count,
        files_created: row.files_created,
        files_modified: row.files_modified,
        files_deleted: row.files_deleted,
        tags: clone_string(&row.tags),
    }
}

/// A copy of a message row with the same content.
pub fn clone_message_row(row: &MessageRow) -> (r: MessageRow)
    ensures
        r@ == row@,
{
    MessageRow {
        id: row.id,
        session_id: clone_string(&row.session_id),
        role: clone_string(&row.role),
        content: clone_string(&row.content),
        timestamp: row.timestamp,
        files_changed: clone_string_vec(&row.files_changed),
    }
}

/// A copy of a tool-call row with the same content.
pub fn clone_tool_call_row(row: &ToolCallRow) -> (r: ToolCallRow)
    ensures
        r@ == row@,
{
    ToolCallRow {
        id: row.id,
        session_id: clone_string(&row.session_id),
        tool_name: clone_string(&row.tool_name),
        file_path: clone_opt_string(&row.file_path),
        timestamp: row.timestamp,
    }
}

/// `x` clipped to the i64 range from above.
pub open spec fn to_i64_sat(x: int) -> int {
    if x > i64::MAX {
        i64::MAX as int
    } else {
        x
    }
}

fn strings_to_char_vecs(v: &Vec<String>) -> (r: Vec<Vec<char>>)
    ensures
        r.deep_view() == v.deep_view(),
{
    let mut r: Vec<Vec<char>> = Vec::new();
    let mut i: usize = 0;
    while i < v.len()
        invariant
            i <= v@.len(),
            r@.len() == i,
            forall|j: int| 0 <= j < i ==> r@[j]@ == v@[j]@,
        decreases v@.len() - i,
    {
        r.push(text::chars_of(v[i].as_str()));
        i = i + 1;
    }
    proof {
        assert(r.deep_view() =~~= v.deep_view());
    }
    r
}

fn join_strings(v: &Vec<String>, sep: &str) -> (r: String)
    ensures
        r@ == text::join_seq(v.deep_view(), sep@),
{
    let parts = strings_to_char_vecs(v);
    let joined = text::join_chars(&parts, sep);
    text::string_from_chars(&joined)
}

fn usize_to_i64_sat(x: usize) -> (r: i64)
    ensures
        r as int == to_i64_sat(x as int),
        r >= 0,
{
    if x as u64 > i64::MAX as u64 {
        i64::MAX
    } else {
        x as i64
    }
}

impl Database {
    /// Stores a new session with all its messages, tool calls and index
    /// rows. An id already present is a caller error: the public entry
    /// point for existing ids is `update_session`.
    #[verifier::rlimit(100)]
    #[verifier::spinoff_prover]
    pub fn insert_session(&mut self, s: &SessionData) -> (r: Result<(), StoreError>)
        requires
            old(self).wf(),
        ensures
            final(self).wf(),
            r is Ok <==> !has_session_id(old(self).sessions_view(), s.id@),
            r is Err ==> *final(self) == *old(self) && r == Err::<(), StoreError>(
                StoreError::QueryFailed,
            ),
            r is Ok ==> {
                let sv = final(self).sessions_view();
                let old_sv = old(self).sessions_view();
                &&& sv.len() == old_sv.len() + 1
                &&& sv.drop_last() == old_sv
                &&& sv.last().id == s.id@
                &&& sv.last().agent == agent_str(s.agent)
                &&& sv.last().project_path == ostr(s.project_path)
                &&& sv.last().project_name == ostr(s.project_name)
                &&& sv.last().summary == ostr(s.summary)
                &&& sv.last().work_summary == ostr(s.work_summary)
                &&& sv.last().llm_summary is None
                &&& sv.last().started_at == s.started_at
                &&& sv.last().ended_at == s.ended_at
                &&& sv.last().message_count == to_i64_sat(s.messages@.len() as int)
                &&& sv.last().files_created == to_i64_sat(
                    s.tool_calls@.filter(|tc: crate::model::ToolCallData| is_create_call(tc)).len() as int,
                )
                &&& sv.last().files_modified == to_i64_sat(
                    s.tool_calls@.filter(|tc: crate::model::ToolCallData| is_modify_call(tc)).len() as int,
                )
                &&& sv.last().files_deleted == to_i64_sat(
                    s.tool_calls@.filter(|tc: crate::model::ToolCallData| is_delete_call(tc)).len() as int,
                )
                &&& sv.last().tags == text::join_seq(s.tags.deep_view(), ","@)
            },
            r is Ok ==> {
                let mv = final(self).messages_view();
                let old_mv = old(self).messages_view();
                &&& mv.len() == old_mv.len() + s.messages@.len()
                &&& mv.subrange(0, old_mv.len() as int) == old_mv
                &&& forall|k: int|
                    0 <= k < s.messages@.len() ==> {
                        let m = #[trigger] mv[old_mv.len() + k];
                        &&& m.session_id == s.id@
                        &&& m.role == role_str(s.messages@[k].role)
                        &&& m.content == s.messages@[k].content@
                        &&& m.timestamp == s.messages@[k].timestamp
                        &&& m.files_changed == s.messages@[k].files_changed.deep_view()
                    }
            },
            r is Ok ==> {
                let tv = final(self).tool_calls_view();
                let old_tv = old(self).tool_calls_view();
                &&& tv.len() == old_tv.len() + s.tool_calls@.len()
                &&& tv.subrange(0, old_tv.len() as int) == old_tv
                &&& forall|k: int|
                    0 <= k < s.tool_calls@.len() ==> {
                        let t = #[trigger] tv[old_tv.len() + k];
                        &&& t.session_id == s.id@
                        &&& t.tool_name == s.tool_calls@[k].tool_name@
                        &&& t.file_path == ostr(s.tool_calls@[k].file_path)
                        &&& t.timestamp == s.tool_calls@[k].timestamp
                    }
            },
            r is Ok ==> {
                let fv = final(self).sessions_fts_view();
                let old_fv = old(self).sessions_fts_view();
                &&& fv.len() == old_fv.len() + 1
                &&& fv.drop_last() == old_fv
                &&& fv.last().session_id == s.id@
                &&& fv.last().summary == ostr_or_empty(s.summary)
                &&& fv.last().work_summary == ostr_or_empty(s.work_summary)
                &&& fv.last().project_name == ostr_or_empty(s.project_name)
                &&& fv.last().tags == text::join_seq(s.tags.deep_view(), " "@)
            },
    {
        if self.find_session(s.id.as_str()).is_some() {
            return Err(StoreError::QueryFailed);
        }
        let row = SessionRow {
            id: clone_string(&s.id),
            agent: string_of_lit(s.agent.as_str()),
            project_path: clone_opt_string(&s.project_path),
            project_name: clone_opt_string(&s.project_name),
            summary: clone_opt_string(&s.summary),
            work_summary: clone_opt_string(&s.work_summary),
            llm_summary: None,
            started_at: s.started_at,
            ended_at: s.ended_at,
            message_count: usize_to_i64_sat(s.message_count()),
            files_created: usize_to_i64_sat(s.files_created()),
            files_modified: usize_to_i64_sat(s.files_modified()),
            files_deleted: usize_to_i64_sat(s.files_deleted()),
            tags: join_strings(&s.tags, ","),
        };
        let ghost rv = row@;
        self.sessions.push(row);
        let frow = SessionFtsRow {
            session_id: clone_string(&s.id),
            summary: opt_string_or_empty(&s.summary),
            work_summary: opt_string_or_empty(&s.work_summary),
            project_name: opt_string_or_empty(&s.project_name),
            tags: join_strings(&s.tags, " "),
        };
        let ghost fv = frow@;
        self.sessions_fts.push(frow);
        proof {
            assert(self.sessions.deep_view() =~~= old(self).sessions.deep_view().push(rv));
            assert(self.sessions_fts.deep_view() =~~= old(self).sessions_fts.deep_view().push(fv));
            assert(self.sessions.deep_view().drop_last() =~= old(self).sessions.deep_view());
            assert(self.sessions_fts.deep_view().drop_last() =~= old(self).sessions_fts.deep_view());
        }
        self.append_messages(s);
        self.append_tool_calls(s);
        proof {
            let oldsv = old(self).sessions_view();
            let oldmv = old(self).messages_view();
            let oldtv = old(self).tool_calls_view();
            assert(self.sessions_view() =~~= oldsv.push(rv));
            assert(self.sessions_view()[oldsv.len() as int].id == s.id@);
            assert forall|i: int| 0 <= i < oldmv.len() implies #[trigger] self.messages_view()[i]
                == oldmv[i] by {
                assert(self.messages_view().subrange(0, oldmv.len() as int)[i]
                    == self.messages_view()[i]);
            }
            assert forall|i: int| 0 <= i < oldtv.len() implies #[trigger] self.tool_calls_view()[i]
                == oldtv[i] by {
                assert(self.tool_calls_view().subrange(0, oldtv.len() as int)[i]
                    == self.tool_calls_view()[i]);
            }
            assert forall|i: int|
                0 <= i < self.messages_view().len() implies has_session_id(
                self.sessions_view(),
                #[trigger] self.messages_view()[i].session_id,
            ) by {
                if i < oldmv.len() {
                    assert(has_session_id(oldsv, oldmv[i].session_id));
                    let j = choose|j: int|
                        0 <= j < oldsv.len() && oldsv[j].id == oldmv[i].session_id;
                    assert(self.sessions_view()[j].id == self.messages_view()[i].session_id);
                } else {
                    let k = i - oldmv.len();
                    assert(self.messages_view()[oldmv.len() + k].session_id == s.id@);
                    assert(self.sessions_view()[oldsv.len() as int].id == s.id@);
                }
            }
            assert forall|i: int|
                0 <= i < self.tool_calls_view().len() implies has_session_id(
                self.sessions_view(),
                #[trigger] self.tool_calls_view()[i].session_id,
            ) by {
                if i < oldtv.len() {
                    assert(has_session_id(oldsv, oldtv[i].session_id));
                    let j = choose|j: int|
                        0 <= j < oldsv.len() && oldsv[j].id == oldtv[i].session_id;
                    assert(self.sessions_view()[j].id == self.tool_calls_view()[i].session_id);
                } else {
                    let k = i - oldtv.len();
                    assert(self.tool_calls_view()[oldtv.len() + k].session_id == s.id@);
                    assert(self.sessions_view()[oldsv.len() as int].id == s.id@);
                }
            }
        }
        Ok(())
    }

    /// Appends the message rows and message-index rows for `s`.
    #[verifier::rlimit(100)]
    #[verifier::spinoff_prover]
    fn append_messages(&mut self, s: &SessionData)
        requires
            old(self).messages_fts_view().len() == old(self).messages_view().len(),
            forall|i: int|
                0 <= i < old(self).messages_view().len() ==> #[trigger] old(self).messages_fts_view()[i].session_id == old(self).messages_view()[i].session_id,
            forall|i: int|
                0 <= i < old(self).messages_view().len() ==> #[trigger] old(self).messages_fts_view()[i].role == old(self).messages_view()[i].role,
            forall|i: int|
                0 <= i < old(self).messages_view().len() ==> #[trigger] old(self).messages_fts_view()[i].content == old(self).messages_view()[i].content,
        ensures
            final(self).sessions == old(self).sessions,
            final(self).sessions_fts == old(self).sessions_fts,
            final(self).tool_calls == old(self).tool_calls,
            final(self).messages_view().len() == old(self).messages_view().len()
                + s.messages@.len(),
            final(self).messages_view().subrange(0, old(self).messages_view().len() as int) == old(self).messages_view(),
            forall|k: int|
                0 <= k < s.messages@.len() ==> {
                    let m = #[trigger] final(self).messages_view()[old(self).messages_view().len()
                        + k];
                    &&& m.session_id == s.id@
                    &&& m.role == role_str(s.messages@[k].role)
                    &&& m.content == s.messages@[k].content@
                    &&& m.timestamp == s.messages@[k].timestamp
                    &&& m.files_changed == s.messages@[k].files_changed.deep_view()
                },
            final(self).messages_fts_view().len() == final(self).messages_view().len(),
            forall|i: int|
                0 <= i < final(self).messages_view().len() ==> #[trigger] final(self).messages_fts_view()[i].session_id == final(self).messages_view()[i].session_id,
            forall|i: int|
                0 <= i < final(self).messages_view().len() ==> #[trigger] final(self).messages_fts_view()[i].role == final(self).messages_view()[i].role,
            forall|i: int|
                0 <= i < final(self).messages_view().len() ==> #[trigger] final(self).messages_fts_view()[i].content == final(self).messages_view()[i].content,
    {
        let mut k: usize = 0;
        proof {
            assert(self.messages_view().subrange(0, old(self).messages_view().len() as int)
                =~= old(self).messages_view());
            assert forall|i: int|
                0 <= i < self.messages_view().len() implies #[trigger] self.messages_fts_view()[i].role
                == self.messages_view()[i].role by {
                assert(self.messages_fts_view()[i].session_id
                    == self.messages_view()[i].session_id);
            }
            assert forall|i: int|
                0 <= i < self.messages_view().len() implies #[trigger] self.messages_fts_view()[i].content
                == self.messages_view()[i].content by {
                assert(self.messages_fts_view()[i].session_id
                    == self.messages_view()[i].session_id);
            }
        }
        while k < s.messages.len()
            invariant
                k <= s.messages@.len(),
                self.sessions == old(self).sessions,
                self.sessions_fts == old(self).sessions_fts,
                self.tool_calls == old(self).tool_calls,
                self.messages_view().len() == old(self).messages_view().len() + k,
                self.messages_view().subrange(0, old(self).messages_view().len() as int) == old(self).messages_view(),
                forall|j: int|
                    0 <= j < k ==> {
                        let m = #[trigger] self.messages_view()[old(self).messages_view().len()
                            + j];
                        &&& m.session_id == s.id@
                        &&& m.role == role_str(s.messages@[j].role)
                        &&& m.content == s.messages@[j].content@
                        &&& m.timestamp == s.messages@[j].timestamp
                        &&& m.files_changed == s.messages@[j].files_changed.deep_view()
                    },
                self.messages_fts_view().len() == self.messages_view().len(),
                forall|i: int|
                    0 <= i < self.messages_view().len() ==> #[trigger] self.messages_fts_view()[i].session_id
                        == self.messages_view()[i].session_id,
                forall|i: int|
                    0 <= i < self.messages_view().len() ==> #[trigger] self.messages_fts_view()[i].role
                        == self.messages_view()[i].role,
                forall|i: int|
                    0 <= i < self.messages_view().len() ==> #[trigger] self.messages_fts_view()[i].content
                        == self.messages_view()[i].content,
            decreases s.messages@.len() - k,
        {
            let m = &s.messages[k];
            let mid = self.next_message_id;
            if self.next_message_id < i64::MAX {
                self.next_message_id = self.next_message_id + 1;
            }
            let ghost pre_m = self.messages.deep_view();
            let ghost pre_f = self.messages_fts.deep_view();
            let row = MessageRow {
                id: mid,
                session_id: clone_string(&s.id),
                role: string_of_lit(m.role.as_str()),
                content: clone_string(&m.content),
                timestamp: m.timestamp,
                files_changed: clone_string_vec(&m.files_changed),
            };
            let ghost rv = row@;
            self.messages.push(row);
            let frow = MessageFtsRow {
                session_id: clone_string(&s.id),
                role: string_of_lit(m.role.as_str()),
                content: clone_string(&m.content),
            };
            let ghost fv = frow@;
            self.messages_fts.push(frow);
            k = k + 1;
            proof {
                assert(self.messages.deep_view() =~~= pre_m.push(rv));
                assert(self.messages_fts.deep_view() =~~= pre_f.push(fv));
                assert(self.messages_view().subrange(0, old(self).messages_view().len() as int)
                    =~= pre_m.subrange(0, old(self).messages_view().len() as int));
            }
        }
    }

    /// Appends the tool-call rows for `s`.
    fn append_tool_calls(&mut self, s: &SessionData)
        ensures
            final(self).sessions == old(self).sessions,
            final(self).sessions_fts == old(self).sessions_fts,
            final(self).messages == old(self).messages,
            final(self).messages_fts == old(self).messages_fts,
            final(self).tool_calls_view().len() == old(self).tool_calls_view().len()
                + s.tool_calls@.len(),
            final(self).tool_calls_view().subrange(0, old(self).tool_calls_view().len() as int)
                == old(self).tool_calls_view(),
            forall|k: int|
                0 <= k < s.tool_calls@.len() ==> {
                    let t = #[trigger] final(self).tool_calls_view()[old(self).tool_calls_view().len() + k];
                    &&& t.session_id == s.id@
                    &&& t.tool_name == s.tool_calls@[k].tool_name@
                    &&& t.file_path == ostr(s.tool_calls@[k].file_path)
                    &&& t.timestamp == s.tool_calls@[k].timestamp
                },
    {
        let mut k: usize = 0;
        proof {
            assert(self.tool_calls_view().subrange(0, old(self).tool_calls_view().len() as int)
                =~= old(self).tool_calls_view());
        }
        while k < s.tool_calls.len()
            invariant
                k <= s.tool_calls@.len(),
                self.sessions == old(self).sessions,
                self.sessions_fts == old(self).sessions_fts,
                self.messages == old(self).messages,
                self.messages_fts == old(self).messages_fts,
                self.tool_calls_view().len() == old(self).tool_calls_view().len() + k,
                self.tool_calls_view().subrange(0, old(self).tool_calls_view().len() as int)
                    == old(self).tool_calls_view(),
                forall|j: int|
                    0 <= j < k ==> {
                        let t = #[trigger] self.tool_calls_view()[old(self).tool_calls_view().len() + j];
                        &&& t.session_id == s.id@
                        &&& t.tool_name == s.tool_calls@[j].tool_name@
                        &&& t.file_path == ostr(s.tool_calls@[j].file_path)
                        &&& t.timestamp == s.tool_calls@[j].timestamp
                    },
            decreases s.tool_calls@.len() - k,
        {
            let t = &s.tool_calls[k];
            let tid = self.next_tool_call_id;
            if self.next_tool_call_id < i64::MAX {
                self.next_tool_call_id = self.next_tool_call_id + 1;
            }
            let ghost pre_t = self.tool_calls.deep_view();
            let row = ToolCallRow {
                id: tid,
                session_id: clone_string(&s.id),
                tool_name: clone_string(&t.tool_name),
                file_path: clone_opt_string(&t.file_path),
                timestamp: t.timestamp,
            };
            let ghost rv = row@;
            self.tool_calls.push(row);
            k = k + 1;
            proof {
                assert(self.tool_calls.deep_view() =~~= pre_t.push(rv));
                assert(self.tool_calls_view().subrange(0, old(self).tool_calls_view().len() as int)
                    =~= pre_t.subrange(0, old(self).tool_calls_view().len() as int));
            }
        }
    }
}

fn string_of_lit(s: &str) -> (r: String)
    ensures
        r@ == s@,
{
    let v = text::chars_of(s);
    text::string_from_chars(&v)
}

fn opt_string_or_empty(o: &Option<String>) -> (r: String)
    ensures
        r@ == ostr_or_empty(*o),
{
    match o {
        Some(s) => clone_string(s),
        None => {
            let r = String::new();
            proof {
                assert(r@ =~= Seq::<char>::empty());
            }
            r
        },
    }
}

/// Removing one session's rows keeps the remaining ids unique, keeps
/// every remaining row one of the rows it had, and keeps every other
/// session present.
proof fn lemma_except_unique(ss: Seq<SessionRowV>, x: Seq<char>)
    requires
        forall|i: int, j: int| 0 <= i < j < ss.len() ==> ss[i].id != ss[j].id,
    ensures
        forall|i: int, j: int|
            0 <= i < j < sessions_except(ss, x).len() ==> sessions_except(ss, x)[i].id
                != sessions_except(ss, x)[j].id,
        forall|a: int|
            0 <= a < sessions_except(ss, x).len() ==> exists|k: int|
                0 <= k < ss.len() && ss[k] == #[trigger] sessions_except(ss, x)[a],
        forall|k: int|
            0 <= k < ss.len() && (#[trigger] ss[k].id) != x ==> exists|a: int|
                0 <= a < sessions_except(ss, x).len() && sessions_except(ss, x)[a] == ss[k],
    decreases ss.len(),
{
    reveal(Seq::filter);
    if ss.len() > 0 {
        let dl = ss.drop_last();
        lemma_except_unique(dl, x);
        let fdl = sessions_except(dl, x);
        let f = sessions_except(ss, x);
        assert forall|a: int| 0 <= a < fdl.len() implies exists|k: int|
            0 <= k < ss.len() && ss[k] == #[trigger] fdl[a] by {
            let k = choose|k: int| 0 <= k < dl.len() && dl[k] == fdl[a];
            assert(ss[k] == fdl[a]);
        }
        if ss.last().id != x {
            assert(f == fdl.push(ss.last()));
            assert forall|i: int, j: int| 0 <= i < j < f.len() implies f[i].id != f[j].id by {
                if j < f.len() - 1 {
                    assert(fdl[i].id != fdl[j].id);
                } else {
                    let k = choose|k: int| 0 <= k < dl.len() && dl[k] == fdl[i];
                    assert(ss[k].id != ss[ss.len() - 1].id);
                }
            }
            assert forall|k: int|
                0 <= k < ss.len() && (#[trigger] ss[k].id) != x implies exists|a: int|
                0 <= a < f.len() && f[a] == ss[k] by {
                if k < ss.len() - 1 {
                    assert(dl[k].id != x);
                    let a = choose|a: int| 0 <= a < fdl.len() && fdl[a] == dl[k];
                    assert(f[a] == ss[k]);
                } else {
                    assert(f[f.len() - 1] == ss[k]);
                }
            }
        } else {
            assert(f == fdl);
            assert forall|k: int|
                0 <= k < ss.len() && (#[trigger] ss[k].id) != x implies exists|a: int|
                0 <= a < f.len() && f[a] == ss[k] by {
                assert(k < ss.len() - 1);
                assert(dl[k].id != x);
                let a = choose|a: int| 0 <= a < fdl.len() && fdl[a] == dl[k];
                assert(f[a] == ss[k]);
            }
        }
    }
}

impl Database {
    /// Removes one session with all its messages, tool calls and rows in
    /// both indexes. Removing an absent id succeeds and changes nothing.
    pub fn delete_session(&mut self, session_id: &str) -> (r: Result<(), StoreError>)
        requires
            old(self).wf(),
        ensures
            r is Ok,
            final(self).wf(),
            final(self).sessions_view() == sessions_except(old(self).sessions_view(), session_id@),
            final(self).messages_view() == messages_except(old(self).messages_view(), session_id@),
            final(self).tool_calls_view() == tool_calls_except(
                old(self).tool_calls_view(),
                session_id@,
            ),
            final(self).messages_fts_view() == msg_fts_except(
                old(self).messages_fts_view(),
                session_id@,
            ),
            final(self).sessions_fts_view() == sess_fts_except(
                old(self).sessions_fts_view(),
                session_id@,
            ),
    {
        let ghost x = session_id@;
        let idv = text::chars_of(session_id);
        let ghost old_sv = self.sessions_view();
        let ghost old_fv = self.sessions_fts_view();
        let mut new_s: Vec<SessionRow> = Vec::new();
        let mut new_f: Vec<SessionFtsRow> = Vec::new();
        let mut i: usize = 0;
        proof {
            reveal(Seq::filter);
            assert(old_sv.subrange(0, 0) =~= Seq::<SessionRowV>::empty());
            assert(old_fv.subrange(0, 0) =~= Seq::<SessionFtsRowV>::empty());
            assert(new_s.deep_view() =~= Seq::<SessionRowV>::empty());
            assert(new_f.deep_view() =~= Seq::<SessionFtsRowV>::empty());
        }
        while i < self.sessions.len()
            invariant
                i <= self.sessions@.len(),
                self.sessions@.len() == old_sv.len(),
                self.sessions_fts@.len() == old_fv.len(),
                old_sv == self.sessions_view(),
                old_fv == self.sessions_fts_view(),
                old_fv.len() == old_sv.len(),
                forall|j: int| 0 <= j < old_sv.len() ==> #[trigger] old_fv[j].session_id == old_sv[j].id,
                idv@ == x,
                new_s.deep_view() == sessions_except(old_sv.subrange(0, i as int), x),
                new_f.deep_view() == sess_fts_except(old_fv.subrange(0, i as int), x),
            decreases self.sessions@.len() - i,
        {
            proof {
                reveal(Seq::filter);
                assert(old_sv.subrange(0, i + 1).drop_last() =~= old_sv.subrange(0, i as int));
                assert(old_sv.subrange(0, i + 1).last() == old_sv[i as int]);
                assert(old_fv.subrange(0, i + 1).drop_last() =~= old_fv.subrange(0, i as int));
                assert(old_fv.subrange(0, i + 1).last() == old_fv[i as int]);
                assert(old_sv[i as int] == self.sessions@[i as int]@);
                assert(old_fv[i as int] == self.sessions_fts@[i as int]@);
            }
            let rid = text::chars_of(self.sessions[i].id.as_str());
            if !text::eq_chars(&rid, &idv) {
                let ghost pre_s = new_s.deep_view();
                let ghost pre_f = new_f.deep_view();
                let row = clone_session_row(&self.sessions[i]);
                let ghost rv = row@;
                new_s.push(row);
                let frow = clone_sess_fts_row(&self.sessions_fts[i]);
                let ghost fv2 = frow@;
                new_f.push(frow);
                proof {
                    assert(new_s.deep_view() =~= pre_s.push(rv));
                    assert(new_f.deep_view() =~= pre_f.push(fv2));
                }
            }
            i = i + 1;
        }
        proof {
            assert(old_sv.subrange(0, old_sv.len() as int) =~= old_sv);
            assert(old_fv.subrange(0, old_fv.len() as int) =~= old_fv);
        }
        self.sessions = new_s;
        self.sessions_fts = new_f;
        let ghost old_mv = self.messages_view();
        let ghost old_mfv = self.messages_fts_view();
        let mut new_m: Vec<MessageRow> = Vec::new();
        let mut new_mf: Vec<MessageFtsRow> = Vec::new();
        let mut k: usize = 0;
        proof {
            reveal(Seq::filter);
            assert(old_mv.subrange(0, 0) =~= Seq::<MessageRowV>::empty());
            assert(old_mfv.subrange(0, 0) =~= Seq::<MessageFtsRowV>::empty());
            assert(new_m.deep_view() =~= Seq::<MessageRowV>::empty());
            assert(new_mf.deep_view() =~= Seq::<MessageFtsRowV>::empty());
        }
        while k < self.messages.len()
            invariant
                k <= self.messages@.len(),
                self.messages@.len() == old_mv.len(),
                self.messages_fts@.len() == old_mfv.len(),
                old_mv == self.messages_view(),
                old_mfv == self.messages_fts_view(),
                old_mfv.len() == old_mv.len(),
                forall|j: int|
                    0 <= j < old_mv.len() ==> #[trigger] old_mfv[j].session_id
                        == old_mv[j].session_id,
                idv@ == x,
                new_m.deep_view() == messages_except(old_mv.subrange(0, k as int), x),
                new_mf.deep_view() == msg_fts_except(old_mfv.subrange(0, k as int), x),
            decreases self.messages@.len() - k,
        {
            proof {
                reveal(Seq::filter);
                assert(old_mv.subrange(0, k + 1).drop_last() =~= old_mv.subrange(0, k as int));
                assert(old_mv.subrange(0, k + 1).last() == old_mv[k as int]);
                assert(old_mfv.subrange(0, k + 1).drop_last() =~= old_mfv.subrange(0, k as int));
                assert(old_mfv.subrange(0, k + 1).last() == old_mfv[k as int]);
                assert(old_mv[k as int] == self.messages@[k as int]@);
                assert(old_mfv[k as int] == self.messages_fts@[k as int]@);
            }
            let rid = text::chars_of(self.messages[k].session_id.as_str());
            if !text::eq_chars(&rid, &idv) {
                let ghost pre_m = new_m.deep_view();
                let ghost pre_f = new_mf.deep_view();
                let row = clone_message_row(&self.messages[k]);
                let ghost rv = row@;
                new_m.push(row);
                let frow = clone_msg_fts_row(&self.messages_fts[k]);
                let ghost fv2 = frow@;
                new_mf.push(frow);
                proof {
                    assert(new_m.deep_view() =~= pre_m.push(rv));
                    assert(new_mf.deep_view() =~= pre_f.push(fv2));
                }
            }
            k = k + 1;
        }
        proof {
            assert(old_mv.subrange(0, old_mv.len() as int) =~= old_mv);
            assert(old_mfv.subrange(0, old_mfv.len() as int) =~= old_mfv);
        }
        self.messages = new_m;
        self.messages_fts = new_mf;
        let ghost old_tv = self.tool_calls_view();
        let mut new_t: Vec<ToolCallRow> = Vec::new();
        let mut p: usize = 0;
        proof {
            reveal(Seq::filter);
            assert(old_tv.subrange(0, 0) =~= Seq::<ToolCallRowV>::empty());
            assert(new_t.deep_view() =~= Seq::<ToolCallRowV>::empty());
        }
        while p < self.tool_calls.len()
            invariant
                p <= self.tool_calls@.len(),
                self.tool_calls@.len() == old_tv.len(),
                old_tv == self.tool_calls_view(),
                idv@ == x,
                new_t.deep_view() == tool_calls_except(old_tv.subrange(0, p as int), x),
            decreases self.tool_calls@.len() - p,
        {
            proof {
                reveal(Seq::filter);
                assert(old_tv.subrange(0, p + 1).drop_last() =~= old_tv.subrange(0, p as int));
                assert(old_tv.subrange(0, p + 1).last() == old_tv[p as int]);
                assert(old_tv[p as int] == self.tool_calls@[p as int]@);
            }
            let rid = text::chars_of(self.tool_calls[p].session_id.as_str());
            if !text::eq_chars(&rid, &idv) {
                let ghost pre_t = new_t.deep_view();
                let row = clone_tool_call_row(&self.tool_calls[p]);
                let ghost rv = row@;
                new_t.push(row);
                proof {
                    assert(new_t.deep_view() =~= pre_t.push(rv));
                }
            }
            p = p + 1;
        }
        proof {
            assert(old_tv.subrange(0, old_tv.len() as int) =~= old_tv);
        }
        self.tool_calls = new_t;
        proof {
            lemma_except_unique(old_sv, x);
            lemma_restore_parents(old_sv, old_mv, old_tv, x);
            lemma_except_aligned(old_sv, old_fv, old_mv, old_mfv, x);
        }
        Ok(())
    }
}

/// Every remaining message after removal kept its fields and lost
/// nothing but the removed session's rows.
proof fn lemma_msgs_except_props(ms: Seq<MessageRowV>, x: Seq<char>)
    ensures
        forall|i: int|
            0 <= i < messages_except(ms, x).len() ==> (#[trigger] messages_except(ms, x)[i]).session_id
                != x,
        forall|i: int|
            0 <= i < messages_except(ms, x).len() ==> exists|k: int|
                0 <= k < ms.len() && ms[k] == #[trigger] messages_except(ms, x)[i],
    decreases ms.len(),
{
    reveal(Seq::filter);
    if ms.len() > 0 {
        let dl = ms.drop_last();
        lemma_msgs_except_props(dl, x);
        let fdl = messages_except(dl, x);
        let f = messages_except(ms, x);
        assert forall|i: int| 0 <= i < fdl.len() implies exists|k: int|
            0 <= k < ms.len() && ms[k] == #[trigger] fdl[i] by {
            let k = choose|k: int| 0 <= k < dl.len() && dl[k] == fdl[i];
            assert(ms[k] == fdl[i]);
        }
        if ms.last().session_id != x {
            assert(f == fdl.push(ms.last()));
            assert(f[f.len() - 1] == ms[ms.len() - 1]);
        } else {
            assert(f == fdl);
        }
    }
}

/// Every remaining tool call after removal kept its fields and lost
/// nothing but the removed session's rows.
proof fn lemma_tcs_except_props(ts: Seq<ToolCallRowV>, x: Seq<char>)
    ensures
        forall|i: int|
            0 <= i < tool_calls_except(ts, x).len() ==> (#[trigger] tool_calls_except(ts, x)[i]).session_id
                != x,
        forall|i: int|
            0 <= i < tool_calls_except(ts, x).len() ==> exists|k: int|
                0 <= k < ts.len() && ts[k] == #[trigger] tool_calls_except(ts, x)[i],
    decreases ts.len(),
{
    reveal(Seq::filter);
    if ts.len() > 0 {
        let dl = ts.drop_last();
        lemma_tcs_except_props(dl, x);
        let fdl = tool_calls_except(dl, x);
        let f = tool_calls_except(ts, x);
        assert forall|i: int| 0 <= i < fdl.len() implies exists|k: int|
            0 <= k < ts.len() && ts[k] == #[trigger] fdl[i] by {
            let k = choose|k: int| 0 <= k < dl.len() && dl[k] == fdl[i];
            assert(ts[k] == fdl[i]);
        }
        if ts.last().session_id != x {
            assert(f == fdl.push(ts.last()));
            assert(f[f.len() - 1] == ts[ts.len() - 1]);
        } else {
            assert(f == fdl);
        }
    }
}

/// After removal, every remaining message and tool call still has its
/// session: its id differs from the removed one, so its session stayed.
proof fn lemma_restore_parents(
    ss: Seq<SessionRowV>,
    ms: Seq<MessageRowV>,
    ts: Seq<ToolCallRowV>,
    x: Seq<char>,
)
    requires
        forall|i: int, j: int| 0 <= i < j < ss.len() ==> ss[i].id != ss[j].id,
        forall|i: int|
            0 <= i < ms.len() ==> has_session_id(ss, #[trigger] ms[i].session_id),
        forall|i: int|
            0 <= i < ts.len() ==> has_session_id(ss, #[trigger] ts[i].session_id),
    ensures
        forall|i: int|
            0 <= i < messages_except(ms, x).len() ==> has_session_id(
                sessions_except(ss, x),
                #[trigger] messages_except(ms, x)[i].session_id,
            ),
        forall|i: int|
            0 <= i < tool_calls_except(ts, x).len() ==> has_session_id(
                sessions_except(ss, x),
                #[trigger] tool_calls_except(ts, x)[i].session_id,
            ),
{
    lemma_except_unique(ss, x);
    lemma_msgs_except_props(ms, x);
    lemma_tcs_except_props(ts, x);
    assert forall|i: int| 0 <= i < messages_except(ms, x).len() implies has_session_id(
        sessions_except(ss, x),
        #[trigger] messages_except(ms, x)[i].session_id,
    ) by {
        let m = messages_except(ms, x)[i];
        let k = choose|k: int| 0 <= k < ms.len() && ms[k] == m;
        assert(has_session_id(ss, m.session_id));
        let j = choose|j: int| 0 <= j < ss.len() && ss[j].id == m.session_id;
        assert(ss[j].id != x);
        let a = choose|a: int|
            0 <= a < sessions_except(ss, x).len() && sessions_except(ss, x)[a] == ss[j];
        assert(sessions_except(ss, x)[a].id == m.session_id);
    }
    assert forall|i: int| 0 <= i < tool_calls_except(ts, x).len() implies has_session_id(
        sessions_except(ss, x),
        #[trigger] tool_calls_except(ts, x)[i].session_id,
    ) by {
        let t = tool_calls_except(ts, x)[i];
        let k = choose|k: int| 0 <= k < ts.len() && ts[k] == t;
        assert(has_session_id(ss, t.session_id));
        let j = choose|j: int| 0 <= j < ss.len() && ss[j].id == t.session_id;
        assert(ss[j].id != x);
        let a = choose|a: int|
            0 <= a < sessions_except(ss, x).len() && sessions_except(ss, x)[a] == ss[j];
        assert(sessions_except(ss, x)[a].id == t.session_id);
    }
}

/// Filtering two aligned row sequences by the same id keeps them
/// aligned.
proof fn lemma_except_aligned(
    ss: Seq<SessionRowV>,
    fs: Seq<SessionFtsRowV>,
    ms: Seq<MessageRowV>,
    mf: Seq<MessageFtsRowV>,
    x: Seq<char>,
)
    requires
        fs.len() == ss.len(),
        forall|i: int| 0 <= i < ss.len() ==> #[trigger] fs[i].session_id == ss[i].id,
        mf.len() == ms.len(),
        forall|i: int| 0 <= i < ms.len() ==> #[trigger] mf[i].session_id == ms[i].session_id,
        forall|i: int| 0 <= i < ms.len() ==> #[trigger] mf[i].role == ms[i].role,
        forall|i: int| 0 <= i < ms.len() ==> #[trigger] mf[i].content == ms[i].content,
    ensures
        sess_fts_except(fs, x).len() == sessions_except(ss, x).len(),
        forall|i: int|
            0 <= i < sessions_except(ss, x).len() ==> #[trigger] sess_fts_except(fs, x)[i].session_id
                == sessions_except(ss, x)[i].id,
        msg_fts_except(mf, x).len() == messages_except(ms, x).len(),
        forall|i: int|
            0 <= i < messages_except(ms, x).len() ==> #[trigger] msg_fts_except(mf, x)[i].session_id
                == messages_except(ms, x)[i].session_id,
        forall|i: int|
            0 <= i < messages_except(ms, x).len() ==> #[trigger] msg_fts_except(mf, x)[i].role
                == messages_except(ms, x)[i].role,
        forall|i: int|
            0 <= i < messages_except(ms, x).len() ==> #[trigger] msg_fts_except(mf, x)[i].content
                == messages_except(ms, x)[i].content,
    decreases ss.len() + ms.len(),
{
    reveal(Seq::filter);
    if ss.len() > 0 {
        assert forall|i: int|
            0 <= i < ss.drop_last().len() implies #[trigger] fs.drop_last()[i].session_id
            == ss.drop_last()[i].id by {
            assert(fs[i].session_id == ss[i].id);
        }
        lemma_except_aligned(ss.drop_last(), fs.drop_last(), ms, mf, x);
        assert(fs[ss.len() - 1].session_id == ss[ss.len() - 1].id);
    } else if ms.len() > 0 {
        assert forall|i: int|
            0 <= i < ms.drop_last().len() implies #[trigger] mf.drop_last()[i].session_id
            == ms.drop_last()[i].session_id by {
            assert(mf[i].session_id == ms[i].session_id);
        }
        assert forall|i: int|
            0 <= i < ms.drop_last().len() implies #[trigger] mf.drop_last()[i].role
            == ms.drop_last()[i].role by {
            assert(mf[i].role == ms[i].role);
        }
        assert forall|i: int|
            0 <= i < ms.drop_last().len() implies #[trigger] mf.drop_last()[i].content
            == ms.drop_last()[i].content by {
            assert(mf[i].content == ms[i].content);
        }
        lemma_except_aligned(ss, fs, ms.drop_last(), mf.drop_last(), x);
        assert(mf[ms.len() - 1].session_id == ms[ms.len() - 1].session_id);
    }
}

fn clone_sess_fts_row(row: &SessionFtsRow) -> (r: SessionFtsRow)
    ensures
        r@ == row@,
{
    SessionFtsRow {
        session_id: clone_string(&row.session_id),
        summary: clone_string(&row.summary),
        work_summary: clone_string(&row.work_summary),
        project_name: clone_string(&row.project_name),
        tags: clone_string(&row.tags),
    }
}

fn clone_msg_fts_row(row: &MessageFtsRow) -> (r: MessageFtsRow)
    ensures
        r@ == row@,
{
    MessageFtsRow {
        session_id: clone_string(&row.session_id),
        role: clone_string(&row.role),
        content: clone_string(&row.content),
    }
}

/// Appending a session's fresh rows after its old rows were purged
/// leaves exactly the fresh rows visible for that session.
proof fn lemma_msgs_for_all(b: Seq<MessageRowV>, x: Seq<char>)
    requires
        forall|i: int| 0 <= i < b.len() ==> (#[trigger] b[i]).session_id == x,
    ensures
        messages_for(b, x) == b,
    decreases b.len(),
{
    reveal(Seq::filter);
    if b.len() > 0 {
        assert(forall|i: int|
            0 <= i < b.drop_last().len() ==> (#[trigger] b.drop_last()[i]).session_id == x);
        lemma_msgs_for_all(b.drop_last(), x);
        assert(b.drop_last().push(b[b.len() - 1]) =~= b);
    }
}

proof fn lemma_msgs_for_none(a: Seq<MessageRowV>, x: Seq<char>)
    requires
        forall|i: int| 0 <= i < a.len() ==> (#[trigger] a[i]).session_id != x,
    ensures
        messages_for(a, x) == Seq::<MessageRowV>::empty(),
    decreases a.len(),
{
    reveal(Seq::filter);
    if a.len() > 0 {
        assert(forall|i: int|
            0 <= i < a.drop_last().len() ==> (#[trigger] a.drop_last()[i]).session_id != x);
        lemma_msgs_for_none(a.drop_last(), x);
    }
}

/// Appending a session's fresh rows after its old rows were purged
/// leaves exactly the fresh rows visible for that session.
proof fn lemma_msgs_for_split(a: Seq<MessageRowV>, b: Seq<MessageRowV>, x: Seq<char>)
    requires
        forall|i: int| 0 <= i < a.len() ==> (#[trigger] a[i]).session_id != x,
        forall|i: int| 0 <= i < b.len() ==> (#[trigger] b[i]).session_id == x,
    ensures
        messages_for(a + b, x) == b,
{
    broadcast use vstd::seq_lib::group_seq_lib_default;

    lemma_msgs_for_none(a, x);
    lemma_msgs_for_all(b, x);
    assert(Seq::<MessageRowV>::empty() + b =~= b);
}

proof fn lemma_tcs_for_all(b: Seq<ToolCallRowV>, x: Seq<char>)
    requires
        forall|i: int| 0 <= i < b.len() ==> (#[trigger] b[i]).session_id == x,
    ensures
        tool_calls_for(b, x) == b,
    decreases b.len(),
{
    reveal(Seq::filter);
    if b.len() > 0 {
        assert(forall|i: int|
            0 <= i < b.drop_last().len() ==> (#[trigger] b.drop_last()[i]).session_id == x);
        lemma_tcs_for_all(b.drop_last(), x);
        assert(b.drop_last().push(b[b.len() - 1]) =~= b);
    }
}

proof fn lemma_tcs_for_none(a: Seq<ToolCallRowV>, x: Seq<char>)
    requires
        forall|i: int| 0 <= i < a.len() ==> (#[trigger] a[i]).session_id != x,
    ensures
        tool_calls_for(a, x) == Seq::<ToolCallRowV>::empty(),
    decreases a.len(),
{
    reveal(Seq::filter);
    if a.len() > 0 {
        assert(forall|i: int|
            0 <= i < a.drop_last().len() ==> (#[trigger] a.drop_last()[i]).session_id != x);
        lemma_tcs_for_none(a.drop_last(), x);
    }
}

/// The tool-call counterpart of `lemma_msgs_for_split`.
proof fn lemma_tcs_for_split(a: Seq<ToolCallRowV>, b: Seq<ToolCallRowV>, x: Seq<char>)
    requires
        forall|i: int| 0 <= i < a.len() ==> (#[trigger] a[i]).session_id != x,
        forall|i: int| 0 <= i < b.len() ==> (#[trigger] b[i]).session_id == x,
    ensures
        tool_calls_for(a + b, x) == b,
{
    broadcast use vstd::seq_lib::group_seq_lib_default;

    lemma_tcs_for_none(a, x);
    lemma_tcs_for_all(b, x);
    assert(Seq::<ToolCallRowV>::empty() + b =~= b);
}

impl Database {
    /// Removes one session's messages, tool calls and message-index
    /// rows, leaving the session rows and the session index alone.
    fn purge_children(&mut self, session_id: &str)
        requires
            old(self).messages_fts_view().len() == old(self).messages_view().len(),
            forall|i: int|
                0 <= i < old(self).messages_view().len() ==> #[trigger] old(self).messages_fts_view()[i].session_id
                    == old(self).messages_view()[i].session_id,
            forall|i: int|
                0 <= i < old(self).messages_view().len() ==> #[trigger] old(self).messages_fts_view()[i].role
                    == old(self).messages_view()[i].role,
            forall|i: int|
                0 <= i < old(self).messages_view().len() ==> #[trigger] old(self).messages_fts_view()[i].content
                    == old(self).messages_view()[i].content,
        ensures
            final(self).sessions == old(self).sessions,
            final(self).sessions_fts == old(self).sessions_fts,
            final(self).messages_view() == messages_except(old(self).messages_view(), session_id@),
            final(self).messages_fts_view() == msg_fts_except(
                old(self).messages_fts_view(),
                session_id@,
            ),
            final(self).tool_calls_view() == tool_calls_except(
                old(self).tool_calls_view(),
                session_id@,
            ),
            final(self).messages_fts_view().len() == final(self).messages_view().len(),
            forall|i: int|
                0 <= i < final(self).messages_view().len() ==> #[trigger] final(self).messages_fts_view()[i].session_id
                    == final(self).messages_view()[i].session_id,
            forall|i: int|
                0 <= i < final(self).messages_view().len() ==> #[trigger] final(self).messages_fts_view()[i].role
                    == final(self).messages_view()[i].role,
            forall|i: int|
                0 <= i < final(self).messages_view().len() ==> #[trigger] final(self).messages_fts_view()[i].content
                    == final(self).messages_view()[i].content,
    {
        let ghost x = session_id@;
        let idv = text::chars_of(session_id);
        let ghost old_mv = self.messages_view();
        let ghost old_mfv = self.messages_fts_view();
        let mut new_m: Vec<MessageRow> = Vec::new();
        let mut new_mf: Vec<MessageFtsRow> = Vec::new();
        let mut k: usize = 0;
        proof {
            reveal(Seq::filter);
            assert(old_mv.subrange(0, 0) =~= Seq::<MessageRowV>::empty());
            assert(old_mfv.subrange(0, 0) =~= Seq::<MessageFtsRowV>::empty());
            assert(new_m.deep_view() =~= Seq::<MessageRowV>::empty());
            assert(new_mf.deep_view() =~= Seq::<MessageFtsRowV>::empty());
        }
        while k < self.messages.len()
            invariant
                k <= self.messages@.len(),
                self.messages@.len() == old_mv.len(),
                self.messages_fts@.len() == old_mfv.len(),
                old_mv == self.messages_view(),
                old_mfv == self.messages_fts_view(),
                old_mfv.len() == old_mv.len(),
                forall|j: int|
                    0 <= j < old_mv.len() ==> #[trigger] old_mfv[j].session_id
                        == old_mv[j].session_id,
                idv@ == x,
                new_m.deep_view() == messages_except(old_mv.subrange(0, k as int), x),
                new_mf.deep_view() == msg_fts_except(old_mfv.subrange(0, k as int), x),
            decreases self.messages@.len() - k,
        {
            proof {
                reveal(Seq::filter);
                assert(old_mv.subrange(0, k + 1).drop_last() =~= old_mv.subrange(0, k as int));
                assert(old_mv.subrange(0, k + 1).last() == old_mv[k as int]);
                assert(old_mfv.subrange(0, k + 1).drop_last() =~= old_mfv.subrange(0, k as int));
                assert(old_mfv.subrange(0, k + 1).last() == old_mfv[k as int]);
                assert(old_mv[k as int] == self.messages@[k as int]@);
                assert(old_mfv[k as int] == self.messages_fts@[k as int]@);
            }
            let rid = text::chars_of(self.messages[k].session_id.as_str());
            if !text::eq_chars(&rid, &idv) {
                let ghost pre_m = new_m.deep_view();
                let ghost pre_f = new_mf.deep_view();
                let row = clone_message_row(&self.messages[k]);
                let ghost rv = row@;
                new_m.push(row);
                let frow = clone_msg_fts_row(&self.messages_fts[k]);
                let ghost fv2 = frow@;
                new_mf.push(frow);
                proof {
                    assert(new_m.deep_view() =~= pre_m.push(rv));
                    assert(new_mf.deep_view() =~= pre_f.push(fv2));
                }
            }
            k = k + 1;
        }
        proof {
            assert(old_mv.subrange(0, old_mv.len() as int) =~= old_mv);
            assert(old_mfv.subrange(0, old_mfv.len() as int) =~= old_mfv);
        }
        self.messages = new_m;
        self.messages_fts = new_mf;
        let ghost old_tv = self.tool_calls_view();
        let mut new_t: Vec<ToolCallRow> = Vec::new();
        let mut p: usize = 0;
        proof {
            reveal(Seq::filter);
            assert(old_tv.subrange(0, 0) =~= Seq::<ToolCallRowV>::empty());
            assert(new_t.deep_view() =~= Seq::<ToolCallRowV>::empty());
        }
        while p < self.tool_calls.len()
            invariant
                p <= self.tool_calls@.len(),
                self.tool_calls@.len() == old_tv.len(),
                old_tv == self.tool_calls_view(),
                idv@ == x,
                new_t.deep_view() == tool_calls_except(old_tv.subrange(0, p as int), x),
            decreases self.tool_calls@.len() - p,
        {
            proof {
                reveal(Seq::filter);
                assert(old_tv.subrange(0, p + 1).drop_last() =~= old_tv.subrange(0, p as int));
                assert(old_tv.subrange(0, p + 1).last() == old_tv[p as int]);
                assert(old_tv[p as int] == self.tool_calls@[p as int]@);
            }
            let rid = text::chars_of(self.tool_calls[p].session_id.as_str());
            if !text::eq_chars(&rid, &idv) {
                let ghost pre_t = new_t.deep_view();
                let row = clone_tool_call_row(&self.tool_calls[p]);
                let ghost rv = row@;
                new_t.push(row);
                proof {
                    assert(new_t.deep_view() =~= pre_t.push(rv));
                }
            }
            p = p + 1;
        }
        proof {
            assert(old_tv.subrange(0, old_tv.len() as int) =~= old_tv);
        }
        self.tool_calls = new_t;
        proof {
            assert forall|i: int|
                0 <= i < old_mv.len() implies #[trigger] old_mfv[i].session_id
                == old_mv[i].session_id && old_mfv[i].role == old_mv[i].role
                && old_mfv[i].content == old_mv[i].content by {
                assert(old(self).messages_fts_view()[i].session_id == old(
                    self,
                ).messages_view()[i].session_id);
            }
            lemma_except_aligned(
                Seq::<SessionRowV>::empty(),
                Seq::<SessionFtsRowV>::empty(),
                old_mv,
                old_mfv,
                x,
            );
        }
    }

    /// Replaces an existing session: its derived metadata is updated and
    /// its messages, tool calls and message-index rows are replaced as a
    /// whole, so a reader afterward sees exactly the new message set.
    /// The session's identity, project, start time, tags and external
    /// summary stay as they were.
    #[verifier::rlimit(100)]
    #[verifier::spinoff_prover]
    pub fn update_session(&mut self, s: &SessionData) -> (r: Result<(), StoreError>)
        requires
            old(self).wf(),
        ensures
            final(self).wf(),
            r is Ok <==> has_session_id(old(self).sessions_view(), s.id@),
            r is Err ==> *final(self) == *old(self) && r == Err::<(), StoreError>(
                StoreError::SessionNotFound,
            ),
            r is Ok ==> exists|idx: int|
                {
                    &&& 0 <= idx < old(self).sessions_view().len()
                    &&& old(self).sessions_view()[idx].id == s.id@
                    &&& final(self).sessions_view().len() == old(self).sessions_view().len()
                    &&& (forall|j: int|
                        0 <= j < old(self).sessions_view().len() && j != idx
                            ==> final(self).sessions_view()[j] == old(self).sessions_view()[j])
                    &&& {
                        let nr = #[trigger] final(self).sessions_view()[idx];
                        let or = old(self).sessions_view()[idx];
                        &&& nr.id == or.id
                        &&& nr.agent == or.agent
                        &&& nr.project_path == or.project_path
                        &&& nr.project_name == or.project_name
                        &&& nr.started_at == or.started_at
                        &&& nr.tags == or.tags
                        &&& nr.llm_summary == or.llm_summary
                        &&& nr.summary == ostr(s.summary)
                        &&& nr.work_summary == ostr(s.work_summary)
                        &&& nr.ended_at == s.ended_at
                        &&& nr.message_count == to_i64_sat(s.messages@.len() as int)
                        &&& nr.files_created == to_i64_sat(
                            s.tool_calls@.filter(
                                |tc: crate::model::ToolCallData| is_create_call(tc),
                            ).len() as int,
                        )
                        &&& nr.files_modified == to_i64_sat(
                            s.tool_calls@.filter(
                                |tc: crate::model::ToolCallData| is_modify_call(tc),
                            ).len() as int,
                        )
                        &&& nr.files_deleted == to_i64_sat(
                            s.tool_calls@.filter(
                                |tc: crate::model::ToolCallData| is_delete_call(tc),
                            ).len() as int,
                        )
                    }
                    &&& (forall|j: int|
                        0 <= j < old(self).sessions_fts_view().len() && j != idx
                            ==> final(self).sessions_fts_view()[j] == old(self).sessions_fts_view()[j])
                    &&& {
                        let nf = #[trigger] final(self).sessions_fts_view()[idx];
                        let of = old(self).sessions_fts_view()[idx];
                        &&& nf.session_id == of.session_id
                        &&& nf.project_name == of.project_name
                        &&& nf.tags == of.tags
                        &&& nf.summary == ostr_or_empty(s.summary)
                        &&& nf.work_summary == ostr_or_empty(s.work_summary)
                    }
                },
            r is Ok ==> messages_for(final(self).messages_view(), s.id@).len()
                == s.messages@.len() && (forall|k: int|
                0 <= k < s.messages@.len() ==> {
                    let m = #[trigger] messages_for(final(self).messages_view(), s.id@)[k];
                    &&& m.role == role_str(s.messages@[k].role)
                    &&& m.content == s.messages@[k].content@
                    &&& m.timestamp == s.messages@[k].timestamp
                    &&& m.files_changed == s.messages@[k].files_changed.deep_view()
                }),
            r is Ok ==> tool_calls_for(final(self).tool_calls_view(), s.id@).len()
                == s.tool_calls@.len() && (forall|k: int|
                0 <= k < s.tool_calls@.len() ==> {
                    let t = #[trigger] tool_calls_for(final(self).tool_calls_view(), s.id@)[k];
                    &&& t.tool_name == s.tool_calls@[k].tool_name@
                    &&& t.file_path == ostr(s.tool_calls@[k].file_path)
                    &&& t.timestamp == s.tool_calls@[k].timestamp
                }),
            r is Ok ==> final(self).messages_view() == messages_except(
                old(self).messages_view(),
                s.id@,
            ) + messages_for(final(self).messages_view(), s.id@),
    {
        let ghost x = s.id@;
        let idx = match self.find_session(s.id.as_str()) {
            None => {
                return Err(StoreError::SessionNotFound);
            },
            Some(i) => i,
        };
        let old_row = &self.sessions[idx];
        let new_row = SessionRow {
            id: clone_string(&old_row.id),
            agent: clone_string(&old_row.agent),
            project_path: clone_opt_string(&old_row.project_path),
            project_name: clone_opt_string(&old_row.project_name),
            summary: clone_opt_string(&s.summary),
            work_summary: clone_opt_string(&s.work_summary),
            llm_summary: clone_opt_string(&old_row.llm_summary),
            started_at: old_row.started_at,
            ended_at: s.ended_at,
            message_count: usize_to_i64_sat(s.message_count()),
            files_created: usize_to_i64_sat(s.files_created()),
            files_modified: usize_to_i64_sat(s.files_modified()),
            files_deleted: usize_to_i64_sat(s.files_deleted()),
            tags: clone_string(&old_row.tags),
        };
        let ghost nrv = new_row@;
        self.sessions[idx] = new_row;
        let old_f = &self.sessions_fts[idx];
        let new_f = SessionFtsRow {
            session_id: clone_string(&old_f.session_id),
            summary: opt_string_or_empty(&s.summary),
            work_summary: opt_string_or_empty(&s.work_summary),
            project_name: clone_string(&old_f.project_name),
            tags: clone_string(&old_f.tags),
        };
        let ghost nfv = new_f@;
        self.sessions_fts[idx] = new_f;
        proof {
            assert(self.sessions.deep_view() =~~= old(self).sessions.deep_view().update(
                idx as int,
                nrv,
            ));
            assert(self.sessions_fts.deep_view() =~~= old(self).sessions_fts.deep_view().update(
                idx as int,
                nfv,
            ));
        }
        let ghost mid_mv = self.messages_view();
        let ghost mid_mfv = self.messages_fts_view();
        proof {
            assert(mid_mv == old(self).messages_view());
            assert(mid_mfv == old(self).messages_fts_view());
        }
        self.purge_children(s.id.as_str());
        let ghost purged_mv = self.messages_view();
        let ghost purged_tv = self.tool_calls_view();
        self.append_messages(s);
        self.append_tool_calls(s);
        proof {
            lemma_msgs_except_props(mid_mv, x);
            lemma_tcs_except_props(old(self).tool_calls_view(), x);
            let batch_m = self.messages_view().skip(purged_mv.len() as int);
            assert(self.messages_view() =~= purged_mv + batch_m);
            assert forall|i: int| 0 <= i < purged_mv.len() implies (#[trigger] purged_mv[i]).session_id
                != x by {}
            assert forall|i: int| 0 <= i < batch_m.len() implies (#[trigger] batch_m[i]).session_id
                == x by {
                assert(batch_m[i] == self.messages_view()[purged_mv.len() + i]);
            }
            lemma_msgs_for_split(purged_mv, batch_m, x);
            let batch_t = self.tool_calls_view().skip(purged_tv.len() as int);
            assert(self.tool_calls_view() =~= purged_tv + batch_t);
            assert forall|i: int| 0 <= i < purged_tv.len() implies (#[trigger] purged_tv[i]).session_id
                != x by {}
            assert forall|i: int| 0 <= i < batch_t.len() implies (#[trigger] batch_t[i]).session_id
                == x by {
                assert(batch_t[i] == self.tool_calls_view()[purged_tv.len() + i]);
            }
            lemma_tcs_for_split(purged_tv, batch_t, x);
            assert forall|k: int| 0 <= k < s.messages@.len() implies {
                let m = #[trigger] messages_for(self.messages_view(), x)[k];
                &&& m.role == role_str(s.messages@[k].role)
                &&& m.content == s.messages@[k].content@
                &&& m.timestamp == s.messages@[k].timestamp
                &&& m.files_changed == s.messages@[k].files_changed.deep_view()
            } by {
                assert(messages_for(self.messages_view(), x)[k] == batch_m[k]);
                assert(batch_m[k] == self.messages_view()[purged_mv.len() + k]);
            }
            assert forall|k: int| 0 <= k < s.tool_calls@.len() implies {
                let t = #[trigger] tool_calls_for(self.tool_calls_view(), x)[k];
                &&& t.tool_name == s.tool_calls@[k].tool_name@
                &&& t.file_path == ostr(s.tool_calls@[k].file_path)
                &&& t.timestamp == s.tool_calls@[k].timestamp
            } by {
                assert(tool_calls_for(self.tool_calls_view(), x)[k] == batch_t[k]);
                assert(batch_t[k] == self.tool_calls_view()[purged_tv.len() + k]);
            }
            // well-formedness: ids unchanged, parents preserved
            let oldsv = old(self).sessions_view();
            let oldfv = old(self).sessions_fts_view();
            assert(self.sessions_view() =~~= oldsv.update(idx as int, nrv));
            assert(self.sessions_fts_view() =~~= oldfv.update(idx as int, nfv));
            assert forall|j: int| 0 <= j < oldsv.len() implies #[trigger] self.sessions_view()[j].id
                == oldsv[j].id by {
                if j != idx as int {
                    assert(self.sessions_view()[j] == oldsv[j]);
                }
            }
            assert forall|i: int, j: int|
                0 <= i < j < self.sessions_view().len() implies self.sessions_view()[i].id
                != self.sessions_view()[j].id by {
                assert(self.sessions_view()[i].id == oldsv[i].id);
                assert(self.sessions_view()[j].id == oldsv[j].id);
            }
            assert forall|j: int|
                0 <= j < self.sessions_view().len() implies #[trigger] self.sessions_fts_view()[j].session_id
                == self.sessions_view()[j].id by {
                if j != idx as int {
                    assert(self.sessions_fts_view()[j] == oldfv[j]);
                    assert(self.sessions_view()[j] == oldsv[j]);
                } else {
                    assert(self.sessions_fts_view()[j] == nfv);
                    assert(self.sessions_view()[j] == nrv);
                    assert(nfv.session_id == oldfv[idx as int].session_id);
                    assert(oldfv[idx as int].session_id == oldsv[idx as int].id);
                    assert(nrv.id == oldsv[idx as int].id);
                }
            }
            assert forall|i: int|
                0 <= i < self.messages_view().len() implies has_session_id(
                self.sessions_view(),
                #[trigger] self.messages_view()[i].session_id,
            ) by {
                if i < purged_mv.len() {
                    lemma_restore_parents(oldsv, mid_mv, old(self).tool_calls_view(), x);
                    assert(purged_mv[i] == messages_except(mid_mv, x)[i]);
                    assert(has_session_id(sessions_except(oldsv, x), purged_mv[i].session_id));
                    let a = choose|a: int|
                        0 <= a < sessions_except(oldsv, x).len() && sessions_except(oldsv, x)[a].id
                            == purged_mv[i].session_id;
                    lemma_except_unique(oldsv, x);
                    let k2 = choose|k2: int|
                        0 <= k2 < oldsv.len() && oldsv[k2] == sessions_except(oldsv, x)[a];
                    assert(self.sessions_view()[k2].id == self.messages_view()[i].session_id);
                } else {
                    let k2 = i - purged_mv.len();
                    assert(self.messages_view()[purged_mv.len() + k2].session_id == s.id@);
                    assert(self.sessions_view()[idx as int].id == s.id@);
                }
            }
            assert forall|i: int|
                0 <= i < self.tool_calls_view().len() implies has_session_id(
                self.sessions_view(),
                #[trigger] self.tool_calls_view()[i].session_id,
            ) by {
                if i < purged_tv.len() {
                    lemma_restore_parents(oldsv, mid_mv, old(self).tool_calls_view(), x);
                    assert(purged_tv[i] == tool_calls_except(old(self).tool_calls_view(), x)[i]);
                    assert(has_session_id(sessions_except(oldsv, x), purged_tv[i].session_id));
                    let a = choose|a: int|
                        0 <= a < sessions_except(oldsv, x).len() && sessions_except(oldsv, x)[a].id
                            == purged_tv[i].session_id;
                    lemma_except_unique(oldsv, x);
                    let k2 = choose|k2: int|
                        0 <= k2 < oldsv.len() && oldsv[k2] == sessions_except(oldsv, x)[a];
                    assert(self.sessions_view()[k2].id == self.tool_calls_view()[i].session_id);
                } else {
                    let k2 = i - purged_tv.len();
                    assert(self.tool_calls_view()[purged_tv.len() + k2].session_id == s.id@);
                    assert(self.sessions_view()[idx as int].id == s.id@);
                }
            }
            // the witness for the metadata clause
            assert((idx as int) < oldsv.len());
            assert(oldsv[idx as int].id == s.id@);
            assert(self.sessions_view()[idx as int] == nrv);
            assert(self.sessions_fts_view()[idx as int] == nfv);
            assert forall|j: int|
                0 <= j < oldsv.len() && j != idx as int implies self.sessions_view()[j]
                == oldsv[j] by {}
            assert forall|j: int|
                0 <= j < oldfv.len() && j != idx as int implies self.sessions_fts_view()[j]
                == oldfv[j] by {}
        }
        Ok(())
    }
}

/// The view of an optional borrowed string.
pub open spec fn opt_str_view(o: Option<&str>) -> Option<Seq<char>> {
    match o {
        Some(a) => Some(a@),
        None => None,
    }
}

impl Database {
    /// Replaces one session's tag set; the comma-joined form goes to the
    /// session row and the space-joined form to the session index, so
    /// tag search stays consistent with the row. An absent id is
    /// reported, and nothing is created for it.
    pub fn update_tags(&mut self, session_id: &str, tags: &Vec<String>) -> (r: Result<
        (),
        StoreError,
    >)
        requires
            old(self).wf(),
        ensures
            final(self).wf(),
            r is Ok <==> has_session_id(old(self).sessions_view(), session_id@),
            r is Err ==> *final(self) == *old(self) && r == Err::<(), StoreError>(
                StoreError::SessionNotFound,
            ),
            final(self).messages_view() == old(self).messages_view(),
            final(self).tool_calls_view() == old(self).tool_calls_view(),
            final(self).messages_fts_view() == old(self).messages_fts_view(),
            r is Ok ==> exists|idx: int|
                {
                    &&& 0 <= idx < old(self).sessions_view().len()
                    &&& old(self).sessions_view()[idx].id == session_id@
                    &&& final(self).sessions_view().len() == old(self).sessions_view().len()
                    &&& (forall|j: int|
                        0 <= j < old(self).sessions_view().len() && j != idx
                            ==> final(self).sessions_view()[j] == old(self).sessions_view()[j]
                            && final(self).sessions_fts_view()[j] == old(self).sessions_fts_view()[j])
                    &&& {
                        let nr = #[trigger] final(self).sessions_view()[idx];
                        let or = old(self).sessions_view()[idx];
                        &&& nr.tags == text::join_seq(tags.deep_view(), ","@)
                        &&& nr.id == or.id
                        &&& nr.agent == or.agent
                        &&& nr.project_path == or.project_path
                        &&& nr.project_name == or.project_name
                        &&& nr.summary == or.summary
                        &&& nr.work_summary == or.work_summary
                        &&& nr.llm_summary == or.llm_summary
                        &&& nr.started_at == or.started_at
                        &&& nr.ended_at == or.ended_at
                        &&& nr.message_count == or.message_count
                        &&& nr.files_created == or.files_created
                        &&& nr.files_modified == or.files_modified
                        &&& nr.files_deleted == or.files_deleted
                    }
                    &&& {
                        let nf = #[trigger] final(self).sessions_fts_view()[idx];
                        let of = old(self).sessions_fts_view()[idx];
                        &&& nf.tags == text::join_seq(tags.deep_view(), " "@)
                        &&& nf.session_id == of.session_id
                        &&& nf.summary == of.summary
                        &&& nf.work_summary == of.work_summary
                        &&& nf.project_name == of.project_name
                    }
                },
    {
        let idx = match self.find_session(session_id) {
            None => {
                return Err(StoreError::SessionNotFound);
            },
            Some(i) => i,
        };
        let old_row = &self.sessions[idx];
        let new_row = SessionRow {
            id: clone_string(&old_row.id),
            agent: clone_string(&old_row.agent),
            project_path: clone_opt_string(&old_row.project_path),
            project_name: clone_opt_string(&old_row.project_name),
            summary: clone_opt_string(&old_row.summary),
            work_summary: clone_opt_string(&old_row.work_summary),
            llm_summary: clone_opt_string(&old_row.llm_summary),
            started_at: old_row.started_at,
            ended_at: old_row.ended_at,
            message_count: old_row.message_count,
            files_created: old_row.files_created,
            files_modified: old_row.files_modified,
            files_deleted: old_row.files_deleted,
            tags: join_strings(tags, ","),
        };
        let ghost nrv = new_row@;
        self.sessions[idx] = new_row;
        let old_f = &self.sessions_fts[idx];
        let new_f = SessionFtsRow {
            session_id: clone_string(&old_f.session_id),
            summary: clone_string(&old_f.summary),
            work_summary: clone_string(&old_f.work_summary),
            project_name: clone_string(&old_f.project_name),
            tags: join_strings(tags, " "),
        };
        let ghost nfv = new_f@;
        self.sessions_fts[idx] = new_f;
        proof {
            let oldsv = old(self).sessions_view();
            let oldfv = old(self).sessions_fts_view();
            assert(self.sessions_view() =~~= oldsv.update(idx as int, nrv));
            assert(self.sessions_fts_view() =~~= oldfv.update(idx as int, nfv));
            assert forall|j: int| 0 <= j < oldsv.len() implies #[trigger] self.sessions_view()[j].id
                == oldsv[j].id by {
                if j != idx as int {
                    assert(self.sessions_view()[j] == oldsv[j]);
                }
            }
            assert forall|i: int, j: int|
                0 <= i < j < self.sessions_view().len() implies self.sessions_view()[i].id
                != self.sessions_view()[j].id by {
                assert(self.sessions_view()[i].id == oldsv[i].id);
                assert(self.sessions_view()[j].id == oldsv[j].id);
            }
            assert forall|j: int|
                0 <= j < self.sessions_view().len() implies #[trigger] self.sessions_fts_view()[j].session_id
                == self.sessions_view()[j].id by {
                if j != idx as int {
                    assert(self.sessions_fts_view()[j] == oldfv[j]);
                    assert(self.sessions_view()[j] == oldsv[j]);
                } else {
                    assert(nfv.session_id == oldfv[idx as int].session_id);
                    assert(oldfv[idx as int].session_id == oldsv[idx as int].id);
                    assert(nrv.id == oldsv[idx as int].id);
                }
            }
            assert forall|i: int|
                0 <= i < self.messages_view().len() implies has_session_id(
                self.sessions_view(),
                #[trigger] self.messages_view()[i].session_id,
            ) by {
                assert(has_session_id(oldsv, self.messages_view()[i].session_id));
                let j = choose|j: int|
                    0 <= j < oldsv.len() && oldsv[j].id == self.messages_view()[i].session_id;
                assert(self.sessions_view()[j].id == self.messages_view()[i].session_id);
            }
            assert forall|i: int|
                0 <= i < self.tool_calls_view().len() implies has_session_id(
                self.sessions_view(),
                #[trigger] self.tool_calls_view()[i].session_id,
            ) by {
                assert(has_session_id(oldsv, self.tool_calls_view()[i].session_id));
                let j = choose|j: int|
                    0 <= j < oldsv.len() && oldsv[j].id == self.tool_calls_view()[i].session_id;
                assert(self.sessions_view()[j].id == self.tool_calls_view()[i].session_id);
            }
            assert(self.sessions_view()[idx as int] == nrv);
            assert(self.sessions_fts_view()[idx as int] == nfv);
            assert(oldsv[idx as int].id == session_id@);
        }
        Ok(())
    }

    /// The tag set of one session: the comma-separated pieces of its
    /// stored tag string. An absent id yields the empty set.
    pub fn get_tags(&self, session_id: &str) -> (r: Result<Vec<String>, StoreError>)
        ensures
            match r {
                Ok(v) => {
                    if has_session_id(self.sessions_view(), session_id@) {
                        exists|i: int|
                            0 <= i < self.sessions_view().len() && self.sessions_view()[i].id
                                == session_id@ && v.deep_view() == text::split_nonempty(
                                #[trigger] self.sessions_view()[i].tags,
                                ',',
                            )
                    } else {
                        v.deep_view() == Seq::<Seq<char>>::empty()
                    }
                },
                Err(_) => false,
            },
    {
        match self.find_session(session_id) {
            None => {
                let v: Vec<String> = Vec::new();
                proof {
                    assert(v.deep_view() =~~= Seq::<Seq<char>>::empty());
                }
                Ok(v)
            },
            Some(i) => {
                let tv = text::chars_of(self.sessions[i].tags.as_str());
                let pieces = text::split_nonempty_chars(&tv, ',');
                let mut v: Vec<String> = Vec::new();
                let mut k: usize = 0;
                while k < pieces.len()
                    invariant
                        k <= pieces@.len(),
                        v@.len() == k,
                        forall|j: int| 0 <= j < k ==> v@[j]@ == pieces@[j]@,
                    decreases pieces@.len() - k,
                {
                    v.push(text::string_from_chars(&pieces[k]));
                    k = k + 1;
                }
                proof {
                    assert(v.deep_view() =~~= pieces.deep_view());
                    assert(self.sessions_view()[i as int].tags == tv@);
                    assert(v.deep_view() == text::split_nonempty(
                        self.sessions_view()[i as int].tags,
                        ',',
                    ));
                }
                Ok(v)
            },
        }
    }

    /// Stores an externally produced summary on one session; an absent
    /// id changes nothing and is not an error.
    pub fn update_llm_summary(&mut self, session_id: &str, llm_summary: &str) -> (r: Result<
        (),
        StoreError,
    >)
        requires
            old(self).wf(),
        ensures
            r is Ok,
            final(self).wf(),
            final(self).messages_view() == old(self).messages_view(),
            final(self).tool_calls_view() == old(self).tool_calls_view(),
            final(self).messages_fts_view() == old(self).messages_fts_view(),
            final(self).sessions_fts_view() == old(self).sessions_fts_view(),
            !has_session_id(old(self).sessions_view(), session_id@) ==> *final(self) == *old(
                self,
            ),
            has_session_id(old(self).sessions_view(), session_id@) ==> exists|idx: int|
                {
                    &&& 0 <= idx < old(self).sessions_view().len()
                    &&& old(self).sessions_view()[idx].id == session_id@
                    &&& final(self).sessions_view().len() == old(self).sessions_view().len()
                    &&& (forall|j: int|
                        0 <= j < old(self).sessions_view().len() && j != idx
                            ==> final(self).sessions_view()[j] == old(self).sessions_view()[j])
                    &&& {
                        let nr = #[trigger] final(self).sessions_view()[idx];
                        let or = old(self).sessions_view()[idx];
                        &&& nr.llm_summary == Some(llm_summary@)
                        &&& nr.id == or.id
                        &&& nr.agent == or.agent
                        &&& nr.project_path == or.project_path
                        &&& nr.project_name == or.project_name
                        &&& nr.summary == or.summary
                        &&& nr.work_summary == or.work_summary
                        &&& nr.started_at == or.started_at
                        &&& nr.ended_at == or.ended_at
                        &&& nr.message_count == or.message_count
                        &&& nr.files_created == or.files_created
                        &&& nr.files_modified == or.files_modified
                        &&& nr.files_deleted == or.files_deleted
                        &&& nr.tags == or.tags
                    }
                },
    {
        let idx = match self.find_session(session_id) {
            None => {
                return Ok(());
            },
            Some(i) => i,
        };
        let old_row = &self.sessions[idx];
        let new_row = SessionRow {
            id: clone_string(&old_row.id),
            agent: clone_string(&old_row.agent),
            project_path: clone_opt_string(&old_row.project_path),
            project_name: clone_opt_string(&old_row.project_name),
            summary: clone_opt_string(&old_row.summary),
            work_summary: clone_opt_string(&old_row.work_summary),
            llm_summary: Some(string_of_lit(llm_summary)),
            started_at: old_row.started_at,
            ended_at: old_row.ended_at,
            message_count: old_row.message_count,
            files_created: old_row.files_created,
            files_modified: old_row.files_modified,
            files_deleted: old_row.files_deleted,
            tags: clone_string(&old_row.tags),
        };
        let ghost nrv = new_row@;
        self.sessions[idx] = new_row;
        proof {
            let oldsv = old(self).sessions_view();
            assert(self.sessions_view() =~~= oldsv.update(idx as int, nrv));
            assert forall|j: int| 0 <= j < oldsv.len() implies #[trigger] self.sessions_view()[j].id
                == oldsv[j].id by {
                if j != idx as int {
                    assert(self.sessions_view()[j] == oldsv[j]);
                }
            }
            assert forall|i: int, j: int|
                0 <= i < j < self.sessions_view().len() implies self.sessions_view()[i].id
                != self.sessions_view()[j].id by {
                assert(self.sessions_view()[i].id == oldsv[i].id);
                assert(self.sessions_view()[j].id == oldsv[j].id);
            }
            assert forall|i: int|
                0 <= i < self.messages_view().len() implies has_session_id(
                self.sessions_view(),
                #[trigger] self.messages_view()[i].session_id,
            ) by {
                assert(has_session_id(oldsv, self.messages_view()[i].session_id));
                let j = choose|j: int|
                    0 <= j < oldsv.len() && oldsv[j].id == self.messages_view()[i].session_id;
                assert(self.sessions_view()[j].id == self.messages_view()[i].session_id);
            }
            assert forall|i: int|
                0 <= i < self.tool_calls_view().len() implies has_session_id(
                self.sessions_view(),
                #[trigger] self.tool_calls_view()[i].session_id,
            ) by {
                assert(has_session_id(oldsv, self.tool_calls_view()[i].session_id));
                let j = choose|j: int|
                    0 <= j < oldsv.len() && oldsv[j].id == self.tool_calls_view()[i].session_id;
                assert(self.sessions_view()[j].id == self.tool_calls_view()[i].session_id);
            }
            assert(self.sessions_view()[idx as int] == nrv);
            assert(oldsv[idx as int].id == session_id@);
        }
        Ok(())
    }
}

/// Whether the retention cutoff removes a session: it started strictly
/// before `before` (sessions with no start time are kept) and, when an
/// agent filter is given, belongs to that agent.
pub open spec fn is_doomed(r: SessionRowV, before: i64, agent: Option<Seq<char>>) -> bool {
    &&& match r.started_at {
        Some(t) => t < before,
        None => false,
    }
    &&& match agent {
        Some(a) => r.agent == a,
        None => true,
    }
}

/// The ids of the sessions the cutoff removes, in stored order.
pub open spec fn doomed_ids(ss: Seq<SessionRowV>, before: i64, agent: Option<Seq<char>>) -> Seq<
    Seq<char>,
>
    decreases ss.len(),
{
    if ss.len() == 0 {
        Seq::empty()
    } else if is_doomed(ss[0], before, agent) {
        seq![ss[0].id] + doomed_ids(ss.drop_first(), before, agent)
    } else {
        doomed_ids(ss.drop_first(), before, agent)
    }
}

/// The session rows left after deleting each id of `ids` in turn.
pub open spec fn remove_sessions(sv: Seq<SessionRowV>, ids: Seq<Seq<char>>) -> Seq<SessionRowV>
    decreases ids.len(),
{
    if ids.len() == 0 {
        sv
    } else {
        sessions_except(remove_sessions(sv, ids.drop_last()), ids.last())
    }
}

/// The message rows left after deleting each id of `ids` in turn.
pub open spec fn remove_msgs(mv: Seq<MessageRowV>, ids: Seq<Seq<char>>) -> Seq<MessageRowV>
    decreases ids.len(),
{
    if ids.len() == 0 {
        mv
    } else {
        messages_except(remove_msgs(mv, ids.drop_last()), ids.last())
    }
}

/// The tool-call rows left after deleting each id of `ids` in turn.
pub open spec fn remove_tcs(tv: Seq<ToolCallRowV>, ids: Seq<Seq<char>>) -> Seq<ToolCallRowV>
    decreases ids.len(),
{
    if ids.len() == 0 {
        tv
    } else {
        tool_calls_except(remove_tcs(tv, ids.drop_last()), ids.last())
    }
}

/// The message-index rows left after deleting each id of `ids` in turn.
pub open spec fn remove_mfts(fv: Seq<MessageFtsRowV>, ids: Seq<Seq<char>>) -> Seq<MessageFtsRowV>
    decreases ids.len(),
{
    if ids.len() == 0 {
        fv
    } else {
        msg_fts_except(remove_mfts(fv, ids.drop_last()), ids.last())
    }
}

/// The session-index rows left after deleting each id of `ids` in turn.
pub open spec fn remove_sfts(fv: Seq<SessionFtsRowV>, ids: Seq<Seq<char>>) -> Seq<SessionFtsRowV>
    decreases ids.len(),
{
    if ids.len() == 0 {
        fv
    } else {
        sess_fts_except(remove_sfts(fv, ids.drop_last()), ids.last())
    }
}

impl Database {
    /// Deletes every session that started strictly before `before`,
    /// optionally restricted to one agent, each through the same
    /// per-session removal as `delete_session`, and reports how many
    /// sessions went.
    pub fn clean_sessions(&mut self, before: i64, agent: Option<&str>) -> (r: Result<
        usize,
        StoreError,
    >)
        requires
            old(self).wf(),
        ensures
            final(self).wf(),
            match r {
                Ok(n) => {
                    let ids = doomed_ids(
                        old(self).sessions_view(),
                        before,
                        opt_str_view(agent),
                    );
                    &&& n == ids.len()
                    &&& final(self).sessions_view() == remove_sessions(
                        old(self).sessions_view(),
                        ids,
                    )
                    &&& final(self).messages_view() == remove_msgs(old(self).messages_view(), ids)
                    &&& final(self).tool_calls_view() == remove_tcs(
                        old(self).tool_calls_view(),
                        ids,
                    )
                    &&& final(self).messages_fts_view() == remove_mfts(
                        old(self).messages_fts_view(),
                        ids,
                    )
                    &&& final(self).sessions_fts_view() == remove_sfts(
                        old(self).sessions_fts_view(),
                        ids,
                    )
                },
                Err(_) => false,
            },
    {
        let ghost agv = opt_str_view(agent);
        let agent_chars: Option<Vec<char>> = match agent {
            Some(a) => Some(text::chars_of(a)),
            None => None,
        };
        let mut ids: Vec<String> = Vec::new();
        let mut i: usize = 0;
        let ghost old_sv = self.sessions_view();
        proof {
            assert(old_sv.skip(0) =~= old_sv);
            assert(ids.deep_view() =~~= Seq::<Seq<char>>::empty());
            assert(ids.deep_view() + doomed_ids(old_sv, before, agv) =~= doomed_ids(
                old_sv,
                before,
                agv,
            ));
        }
        while i < self.sessions.len()
            invariant
                i <= self.sessions@.len(),
                old_sv == self.sessions_view(),
                self.sessions@.len() == old_sv.len(),
                match agent_chars {
                    Some(ac) => agv == Some(ac@),
                    None => agv is None,
                },
                doomed_ids(old_sv, before, agv) == ids.deep_view() + doomed_ids(
                    old_sv.skip(i as int),
                    before,
                    agv,
                ),
            decreases self.sessions@.len() - i,
        {
            proof {
                assert(old_sv.skip(i as int)[0] == old_sv[i as int]);
                assert(old_sv.skip(i as int).drop_first() =~= old_sv.skip(i + 1));
                assert(old_sv[i as int] == self.sessions@[i as int]@);
            }
            let row = &self.sessions[i];
            let time_hit = match row.started_at {
                Some(t) => t < before,
                None => false,
            };
            let agent_hit = match &agent_chars {
                Some(ac) => {
                    let rv = text::chars_of(row.agent.as_str());
                    text::eq_chars(&rv, ac)
                },
                None => true,
            };
            if time_hit && agent_hit {
                let ghost old_dv = ids.deep_view();
                let idc = clone_string(&row.id);
                let ghost icv = idc@;
                ids.push(idc);
                proof {
                    assert(ids.deep_view() =~~= old_dv + seq![icv]);
                }
            }
            i = i + 1;
        }
        proof {
            assert(old_sv.skip(old_sv.len() as int) =~= Seq::<SessionRowV>::empty());
            assert(ids.deep_view() + Seq::<Seq<char>>::empty() =~= ids.deep_view());
        }
        let ghost all_ids = ids.deep_view();
        let ghost old_mv = self.messages_view();
        let ghost old_tv = self.tool_calls_view();
        let ghost old_mfv = self.messages_fts_view();
        let ghost old_ffv = self.sessions_fts_view();
        let mut k: usize = 0;
        while k < ids.len()
            invariant
                k <= ids@.len(),
                all_ids == ids.deep_view(),
                self.wf(),
                self.sessions_view() == remove_sessions(old_sv, all_ids.subrange(0, k as int)),
                self.messages_view() == remove_msgs(old_mv, all_ids.subrange(0, k as int)),
                self.tool_calls_view() == remove_tcs(old_tv, all_ids.subrange(0, k as int)),
                self.messages_fts_view() == remove_mfts(old_mfv, all_ids.subrange(0, k as int)),
                self.sessions_fts_view() == remove_sfts(old_ffv, all_ids.subrange(0, k as int)),
            decreases ids@.len() - k,
        {
            proof {
                assert(all_ids.subrange(0, 0) =~= Seq::<Seq<char>>::empty());
                assert(all_ids.subrange(0, k + 1).drop_last() =~= all_ids.subrange(0, k as int));
                assert(all_ids.subrange(0, k + 1).last() == ids@[k as int]@);
            }
            let rr = self.delete_session(ids[k].as_str());
            proof {
                assert(rr is Ok);
            }
            k = k + 1;
        }
        proof {
            assert(all_ids.subrange(0, 0) =~= Seq::<Seq<char>>::empty());
            assert(all_ids.subrange(0, all_ids.len() as int) =~= all_ids);
        }
        Ok(ids.len())
    }
}

/// Descending start-time order: a session may stand before another when
/// its start time is no earlier, and sessions with no start time stand
/// last.
pub open spec fn starts_desc_leq(a: Option<i64>, b: Option<i64>) -> bool {
    match (a, b) {
        (Some(x), Some(y)) => x >= y,
        (Some(_), None) => true,
        (None, Some(_)) => false,
        (None, None) => true,
    }
}

/// A row sequence sorted by descending start time.
pub open spec fn rows_sorted_desc(s: Seq<SessionRowV>) -> bool {
    forall|i: int, j: int|
        0 <= i < j < s.len() ==> starts_desc_leq(
            (#[trigger] s[i]).started_at,
            (#[trigger] s[j]).started_at,
        )
}

/// Whether one row passes the listing filters: exact agent match, exact
/// canonical project-path match, and inclusive start-time bounds. A row
/// with no start time never passes a time bound, and a row with no
/// project path never passes a project filter.
pub open spec fn row_passes(
    r: SessionRowV,
    agent: Option<Seq<char>>,
    project: Option<Seq<char>>,
    from: Option<i64>,
    to: Option<i64>,
) -> bool {
    &&& match agent {
        Some(a) => r.agent == a,
        None => true,
    }
    &&& match project {
        Some(p) => r.project_path == Some(p),
        None => true,
    }
    &&& match from {
        Some(f) => match r.started_at {
            Some(t) => t >= f,
            None => false,
        },
        None => true,
    }
    &&& match to {
        Some(t0) => match r.started_at {
            Some(t) => t <= t0,
            None => false,
        },
        None => true,
    }
}

/// The rows that the listing filters keep, in stored order.
pub open spec fn list_filtered(
    ss: Seq<SessionRowV>,
    agent: Option<Seq<char>>,
    project: Option<Seq<char>>,
    from: Option<i64>,
    to: Option<i64>,
) -> Seq<SessionRowV> {
    ss.filter(|r: SessionRowV| row_passes(r, agent, project, from, to))
}

/// The canonical form of an optional project filter against `cwd`.
pub open spec fn opt_norm(project: Option<&str>, cwd: &str) -> Option<Seq<char>> {
    match project {
        Some(p) => Some(crate::paths::norm_path_spec(p@, cwd@)),
        None => None,
    }
}

/// What the listing operation guarantees: the output is some
/// descending arrangement of the filtered rows, cut off at the limit.
pub open spec fn listing_post(
    db: Database,
    agent: Option<&str>,
    project: Option<&str>,
    from: Option<i64>,
    to: Option<i64>,
    limit: int,
    cwd: &str,
    outv: Seq<SessionRowV>,
) -> bool {
    exists|sorted: Seq<SessionRowV>|
        #[trigger] is_listing(
            list_filtered(db.sessions_view(), opt_str_view(agent), opt_norm(project, cwd), from, to),
            limit,
            outv,
            sorted,
        )
}

/// What a listing result is: some descending arrangement of the
/// filtered rows, cut off at the limit.
pub open spec fn is_listing(
    filtered: Seq<SessionRowV>,
    limit: int,
    out: Seq<SessionRowV>,
    sorted: Seq<SessionRowV>,
) -> bool {
    &&& sorted.to_multiset() == filtered.to_multiset()
    &&& sorted.len() == filtered.len()
    &&& rows_sorted_desc(sorted)
    &&& out == sorted.subrange(
        0,
        if limit < sorted.len() {
            limit
        } else {
            sorted.len() as int
        },
    )
}

proof fn lemma_insert_multiset<A>(s: Seq<A>, i: int, x: A)
    requires
        0 <= i <= s.len(),
    ensures
        s.insert(i, x).to_multiset() == s.to_multiset().insert(x),
{
    broadcast use vstd::seq_lib::group_to_multiset_ensures;

    let a = s.subrange(0, i);
    let b = s.subrange(i, s.len() as int);
    assert(s =~= a + b);
    assert(s.insert(i, x) =~= a + (seq![x] + b));
    vstd::seq_lib::lemma_multiset_commutative(a, b);
    vstd::seq_lib::lemma_multiset_commutative(a, seq![x] + b);
    vstd::seq_lib::lemma_multiset_commutative(seq![x], b);
    assert(seq![x] =~= Seq::<A>::empty().push(x));
    assert(Seq::<A>::empty().push(x).to_multiset() =~= Seq::<A>::empty().to_multiset().insert(x));
    assert(s.insert(i, x).to_multiset() =~= s.to_multiset().insert(x));
}

fn leq_desc_exec(a: &Option<i64>, b: &Option<i64>) -> (r: bool)
    ensures
        r == starts_desc_leq(*a, *b),
{
    match (a, b) {
        (Some(x), Some(y)) => *x >= *y,
        (Some(_), None) => true,
        (None, Some(_)) => false,
        (None, None) => true,
    }
}

/// Where a row belongs in a descending arrangement: after everything
/// that may stand before it, before the first row that may not.
fn find_insert_pos(out: &Vec<SessionRow>, row: &SessionRow) -> (p: usize)
    ensures
        p <= out.deep_view().len(),
        forall|k: int|
            0 <= k < p ==> starts_desc_leq(
                (#[trigger] out.deep_view()[k]).started_at,
                row@.started_at,
            ),
        p < out.deep_view().len() ==> !starts_desc_leq(
            out.deep_view()[p as int].started_at,
            row@.started_at,
        ),
{
    let mut p: usize = 0;
    while p < out.len()
        invariant
            p <= out@.len(),
            out.deep_view().len() == out@.len(),
            forall|k: int|
                0 <= k < p ==> starts_desc_leq(
                    (#[trigger] out.deep_view()[k]).started_at,
                    row@.started_at,
                ),
        decreases out@.len() - p,
    {
        proof {
            assert(out.deep_view()[p as int] == out@[p as int]@);
        }
        if !leq_desc_exec(&out[p].started_at, &row.started_at) {
            return p;
        }
        p = p + 1;
    }
    p
}

/// Arranges rows by descending start time, sessions without one last.
fn sort_rows_desc(v: &Vec<SessionRow>) -> (r: Vec<SessionRow>)
    ensures
        r.deep_view().to_multiset() == v.deep_view().to_multiset(),
        r.deep_view().len() == v.deep_view().len(),
        rows_sorted_desc(r.deep_view()),
{
    let mut out: Vec<SessionRow> = Vec::new();
    let mut i: usize = 0;
    proof {
        broadcast use vstd::seq_lib::group_to_multiset_ensures;

        assert(v.deep_view().subrange(0, 0) =~= Seq::<SessionRowV>::empty());
        assert(out.deep_view() =~= Seq::<SessionRowV>::empty());
        assert(out.deep_view().to_multiset() =~= Seq::<SessionRowV>::empty().to_multiset());
    }
    while i < v.len()
        invariant
            i <= v@.len(),
            v.deep_view().len() == v@.len(),
            out.deep_view().to_multiset() == v.deep_view().subrange(0, i as int).to_multiset(),
            out.deep_view().len() == i,
            rows_sorted_desc(out.deep_view()),
        decreases v@.len() - i,
    {
        let row = clone_session_row(&v[i]);
        let ghost rv = row@;
        proof {
            assert(rv == v.deep_view()[i as int]);
        }
        let p = find_insert_pos(&out, &row);
        let ghost pre = out.deep_view();
        out.insert(p, row);
        i = i + 1;
        proof {
            broadcast use vstd::seq_lib::group_to_multiset_ensures;

            assert(out.deep_view() =~~= pre.insert(p as int, rv));
            lemma_insert_multiset(pre, p as int, rv);
            assert(p < pre.len() ==> !starts_desc_leq(pre[p as int].started_at, rv.started_at));
            assert(v.deep_view().subrange(0, i as int).drop_last() =~= v.deep_view().subrange(
                0,
                i - 1,
            ));
            assert(v.deep_view().subrange(0, i as int) =~= v.deep_view().subrange(0, i - 1).push(
                rv,
            ));
            // sortedness after the insertion
            assert forall|a: int, b: int|
                0 <= a < b < out.deep_view().len() implies starts_desc_leq(
                (#[trigger] out.deep_view()[a]).started_at,
                (#[trigger] out.deep_view()[b]).started_at,
            ) by {
                let dv = out.deep_view();
                if a < p && b == p {
                    assert(dv[a] == pre[a]);
                } else if a == p && b > p {
                    assert(dv[b] == pre[b - 1]);
                    if b - 1 == p {
                    } else {
                        assert(starts_desc_leq(pre[p as int].started_at, pre[b - 1].started_at));
                    }
                } else if a < p && b > p {
                    assert(dv[a] == pre[a]);
                    assert(dv[b] == pre[b - 1]);
                } else if b < p {
                    assert(dv[a] == pre[a]);
                    assert(dv[b] == pre[b]);
                } else if a > p {
                    assert(dv[a] == pre[a - 1]);
                    assert(dv[b] == pre[b - 1]);
                }
            }
        }
    }
    proof {
        assert(v.deep_view().subrange(0, v@.len() as int) =~= v.deep_view());
    }
    out
}

impl Database {
    /// The sessions passing the filters, newest first, cut at `limit`.
    /// A relative project filter is taken against `cwd`; stored project
    /// paths are expected in canonical absolute form, as adapters write
    /// them.
    pub fn list_sessions(
        &self,
        agent: Option<&str>,
        project: Option<&str>,
        from: Option<i64>,
        to: Option<i64>,
        limit: usize,
        cwd: &str,
    ) -> (r: Result<Vec<SessionRow>, StoreError>)
        ensures
            match r {
                Ok(v) => listing_post(
                    *self,
                    agent,
                    project,
                    from,
                    to,
                    limit as int,
                    cwd,
                    v.deep_view(),
                ),
                Err(_) => false,
            },
    {
        let ghost agv = opt_str_view(agent);
        let ghost prv: Option<Seq<char>> = opt_norm(project, cwd);
        let agent_chars: Option<Vec<char>> = match agent {
            Some(a) => Some(text::chars_of(a)),
            None => None,
        };
        let project_chars: Option<Vec<char>> = match project {
            Some(p) => {
                let n = crate::paths::norm_path(p, cwd);
                Some(text::chars_of(n.as_str()))
            },
            None => None,
        };
        let mut picked: Vec<SessionRow> = Vec::new();
        let mut i: usize = 0;
        proof {
            reveal(Seq::filter);
            assert(self.sessions_view().subrange(0, 0) =~= Seq::<SessionRowV>::empty());
            assert(picked.deep_view() =~= Seq::<SessionRowV>::empty());
        }
        while i < self.sessions.len()
            invariant
                i <= self.sessions@.len(),
                self.sessions_view().len() == self.sessions@.len(),
                match agent_chars {
                    Some(ac) => agv == Some(ac@),
                    None => agv is None,
                },
                match project_chars {
                    Some(pc) => prv == Some(pc@),
                    None => prv is None,
                },
                picked.deep_view() == list_filtered(
                    self.sessions_view().subrange(0, i as int),
                    agv,
                    prv,
                    from,
                    to,
                ),
            decreases self.sessions@.len() - i,
        {
            proof {
                reveal(Seq::filter);
                assert(self.sessions_view().subrange(0, i + 1).drop_last() =~= self.sessions_view()
                    .subrange(0, i as int));
                assert(self.sessions_view().subrange(0, i + 1).last()
                    == self.sessions_view()[i as int]);
                assert(self.sessions_view()[i as int] == self.sessions@[i as int]@);
            }
            let row = &self.sessions[i];
            let agent_ok = match &agent_chars {
                Some(ac) => {
                    let rv = text::chars_of(row.agent.as_str());
                    text::eq_chars(&rv, ac)
                },
                None => true,
            };
            let project_ok = match &project_chars {
                Some(pc) => match &row.project_path {
                    Some(pp) => {
                        let ppv = text::chars_of(pp.as_str());
                        text::eq_chars(&ppv, pc)
                    },
                    None => false,
                },
                None => true,
            };
            let from_ok = match from {
                Some(f) => match row.started_at {
                    Some(t) => t >= f,
                    None => false,
                },
                None => true,
            };
            let to_ok = match to {
                Some(t0) => match row.started_at {
                    Some(t) => t <= t0,
                    None => false,
                },
                None => true,
            };
            if agent_ok && project_ok && from_ok && to_ok {
                let ghost pre = picked.deep_view();
                let copy = clone_session_row(row);
                let ghost cv = copy@;
                picked.push(copy);
                proof {
                    assert(row_passes(self.sessions_view()[i as int], agv, prv, from, to));
                    assert(picked.deep_view() =~= pre.push(cv));
                }
            } else {
                proof {
                    assert(!row_passes(self.sessions_view()[i as int], agv, prv, from, to));
                }
            }
            i = i + 1;
        }
        proof {
            assert(self.sessions_view().subrange(0, self.sessions@.len() as int) =~= self
                .sessions_view());
        }
        let sorted_rows = sort_rows_desc(&picked);
        let cut: usize = if limit < sorted_rows.len() {
            limit
        } else {
            sorted_rows.len()
        };
        let mut out: Vec<SessionRow> = Vec::new();
        let mut k: usize = 0;
        proof {
            assert(out.deep_view() =~= sorted_rows.deep_view().subrange(0, 0));
        }
        while k < cut
            invariant
                k <= cut <= sorted_rows@.len(),
                sorted_rows.deep_view().len() == sorted_rows@.len(),
                out@.len() == k,
                out.deep_view() == sorted_rows.deep_view().subrange(0, k as int),
            decreases cut - k,
        {
            let ghost pre = out.deep_view();
            let copy = clone_session_row(&sorted_rows[k]);
            let ghost cv = copy@;
            proof {
                assert(cv == sorted_rows.deep_view()[k as int]);
            }
            out.push(copy);
            k = k + 1;
            proof {
                assert(out@.len() == k);
                assert(out.deep_view().len() == k);
                assert forall|j: int|
                    0 <= j < k implies out.deep_view()[j] == sorted_rows.deep_view().subrange(
                    0,
                    k as int,
                )[j] by {
                    if j < k - 1 {
                        assert(out.deep_view()[j] == pre[j]);
                    } else {
                        assert(out.deep_view()[j] == cv);
                    }
                }
                assert(out.deep_view() =~= sorted_rows.deep_view().subrange(0, k as int));
            }
        }
        proof {
            broadcast use vstd::seq_lib::group_to_multiset_ensures;

            assert(agv == opt_str_view(agent));
            assert(prv == opt_norm(project, cwd));
            assert(is_listing(
                list_filtered(
                    self.sessions_view(),
                    opt_str_view(agent),
                    opt_norm(project, cwd),
                    from,
                    to,
                ),
                limit as int,
                out.deep_view(),
                sorted_rows.deep_view(),
            ));
            assert(listing_post(
                *self,
                agent,
                project,
                from,
                to,
                limit as int,
                cwd,
                out.deep_view(),
            ));
        }
        Ok(out)
    }
}

/// Whether some tool call of session `sid` touched a file whose path
/// contains `pat`.
pub open spec fn touches_file(tv: Seq<ToolCallRowV>, sid: Seq<char>, pat: Seq<char>) -> bool {
    exists|i: int|
        0 <= i < tv.len() && (#[trigger] tv[i]).session_id == sid && match tv[i].file_path {
            Some(fp) => text::has_sub(fp, pat),
            None => false,
        }
}

/// The sessions whose tool calls touched a matching file, stored order.
pub open spec fn file_hits(ss: Seq<SessionRowV>, tv: Seq<ToolCallRowV>, pat: Seq<char>) -> Seq<
    SessionRowV,
> {
    ss.filter(|r: SessionRowV| touches_file(tv, r.id, pat))
}

/// What the file search guarantees: some descending arrangement of the
/// sessions that touched a matching file, cut off at the limit.
pub open spec fn file_search_post(
    db: Database,
    pat: &str,
    limit: int,
    outv: Seq<SessionRowV>,
) -> bool {
    exists|sorted: Seq<SessionRowV>|
        #[trigger] is_listing(
            file_hits(db.sessions_view(), db.tool_calls_view(), pat@),
            limit,
            outv,
            sorted,
        )
}

impl Database {
    fn touches_file_exec(&self, sid: &Vec<char>, pat: &Vec<char>) -> (r: bool)
        ensures
            r == touches_file(self.tool_calls_view(), sid@, pat@),
    {
        let mut i: usize = 0;
        while i < self.tool_calls.len()
            invariant
                i <= self.tool_calls@.len(),
                self.tool_calls_view().len() == self.tool_calls@.len(),
                forall|j: int|
                    0 <= j < i ==> !((#[trigger] self.tool_calls_view()[j]).session_id == sid@
                        && match self.tool_calls_view()[j].file_path {
                        Some(fp) => text::has_sub(fp, pat@),
                        None => false,
                    }),
            decreases self.tool_calls@.len() - i,
        {
            proof {
                assert(self.tool_calls_view()[i as int] == self.tool_calls@[i as int]@);
            }
            let tc = &self.tool_calls[i];
            let idv = text::chars_of(tc.session_id.as_str());
            if text::eq_chars(&idv, sid) {
                if let Some(fp) = &tc.file_path {
                    let fpv = text::chars_of(fp.as_str());
                    if text::contains_chars(&fpv, pat) {
                        return true;
                    }
                }
            }
            i = i + 1;
        }
        false
    }

    /// The distinct sessions whose tool calls touched a file path
    /// containing `file_path`, newest first, cut at `limit`.
    pub fn search_by_file(&self, file_path: &str, limit: usize) -> (r: Result<
        Vec<SessionRow>,
        StoreError,
    >)
        ensures
            match r {
                Ok(v) => file_search_post(*self, file_path, limit as int, v.deep_view()),
                Err(_) => false,
            },
    {
        let patv = text::chars_of(file_path);
        let ghost pat = file_path@;
        let mut picked: Vec<SessionRow> = Vec::new();
        let mut i: usize = 0;
        proof {
            reveal(Seq::filter);
            assert(self.sessions_view().subrange(0, 0) =~= Seq::<SessionRowV>::empty());
            assert(picked.deep_view() =~= Seq::<SessionRowV>::empty());
        }
        while i < self.sessions.len()
            invariant
                i <= self.sessions@.len(),
                self.sessions_view().len() == self.sessions@.len(),
                patv@ == pat,
                picked.deep_view() == file_hits(
                    self.sessions_view().subrange(0, i as int),
                    self.tool_calls_view(),
                    pat,
                ),
            decreases self.sessions@.len() - i,
        {
            proof {
                reveal(Seq::filter);
                assert(self.sessions_view().subrange(0, i + 1).drop_last() =~= self.sessions_view()
                    .subrange(0, i as int));
                assert(self.sessions_view().subrange(0, i + 1).last()
                    == self.sessions_view()[i as int]);
                assert(self.sessions_view()[i as int] == self.sessions@[i as int]@);
            }
            let sid = text::chars_of(self.sessions[i].id.as_str());
            if self.touches_file_exec(&sid, &patv) {
                let ghost pre = picked.deep_view();
                let copy = clone_session_row(&self.sessions[i]);
                let ghost cv = copy@;
                picked.push(copy);
                proof {
                    assert(picked.deep_view() =~= pre.push(cv));
                }
            }
            i = i + 1;
        }
        proof {
            assert(self.sessions_view().subrange(0, self.sessions@.len() as int) =~= self
                .sessions_view());
        }
        let sorted_rows = sort_rows_desc(&picked);
        let cut: usize = if limit < sorted_rows.len() {
            limit
        } else {
            sorted_rows.len()
        };
        let mut out: Vec<SessionRow> = Vec::new();
        let mut k: usize = 0;
        proof {
            assert(out.deep_view() =~= sorted_rows.deep_view().subrange(0, 0));
        }
        while k < cut
            invariant
                k <= cut <= sorted_rows@.len(),
                sorted_rows.deep_view().len() == sorted_rows@.len(),
                out@.len() == k,
                out.deep_view() == sorted_rows.deep_view().subrange(0, k as int),
            decreases cut - k,
        {
            let ghost pre = out.deep_view();
            let copy = clone_session_row(&sorted_rows[k]);
            let ghost cv = copy@;
            proof {
                assert(cv == sorted_rows.deep_view()[k as int]);
            }
            out.push(copy);
            k = k + 1;
            proof {
                assert forall|j: int|
                    0 <= j < k implies out.deep_view()[j] == sorted_rows.deep_view().subrange(
                    0,
                    k as int,
                )[j] by {
                    if j < k - 1 {
                        assert(out.deep_view()[j] == pre[j]);
                    } else {
                        assert(out.deep_view()[j] == cv);
                    }
                }
                assert(out.deep_view() =~= sorted_rows.deep_view().subrange(0, k as int));
            }
        }
        proof {
            broadcast use vstd::seq_lib::group_to_multiset_ensures;

            assert(is_listing(
                file_hits(self.sessions_view(), self.tool_calls_view(), file_path@),
                limit as int,
                out.deep_view(),
                sorted_rows.deep_view(),
            ));
            assert(file_search_post(*self, file_path, limit as int, out.deep_view()));
        }
        Ok(out)
    }
}

/// The mathematical content of one search match.
#[verifier::ext_equal]
pub struct SearchResultV {
    pub session_id: Seq<char>,
    pub agent: Seq<char>,
    pub project_name: Option<Seq<char>>,
    pub project_path: Option<Seq<char>>,
    pub role: Seq<char>,
    pub content: Seq<char>,
    pub timestamp: Option<i64>,
    pub summary: Option<Seq<char>>,
    pub started_at: Option<i64>,
}

impl View for SearchResult {
    type V = SearchResultV;

    open spec fn view(&self) -> SearchResultV {
        SearchResultV {
            session_id: self.session_id@,
            agent: self.agent@,
            project_name: ostr(self.project_name),
            project_path: ostr(self.project_path),
            role: self.role@,
            content: self.content@,
            timestamp: self.timestamp,
            summary: ostr(self.summary),
            started_at: self.started_at,
        }
    }
}

impl DeepView for SearchResult {
    type V = SearchResultV;

    open spec fn deep_view(&self) -> SearchResultV {
        self.view()
    }
}

/// Whether a message's tokens cover every token of the query.
pub open spec fn fts_match(content: Seq<char>, q: Seq<Seq<char>>) -> bool {
    forall|i: int| 0 <= i < q.len() ==> text::tokens_of(content).contains(#[trigger] q[i])
}

/// The index of the session with id `id`, or `-1`.
pub open spec fn sidx(ss: Seq<SessionRowV>, id: Seq<char>) -> int
    decreases ss.len(),
{
    if ss.len() == 0 {
        -1
    } else if ss[0].id == id {
        0
    } else {
        let r = sidx(ss.drop_first(), id);
        if r == -1 {
            -1
        } else {
            1 + r
        }
    }
}

proof fn lemma_sidx_unique(ss: Seq<SessionRowV>, id: Seq<char>, i: int)
    requires
        0 <= i < ss.len(),
        ss[i].id == id,
        forall|j: int| 0 <= j < i ==> ss[j].id != id,
    ensures
        sidx(ss, id) == i,
    decreases i,
{
    if ss.len() > 0 && ss[0].id != id {
        assert(i > 0);
        assert(forall|j: int|
            0 <= j < i - 1 ==> ss.drop_first()[j] == ss[j + 1] && ss.drop_first()[j].id != id);
        lemma_sidx_unique(ss.drop_first(), id, i - 1);
    }
}

proof fn lemma_sidx_none(ss: Seq<SessionRowV>, id: Seq<char>)
    requires
        !has_session_id(ss, id),
    ensures
        sidx(ss, id) == -1,
    decreases ss.len(),
{
    if ss.len() > 0 {
        assert(ss[0].id != id);
        assert(forall|j: int| 0 <= j < ss.drop_first().len() ==> ss.drop_first()[j] == ss[j + 1]);
        assert(!has_session_id(ss.drop_first(), id));
        lemma_sidx_none(ss.drop_first(), id);
    }
}

/// In a store with unique ids, any index holding `id` is the index
/// that `sidx` finds.
pub proof fn lemma_sidx_of(ss: Seq<SessionRowV>, id: Seq<char>, j: int)
    requires
        forall|a: int, b: int| 0 <= a < b < ss.len() ==> ss[a].id != ss[b].id,
        0 <= j < ss.len(),
        ss[j].id == id,
    ensures
        sidx(ss, id) == j,
{
    assert forall|t: int| 0 <= t < j implies ss[t].id != id by {
        assert(ss[t].id != ss[j].id);
    }
    lemma_sidx_unique(ss, id, j);
}

/// One search match built from an index row and its session.
pub open spec fn mk_result(f: MessageFtsRowV, s: SessionRowV) -> SearchResultV {
    SearchResultV {
        session_id: f.session_id,
        agent: s.agent,
        project_name: s.project_name,
        project_path: s.project_path,
        role: f.role,
        content: f.content,
        timestamp: s.started_at,
        summary: s.summary,
        started_at: s.started_at,
    }
}

/// The matches of a keyword search, in index order: index rows whose
/// content covers the query tokens and whose session passes the
/// filters, joined with that session's metadata.
pub open spec fn search_rows(
    fs: Seq<MessageFtsRowV>,
    ss: Seq<SessionRowV>,
    q: Seq<Seq<char>>,
    agent: Option<Seq<char>>,
    project: Option<Seq<char>>,
    from: Option<i64>,
    to: Option<i64>,
) -> Seq<SearchResultV>
    decreases fs.len(),
{
    if fs.len() == 0 {
        Seq::empty()
    } else {
        let rest = search_rows(fs.drop_first(), ss, q, agent, project, from, to);
        let f0 = fs[0];
        let j = sidx(ss, f0.session_id);
        if j >= 0 && fts_match(f0.content, q) && row_passes(ss[j], agent, project, from, to) {
            seq![mk_result(f0, ss[j])] + rest
        } else {
            rest
        }
    }
}

/// What the keyword search guarantees: a query without tokens yields
/// nothing; otherwise the matches in index order, cut off at the limit.
pub open spec fn search_post(
    db: Database,
    keyword: &str,
    agent: Option<&str>,
    project: Option<&str>,
    from: Option<i64>,
    to: Option<i64>,
    limit: int,
    cwd: &str,
    outv: Seq<SearchResultV>,
) -> bool {
    if text::tokens_of(keyword@).len() == 0 {
        outv == Seq::<SearchResultV>::empty()
    } else {
        let rows = search_rows(
            db.messages_fts_view(),
            db.sessions_view(),
            text::tokens_of(keyword@),
            opt_str_view(agent),
            opt_norm(project, cwd),
            from,
            to,
        );
        outv == rows.subrange(
            0,
            if limit < rows.len() {
                limit
            } else {
                rows.len() as int
            },
        )
    }
}

fn fts_match_exec(content: &str, q: &Vec<Vec<char>>) -> (r: bool)
    ensures
        r == fts_match(content@, q.deep_view()),
{
    let cv = text::chars_of(content);
    let ct = text::tokenize(&cv);
    let mut i: usize = 0;
    while i < q.len()
        invariant
            i <= q@.len(),
            ct.deep_view() == text::tokens_of(content@),
            forall|j: int|
                0 <= j < i ==> text::tokens_of(content@).contains(#[trigger] q.deep_view()[j]),
        decreases q@.len() - i,
    {
        let mut found = false;
        let mut k: usize = 0;
        while k < ct.len() && !found
            invariant
                k <= ct@.len(),
                i < q@.len(),
                ct.deep_view() == text::tokens_of(content@),
                found ==> exists|t: int|
                    0 <= t < ct.deep_view().len() && ct.deep_view()[t] == q.deep_view()[i as int],
                !found ==> forall|t: int|
                    0 <= t < k ==> ct.deep_view()[t] != q.deep_view()[i as int],
            decreases ct@.len() - k + (if found {
                0int
            } else {
                1int
            }),
        {
            proof {
                assert(ct.deep_view()[k as int] =~= ct@[k as int]@);
                assert(q.deep_view()[i as int] =~= q@[i as int]@);
            }
            if text::eq_chars(&ct[k], &q[i]) {
                found = true;
            } else {
                k = k + 1;
            }
        }
        if !found {
            proof {
                assert(forall|t: int|
                    0 <= t < ct.deep_view().len() ==> ct.deep_view()[t] != q.deep_view()[i as int]);
                assert(!text::tokens_of(content@).contains(q.deep_view()[i as int]));
            }
            return false;
        }
        i = i + 1;
    }
    true
}

impl Database {
    /// Keyword search over message content: every query token must occur
    /// in a message, the message's session must pass the filters, and
    /// each match carries its session's metadata. A keyword without
    /// tokens finds nothing.
    pub fn search_messages(
        &self,
        keyword: &str,
        agent: Option<&str>,
        project: Option<&str>,
        from: Option<i64>,
        to: Option<i64>,
        limit: usize,
        cwd: &str,
    ) -> (r: Result<Vec<SearchResult>, StoreError>)
        requires
            self.wf(),
        ensures
            match r {
                Ok(v) => search_post(
                    *self,
                    keyword,
                    agent,
                    project,
                    from,
                    to,
                    limit as int,
                    cwd,
                    v.deep_view(),
                ),
                Err(_) => false,
            },
    {
        let kv = text::chars_of(keyword);
        let q = text::tokenize(&kv);
        if q.len() == 0 {
            let v: Vec<SearchResult> = Vec::new();
            proof {
                assert(v.deep_view() =~= Seq::<SearchResultV>::empty());
            }
            return Ok(v);
        }
        let ghost qv = q.deep_view();
        let ghost agv = opt_str_view(agent);
        let ghost prv = opt_norm(project, cwd);
        let agent_chars: Option<Vec<char>> = match agent {
            Some(a) => Some(text::chars_of(a)),
            None => None,
        };
        let project_chars: Option<Vec<char>> = match project {
            Some(p) => {
                let n = crate::paths::norm_path(p, cwd);
                Some(text::chars_of(n.as_str()))
            },
            None => None,
        };
        let mut all: Vec<SearchResult> = Vec::new();
        let mut i: usize = 0;
        let ghost fsv = self.messages_fts_view();
        proof {
            assert(fsv.skip(0) =~= fsv);
            assert(all.deep_view() =~= Seq::<SearchResultV>::empty());
            assert(all.deep_view() + search_rows(fsv, self.sessions_view(), qv, agv, prv, from, to)
                =~= search_rows(fsv, self.sessions_view(), qv, agv, prv, from, to));
        }
        while i < self.messages_fts.len()
            invariant
                i <= self.messages_fts@.len(),
                fsv == self.messages_fts_view(),
                fsv.len() == self.messages_fts@.len(),
                self.wf(),
                qv == q.deep_view(),
                qv.len() > 0,
                match agent_chars {
                    Some(ac) => agv == Some(ac@),
                    None => agv is None,
                },
                match project_chars {
                    Some(pc) => prv == Some(pc@),
                    None => prv is None,
                },
                search_rows(fsv, self.sessions_view(), qv, agv, prv, from, to) == all.deep_view()
                    + search_rows(fsv.skip(i as int), self.sessions_view(), qv, agv, prv, from, to),
            decreases self.messages_fts@.len() - i,
        {
            proof {
                assert(fsv.skip(i as int)[0] == fsv[i as int]);
                assert(fsv.skip(i as int).drop_first() =~= fsv.skip(i + 1));
                assert(fsv[i as int] == self.messages_fts@[i as int]@);
            }
            let frow = &self.messages_fts[i];
            let sj = self.find_session(frow.session_id.as_str());
            proof {
                match sj {
                    Some(jj) => {
                        assert(forall|t: int|
                            0 <= t < jj ==> self.sessions_view()[t].id != frow.session_id@ || t
                                >= jj);
                    },
                    None => {
                        lemma_sidx_none(self.sessions_view(), frow.session_id@);
                    },
                }
            }
            match sj {
                None => {
                },
                Some(jj) => {
                    proof {
                        assert forall|t: int| 0 <= t < jj implies self.sessions_view()[t].id
                            != frow.session_id@ by {
                            if self.sessions_view()[t].id == frow.session_id@ {
                                assert(self.sessions_view()[t].id
                                    != self.sessions_view()[jj as int].id);
                            }
                        }
                        lemma_sidx_unique(self.sessions_view(), frow.session_id@, jj as int);
                    }
                    let srow = &self.sessions[jj];
                    let matched = fts_match_exec(frow.content.as_str(), &q);
                    let agent_ok = match &agent_chars {
                        Some(ac) => {
                            let rv = text::chars_of(srow.agent.as_str());
                            text::eq_chars(&rv, ac)
                        },
                        None => true,
                    };
                    let project_ok = match &project_chars {
                        Some(pc) => match &srow.project_path {
                            Some(pp) => {
                                let ppv = text::chars_of(pp.as_str());
                                text::eq_chars(&ppv, pc)
                            },
                            None => false,
                        },
                        None => true,
                    };
                    let from_ok = match from {
                        Some(f) => match srow.started_at {
                            Some(t) => t >= f,
                            None => false,
                        },
                        None => true,
                    };
                    let to_ok = match to {
                        Some(t0) => match srow.started_at {
                            Some(t) => t <= t0,
                            None => false,
                        },
                        None => true,
                    };
                    if matched && agent_ok && project_ok && from_ok && to_ok {
                        let ghost pre = all.deep_view();
                        let res = SearchResult {
                            session_id: clone_string(&frow.session_id),
                            agent: clone_string(&srow.agent),
                            project_name: clone_opt_string(&srow.project_name),
                            project_path: clone_opt_string(&srow.project_path),
                            role: clone_string(&frow.role),
                            content: clone_string(&frow.content),
                            timestamp: srow.started_at,
                            summary: clone_opt_string(&srow.summary),
                            started_at: srow.started_at,
                        };
                        let ghost resv = res@;
                        all.push(res);
                        proof {
                            assert(self.sessions_view()[jj as int] == self.sessions@[jj as int]@);
                            assert(resv == mk_result(fsv[i as int], self.sessions_view()[jj as int]));
                            assert(all.deep_view() =~= pre.push(resv));
                            assert(pre.push(resv) =~= pre + seq![resv]);
                            assert(pre + (seq![resv] + search_rows(
                                fsv.skip(i + 1),
                                self.sessions_view(),
                                qv,
                                agv,
                                prv,
                                from,
                                to,
                            )) =~= (pre + seq![resv]) + search_rows(
                                fsv.skip(i + 1),
                                self.sessions_view(),
                                qv,
                                agv,
                                prv,
                                from,
                                to,
                            ));
                        }
                    } else {
                        proof {
                            assert(self.sessions_view()[jj as int] == self.sessions@[jj as int]@);
                            assert(!(fts_match(fsv[i as int].content, qv) && row_passes(
                                self.sessions_view()[jj as int],
                                agv,
                                prv,
                                from,
                                to,
                            )));
                        }
                    }
                },
            }
            i = i + 1;
        }
        proof {
            assert(fsv.skip(fsv.len() as int) =~= Seq::<MessageFtsRowV>::empty());
            assert(all.deep_view() + Seq::<SearchResultV>::empty() =~= all.deep_view());
        }
        let cut: usize = if limit < all.len() {
            limit
        } else {
            all.len()
        };
        let mut out: Vec<SearchResult> = Vec::new();
        let mut k: usize = 0;
        proof {
            assert(out.deep_view() =~= all.deep_view().subrange(0, 0));
        }
        while k < cut
            invariant
                k <= cut <= all@.len(),
                all.deep_view().len() == all@.len(),
                out@.len() == k,
                out.deep_view() == all.deep_view().subrange(0, k as int),
            decreases cut - k,
        {
            let ghost pre = out.deep_view();
            let copy = clone_search_result(&all[k]);
            let ghost cv = copy@;
            proof {
                assert(cv == all.deep_view()[k as int]);
            }
            out.push(copy);
            k = k + 1;
            proof {
                assert forall|j: int|
                    0 <= j < k implies out.deep_view()[j] == all.deep_view().subrange(
                    0,
                    k as int,
                )[j] by {
                    if j < k - 1 {
                        assert(out.deep_view()[j] == pre[j]);
                    } else {
                        assert(out.deep_view()[j] == cv);
                    }
                }
                assert(out.deep_view() =~= all.deep_view().subrange(0, k as int));
            }
        }
        proof {
            assert(search_post(
                *self,
                keyword,
                agent,
                project,
                from,
                to,
                limit as int,
                cwd,
                out.deep_view(),
            ));
        }
        Ok(out)
    }
}

fn clone_search_result(r0: &SearchResult) -> (r: SearchResult)
    ensures
        r@ == r0@,
{
    SearchResult {
        session_id: clone_string(&r0.session_id),
        agent: clone_string(&r0.agent),
        project_name: clone_opt_string(&r0.project_name),
        project_path: clone_opt_string(&r0.project_path),
        role: clone_string(&r0.role),
        content: clone_string(&r0.content),
        timestamp: r0.timestamp,
        summary: clone_opt_string(&r0.summary),
        started_at: r0.started_at,
    }
}

/// Addition clipped to the i64 range.
pub open spec fn add_sat(a: int, b: int) -> int {
    if a + b > i64::MAX {
        i64::MAX as int
    } else if a + b < i64::MIN {
        i64::MIN as int
    } else {
        a + b
    }
}

/// The clipped sum of created-file counts over rows.
pub open spec fn sum_created(ss: Seq<SessionRowV>) -> int
    decreases ss.len(),
{
    if ss.len() == 0 {
        0
    } else {
        add_sat(sum_created(ss.drop_last()), ss.last().files_created)
    }
}

/// The clipped sum of modified-file counts over rows.
pub open spec fn sum_modified(ss: Seq<SessionRowV>) -> int
    decreases ss.len(),
{
    if ss.len() == 0 {
        0
    } else {
        add_sat(sum_modified(ss.drop_last()), ss.last().files_modified)
    }
}

/// The clipped sum of deleted-file counts over rows.
pub open spec fn sum_deleted(ss: Seq<SessionRowV>) -> int
    decreases ss.len(),
{
    if ss.len() == 0 {
        0
    } else {
        add_sat(sum_deleted(ss.drop_last()), ss.last().files_deleted)
    }
}

/// How many rows carry this agent.
pub open spec fn agent_count(ss: Seq<SessionRowV>, a: Seq<char>) -> nat
    decreases ss.len(),
{
    if ss.len() == 0 {
        0
    } else {
        agent_count(ss.drop_last(), a) + if ss.last().agent == a {
            1nat
        } else {
            0nat
        }
    }
}

/// The grouping key for a row's project: its name, or `unknown`.
pub open spec fn project_key(r: SessionRowV) -> Seq<char> {
    match r.project_name {
        Some(p) => p,
        None => "unknown"@,
    }
}

/// How many rows carry this project key.
pub open spec fn project_count(ss: Seq<SessionRowV>, p: Seq<char>) -> nat
    decreases ss.len(),
{
    if ss.len() == 0 {
        0
    } else {
        project_count(ss.drop_last(), p) + if project_key(ss.last()) == p {
            1nat
        } else {
            0nat
        }
    }
}

/// Whether a tool call falls in the statistics window and names a file.
pub open spec fn in_window(t: ToolCallRowV, from: Option<i64>, to: Option<i64>) -> bool {
    &&& t.file_path is Some
    &&& match from {
        Some(f) => match t.timestamp {
            Some(ts) => ts >= f,
            None => false,
        },
        None => true,
    }
    &&& match to {
        Some(t0) => match t.timestamp {
            Some(ts) => ts <= t0,
            None => false,
        },
        None => true,
    }
}

/// How many windowed tool calls touched this file path.
pub open spec fn file_count(
    ts: Seq<ToolCallRowV>,
    p: Seq<char>,
    from: Option<i64>,
    to: Option<i64>,
) -> nat
    decreases ts.len(),
{
    if ts.len() == 0 {
        0
    } else {
        file_count(ts.drop_last(), p, from, to) + if in_window(ts.last(), from, to)
            && ts.last().file_path == Some(p) {
            1nat
        } else {
            0nat
        }
    }
}

/// The views of keyed counts.
pub open spec fn kc_views(v: Seq<(String, i64)>) -> Seq<(Seq<char>, i64)> {
    v.map_values(|p: (String, i64)| (p.0@, p.1))
}

/// Whether `pairs` is exactly the agent grouping of `ss`: distinct
/// keys, each with its clipped count, and a key for every row.
pub open spec fn agent_groups(pairs: Seq<(Seq<char>, i64)>, ss: Seq<SessionRowV>) -> bool {
    &&& forall|a: int, b: int| 0 <= a < b < pairs.len() ==> pairs[a].0 != pairs[b].0
    &&& forall|a: int|
        0 <= a < pairs.len() ==> (#[trigger] pairs[a]).1 as int == to_i64_sat(
            agent_count(ss, pairs[a].0) as int,
        ) && agent_count(ss, pairs[a].0) > 0
    &&& forall|i: int|
        0 <= i < ss.len() ==> exists|a: int|
            0 <= a < pairs.len() && pairs[a].0 == (#[trigger] ss[i]).agent
}

/// Whether `pairs` is exactly the project grouping of `ss`.
pub open spec fn project_groups(pairs: Seq<(Seq<char>, i64)>, ss: Seq<SessionRowV>) -> bool {
    &&& forall|a: int, b: int| 0 <= a < b < pairs.len() ==> pairs[a].0 != pairs[b].0
    &&& forall|a: int|
        0 <= a < pairs.len() ==> (#[trigger] pairs[a]).1 as int == to_i64_sat(
            project_count(ss, pairs[a].0) as int,
        ) && project_count(ss, pairs[a].0) > 0
    &&& forall|i: int|
        0 <= i < ss.len() ==> exists|a: int|
            0 <= a < pairs.len() && pairs[a].0 == project_key(#[trigger] ss[i])
}

/// Whether `pairs` is exactly the file grouping of the windowed calls.
pub open spec fn file_groups(
    pairs: Seq<(Seq<char>, i64)>,
    ts: Seq<ToolCallRowV>,
    from: Option<i64>,
    to: Option<i64>,
) -> bool {
    &&& forall|a: int, b: int| 0 <= a < b < pairs.len() ==> pairs[a].0 != pairs[b].0
    &&& forall|a: int|
        0 <= a < pairs.len() ==> (#[trigger] pairs[a]).1 as int == to_i64_sat(
            file_count(ts, pairs[a].0, from, to) as int,
        ) && file_count(ts, pairs[a].0, from, to) > 0
    &&& forall|i: int|
        0 <= i < ts.len() && in_window(#[trigger] ts[i], from, to) ==> exists|a: int|
            0 <= a < pairs.len() && Some(pairs[a].0) == ts[i].file_path
}

/// Count pairs in descending count order.
pub open spec fn pairs_sorted_desc(pairs: Seq<(Seq<char>, i64)>) -> bool {
    forall|a: int, b: int| 0 <= a < b < pairs.len() ==> (#[trigger] pairs[a]).1 >= (#[trigger] pairs[b]).1
}

/// Aggregate statistics over the filtered sessions.
#[derive(Debug, Clone)]
pub struct Stats {
    pub total_sessions: i64,
    pub sessions_by_agent: Vec<(String, i64)>,
    pub sessions_by_project: Vec<(String, i64)>,
    pub total_files_created: i64,
    pub total_files_modified: i64,
    pub total_files_deleted: i64,
    pub most_modified_files: Vec<(String, i64)>,
}

/// What the statistics operation guarantees over the sessions passing
/// the window and project filters, and the tool calls in the window.
pub open spec fn stats_post(
    db: Database,
    from: Option<i64>,
    to: Option<i64>,
    project: Option<&str>,
    cwd: &str,
    st: Stats,
) -> bool {
    let filtered = list_filtered(
        db.sessions_view(),
        None::<Seq<char>>,
        opt_norm(project, cwd),
        from,
        to,
    );
    &&& st.total_sessions as int == to_i64_sat(filtered.len() as int)
    &&& st.total_files_created as int == sum_created(filtered)
    &&& st.total_files_modified as int == sum_modified(filtered)
    &&& st.total_files_deleted as int == sum_deleted(filtered)
    &&& agent_groups(kc_views(st.sessions_by_agent@), filtered)
    &&& project_groups(kc_views(st.sessions_by_project@), filtered)
    &&& exists|all_pairs: Seq<(Seq<char>, i64)>|
        {
            &&& #[trigger] file_groups(all_pairs, db.tool_calls_view(), from, to)
            &&& pairs_sorted_desc(all_pairs)
            &&& kc_views(st.most_modified_files@) == all_pairs.subrange(
                0,
                if all_pairs.len() < 10 {
                    all_pairs.len() as int
                } else {
                    10
                },
            )
        }
}

fn add_sat_exec(a: i64, b: i64) -> (r: i64)
    ensures
        r as int == add_sat(a as int, b as int),
{
    if b >= 0 {
        if a > i64::MAX - b {
            i64::MAX
        } else {
            a + b
        }
    } else {
        if a < i64::MIN - b {
            i64::MIN
        } else {
            a + b
        }
    }
}

fn sat_inc(c: i64) -> (r: i64)
    ensures
        r as int == to_i64_sat(c as int + 1),
        c >= 0 ==> r >= 0,
{
    if c < i64::MAX {
        c + 1
    } else {
        c
    }
}

fn find_key(pairs: &Vec<(String, i64)>, key: &Vec<char>) -> (r: Option<usize>)
    ensures
        match r {
            Some(i) => i < kc_views(pairs@).len() && kc_views(pairs@)[i as int].0 == key@,
            None => forall|a: int| 0 <= a < kc_views(pairs@).len() ==> kc_views(pairs@)[a].0 != key@,
        },
{
    let mut i: usize = 0;
    while i < pairs.len()
        invariant
            i <= pairs@.len(),
            forall|a: int| 0 <= a < i ==> kc_views(pairs@)[a].0 != key@,
        decreases pairs@.len() - i,
    {
        let kv = text::chars_of(pairs[i].0.as_str());
        if text::eq_chars(&kv, key) {
            proof {
                assert(kc_views(pairs@)[i as int].0 == key@);
            }
            return Some(i);
        }
        i = i + 1;
    }
    None
}

/// Whether some pair of `pairs` equals `x`.
pub open spec fn pair_member(pairs: Seq<(Seq<char>, i64)>, x: (Seq<char>, i64)) -> bool {
    exists|b: int| 0 <= b < pairs.len() && pairs[b] == x
}

fn find_pair_pos(out: &Vec<(String, i64)>, c: i64) -> (p: usize)
    ensures
        p <= kc_views(out@).len(),
        forall|k: int| 0 <= k < p ==> (#[trigger] kc_views(out@)[k]).1 >= c,
        p < kc_views(out@).len() ==> kc_views(out@)[p as int].1 < c,
{
    let mut p: usize = 0;
    while p < out.len()
        invariant
            p <= out@.len(),
            kc_views(out@).len() == out@.len(),
            forall|k: int| 0 <= k < p ==> (#[trigger] kc_views(out@)[k]).1 >= c,
        decreases out@.len() - p,
    {
        proof {
            assert(kc_views(out@)[p as int].1 == out@[p as int].1);
        }
        if out[p].1 < c {
            return p;
        }
        p = p + 1;
    }
    p
}

fn sort_pairs_desc(v: &Vec<(String, i64)>) -> (r: Vec<(String, i64)>)
    ensures
        kc_views(r@).to_multiset() == kc_views(v@).to_multiset(),
        kc_views(r@).len() == kc_views(v@).len(),
        pairs_sorted_desc(kc_views(r@)),
        forall|a: int|
            0 <= a < kc_views(v@).len() ==> pair_member(kc_views(r@), #[trigger] kc_views(v@)[a]),
{
    let mut out: Vec<(String, i64)> = Vec::new();
    let mut i: usize = 0;
    proof {
        broadcast use vstd::seq_lib::group_to_multiset_ensures;

        assert(kc_views(v@).subrange(0, 0) =~= Seq::<(Seq<char>, i64)>::empty());
        assert(kc_views(out@) =~= Seq::<(Seq<char>, i64)>::empty());
        assert(kc_views(out@).to_multiset() =~= Seq::<(Seq<char>, i64)>::empty().to_multiset());
    }
    while i < v.len()
        invariant
            i <= v@.len(),
            kc_views(v@).len() == v@.len(),
            kc_views(out@).to_multiset() == kc_views(v@).subrange(0, i as int).to_multiset(),
            kc_views(out@).len() == i,
            pairs_sorted_desc(kc_views(out@)),
        decreases v@.len() - i,
    {
        let name = text::chars_of(v[i].0.as_str());
        let entry = (text::string_from_chars(&name), v[i].1);
        let ghost ev = (entry.0@, entry.1);
        proof {
            assert(ev == kc_views(v@)[i as int]);
        }
        let p = find_pair_pos(&out, entry.1);
        let ghost pre = kc_views(out@);
        let ghost pp = p as int;
        out.insert(p, entry);
        i = i + 1;
        proof {
            broadcast use vstd::seq_lib::group_to_multiset_ensures;

            assert(kc_views(out@) =~~= pre.insert(pp, ev));
            lemma_insert_multiset(pre, pp, ev);
            assert(kc_views(v@).subrange(0, i as int).drop_last() =~= kc_views(v@).subrange(
                0,
                i - 1,
            ));
            assert(kc_views(v@).subrange(0, i as int) =~= kc_views(v@).subrange(0, i - 1).push(
                ev,
            ));
            assert forall|a: int, b: int|
                0 <= a < b < kc_views(out@).len() implies (#[trigger] kc_views(out@)[a]).1
                >= (#[trigger] kc_views(out@)[b]).1 by {
                let dv = kc_views(out@);
                if a < pp && b == pp {
                    assert(dv[a] == pre[a]);
                } else if a == pp && b > pp {
                    assert(dv[b] == pre[b - 1]);
                    if b - 1 == pp {
                        assert(pre[pp].1 < ev.1);
                    } else {
                        assert(pre[pp].1 >= pre[b - 1].1);
                        assert(pre[pp].1 < ev.1);
                    }
                } else if a < pp && b > pp {
                    assert(dv[a] == pre[a]);
                    assert(dv[b] == pre[b - 1]);
                } else if b < pp {
                    assert(dv[a] == pre[a]);
                    assert(dv[b] == pre[b]);
                } else if a > pp {
                    assert(dv[a] == pre[a - 1]);
                    assert(dv[b] == pre[b - 1]);
                }
            }
        }
    }
    proof {
        assert(kc_views(v@).subrange(0, v@.len() as int) =~= kc_views(v@));
        broadcast use vstd::seq_lib::group_to_multiset_ensures;

        assert forall|a: int| 0 <= a < kc_views(v@).len() implies pair_member(
            kc_views(out@),
            #[trigger] kc_views(v@)[a],
        ) by {
            assert(kc_views(v@).to_multiset().contains(kc_views(v@)[a]));
            assert(kc_views(out@).to_multiset().contains(kc_views(v@)[a]));
            assert(kc_views(out@).contains(kc_views(v@)[a]));
            let b = choose|b: int|
                0 <= b < kc_views(out@).len() && kc_views(out@)[b] == kc_views(v@)[a];
            assert(0 <= b < kc_views(out@).len() && kc_views(out@)[b] == kc_views(v@)[a]);
        }
    }
    out
}

#[verifier::rlimit(100)]
fn group_by_agent(f: &Vec<SessionRow>) -> (r: Vec<(String, i64)>)
    ensures
        agent_groups(kc_views(r@), f.deep_view()),
{
    let mut pairs: Vec<(String, i64)> = Vec::new();
    let mut i: usize = 0;
    proof {
        assert(f.deep_view().subrange(0, 0) =~= Seq::<SessionRowV>::empty());
        assert(kc_views(pairs@) =~= Seq::<(Seq<char>, i64)>::empty());
    }
    while i < f.len()
        invariant
            i <= f@.len(),
            f.deep_view().len() == f@.len(),
            forall|a: int, b: int|
                0 <= a < b < kc_views(pairs@).len() ==> kc_views(pairs@)[a].0 != kc_views(
                    pairs@,
                )[b].0,
            forall|a: int|
                0 <= a < kc_views(pairs@).len() ==> (#[trigger] kc_views(pairs@)[a]).1 as int
                    == to_i64_sat(
                    agent_count(f.deep_view().subrange(0, i as int), kc_views(pairs@)[a].0) as int,
                ) && agent_count(f.deep_view().subrange(0, i as int), kc_views(pairs@)[a].0) > 0,
            forall|j: int|
                0 <= j < i ==> pair_key_present(
                    kc_views(pairs@),
                    (#[trigger] f.deep_view()[j]).agent,
                ),
            forall|g: Seq<char>|
                !pair_key_present(kc_views(pairs@), g) ==> #[trigger] agent_count(
                    f.deep_view().subrange(0, i as int),
                    g,
                ) == 0,
        decreases f@.len() - i,
    {
        proof {
            assert(f.deep_view().subrange(0, i + 1).drop_last() =~= f.deep_view().subrange(
                0,
                i as int,
            ));
            assert(f.deep_view().subrange(0, i + 1).last() == f.deep_view()[i as int]);
            assert(f.deep_view()[i as int] == f@[i as int]@);
        }
        let key = text::chars_of(f[i].agent.as_str());
        let ghost g0 = key@;
        match find_key(&pairs, &key) {
            Some(idx) => {
                let newc = sat_inc(pairs[idx].1);
                let name = text::chars_of(pairs[idx].0.as_str());
                let ghost pre = kc_views(pairs@);
                let entry = (text::string_from_chars(&name), newc);
                let ghost ev = (entry.0@, entry.1);
                pairs[idx] = entry;
                proof {
                    assert(kc_views(pairs@) =~~= pre.update(idx as int, ev));
                    assert(ev.0 == pre[idx as int].0);
                    assert forall|a: int|
                        0 <= a < kc_views(pairs@).len() && a != idx implies kc_views(pairs@)[a]
                        == pre[a] by {}
                    assert forall|g: Seq<char>| g != g0 implies #[trigger] agent_count(
                        f.deep_view().subrange(0, i + 1),
                        g,
                    ) == agent_count(f.deep_view().subrange(0, i as int), g) by {}
                    assert forall|g: Seq<char>|
                        pair_key_present(pre, g) implies pair_key_present(
                        kc_views(pairs@),
                        g,
                    ) by {
                        let a = choose|a: int| 0 <= a < pre.len() && pre[a].0 == g;
                        assert(kc_views(pairs@)[a].0 == g);
                    }
                    assert(kc_views(pairs@)[idx as int].0 == g0);
                    assert(pair_key_present(kc_views(pairs@), g0));
                }
            },
            None => {
                let ghost pre = kc_views(pairs@);
                let entry = (text::string_from_chars(&key), 1i64);
                let ghost ev = (entry.0@, entry.1);
                pairs.push(entry);
                proof {
                    assert(kc_views(pairs@) =~~= pre.push(ev));
                    assert(agent_count(f.deep_view().subrange(0, i as int), g0) == 0);
                    assert forall|g: Seq<char>| g != g0 implies #[trigger] agent_count(
                        f.deep_view().subrange(0, i + 1),
                        g,
                    ) == agent_count(f.deep_view().subrange(0, i as int), g) by {}
                    assert forall|g: Seq<char>|
                        pair_key_present(pre, g) implies pair_key_present(
                        kc_views(pairs@),
                        g,
                    ) by {
                        let a = choose|a: int| 0 <= a < pre.len() && pre[a].0 == g;
                        assert(kc_views(pairs@)[a].0 == g);
                    }
                    assert(kc_views(pairs@)[pre.len() as int].0 == g0);
                    assert(pair_key_present(kc_views(pairs@), g0));
                }
            },
        }
        i = i + 1;
    }
    proof {
        assert(f.deep_view().subrange(0, f@.len() as int) =~= f.deep_view());
        assert forall|j: int|
            0 <= j < f.deep_view().len() implies exists|a: int|
            0 <= a < kc_views(pairs@).len() && kc_views(pairs@)[a].0 == (#[trigger] f.deep_view()[j]).agent by {
            assert(pair_key_present(kc_views(pairs@), f.deep_view()[j].agent));
        }
    }
    pairs
}

/// Whether some pair of `pairs` carries the key `g`.
pub open spec fn pair_key_present(pairs: Seq<(Seq<char>, i64)>, g: Seq<char>) -> bool {
    exists|a: int| 0 <= a < pairs.len() && (#[trigger] pairs[a]).0 == g
}

#[verifier::rlimit(100)]
fn group_by_project(f: &Vec<SessionRow>) -> (r: Vec<(String, i64)>)
    ensures
        project_groups(kc_views(r@), f.deep_view()),
{
    let mut pairs: Vec<(String, i64)> = Vec::new();
    let mut i: usize = 0;
    proof {
        assert(f.deep_view().subrange(0, 0) =~= Seq::<SessionRowV>::empty());
        assert(kc_views(pairs@) =~= Seq::<(Seq<char>, i64)>::empty());
    }
    while i < f.len()
        invariant
            i <= f@.len(),
            f.deep_view().len() == f@.len(),
            forall|a: int, b: int|
                0 <= a < b < kc_views(pairs@).len() ==> kc_views(pairs@)[a].0 != kc_views(
                    pairs@,
                )[b].0,
            forall|a: int|
                0 <= a < kc_views(pairs@).len() ==> (#[trigger] kc_views(pairs@)[a]).1 as int
                    == to_i64_sat(
                    project_count(f.deep_view().subrange(0, i as int), kc_views(pairs@)[a].0) as int,
                ) && project_count(f.deep_view().subrange(0, i as int), kc_views(pairs@)[a].0) > 0,
            forall|j: int|
                0 <= j < i ==> pair_key_present(
                    kc_views(pairs@),
                    project_key(#[trigger] f.deep_view()[j]),
                ),
            forall|g: Seq<char>|
                !pair_key_present(kc_views(pairs@), g) ==> #[trigger] project_count(
                    f.deep_view().subrange(0, i as int),
                    g,
                ) == 0,
        decreases f@.len() - i,
    {
        proof {
            assert(f.deep_view().subrange(0, i + 1).drop_last() =~= f.deep_view().subrange(
                0,
                i as int,
            ));
            assert(f.deep_view().subrange(0, i + 1).last() == f.deep_view()[i as int]);
            assert(f.deep_view()[i as int] == f@[i as int]@);
        }
        let key = match &f[i].project_name {
            Some(p) => text::chars_of(p.as_str()),
            None => text::chars_of("unknown"),
        };
        let ghost g0 = project_key(f.deep_view()[i as int]);
        proof {
            assert(key@ == g0);
        }
        match find_key(&pairs, &key) {
            Some(idx) => {
                let newc = sat_inc(pairs[idx].1);
                let name = text::chars_of(pairs[idx].0.as_str());
                let ghost pre = kc_views(pairs@);
                let entry = (text::string_from_chars(&name), newc);
                let ghost ev = (entry.0@, entry.1);
                pairs[idx] = entry;
                proof {
                    assert(kc_views(pairs@) =~~= pre.update(idx as int, ev));
                    assert(ev.0 == pre[idx as int].0);
                    assert forall|a: int|
                        0 <= a < kc_views(pairs@).len() && a != idx implies kc_views(pairs@)[a]
                        == pre[a] by {}
                    assert forall|g: Seq<char>| g != g0 implies #[trigger] project_count(
                        f.deep_view().subrange(0, i + 1),
                        g,
                    ) == project_count(f.deep_view().subrange(0, i as int), g) by {}
                    assert forall|g: Seq<char>|
                        pair_key_present(pre, g) implies pair_key_present(
                        kc_views(pairs@),
                        g,
                    ) by {
                        let a = choose|a: int| 0 <= a < pre.len() && pre[a].0 == g;
                        assert(kc_views(pairs@)[a].0 == g);
                    }
                    assert(kc_views(pairs@)[idx as int].0 == g0);
                    assert(pair_key_present(kc_views(pairs@), g0));
                }
            },
            None => {
                let ghost pre = kc_views(pairs@);
                let entry = (text::string_from_chars(&key), 1i64);
                let ghost ev = (entry.0@, entry.1);
                pairs.push(entry);
                proof {
                    assert(kc_views(pairs@) =~~= pre.push(ev));
                    assert(project_count(f.deep_view().subrange(0, i as int), g0) == 0);
                    assert forall|g: Seq<char>| g != g0 implies #[trigger] project_count(
                        f.deep_view().subrange(0, i + 1),
                        g,
                    ) == project_count(f.deep_view().subrange(0, i as int), g) by {}
                    assert forall|g: Seq<char>|
                        pair_key_present(pre, g) implies pair_key_present(
                        kc_views(pairs@),
                        g,
                    ) by {
                        let a = choose|a: int| 0 <= a < pre.len() && pre[a].0 == g;
                        assert(kc_views(pairs@)[a].0 == g);
                    }
                    assert(kc_views(pairs@)[pre.len() as int].0 == g0);
                    assert(pair_key_present(kc_views(pairs@), g0));
                }
            },
        }
        i = i + 1;
    }
    proof {
        assert(f.deep_view().subrange(0, f@.len() as int) =~= f.deep_view());
        assert forall|j: int|
            0 <= j < f.deep_view().len() implies exists|a: int|
            0 <= a < kc_views(pairs@).len() && kc_views(pairs@)[a].0 == project_key(
            #[trigger] f.deep_view()[j],
        ) by {
            assert(pair_key_present(kc_views(pairs@), project_key(f.deep_view()[j])));
        }
    }
    pairs
}

impl Database {
    #[verifier::rlimit(100)]
    fn group_files(&self, from: Option<i64>, to: Option<i64>) -> (r: Vec<(String, i64)>)
        ensures
            file_groups(kc_views(r@), self.tool_calls_view(), from, to),
    {
        let mut pairs: Vec<(String, i64)> = Vec::new();
        let mut i: usize = 0;
        let ghost tv = self.tool_calls_view();
        proof {
            assert(tv.subrange(0, 0) =~= Seq::<ToolCallRowV>::empty());
            assert(kc_views(pairs@) =~= Seq::<(Seq<char>, i64)>::empty());
        }
        while i < self.tool_calls.len()
            invariant
                i <= self.tool_calls@.len(),
                tv == self.tool_calls_view(),
                tv.len() == self.tool_calls@.len(),
                forall|a: int, b: int|
                    0 <= a < b < kc_views(pairs@).len() ==> kc_views(pairs@)[a].0 != kc_views(
                        pairs@,
                    )[b].0,
                forall|a: int|
                    0 <= a < kc_views(pairs@).len() ==> (#[trigger] kc_views(pairs@)[a]).1 as int
                        == to_i64_sat(
                        file_count(tv.subrange(0, i as int), kc_views(pairs@)[a].0, from, to) as int,
                    ) && file_count(tv.subrange(0, i as int), kc_views(pairs@)[a].0, from, to) > 0,
                forall|j: int|
                    0 <= j < i && in_window(#[trigger] tv[j], from, to) ==> exists|a: int|
                        0 <= a < kc_views(pairs@).len() && Some(kc_views(pairs@)[a].0)
                            == tv[j].file_path,
                forall|g: Seq<char>|
                    !pair_key_present(kc_views(pairs@), g) ==> #[trigger] file_count(
                        tv.subrange(0, i as int),
                        g,
                        from,
                        to,
                    ) == 0,
            decreases self.tool_calls@.len() - i,
        {
            proof {
                assert(tv.subrange(0, i + 1).drop_last() =~= tv.subrange(0, i as int));
                assert(tv.subrange(0, i + 1).last() == tv[i as int]);
                assert(tv[i as int] == self.tool_calls@[i as int]@);
            }
            let row = &self.tool_calls[i];
            let from_ok = match from {
                Some(fb) => match row.timestamp {
                    Some(ts) => ts >= fb,
                    None => false,
                },
                None => true,
            };
            let to_ok = match to {
                Some(tb) => match row.timestamp {
                    Some(ts) => ts <= tb,
                    None => false,
                },
                None => true,
            };
            match &row.file_path {
                Some(fp) if from_ok && to_ok => {
                    let key = text::chars_of(fp.as_str());
                    let ghost g0 = key@;
                    proof {
                        assert(in_window(tv[i as int], from, to));
                        assert(tv[i as int].file_path == Some(g0));
                    }
                    match find_key(&pairs, &key) {
                        Some(idx) => {
                            let newc = sat_inc(pairs[idx].1);
                            let name = text::chars_of(pairs[idx].0.as_str());
                            let ghost pre = kc_views(pairs@);
                            let entry = (text::string_from_chars(&name), newc);
                            let ghost ev = (entry.0@, entry.1);
                            pairs[idx] = entry;
                            proof {
                                assert(kc_views(pairs@) =~~= pre.update(idx as int, ev));
                                assert(ev.0 == pre[idx as int].0);
                                assert forall|a: int|
                                    0 <= a < kc_views(pairs@).len() && a != idx implies kc_views(
                                    pairs@,
                                )[a] == pre[a] by {}
                                assert forall|g: Seq<char>| g != g0 implies #[trigger] file_count(
                                    tv.subrange(0, i + 1),
                                    g,
                                    from,
                                    to,
                                ) == file_count(tv.subrange(0, i as int), g, from, to) by {}
                                assert forall|g: Seq<char>|
                                    pair_key_present(pre, g) implies pair_key_present(
                                    kc_views(pairs@),
                                    g,
                                ) by {
                                    let a = choose|a: int| 0 <= a < pre.len() && pre[a].0 == g;
                                    assert(kc_views(pairs@)[a].0 == g);
                                }
                                assert(kc_views(pairs@)[idx as int].0 == g0);
                                assert(pair_key_present(kc_views(pairs@), g0));
                            }
                        },
                        None => {
                            let ghost pre = kc_views(pairs@);
                            let entry = (text::string_from_chars(&key), 1i64);
                            let ghost ev = (entry.0@, entry.1);
                            pairs.push(entry);
                            proof {
                                assert(kc_views(pairs@) =~~= pre.push(ev));
                                assert(file_count(tv.subrange(0, i as int), g0, from, to) == 0);
                                assert forall|g: Seq<char>| g != g0 implies #[trigger] file_count(
                                    tv.subrange(0, i + 1),
                                    g,
                                    from,
                                    to,
                                ) == file_count(tv.subrange(0, i as int), g, from, to) by {}
                                assert forall|g: Seq<char>|
                                    pair_key_present(pre, g) implies pair_key_present(
                                    kc_views(pairs@),
                                    g,
                                ) by {
                                    let a = choose|a: int| 0 <= a < pre.len() && pre[a].0 == g;
                                    assert(kc_views(pairs@)[a].0 == g);
                                }
                                assert(kc_views(pairs@)[pre.len() as int].0 == g0);
                                assert(pair_key_present(kc_views(pairs@), g0));
                            }
                        },
                    }
                },
                _ => {
                    proof {
                        assert forall|g: Seq<char>| true implies #[trigger] file_count(
                            tv.subrange(0, i + 1),
                            g,
                            from,
                            to,
                        ) == file_count(tv.subrange(0, i as int), g, from, to) by {
                            assert(!(in_window(tv[i as int], from, to) && tv[i as int].file_path
                                == Some(g)));
                        }
                    }
                },
            }
            i = i + 1;
        }
        proof {
            assert(tv.subrange(0, self.tool_calls@.len() as int) =~= tv);
        }
        pairs
    }

    /// Aggregate statistics: the filtered session count, the clipped
    /// file-mutation sums, the per-agent and per-project counts, and the
    /// ten most-touched file paths within the window.
    pub fn get_stats(
        &self,
        from: Option<i64>,
        to: Option<i64>,
        project: Option<&str>,
        cwd: &str,
    ) -> (r: Result<Stats, StoreError>)
        ensures
            match r {
                Ok(st) => stats_post(*self, from, to, project, cwd, st),
                Err(_) => false,
            },
    {
        let ghost prv = opt_norm(project, cwd);
        let project_chars: Option<Vec<char>> = match project {
            Some(p) => {
                let n = crate::paths::norm_path(p, cwd);
                Some(text::chars_of(n.as_str()))
            },
            None => None,
        };
        let mut f: Vec<SessionRow> = Vec::new();
        let mut i: usize = 0;
        proof {
            reveal(Seq::filter);
            assert(self.sessions_view().subrange(0, 0) =~= Seq::<SessionRowV>::empty());
            assert(f.deep_view() =~= Seq::<SessionRowV>::empty());
        }
        while i < self.sessions.len()
            invariant
                i <= self.sessions@.len(),
                self.sessions_view().len() == self.sessions@.len(),
                match project_chars {
                    Some(pc) => prv == Some(pc@),
                    None => prv is None,
                },
                f.deep_view() == list_filtered(
                    self.sessions_view().subrange(0, i as int),
                    None::<Seq<char>>,
                    prv,
                    from,
                    to,
                ),
            decreases self.sessions@.len() - i,
        {
            proof {
                reveal(Seq::filter);
                assert(self.sessions_view().subrange(0, i + 1).drop_last() =~= self.sessions_view()
                    .subrange(0, i as int));
                assert(self.sessions_view().subrange(0, i + 1).last()
                    == self.sessions_view()[i as int]);
                assert(self.sessions_view()[i as int] == self.sessions@[i as int]@);
            }
            let row = &self.sessions[i];
            let project_ok = match &project_chars {
                Some(pc) => match &row.project_path {
                    Some(pp) => {
                        let ppv = text::chars_of(pp.as_str());
                        text::eq_chars(&ppv, pc)
                    },
                    None => false,
                },
                None => true,
            };
            let from_ok = match from {
                Some(fb) => match row.started_at {
                    Some(t) => t >= fb,
                    None => false,
                },
                None => true,
            };
            let to_ok = match to {
                Some(tb) => match row.started_at {
                    Some(t) => t <= tb,
                    None => false,
                },
                None => true,
            };
            if project_ok && from_ok && to_ok {
                let ghost pre = f.deep_view();
                let copy = clone_session_row(row);
                let ghost cv = copy@;
                f.push(copy);
                proof {
                    assert(row_passes(
                        self.sessions_view()[i as int],
                        None::<Seq<char>>,
                        prv,
                        from,
                        to,
                    ));
                    assert(f.deep_view() =~= pre.push(cv));
                }
            } else {
                proof {
                    assert(!row_passes(
                        self.sessions_view()[i as int],
                        None::<Seq<char>>,
                        prv,
                        from,
                        to,
                    ));
                }
            }
            i = i + 1;
        }
        proof {
            assert(self.sessions_view().subrange(0, self.sessions@.len() as int) =~= self
                .sessions_view());
        }
        let ghost fdv = f.deep_view();
        let total = usize_to_i64_sat(f.len());
        let mut created: i64 = 0;
        let mut modified: i64 = 0;
        let mut deleted: i64 = 0;
        let mut k: usize = 0;
        proof {
            assert(fdv.subrange(0, 0) =~= Seq::<SessionRowV>::empty());
        }
        while k < f.len()
            invariant
                k <= f@.len(),
                fdv == f.deep_view(),
                fdv.len() == f@.len(),
                created as int == sum_created(fdv.subrange(0, k as int)),
                modified as int == sum_modified(fdv.subrange(0, k as int)),
                deleted as int == sum_deleted(fdv.subrange(0, k as int)),
            decreases f@.len() - k,
        {
            proof {
                assert(fdv.subrange(0, k + 1).drop_last() =~= fdv.subrange(0, k as int));
                assert(fdv.subrange(0, k + 1).last() == fdv[k as int]);
                assert(fdv[k as int] == f@[k as int]@);
            }
            created = add_sat_exec(created, f[k].files_created);
            modified = add_sat_exec(modified, f[k].files_modified);
            deleted = add_sat_exec(deleted, f[k].files_deleted);
            k = k + 1;
        }
        proof {
            assert(fdv.subrange(0, f@.len() as int) =~= fdv);
        }
        let by_agent = group_by_agent(&f);
        let by_project = group_by_project(&f);
        let file_pairs = self.group_files(from, to);
        let sorted_pairs = sort_pairs_desc(&file_pairs);
        let cut: usize = if sorted_pairs.len() < 10 {
            sorted_pairs.len()
        } else {
            10
        };
        let mut top: Vec<(String, i64)> = Vec::new();
        let mut t: usize = 0;
        proof {
            assert(kc_views(top@) =~= kc_views(sorted_pairs@).subrange(0, 0));
        }
        while t < cut
            invariant
                t <= cut <= sorted_pairs@.len(),
                kc_views(sorted_pairs@).len() == sorted_pairs@.len(),
                top@.len() == t,
                kc_views(top@) == kc_views(sorted_pairs@).subrange(0, t as int),
            decreases cut - t,
        {
            let ghost pre = kc_views(top@);
            let name = text::chars_of(sorted_pairs[t].0.as_str());
            let entry = (text::string_from_chars(&name), sorted_pairs[t].1);
            let ghost ev = (entry.0@, entry.1);
            proof {
                assert(ev == kc_views(sorted_pairs@)[t as int]);
            }
            top.push(entry);
            t = t + 1;
            proof {
                assert forall|j: int|
                    0 <= j < t implies kc_views(top@)[j] == kc_views(sorted_pairs@).subrange(
                    0,
                    t as int,
                )[j] by {
                    if j < t - 1 {
                        assert(kc_views(top@)[j] == pre[j]);
                    } else {
                        assert(kc_views(top@)[j] == ev);
                    }
                }
                assert(kc_views(top@) =~= kc_views(sorted_pairs@).subrange(0, t as int));
            }
        }
        let st = Stats {
            total_sessions: total,
            sessions_by_agent: by_agent,
            sessions_by_project: by_project,
            total_files_created: created,
            total_files_modified: modified,
            total_files_deleted: deleted,
            most_modified_files: top,
        };
        proof {
            // the sorted file pairs witness the top-ten clause
            let all_pairs = kc_views(sorted_pairs@);
            assert forall|a: int|
                0 <= a < all_pairs.len() implies (#[trigger] all_pairs[a]).1 as int == to_i64_sat(
                file_count(self.tool_calls_view(), all_pairs[a].0, from, to) as int,
            ) && file_count(self.tool_calls_view(), all_pairs[a].0, from, to) > 0 by {
                broadcast use vstd::seq_lib::group_to_multiset_ensures;

                assert(all_pairs.to_multiset().contains(all_pairs[a]));
                assert(kc_views(file_pairs@).to_multiset().contains(all_pairs[a]));
                assert(kc_views(file_pairs@).contains(all_pairs[a]));
                let b = choose|b: int|
                    0 <= b < kc_views(file_pairs@).len() && kc_views(file_pairs@)[b]
                        == all_pairs[a];
            }
            assert(kc_views(file_pairs@).no_duplicates()) by {
                assert forall|x: int, y: int|
                    0 <= x < y < kc_views(file_pairs@).len() implies kc_views(file_pairs@)[x]
                    != kc_views(file_pairs@)[y] by {
                    assert(kc_views(file_pairs@)[x].0 != kc_views(file_pairs@)[y].0);
                }
            }
            kc_views(file_pairs@).lemma_multiset_has_no_duplicates();
            all_pairs.lemma_multiset_has_no_duplicates_conv();
            assert forall|a: int, b: int|
                0 <= a < b < all_pairs.len() implies all_pairs[a].0 != all_pairs[b].0 by {
                broadcast use vstd::seq_lib::group_to_multiset_ensures;

                if all_pairs[a].0 == all_pairs[b].0 {
                    assert(all_pairs[a].1 as int == to_i64_sat(
                        file_count(self.tool_calls_view(), all_pairs[a].0, from, to) as int,
                    ));
                    assert(all_pairs[b].1 as int == to_i64_sat(
                        file_count(self.tool_calls_view(), all_pairs[b].0, from, to) as int,
                    ));
                    assert(all_pairs[a] == all_pairs[b]);
                    assert(all_pairs[a] != all_pairs[b]);
                }
            }
            assert forall|i2: int|
                0 <= i2 < self.tool_calls_view().len() && in_window(
                #[trigger] self.tool_calls_view()[i2],
                from,
                to,
            ) implies exists|a: int|
                0 <= a < all_pairs.len() && Some(all_pairs[a].0)
                    == self.tool_calls_view()[i2].file_path by {
                let a0 = choose|a0: int|
                    0 <= a0 < kc_views(file_pairs@).len() && Some(kc_views(file_pairs@)[a0].0)
                        == self.tool_calls_view()[i2].file_path;
                assert(pair_member(all_pairs, kc_views(file_pairs@)[a0]));
                let b = choose|b: int|
                    0 <= b < all_pairs.len() && all_pairs[b] == kc_views(file_pairs@)[a0];
            }
            assert(file_groups(all_pairs, self.tool_calls_view(), from, to));
            assert(stats_post(*self, from, to, project, cwd, st));
        }
        Ok(st)
    }
}


/// Listing canonicalizes the project filter before comparison: two
/// filter strings with the same canonical form against the same working
/// directory admit exactly the same listing results.
pub proof fn lemma_project_filter_canonical(
    db: Database,
    agent: Option<&str>,
    p1: &str,
    p2: &str,
    from: Option<i64>,
    to: Option<i64>,
    limit: int,
    cwd: &str,
    outv: Seq<SessionRowV>,
)
    requires
        crate::paths::norm_path_spec(p1@, cwd@) == crate::paths::norm_path_spec(p2@, cwd@),
    ensures
        listing_post(db, agent, Some(p1), from, to, limit, cwd, outv) == listing_post(
            db,
            agent,
            Some(p2),
            from,
            to,
            limit,
            cwd,
            outv,
        ),
{
    assert(opt_norm(Some(p1), cwd) == opt_norm(Some(p2), cwd));
}

} // verus!
