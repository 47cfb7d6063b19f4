//! The normalized session model.
//!
//! Every adapter produces these types before anything reaches the engine:
//! a session with its ordered messages, its tool invocations and its tags.
//! Timestamps are seconds since the Unix epoch, already normalized to UTC
//! by whoever parsed them.

use vstd::prelude::*;
use crate::text;

verus! {

/// The closed set of supported assistant kinds.
#[derive(Debug, Clone, Copy, PartialEq, Eq, Structural)]
pub enum AgentType {
    CodeCli,
    Codex,
    Cursor,
}

/// The stable identifier string of an agent kind.
pub open spec fn agent_str(a: AgentType) -> Seq<char> {
    match a {
        AgentType::CodeCli => "code-cli"@,
        AgentType::Codex => "codex"@,
        AgentType::Cursor => "cursor"@,
    }
}

/// The agent kind named by `s`, compared case-insensitively.
pub open spec fn agent_from_str(s: Seq<char>) -> Option<AgentType> {
    let l = text::lower_seq(s);
    if l == "code-cli"@ || l == "code_cli"@ || l == "codecli"@ {
        Some(AgentType::CodeCli)
    } else if l == "codex"@ {
        Some(AgentType::Codex)
    } else if l == "cursor"@ {
        Some(AgentType::Cursor)
    } else {
        None
    }
}

impl AgentType {
    /// The stable identifier, as stored and filtered on.
    pub fn as_str(&self) -> (r: &'static str)
        ensures
            r@ == agent_str(*self),
    {
        match self {
            AgentType::CodeCli => "code-cli",
            AgentType::Codex => "codex",
            AgentType::Cursor => "cursor",
        }
    }

    /// The human-readable name.
    pub fn display_name(&self) -> (r: &'static str)
        ensures
            *self == AgentType::CodeCli ==> r@ == "Code CLI"@,
            *self == AgentType::Codex ==> r@ == "Codex"@,
            *self == AgentType::Cursor ==> r@ == "Cursor"@,
    {
        match self {
            AgentType::CodeCli => "Code CLI",
            AgentType::Codex => "Codex",
            AgentType::Cursor => "Cursor",
        }
    }

    /// Parses an agent name, case-insensitively, accepting the aliases
    /// `codecli` and `code_cli` for the first kind.
    pub fn from_str(s: &str) -> (r: Option<AgentType>)
        ensures
            r == agent_from_str(s@),
    {
        let v = text::chars_of(s);
        let l = text::lower_chars(&v);
        if text::eq_lit(&l, "code-cli") || text::eq_lit(&l, "code_cli") || text::eq_lit(
            &l,
            "codecli",
        ) {
            Some(AgentType::CodeCli)
        } else if text::eq_lit(&l, "codex") {
            Some(AgentType::Codex)
        } else if text::eq_lit(&l, "cursor") {
            Some(AgentType::Cursor)
        } else {
            None
        }
    }
}

/// Who spoke in one turn of a conversation.
#[derive(Debug, Clone, Copy, PartialEq, Eq, Structural)]
pub enum Role {
    User,
    Assistant,
    Tool,
}

/// The stored string form of a role.
pub open spec fn role_str(r: Role) -> Seq<char> {
    match r {
        Role::User => "user"@,
        Role::Assistant => "assistant"@,
        Role::Tool => "tool"@,
    }
}

/// The role named by `s`; anything but a user or assistant is a tool turn.
pub open spec fn role_from_str(s: Seq<char>) -> Role {
    let l = text::lower_seq(s);
    if l == "user"@ {
        Role::User
    } else if l == "assistant"@ {
        Role::Assistant
    } else {
        Role::Tool
    }
}

impl Role {
    /// The stored string form.
    pub fn as_str(&self) -> (r: &'static str)
        ensures
            r@ == role_str(*self),
    {
        match self {
            Role::User => "user",
            Role::Assistant => "assistant",
            Role::Tool => "tool",
        }
    }

    /// Parses a role name, case-insensitively; unknown names are tool turns.
    pub fn from_str(s: &str) -> (r: Role)
        ensures
            r == role_from_str(s@),
    {
        let v = text::chars_of(s);
        let l = text::lower_chars(&v);
        if text::eq_lit(&l, "user") {
            Role::User
        } else if text::eq_lit(&l, "assistant") {
            Role::Assistant
        } else {
            Role::Tool
        }
    }
}

/// One turn of a conversation.
#[derive(Debug, Clone)]
pub struct MessageData {
    pub role: Role,
    pub content: String,
    pub timestamp: Option<i64>,
    pub files_changed: Vec<String>,
}

/// One tool invocation extracted from an assistant turn.
#[derive(Debug, Clone)]
pub struct ToolCallData {
    pub tool_name: String,
    pub file_path: Option<String>,
    pub timestamp: Option<i64>,
}

/// One continuous interaction with one coding assistant.
#[derive(Debug, Clone)]
pub struct SessionData {
    pub id: String,
    pub agent: AgentType,
    pub project_path: Option<String>,
    pub project_name: Option<String>,
    pub summary: Option<String>,
    pub work_summary: Option<String>,
    pub started_at: Option<i64>,
    pub ended_at: Option<i64>,
    pub messages: Vec<MessageData>,
    pub tool_calls: Vec<ToolCallData>,
    pub tags: Vec<String>,
}

/// Whether a tool call records a file creation.
pub open spec fn is_create_call(tc: ToolCallData) -> bool {
    tc.tool_name@ == "Write"@ || tc.tool_name@ == "create_file"@
}

/// Whether a tool call records a file modification.
pub open spec fn is_modify_call(tc: ToolCallData) -> bool {
    tc.tool_name@ == "Edit"@ || tc.tool_name@ == "edit_file"@
}

/// Whether a tool call records a file deletion.
pub open spec fn is_delete_call(tc: ToolCallData) -> bool {
    tc.tool_name@ == "delete_file"@
}

/// The change marker for a tool name: `+` created, `~` modified or
/// unrecognized, `-` deleted.
pub open spec fn change_marker(tc: ToolCallData) -> char {
    if is_create_call(tc) {
        '+'
    } else if is_delete_call(tc) {
        '-'
    } else {
        '~'
    }
}

impl SessionData {
    /// How many messages the session holds.
    pub fn message_count(&self) -> (r: usize)
        ensures
            r == self.messages@.len(),
    {
        self.messages.len()
    }

    /// How many tool calls created a file.
    pub fn files_created(&self) -> (r: usize)
        ensures
            r == self.tool_calls@.filter(|tc: ToolCallData| is_create_call(tc)).len(),
    {
        count_calls_create(&self.tool_calls)
    }

    /// How many tool calls modified a file.
    pub fn files_modified(&self) -> (r: usize)
        ensures
            r == self.tool_calls@.filter(|tc: ToolCallData| is_modify_call(tc)).len(),
    {
        count_calls_modify(&self.tool_calls)
    }

    /// How many tool calls deleted a file.
    pub fn files_deleted(&self) -> (r: usize)
        ensures
            r == self.tool_calls@.filter(|tc: ToolCallData| is_delete_call(tc)).len(),
    {
        count_calls_delete(&self.tool_calls)
    }

    /// The content of the first user message, if any.
    pub fn first_user_message(&self) -> (r: Option<&String>)
        ensures
            match r {
                Some(c) => exists|i: int|
                    {
                        &&& 0 <= i < self.messages@.len()
                        &&& self.messages@[i].role == Role::User
                        &&& c@ == self.messages@[i].content@
                        &&& forall|j: int| 0 <= j < i ==> self.messages@[j].role != Role::User
                    },
                None => forall|i: int|
                    0 <= i < self.messages@.len() ==> self.messages@[i].role != Role::User,
            },
    {
        let mut i: usize = 0;
        while i < self.messages.len()
            invariant
                i <= self.messages@.len(),
                forall|j: int| 0 <= j < i ==> self.messages@[j].role != Role::User,
            decreases self.messages@.len() - i,
        {
            if self.messages[i].role == Role::User {
                return Some(&self.messages[i].content);
            }
            i = i + 1;
        }
        None
    }

    /// The content of the last assistant message with nonempty content.
    pub fn last_assistant_message(&self) -> (r: Option<&String>)
        ensures
            match r {
                Some(c) => exists|i: int|
                    {
                        &&& 0 <= i < self.messages@.len()
                        &&& is_substantive_assistant(self.messages@[i])
                        &&& c@ == self.messages@[i].content@
                        &&& forall|j: int|
                            i < j < self.messages@.len() ==> !is_substantive_assistant(
                                self.messages@[j],
                            )
                    },
                None => forall|i: int|
                    0 <= i < self.messages@.len() ==> !is_substantive_assistant(self.messages@[i]),
            },
    {
        let mut i: usize = self.messages.len();
        while i > 0
            invariant
                i <= self.messages@.len(),
                forall|j: int|
                    i <= j < self.messages@.len() ==> !is_substantive_assistant(self.messages@[j]),
            decreases i,
        {
            i = i - 1;
            if self.messages[i].role == Role::Assistant && self.messages[i].content.as_str().unicode_len() > 0 {
                return Some(&self.messages[i].content);
            }
        }
        None
    }
}

/// An assistant message whose content is nonempty.
pub open spec fn is_substantive_assistant(m: MessageData) -> bool {
    m.role == Role::Assistant && m.content@.len() > 0
}

fn count_calls_create(tcs: &Vec<ToolCallData>) -> (r: usize)
    ensures
        r == tcs@.filter(|tc: ToolCallData| is_create_call(tc)).len(),
{
    let mut r: usize = 0;
    let mut i: usize = 0;
    proof {
        assert(tcs@.subrange(0, 0) =~= Seq::<ToolCallData>::empty());
        reveal(Seq::filter);
    }
    while i < tcs.len()
        invariant
            i <= tcs@.len(),
            r == tcs@.subrange(0, i as int).filter(|tc: ToolCallData| is_create_call(tc)).len(),
            r <= i,
        decreases tcs@.len() - i,
    {
        proof {
            reveal(Seq::filter);
            assert(tcs@.subrange(0, i + 1).drop_last() =~= tcs@.subrange(0, i as int));
        }
        let c = &tcs[i];
        if text::eq_lit(&text::chars_of(c.tool_name.as_str()), "Write") || text::eq_lit(
            &text::chars_of(c.tool_name.as_str()),
            "create_file",
        ) {
            r = r + 1;
        }
        i = i + 1;
    }
    proof {
        assert(tcs@.subrange(0, tcs@.len() as int) =~= tcs@);
    }
    r
}

fn count_calls_modify(tcs: &Vec<ToolCallData>) -> (r: usize)
    ensures
        r == tcs@.filter(|tc: ToolCallData| is_modify_call(tc)).len(),
{
    let mut r: usize = 0;
    let mut i: usize = 0;
    proof {
        assert(tcs@.subrange(0, 0) =~= Seq::<ToolCallData>::empty());
        reveal(Seq::filter);
    }
    while i < tcs.len()
        invariant
            i <= tcs@.len(),
            r == tcs@.subrange(0, i as int).filter(|tc: ToolCallData| is_modify_call(tc)).len(),
            r <= i,
        decreases tcs@.len() - i,
    {
        proof {
            reveal(Seq::filter);
            assert(tcs@.subrange(0, i + 1).drop_last() =~= tcs@.subrange(0, i as int));
        }
        let c = &tcs[i];
        if text::eq_lit(&text::chars_of(c.tool_name.as_str()), "Edit") || text::eq_lit(
            &text::chars_of(c.tool_name.as_str()),
            "edit_file",
        ) {
            r = r + 1;
        }
        i = i + 1;
    }
    proof {
        assert(tcs@.subrange(0, tcs@.len() as int) =~= tcs@);
    }
    r
}

fn count_calls_delete(tcs: &Vec<ToolCallData>) -> (r: usize)
    ensures
        r == tcs@.filter(|tc: ToolCallData| is_delete_call(tc)).len(),
{
    let mut r: usize = 0;
    let mut i: usize = 0;
    proof {
        assert(tcs@.subrange(0, 0) =~= Seq::<ToolCallData>::empty());
        reveal(Seq::filter);
    }
    while i < tcs.len()
        invariant
            i <= tcs@.len(),
            r == tcs@.subrange(0, i as int).filter(|tc: ToolCallData| is_delete_call(tc)).len(),
            r <= i,
        decreases tcs@.len() - i,
    {
        proof {
            reveal(Seq::filter);
            assert(tcs@.subrange(0, i + 1).drop_last() =~= tcs@.subrange(0, i as int));
        }
        let c = &tcs[i];
        if text::eq_lit(&text::chars_of(c.tool_name.as_str()), "delete_file") {
            r = r + 1;
        }
        i = i + 1;
    }
    proof {
        assert(tcs@.subrange(0, tcs@.len() as int) =~= tcs@);
    }
    r
}

} // verus!
