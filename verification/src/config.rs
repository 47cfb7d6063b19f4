//! Configuration: the settings the engine and its front ends read.
//!
//! The structs hold plain values; reading them from a file and writing
//! them back is the owner's business. Paths derive from an explicitly
//! supplied base directory — the engine never asks the system where
//! configuration lives.

use vstd::prelude::*;
use crate::text;

verus! {

/// General settings: the store path and the indexing cadence.
#[derive(Debug, Clone)]
pub struct GeneralConfig {
    pub db_path: String,
    pub auto_index: bool,
    pub index_interval: u64,
}

/// Where one agent keeps its session logs.
#[derive(Debug, Clone)]
pub struct AgentPathConfig {
    pub data_dir: String,
}

/// Which agents to index and where each keeps its data.
#[derive(Debug, Clone)]
pub struct AgentsConfig {
    pub enabled: Vec<String>,
    pub code_cli: AgentPathConfig,
    pub codex: AgentPathConfig,
    pub cursor: AgentPathConfig,
}

/// Defaults for context export.
#[derive(Debug, Clone)]
pub struct ExportConfig {
    pub default_detail: String,
    pub template: String,
}

/// Settings of the optional external summarization call.
#[derive(Debug, Clone)]
pub struct SummarizeConfig {
    pub enabled: bool,
    pub api_key: Option<String>,
    pub model: String,
    pub max_input_chars: usize,
}

/// Defaults for report generation.
#[derive(Debug, Clone)]
pub struct ReportConfig {
    pub default_format: String,
    pub include_file_changes: bool,
    pub summarize: SummarizeConfig,
}

/// Settings of the terminal front end.
#[derive(Debug, Clone)]
pub struct TuiConfig {
    pub theme: String,
    pub max_results: usize,
    pub preview_lines: usize,
}

/// Settings of the protocol server.
#[derive(Debug, Clone)]
pub struct McpConfig {
    pub transport: String,
}

/// The whole configuration.
#[derive(Debug, Clone)]
pub struct AilConfig {
    pub general: GeneralConfig,
    pub agents: AgentsConfig,
    pub export: ExportConfig,
    pub report: ReportConfig,
    pub tui: TuiConfig,
    pub mcp: McpConfig,
}

fn string_lit(s: &str) -> (r: String)
    ensures
        r@ == s@,
{
    let v = text::chars_of(s);
    text::string_from_chars(&v)
}

fn join_dir(base: &str, rest: &str) -> (r: String)
    ensures
        r@ == base@ + "/"@ + rest@,
{
    let mut v = text::chars_of(base);
    text::push_lit(&mut v, "/");
    let rv = text::chars_of(rest);
    text::push_chars(&mut v, &rv);
    proof {
        assert(v@ =~= base@ + "/"@ + rest@);
    }
    text::string_from_chars(&v)
}

/// Where the configuration file lives under the system config
/// directory.
pub fn config_path(config_base: &str) -> (r: String)
    ensures
        r@ == config_base@ + "/"@ + "ail/config.toml"@,
{
    join_dir(config_base, "ail/config.toml")
}

/// Where the store lives under the local data directory.
pub fn db_path(data_base: &str) -> (r: String)
    ensures
        r@ == data_base@ + "/"@ + "ail/index.db"@,
{
    join_dir(data_base, "ail/index.db")
}

impl GeneralConfig {
    /// The defaults, under the given data directory: an auto-indexed
    /// store refreshed every five minutes.
    pub fn default_under(data_base: &str) -> (r: GeneralConfig)
        ensures
            r.db_path@ == data_base@ + "/"@ + "ail/index.db"@,
            r.auto_index == true,
            r.index_interval == 300,
    {
        GeneralConfig { db_path: db_path(data_base), auto_index: true, index_interval: 300 }
    }
}

impl AgentsConfig {
    /// The defaults, under the given home directory: every known agent
    /// enabled, each under its conventional dot directory.
    pub fn default_under(home: &str) -> (r: AgentsConfig)
        ensures
            r.enabled.deep_view() == seq!["code-cli"@, "codex"@, "cursor"@],
            r.code_cli.data_dir@ == home@ + "/"@ + ".codecli"@,
            r.codex.data_dir@ == home@ + "/"@ + ".codex"@,
            r.cursor.data_dir@ == home@ + "/"@ + ".cursor"@,
    {
        let mut enabled: Vec<String> = Vec::new();
        enabled.push(string_lit("code-cli"));
        enabled.push(string_lit("codex"));
        enabled.push(string_lit("cursor"));
        proof {
            assert(enabled.deep_view() =~~= seq!["code-cli"@, "codex"@, "cursor"@]);
        }
        AgentsConfig {
            enabled,
            code_cli: AgentPathConfig { data_dir: join_dir(home, ".codecli") },
            codex: AgentPathConfig { data_dir: join_dir(home, ".codex") },
            cursor: AgentPathConfig { data_dir: join_dir(home, ".cursor") },
        }
    }
}

impl Default for ExportConfig {
    /// Summary detail, default template.
    fn default() -> (r: ExportConfig)
        ensures
            r.default_detail@ == "summary"@,
            r.template@ == "default"@,
    {
        ExportConfig { default_detail: string_lit("summary"), template: string_lit("default") }
    }
}

impl Default for SummarizeConfig {
    /// Disabled, no key, a small model, a bounded input.
    fn default() -> (r: SummarizeConfig)
        ensures
            r.enabled == false,
            r.api_key is None,
            r.model@ == "mini-summarizer-1"@,
            r.max_input_chars == 4000,
    {
        SummarizeConfig {
            enabled: false,
            api_key: None,
            model: string_lit("mini-summarizer-1"),
            max_input_chars: 4000,
        }
    }
}

impl Default for ReportConfig {
    /// Markdown with file changes, summarization off.
    fn default() -> (r: ReportConfig)
        ensures
            r.default_format@ == "markdown"@,
            r.include_file_changes == true,
            r.summarize.enabled == false,
    {
        ReportConfig {
            default_format: string_lit("markdown"),
            include_file_changes: true,
            summarize: Default::default(),
        }
    }
}

impl Default for TuiConfig {
    /// The dark theme, two hundred results, twenty preview lines.
    fn default() -> (r: TuiConfig)
        ensures
            r.theme@ == "dark"@,
            r.max_results == 200,
            r.preview_lines == 20,
    {
        TuiConfig { theme: string_lit("dark"), max_results: 200, preview_lines: 20 }
    }
}

impl Default for McpConfig {
    /// The standard stream transport.
    fn default() -> (r: McpConfig)
        ensures
            r.transport@ == "stdio"@,
    {
        McpConfig { transport: string_lit("stdio") }
    }
}

impl AilConfig {
    /// The defaults, anchored at the given home, config and data
    /// directories.
    pub fn default_under(home: &str, data_base: &str) -> (r: AilConfig)
        ensures
            r.general.db_path@ == data_base@ + "/"@ + "ail/index.db"@,
            r.agents.enabled.deep_view() == seq!["code-cli"@, "codex"@, "cursor"@],
    {
        AilConfig {
            general: GeneralConfig::default_under(data_base),
            agents: AgentsConfig::default_under(home),
            export: Default::default(),
            report: Default::default(),
            tui: TuiConfig::default(),
            mcp: Default::default(),
        }
    }
}

/// How detailed a context export is.
#[derive(Debug, Clone, Copy, PartialEq, Eq, Structural)]
pub enum DetailLevel {
    Full,
    Summary,
    Minimal,
}

impl DetailLevel {
    /// Parses a detail name, case-insensitively; anything unknown means
    /// the summary level.
    pub fn from_str(s: &str) -> (r: DetailLevel)
        ensures
            text::lower_seq(s@) == "full"@ ==> r == DetailLevel::Full,
            text::lower_seq(s@) == "minimal"@ ==> r == DetailLevel::Minimal,
            text::lower_seq(s@) != "full"@ && text::lower_seq(s@) != "minimal"@ ==> r
                == DetailLevel::Summary,
    {
        proof {
            reveal_strlit("full");
            reveal_strlit("minimal");
            assert("full"@.len() == 4);
            assert("minimal"@.len() == 7);
            assert("full"@ != "minimal"@);
        }
        let v = text::chars_of(s);
        let l = text::lower_chars(&v);
        if text::eq_lit(&l, "full") {
            DetailLevel::Full
        } else if text::eq_lit(&l, "minimal") {
            DetailLevel::Minimal
        } else {
            DetailLevel::Summary
        }
    }
}

/// How a report is rendered.
#[derive(Debug, Clone, Copy, PartialEq, Eq, Structural)]
pub enum ReportFormat {
    Markdown,
    Slack,
    Json,
}

impl ReportFormat {
    /// Parses a format name, case-insensitively; anything unknown means
    /// markdown.
    pub fn from_str(s: &str) -> (r: ReportFormat)
        ensures
            text::lower_seq(s@) == "slack"@ ==> r == ReportFormat::Slack,
            text::lower_seq(s@) == "json"@ ==> r == ReportFormat::Json,
            text::lower_seq(s@) != "slack"@ && text::lower_seq(s@) != "json"@ ==> r
                == ReportFormat::Markdown,
    {
        proof {
            reveal_strlit("slack");
            reveal_strlit("json");
            assert("slack"@.len() == 5);
            assert("json"@.len() == 4);
            assert("slack"@ != "json"@);
        }
        let v = text::chars_of(s);
        let l = text::lower_chars(&v);
        if text::eq_lit(&l, "slack") {
            ReportFormat::Slack
        } else if text::eq_lit(&l, "json") {
            ReportFormat::Json
        } else {
            ReportFormat::Markdown
        }
    }
}

} // verus!
