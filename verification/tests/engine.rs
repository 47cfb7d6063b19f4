use ail::config::{DetailLevel, ReportFormat};
use ail::indexer::{index_session, IndexAction};
use ail::model::{AgentType, MessageData, Role, SessionData, ToolCallData};
use ail::paths::norm_path;
use ail::store::Database;
use ail::summary::{
    extract_commit_message, extract_first_sentence, extract_quoted, filter_meaningful_lines,
    short_path, shorten_path, strip_header_prefix, strip_markdown, truncate_str,
};
use ail::StoreError;

fn message(role: Role, content: &str, ts: Option<i64>) -> MessageData {
    MessageData { role, content: content.to_string(), timestamp: ts, files_changed: Vec::new() }
}

fn tool_call(name: &str, path: Option<&str>, ts: Option<i64>) -> ToolCallData {
    ToolCallData {
        tool_name: name.to_string(),
        file_path: path.map(|p| p.to_string()),
        timestamp: ts,
    }
}

fn session(id: &str, msgs: Vec<MessageData>, tcs: Vec<ToolCallData>) -> SessionData {
    let started = msgs.iter().filter_map(|m| m.timestamp).min();
    let ended = msgs.iter().filter_map(|m| m.timestamp).max();
    let mut s = SessionData {
        id: id.to_string(),
        agent: AgentType::CodeCli,
        project_path: Some("/abs/path/foo".to_string()),
        project_name: Some("foo".to_string()),
        summary: None,
        work_summary: None,
        started_at: started,
        ended_at: ended,
        messages: msgs,
        tool_calls: tcs,
        tags: Vec::new(),
    };
    s.summary = s.extract_summary();
    s.work_summary = s.extract_work_summary();
    s
}

#[test]
fn reindex_unchanged_session_is_skipped() {
    let mut db = Database::open_in_memory().unwrap();
    let s = session(
        "s1",
        vec![
            message(Role::User, "Fix the login page.", Some(100)),
            message(Role::Assistant, "Done, fixed the login page.", Some(200)),
        ],
        vec![],
    );
    assert!(matches!(index_session(&mut db, &s), Ok(IndexAction::Inserted)));
    let sessions_before = db.session_count().unwrap();
    let messages_before = db.get_messages("s1").unwrap().len();
    assert!(matches!(index_session(&mut db, &s), Ok(IndexAction::Skipped)));
    assert_eq!(db.session_count().unwrap(), sessions_before);
    assert_eq!(db.get_messages("s1").unwrap().len(), messages_before);
}

#[test]
fn grown_session_is_updated_whole() {
    let mut db = Database::open_in_memory().unwrap();
    let s = session("s1", vec![message(Role::User, "Start the work now.", Some(100))], vec![]);
    assert!(matches!(index_session(&mut db, &s), Ok(IndexAction::Inserted)));
    let mut grown = session(
        "s1",
        vec![
            message(Role::User, "Start the work now.", Some(100)),
            message(Role::Assistant, "The work is complete.", Some(200)),
        ],
        vec![],
    );
    grown.tags = vec!["kept".to_string()];
    assert!(matches!(index_session(&mut db, &grown), Ok(IndexAction::Updated)));
    let msgs = db.get_messages("s1").unwrap();
    assert_eq!(msgs.len(), 2);
    assert_eq!(msgs[0].content, "Start the work now.");
    assert_eq!(msgs[1].content, "The work is complete.");
    assert_eq!(db.session_count().unwrap(), 1);
}

#[test]
fn cascade_delete_removes_everything() {
    let mut db = Database::open_in_memory().unwrap();
    let s = session(
        "gone",
        vec![message(Role::User, "Write something here.", Some(5))],
        vec![tool_call("Write", Some("/p/a.rs"), Some(5))],
    );
    db.insert_session(&s).unwrap();
    let other = session("kept", vec![message(Role::User, "Keep this around.", Some(9))], vec![]);
    db.insert_session(&other).unwrap();
    db.delete_session("gone").unwrap();
    assert!(db.get_session("gone").unwrap().is_none());
    assert_eq!(db.get_messages("gone").unwrap().len(), 0);
    assert_eq!(db.get_tool_calls("gone").unwrap().len(), 0);
    assert_eq!(db.session_count().unwrap(), 1);
    let listed = db.list_sessions(None, None, None, None, 100, "/").unwrap();
    assert_eq!(listed.len(), 1);
    assert_eq!(listed[0].id, "kept");
    // a search that used to hit the deleted session finds nothing
    let hits = db.search_messages("Write", None, None, None, None, 10, "/").unwrap();
    assert_eq!(hits.len(), 0);
    // deleting an absent id stays silent
    assert!(db.delete_session("gone").is_ok());
}

#[test]
fn truncation_is_code_span_safe() {
    let long_ticks = format!("`code span {}", "x".repeat(200));
    let cut = truncate_str(&long_ticks, 120);
    assert!(cut.chars().count() <= 120);
    assert_eq!(cut.chars().filter(|c| *c == '`').count() % 2, 0);

    let balanced = format!("a `b` c {}", "y".repeat(200));
    let cut2 = truncate_str(&balanced, 120);
    assert!(cut2.chars().count() <= 120);
    assert_eq!(cut2.chars().filter(|c| *c == '`').count() % 2, 0);

    let korean = "구현 완료했습니다 ".repeat(40);
    let cut3 = truncate_str(&korean, 120);
    assert!(cut3.chars().count() <= 120);

    let short = "fits fine";
    assert_eq!(truncate_str(short, 120), "fits fine");
}

#[test]
fn project_filter_matches_canonical_path() {
    let mut db = Database::open_in_memory().unwrap();
    let s = session("p1", vec![message(Role::User, "Touch the project.", Some(50))], vec![]);
    db.insert_session(&s).unwrap();
    let rel = db.list_sessions(None, Some("./foo"), None, None, 10, "/abs/path").unwrap();
    let abs = db.list_sessions(None, Some("/abs/path/foo"), None, None, 10, "/abs/path").unwrap();
    assert_eq!(rel.len(), 1);
    assert_eq!(abs.len(), 1);
    assert_eq!(rel[0].id, abs[0].id);
    let elsewhere = db.list_sessions(None, Some("./bar"), None, None, 10, "/abs/path").unwrap();
    assert_eq!(elsewhere.len(), 0);
}

#[test]
fn canonical_path_form() {
    assert_eq!(norm_path("./foo", "/abs/path"), "/abs/path/foo");
    assert_eq!(norm_path("/abs/path/foo", "/somewhere/else"), "/abs/path/foo");
    assert_eq!(norm_path("a/../b/./c", "/r"), "/r/b/c");
    assert_eq!(norm_path("//double//slash/", "/r"), "/double/slash");
}

#[test]
fn plan_heading_and_summary_section() {
    let s = session(
        "p6",
        vec![
            message(Role::User, "# Plan: Build a login page\n\nAdd JWT auth.", Some(1)),
            message(
                Role::Assistant,
                "## Summary\nImplemented JWT login and added tests.",
                Some(2),
            ),
        ],
        vec![],
    );
    assert_eq!(s.summary.as_deref(), Some("Build a login page"));
    assert_eq!(s.work_summary.as_deref(), Some("Implemented JWT login and added tests."));
}

#[test]
fn file_fallback_summaries() {
    let s = session(
        "p7",
        vec![message(Role::User, "ok.", Some(1))],
        vec![
            tool_call("Write", Some("foo/a.py"), Some(1)),
            tool_call("Edit", Some("foo/b.py"), Some(2)),
        ],
    );
    assert_eq!(s.summary.as_deref(), Some("Created a.py"));
    assert_eq!(s.work_summary.as_deref(), Some("1 files created, 1 files modified"));
}

#[test]
fn clean_removes_only_old_sessions() {
    let mut db = Database::open_in_memory().unwrap();
    let cutoff: i64 = 1_000_000;
    for i in 0..5 {
        let s = session(
            &format!("old{}", i),
            vec![message(Role::User, "An old piece of work.", Some(cutoff - 100 - i))],
            vec![],
        );
        db.insert_session(&s).unwrap();
    }
    for i in 0..3 {
        let s = session(
            &format!("new{}", i),
            vec![message(Role::User, "A new piece of work.", Some(cutoff + 100 + i))],
            vec![],
        );
        db.insert_session(&s).unwrap();
    }
    let removed = db.clean_sessions(cutoff, None).unwrap();
    assert_eq!(removed, 5);
    assert_eq!(db.session_count().unwrap(), 3);
    for i in 0..3 {
        let id = format!("new{}", i);
        assert!(db.get_session(&id).unwrap().is_some());
        assert_eq!(db.get_messages(&id).unwrap().len(), 1);
    }
    for i in 0..5 {
        let id = format!("old{}", i);
        assert!(db.get_session(&id).unwrap().is_none());
    }
}

#[test]
fn insert_existing_id_is_refused() {
    let mut db = Database::open_in_memory().unwrap();
    let s = session("dup", vec![message(Role::User, "First insert wins.", Some(1))], vec![]);
    assert!(db.insert_session(&s).is_ok());
    assert_eq!(db.insert_session(&s), Err(StoreError::QueryFailed));
}

#[test]
fn update_of_absent_session_is_reported() {
    let mut db = Database::open_in_memory().unwrap();
    let s = session("nope", vec![message(Role::User, "Nothing stored yet.", Some(1))], vec![]);
    assert_eq!(db.update_session(&s), Err(StoreError::SessionNotFound));
    assert_eq!(
        db.update_tags("nope", &vec!["x".to_string()]),
        Err(StoreError::SessionNotFound)
    );
    assert_eq!(db.session_message_count("nope"), Err(StoreError::SessionNotFound));
}

#[test]
fn tags_round_trip_and_index_consistency() {
    let mut db = Database::open_in_memory().unwrap();
    let s = session("t1", vec![message(Role::User, "Tag this session.", Some(1))], vec![]);
    db.insert_session(&s).unwrap();
    db.update_tags("t1", &vec!["alpha".to_string(), "beta".to_string()]).unwrap();
    let tags = db.get_tags("t1").unwrap();
    assert_eq!(tags, vec!["alpha".to_string(), "beta".to_string()]);
    let row = db.get_session("t1").unwrap().unwrap();
    assert_eq!(row.tags, "alpha,beta");
    assert_eq!(db.get_tags("absent").unwrap().len(), 0);
}

#[test]
fn keyword_search_joins_session_metadata() {
    let mut db = Database::open_in_memory().unwrap();
    let s = session(
        "k1",
        vec![
            message(Role::User, "Please refactor the tokenizer.", Some(10)),
            message(Role::Assistant, "Refactored the tokenizer module.", Some(20)),
        ],
        vec![],
    );
    db.insert_session(&s).unwrap();
    let hits = db.search_messages("tokenizer", None, None, None, None, 10, "/").unwrap();
    assert_eq!(hits.len(), 2);
    assert_eq!(hits[0].session_id, "k1");
    assert_eq!(hits[0].agent, "code-cli");
    // all query tokens must occur
    let none = db.search_messages("tokenizer missingword", None, None, None, None, 10, "/").unwrap();
    assert_eq!(none.len(), 0);
    // the empty keyword is opt-in: no rows
    let empty = db.search_messages("", None, None, None, None, 10, "/").unwrap();
    assert_eq!(empty.len(), 0);
    // case-folded match
    let upper = db.search_messages("TOKENIZER", None, None, None, None, 10, "/").unwrap();
    assert_eq!(upper.len(), 2);
    // limit is a hard cap
    let capped = db.search_messages("tokenizer", None, None, None, None, 1, "/").unwrap();
    assert_eq!(capped.len(), 1);
}

#[test]
fn file_search_finds_touching_sessions() {
    let mut db = Database::open_in_memory().unwrap();
    let a = session(
        "fa",
        vec![message(Role::User, "Work on the parser.", Some(10))],
        vec![tool_call("Edit", Some("/repo/src/parser.rs"), Some(10))],
    );
    let b = session(
        "fb",
        vec![message(Role::User, "Work on the lexer.", Some(20))],
        vec![tool_call("Edit", Some("/repo/src/lexer.rs"), Some(20))],
    );
    db.insert_session(&a).unwrap();
    db.insert_session(&b).unwrap();
    let hits = db.search_by_file("parser", 10).unwrap();
    assert_eq!(hits.len(), 1);
    assert_eq!(hits[0].id, "fa");
    let all = db.search_by_file("src", 10).unwrap();
    assert_eq!(all.len(), 2);
    assert_eq!(all[0].id, "fb");
}

#[test]
fn listing_orders_newest_first_and_caps() {
    let mut db = Database::open_in_memory().unwrap();
    for (id, ts) in [("a", 100i64), ("b", 300), ("c", 200)] {
        let s = session(id, vec![message(Role::User, "Order this list.", Some(ts))], vec![]);
        db.insert_session(&s).unwrap();
    }
    let mut undated = session("d", vec![message(Role::User, "No date on this.", None)], vec![]);
    undated.started_at = None;
    db.insert_session(&undated).unwrap();
    let rows = db.list_sessions(None, None, None, None, 10, "/").unwrap();
    assert_eq!(rows.len(), 4);
    assert_eq!(rows[0].id, "b");
    assert_eq!(rows[1].id, "c");
    assert_eq!(rows[2].id, "a");
    assert_eq!(rows[3].id, "d");
    let capped = db.list_sessions(None, None, None, None, 2, "/").unwrap();
    assert_eq!(capped.len(), 2);
    let bounded = db.list_sessions(None, None, Some(150), Some(250), 10, "/").unwrap();
    assert_eq!(bounded.len(), 1);
    assert_eq!(bounded[0].id, "c");
}

#[test]
fn stats_counts_and_top_files() {
    let mut db = Database::open_in_memory().unwrap();
    let a = session(
        "sa",
        vec![message(Role::User, "Create a few files.", Some(10))],
        vec![
            tool_call("Write", Some("/r/hot.rs"), Some(10)),
            tool_call("Edit", Some("/r/hot.rs"), Some(11)),
            tool_call("Edit", Some("/r/cold.rs"), Some(12)),
        ],
    );
    db.insert_session(&a).unwrap();
    let st = db.get_stats(None, None, None, "/").unwrap();
    assert_eq!(st.total_sessions, 1);
    assert_eq!(st.total_files_created, 1);
    assert_eq!(st.total_files_modified, 2);
    assert_eq!(st.total_files_deleted, 0);
    assert_eq!(st.sessions_by_agent.len(), 1);
    assert_eq!(st.sessions_by_agent[0], ("code-cli".to_string(), 1));
    assert_eq!(st.sessions_by_project.len(), 1);
    assert_eq!(st.sessions_by_project[0], ("foo".to_string(), 1));
    assert_eq!(st.most_modified_files.len(), 2);
    assert_eq!(st.most_modified_files[0], ("/r/hot.rs".to_string(), 2));
    assert_eq!(st.most_modified_files[1], ("/r/cold.rs".to_string(), 1));
}

#[test]
fn llm_summary_is_stored() {
    let mut db = Database::open_in_memory().unwrap();
    let s = session("l1", vec![message(Role::User, "Summarize me later.", Some(1))], vec![]);
    db.insert_session(&s).unwrap();
    db.update_llm_summary("l1", "A machine-written recap").unwrap();
    let row = db.get_session("l1").unwrap().unwrap();
    assert_eq!(row.llm_summary.as_deref(), Some("A machine-written recap"));
    // silently ignores an absent id
    assert!(db.update_llm_summary("absent", "x").is_ok());
}

#[test]
fn clear_all_empties_the_store() {
    let mut db = Database::open_in_memory().unwrap();
    let s = session("c1", vec![message(Role::User, "Soon to be gone.", Some(1))], vec![]);
    db.insert_session(&s).unwrap();
    db.clear_all().unwrap();
    assert_eq!(db.session_count().unwrap(), 0);
    assert_eq!(db.get_messages("c1").unwrap().len(), 0);
}

#[test]
fn agent_and_role_names() {
    assert_eq!(AgentType::CodeCli.as_str(), "code-cli");
    assert_eq!(AgentType::Codex.display_name(), "Codex");
    assert_eq!(AgentType::from_str("CodeCli"), Some(AgentType::CodeCli));
    assert_eq!(AgentType::from_str("CODEX"), Some(AgentType::Codex));
    assert_eq!(AgentType::from_str("unknown"), None);
    assert_eq!(Role::from_str("USER"), Role::User);
    assert_eq!(Role::from_str("assistant"), Role::Assistant);
    assert_eq!(Role::from_str("whatever"), Role::Tool);
    assert_eq!(Role::Tool.as_str(), "tool");
}

#[test]
fn text_helpers() {
    assert_eq!(strip_markdown("**bold** text"), "bold text");
    assert_eq!(strip_markdown("## Heading here"), "Heading here");
    assert_eq!(strip_markdown("- a list item"), "a list item");
    assert_eq!(strip_markdown("1. numbered item"), "numbered item");
    assert_eq!(extract_first_sentence("One. Two. Three."), "One.");
    assert_eq!(extract_first_sentence("no terminator at all"), "no terminator at all");
    assert_eq!(strip_header_prefix("Plan: do the thing"), "do the thing");
    assert_eq!(strip_header_prefix("Fix: the bug"), "the bug");
    assert_eq!(strip_header_prefix("untouched title"), "untouched title");
    assert_eq!(extract_quoted("\"inside\" rest"), Some("inside".to_string()));
    assert_eq!(extract_quoted("'single' rest"), Some("single".to_string()));
    assert_eq!(extract_quoted("no quotes"), None);
    assert_eq!(shorten_path("/a/b/c/d.rs"), "c/d.rs");
    assert_eq!(shorten_path("a.rs"), "a.rs");
    assert_eq!(short_path("/a/b/c/d.rs"), "d.rs");
    assert_eq!(short_path("plain"), "plain");
}

#[test]
fn meaningful_lines_drop_fences_and_tables() {
    let text = "keep one\n```\nhidden\n```\n| table |\n<!-- note\n---\nkeep two";
    let lines = filter_meaningful_lines(text);
    assert_eq!(lines, vec!["keep one".to_string(), "keep two".to_string()]);
}

#[test]
fn commit_messages_are_found() {
    let explicit = "Let me commit now\ngit commit -m \"feat: add the new parser\"";
    assert_eq!(extract_commit_message(explicit), Some("feat: add the new parser".to_string()));
    let contextual = "I created the commit\nfeat: wire the indexer together";
    assert_eq!(
        extract_commit_message(contextual),
        Some("feat: wire the indexer together".to_string())
    );
    let none = "feat: no commit context before this line";
    assert_eq!(extract_commit_message(none), None);
}

#[test]
fn work_summary_prefers_commits_then_keywords() {
    let s = session(
        "w1",
        vec![
            message(Role::User, "Do the work please.", Some(1)),
            message(Role::Assistant, "I implemented the parser module today.", Some(2)),
        ],
        vec![],
    );
    assert_eq!(s.work_summary.as_deref(), Some("I implemented the parser module today."));
}

#[test]
fn parse_enum_helpers() {
    assert_eq!(DetailLevel::from_str("full"), DetailLevel::Full);
    assert_eq!(DetailLevel::from_str("MINIMAL"), DetailLevel::Minimal);
    assert_eq!(DetailLevel::from_str("other"), DetailLevel::Summary);
    assert_eq!(ReportFormat::from_str("slack"), ReportFormat::Slack);
    assert_eq!(ReportFormat::from_str("JSON"), ReportFormat::Json);
    assert_eq!(ReportFormat::from_str("other"), ReportFormat::Markdown);
}

#[test]
fn changed_file_paths_dedup_first_touch() {
    let s = session(
        "cf",
        vec![message(Role::User, "Touch files repeatedly.", Some(1))],
        vec![
            tool_call("Write", Some("/p/q/r/one.rs"), Some(1)),
            tool_call("Edit", Some("/p/q/r/one.rs"), Some(2)),
            tool_call("delete_file", Some("two.rs"), Some(3)),
        ],
    );
    let files = s.changed_file_paths();
    assert_eq!(files.len(), 2);
    assert_eq!(files[0], ("r/one.rs".to_string(), '+'));
    assert_eq!(files[1], ("two.rs".to_string(), '-'));
}

#[test]
fn agent_filters_apply_to_listing_and_clean() {
    let mut db = Database::open_in_memory().unwrap();
    let mut a = session("ag1", vec![message(Role::User, "One agent's work.", Some(100))], vec![]);
    a.agent = AgentType::Codex;
    let mut b = session("ag2", vec![message(Role::User, "Another agent's work.", Some(200))], vec![]);
    b.agent = AgentType::Cursor;
    db.insert_session(&a).unwrap();
    db.insert_session(&b).unwrap();
    let only_codex = db.list_sessions(Some("codex"), None, None, None, 10, "/").unwrap();
    assert_eq!(only_codex.len(), 1);
    assert_eq!(only_codex[0].id, "ag1");
    // an agent-restricted clean leaves the other agent alone
    let removed = db.clean_sessions(1_000, Some("cursor")).unwrap();
    assert_eq!(removed, 1);
    assert!(db.get_session("ag1").unwrap().is_some());
    assert!(db.get_session("ag2").unwrap().is_none());
}

#[test]
fn stats_respect_the_project_filter() {
    let mut db = Database::open_in_memory().unwrap();
    let a = session("in", vec![message(Role::User, "Inside the project.", Some(10))], vec![]);
    let mut b = session("out", vec![message(Role::User, "Outside the project.", Some(20))], vec![]);
    b.project_path = Some("/elsewhere".to_string());
    b.project_name = Some("elsewhere".to_string());
    db.insert_session(&a).unwrap();
    db.insert_session(&b).unwrap();
    let st = db.get_stats(None, None, Some("./foo"), "/abs/path").unwrap();
    assert_eq!(st.total_sessions, 1);
    assert_eq!(st.sessions_by_project.len(), 1);
    assert_eq!(st.sessions_by_project[0].0, "foo");
}

#[test]
fn search_time_window_excludes_undated_sessions() {
    let mut db = Database::open_in_memory().unwrap();
    let dated = session("d", vec![message(Role::User, "A dated entry.", Some(500))], vec![]);
    let mut undated = session("u", vec![message(Role::User, "A dated entry.", None)], vec![]);
    undated.started_at = None;
    db.insert_session(&dated).unwrap();
    db.insert_session(&undated).unwrap();
    let hits = db.search_messages("dated", None, None, Some(400), None, 10, "/").unwrap();
    assert_eq!(hits.len(), 1);
    assert_eq!(hits[0].session_id, "d");
}
