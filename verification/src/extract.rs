//! The summarization engine: deriving a session's request summary from
//! its first user message and its work summary from its assistant turns,
//! with a fallback synthesized from the file mutations it performed.

use vstd::prelude::*;
use crate::model::{
    change_marker, is_create_call, is_delete_call, is_modify_call, MessageData, Role, SessionData,
    ToolCallData,
};
use crate::summary;
use crate::summary::{short_path_spec, shorten_path_spec, truncate_spec};
use crate::text;
use crate::text::{byte_len_seq, dec_rep, join_seq, trim_seq};

verus! {

/// The views of a list of path/marker pairs.
pub open spec fn pair_views(v: Seq<(String, char)>) -> Seq<(Seq<char>, char)> {
    v.map_values(|p: (String, char)| (p.0@, p.1))
}

/// Whether some pair of `acc` already names the path `s`.
pub open spec fn names_path(acc: Seq<(Seq<char>, char)>, s: Seq<char>) -> bool {
    exists|i: int| 0 <= i < acc.len() && acc[i].0 == s
}

/// The distinct shortened paths touched by `tcs`, in first-touch order,
/// each with the change marker of its first touch; `acc` holds what
/// earlier calls contributed.
pub open spec fn cfp_acc(tcs: Seq<ToolCallData>, acc: Seq<(Seq<char>, char)>) -> Seq<
    (Seq<char>, char),
>
    decreases tcs.len(),
{
    if tcs.len() == 0 {
        acc
    } else {
        let tc = tcs[0];
        let acc2 = match tc.file_path {
            Some(fp) => {
                let short = shorten_path_spec(fp@);
                if names_path(acc, short) {
                    acc
                } else {
                    acc.push((short, change_marker(tc)))
                }
            },
            None => acc,
        };
        cfp_acc(tcs.drop_first(), acc2)
    }
}

/// The distinct shortened paths that a session's tool calls touched.
pub open spec fn changed_files_spec(tcs: Seq<ToolCallData>) -> Seq<(Seq<char>, char)> {
    cfp_acc(tcs, Seq::empty())
}

fn names_path_exec(acc: &Vec<(String, char)>, s: &Vec<char>) -> (r: bool)
    ensures
        r == names_path(pair_views(acc@), s@),
{
    let mut i: usize = 0;
    while i < acc.len()
        invariant
            i <= acc@.len(),
            forall|j: int| 0 <= j < i ==> pair_views(acc@)[j].0 != s@,
        decreases acc@.len() - i,
    {
        let av = text::chars_of(acc[i].0.as_str());
        if text::eq_chars(&av, s) {
            proof {
                assert(pair_views(acc@)[i as int].0 == s@);
            }
            return true;
        }
        i = i + 1;
    }
    false
}

impl SessionData {
    /// The distinct file paths this session touched, shortened to their
    /// last two components, each with a change marker: `+` created,
    /// `~` modified or unrecognized, `-` deleted, taken from the first
    /// tool call that named the path.
    pub fn changed_file_paths(&self) -> (r: Vec<(String, char)>)
        ensures
            pair_views(r@) == changed_files_spec(self.tool_calls@),
    {
        let mut r: Vec<(String, char)> = Vec::new();
        let mut i: usize = 0;
        proof {
            assert(self.tool_calls@.skip(0) =~= self.tool_calls@);
            assert(pair_views(r@) =~= Seq::<(Seq<char>, char)>::empty());
        }
        while i < self.tool_calls.len()
            invariant
                i <= self.tool_calls@.len(),
                changed_files_spec(self.tool_calls@) == cfp_acc(
                    self.tool_calls@.skip(i as int),
                    pair_views(r@),
                ),
            decreases self.tool_calls@.len() - i,
        {
            proof {
                assert(self.tool_calls@.skip(i as int)[0] == self.tool_calls@[i as int]);
                assert(self.tool_calls@.skip(i as int).drop_first() =~= self.tool_calls@.skip(
                    i + 1,
                ));
            }
            let tc = &self.tool_calls[i];
            if let Some(fp) = &tc.file_path {
                let short = summary::shorten_path_chars(&text::chars_of(fp.as_str()));
                if !names_path_exec(&r, &short) {
                    let name = text::chars_of(tc.tool_name.as_str());
                    let marker: char = if text::eq_lit(&name, "Write") || text::eq_lit(
                        &name,
                        "create_file",
                    ) {
                        '+'
                    } else if text::eq_lit(&name, "delete_file") {
                        '-'
                    } else {
                        '~'
                    };
                    proof {
                        assert(marker == change_marker(self.tool_calls@[i as int]));
                    }
                    let ghost old_pv = pair_views(r@);
                    let entry = (text::string_from_chars(&short), marker);
                    let ghost entry_view = (entry.0@, entry.1);
                    r.push(entry);
                    proof {
                        assert(pair_views(r@) =~= old_pv.push(entry_view));
                    }
                }
            }
            i = i + 1;
        }
        proof {
            assert(self.tool_calls@.skip(self.tool_calls@.len() as int) =~= Seq::<
                ToolCallData,
            >::empty());
        }
        r
    }
}

/// The pairs of `files` carrying the marker `m`.
pub open spec fn files_with_marker(files: Seq<(Seq<char>, char)>, m: char) -> Seq<
    (Seq<char>, char),
> {
    files.filter(|f: (Seq<char>, char)| f.1 == m)
}

/// Up to the first three file names of `files`, shortened to bare file
/// names, joined with a comma.
pub open spec fn first_names(files: Seq<(Seq<char>, char)>, k: nat) -> Seq<Seq<char>>
    decreases files.len(),
{
    if files.len() == 0 || k == 0 {
        Seq::empty()
    } else {
        seq![short_path_spec(files[0].0)] + first_names(files.drop_first(), (k - 1) as nat)
    }
}

/// What the request-summary fallback yields: the first created file
/// names, or the first modified ones when nothing was created.
pub open spec fn infer_summary_spec(tcs: Seq<ToolCallData>) -> Option<Seq<char>> {
    let files = changed_files_spec(tcs);
    let created = files_with_marker(files, '+');
    let modified = files_with_marker(files, '~');
    if files.len() == 0 {
        None
    } else if created.len() > 0 {
        Some(truncate_spec("Created "@ + join_seq(first_names(created, 3), ", "@), 120))
    } else if modified.len() > 0 {
        Some(truncate_spec("Modified "@ + join_seq(first_names(modified, 3), ", "@), 120))
    } else {
        None
    }
}

fn filter_marker_exec(files: &Vec<(String, char)>, m: char) -> (r: Vec<(String, char)>)
    ensures
        pair_views(r@) == files_with_marker(pair_views(files@), m),
{
    let mut r: Vec<(String, char)> = Vec::new();
    let mut i: usize = 0;
    proof {
        reveal(Seq::filter);
        assert(pair_views(files@).subrange(0, 0) =~= Seq::<(Seq<char>, char)>::empty());
        assert(pair_views(r@) =~= Seq::<(Seq<char>, char)>::empty());
    }
    while i < files.len()
        invariant
            i <= files@.len(),
            pair_views(r@) == files_with_marker(pair_views(files@).subrange(0, i as int), m),
        decreases files@.len() - i,
    {
        proof {
            reveal(Seq::filter);
            assert(pair_views(files@).subrange(0, i + 1).drop_last() =~= pair_views(
                files@,
            ).subrange(0, i as int));
            assert(pair_views(files@).subrange(0, i + 1).last() == pair_views(files@)[i as int]);
        }
        if files[i].1 == m {
            let ghost old_pv = pair_views(r@);
            let name = text::chars_of(files[i].0.as_str());
            let entry = (text::string_from_chars(&name), files[i].1);
            let ghost entry_view = (entry.0@, entry.1);
            r.push(entry);
            proof {
                assert(pair_views(r@) =~= old_pv.push(entry_view));
                assert(entry_view == pair_views(files@)[i as int]);
            }
        }
        i = i + 1;
    }
    proof {
        assert(pair_views(files@).subrange(0, files@.len() as int) =~= pair_views(files@));
    }
    r
}

fn first_names_exec(files: &Vec<(String, char)>) -> (r: Vec<Vec<char>>)
    ensures
        r.deep_view() == first_names(pair_views(files@), 3),
{
    let mut r: Vec<Vec<char>> = Vec::new();
    let mut i: usize = 0;
    let n = if files.len() < 3 {
        files.len()
    } else {
        3
    };
    proof {
        assert(pair_views(files@).skip(0) =~= pair_views(files@));
        assert(r.deep_view() =~~= Seq::<Seq<char>>::empty());
        assert(r.deep_view() + first_names(pair_views(files@), 3) =~= first_names(
            pair_views(files@),
            3,
        ));
    }
    while i < n
        invariant
            i <= n,
            n <= files@.len(),
            n <= 3,
            n == 3 || n == files@.len(),
            first_names(pair_views(files@), 3) == r.deep_view() + first_names(
                pair_views(files@).skip(i as int),
                (3 - i) as nat,
            ),
        decreases n - i,
    {
        proof {
            assert(pair_views(files@).skip(i as int)[0] == pair_views(files@)[i as int]);
            assert(pair_views(files@).skip(i as int).drop_first() =~= pair_views(files@).skip(
                i + 1,
            ));
        }
        let ghost old_dv = r.deep_view();
        let name = summary::short_path_chars(&text::chars_of(files[i].0.as_str()));
        let ghost name_view = name@;
        r.push(name);
        i = i + 1;
        proof {
            assert(r.deep_view() =~~= old_dv + seq![name_view]);
        }
    }
    proof {
        if n < 3 {
            assert(pair_views(files@).skip(n as int) =~= Seq::<(Seq<char>, char)>::empty());
        }
        assert(first_names(pair_views(files@).skip(n as int), (3 - n) as nat) =~= Seq::<
            Seq<char>,
        >::empty());
        assert(r.deep_view() + Seq::<Seq<char>>::empty() =~= r.deep_view());
    }
    r
}

impl SessionData {
    /// Synthesizes a request summary from the files the session touched:
    /// the first created file names, else the first modified ones.
    pub fn infer_summary_from_files(&self) -> (r: Option<String>)
        ensures
            match r {
                Some(x) => infer_summary_spec(self.tool_calls@) == Some(x@),
                None => infer_summary_spec(self.tool_calls@) is None,
            },
    {
        let files = self.changed_file_paths();
        if files.len() == 0 {
            proof {
                assert(pair_views(files@).len() == 0);
            }
            return None;
        }
        let created = filter_marker_exec(&files, '+');
        let modified = filter_marker_exec(&files, '~');
        if created.len() > 0 {
            let names = first_names_exec(&created);
            let mut out: Vec<char> = Vec::new();
            text::push_lit(&mut out, "Created ");
            let joined = text::join_chars(&names, ", ");
            text::push_chars(&mut out, &joined);
            Some(text::string_from_chars(&summary::truncate_chars(&out, 120)))
        } else if modified.len() > 0 {
            let names = first_names_exec(&modified);
            let mut out: Vec<char> = Vec::new();
            text::push_lit(&mut out, "Modified ");
            let joined = text::join_chars(&names, ", ");
            text::push_chars(&mut out, &joined);
            Some(text::string_from_chars(&summary::truncate_chars(&out, 120)))
        } else {
            None
        }
    }
}

/// What the work-summary fallback yields: the counts of created,
/// modified and deleted files, spelled out and joined with commas.
pub open spec fn infer_work_spec(tcs: Seq<ToolCallData>) -> Option<Seq<char>> {
    let c = tcs.filter(|tc: ToolCallData| is_create_call(tc)).len();
    let m = tcs.filter(|tc: ToolCallData| is_modify_call(tc)).len();
    let d = tcs.filter(|tc: ToolCallData| is_delete_call(tc)).len();
    if c + m + d == 0 {
        None
    } else {
        let parts = (if c > 0 {
            seq![dec_rep(c) + " files created"@]
        } else {
            Seq::empty()
        }) + (if m > 0 {
            seq![dec_rep(m) + " files modified"@]
        } else {
            Seq::empty()
        }) + (if d > 0 {
            seq![dec_rep(d) + " files deleted"@]
        } else {
            Seq::empty()
        });
        Some(join_seq(parts, ", "@))
    }
}

impl SessionData {
    /// Synthesizes a work summary from the session's file mutation
    /// counts.
    pub fn infer_work_from_files(&self) -> (r: Option<String>)
        ensures
            match r {
                Some(x) => infer_work_spec(self.tool_calls@) == Some(x@),
                None => infer_work_spec(self.tool_calls@) is None,
            },
    {
        let c = self.files_created();
        let m = self.files_modified();
        let d = self.files_deleted();
        if c == 0 && m == 0 && d == 0 {
            return None;
        }
        let mut parts: Vec<Vec<char>> = Vec::new();
        if c > 0 {
            let mut p = text::u64_to_dec(c as u64);
            text::push_lit(&mut p, " files created");
            parts.push(p);
        }
        if m > 0 {
            let mut p = text::u64_to_dec(m as u64);
            text::push_lit(&mut p, " files modified");
            parts.push(p);
        }
        if d > 0 {
            let mut p = text::u64_to_dec(d as u64);
            text::push_lit(&mut p, " files deleted");
            parts.push(p);
        }
        let ghost spec_parts = (if c > 0 {
            seq![dec_rep(c as nat) + " files created"@]
        } else {
            Seq::<Seq<char>>::empty()
        }) + (if m > 0 {
            seq![dec_rep(m as nat) + " files modified"@]
        } else {
            Seq::<Seq<char>>::empty()
        }) + (if d > 0 {
            seq![dec_rep(d as nat) + " files deleted"@]
        } else {
            Seq::<Seq<char>>::empty()
        });
        proof {
            assert(parts.deep_view() =~~= spec_parts);
        }
        let joined = text::join_chars(&parts, ", ");
        Some(text::string_from_chars(&joined))
    }
}

/// The content of the first user message of `msgs`.
pub open spec fn first_user_content(msgs: Seq<MessageData>) -> Option<Seq<char>>
    decreases msgs.len(),
{
    if msgs.len() == 0 {
        None
    } else if msgs[0].role == Role::User {
        Some(msgs[0].content@)
    } else {
        first_user_content(msgs.drop_first())
    }
}

/// The request drawn from one heading line: the heading text without
/// its markers and any known label, when more than three bytes remain.
pub open spec fn stage1_line(line: Seq<char>) -> Option<Seq<char>> {
    let t = trim_seq(line);
    if t.len() > 0 && t[0] == '#' {
        let title = summary::strip_header_prefix_spec(trim_seq(text::drop_leading(t, '#')));
        if byte_len_seq(title) > 3 {
            Some(truncate_spec(title, 120))
        } else {
            None
        }
    } else {
        None
    }
}

/// The first heading of `ls` that yields a request.
pub open spec fn stage1(ls: Seq<Seq<char>>) -> Option<Seq<char>>
    decreases ls.len(),
{
    if ls.len() == 0 {
        None
    } else if stage1_line(ls[0]) is Some {
        stage1_line(ls[0])
    } else {
        stage1(ls.drop_first())
    }
}

/// The candidate lines of a request message: every trimmed nonempty
/// line that is neither a heading nor a horizontal rule.
pub open spec fn candidates(ls: Seq<Seq<char>>) -> Seq<Seq<char>>
    decreases ls.len(),
{
    if ls.len() == 0 {
        Seq::empty()
    } else {
        let t = trim_seq(ls[0]);
        if t.len() == 0 || t[0] == '#' || text::occurs_at(t, "---"@, 0) {
            candidates(ls.drop_first())
        } else {
            seq![t] + candidates(ls.drop_first())
        }
    }
}

/// Whether a lower-cased line is a generic instruction rather than the
/// request itself, in either supported language.
pub open spec fn is_generic_line(low: Seq<char>) -> bool {
    ||| text::has_sub(low, "implement the following"@)
    ||| text::has_sub(low, "implement this"@)
    ||| text::has_sub(low, "다음을 구현"@)
    ||| text::has_sub(low, "아래 플랜"@)
    ||| text::has_sub(low, "아래 계획"@)
    ||| text::has_sub(low, "following plan"@)
    ||| text::has_sub(low, "이거보고"@)
    ||| text::has_sub(low, "이거 보고"@)
    ||| text::has_sub(low, "<local-command"@)
    ||| text::has_sub(low, "caveat:"@)
}

/// Whether a candidate line is markup or a file path rather than prose.
pub open spec fn is_markup_or_path(line: Seq<char>) -> bool {
    ||| text::occurs_at(line, "```"@, 0)
    ||| text::occurs_at(line, "|"@, 0)
    ||| text::occurs_at(line, "<!--"@, 0)
    ||| text::occurs_at(line, "<"@, 0)
    ||| text::occurs_at(line, "/"@, 0)
    ||| text::occurs_at(line, "'/"@, 0)
    ||| text::occurs_at(line, "\"/"@, 0)
    ||| text::occurs_at(line, "~/"@, 0)
}

/// The request drawn from one candidate line in the strict pass: its
/// first sentence, cleaned, unless the line is generic, markup or a
/// path, or too little remains.
pub open spec fn stage2_line(line: Seq<char>) -> Option<Seq<char>> {
    let low = text::lower_seq(line);
    if is_generic_line(low) || is_markup_or_path(line) {
        None
    } else {
        let cleaned = summary::strip_md_spec(summary::first_sentence_spec(line));
        if byte_len_seq(cleaned) > 3 {
            Some(truncate_spec(cleaned, 120))
        } else {
            None
        }
    }
}

/// The first candidate that yields a request in the strict pass.
pub open spec fn stage2(cands: Seq<Seq<char>>) -> Option<Seq<char>>
    decreases cands.len(),
{
    if cands.len() == 0 {
        None
    } else if stage2_line(cands[0]) is Some {
        stage2_line(cands[0])
    } else {
        stage2(cands.drop_first())
    }
}

/// Whether a candidate line is still skipped in the relaxed pass.
pub open spec fn is_relaxed_skip(line: Seq<char>) -> bool {
    ||| text::occurs_at(line, "<"@, 0)
    ||| text::occurs_at(line, "/"@, 0)
    ||| text::occurs_at(line, "'/"@, 0)
    ||| text::occurs_at(line, "\"/"@, 0)
    ||| text::occurs_at(line, "~/"@, 0)
    ||| text::occurs_at(line, "```"@, 0)
}

/// The index of the first element of `cands` equal to `line`, or
/// `cands.len()` when none is.
pub open spec fn first_eq_idx(cands: Seq<Seq<char>>, line: Seq<char>) -> nat
    decreases cands.len(),
{
    if cands.len() == 0 {
        0
    } else if cands[0] == line {
        0
    } else {
        1 + first_eq_idx(cands.drop_first(), line)
    }
}

proof fn lemma_first_eq_idx_unique(cands: Seq<Seq<char>>, line: Seq<char>, i: int)
    requires
        0 <= i <= cands.len(),
        forall|j: int| 0 <= j < i ==> cands[j] != line,
        i < cands.len() ==> cands[i] == line,
    ensures
        i == first_eq_idx(cands, line),
    decreases i,
{
    if cands.len() > 0 && cands[0] != line {
        assert(i > 0);
        assert(forall|j: int|
            0 <= j < i - 1 ==> cands.drop_first()[j] == cands[j + 1] && cands.drop_first()[j]
                != line);
        lemma_first_eq_idx_unique(cands.drop_first(), line, i - 1);
    }
}

/// The line borrowed after a candidate that ends with a colon: the
/// cleaned candidate after the first occurrence of the colon line.
pub open spec fn borrowed_line(cands: Seq<Seq<char>>, line: Seq<char>) -> Option<Seq<char>> {
    if line.len() > 0 && line.last() == ':' {
        let k = first_eq_idx(cands, line);
        if k + 1 < cands.len() {
            let nc = summary::strip_md_spec(trim_seq(cands[k as int + 1]));
            if byte_len_seq(nc) > 3 && !text::occurs_at(nc, "<"@, 0) && !text::occurs_at(
                nc,
                "```"@,
                0,
            ) {
                Some(truncate_spec(nc, 120))
            } else {
                None
            }
        } else {
            None
        }
    } else {
        None
    }
}

/// The request drawn from one candidate in the relaxed pass.
pub open spec fn stage3_line(cands: Seq<Seq<char>>, i: int) -> Option<Seq<char>> {
    let line = cands[i];
    if is_relaxed_skip(line) {
        None
    } else {
        match borrowed_line(cands, line) {
            Some(x) => Some(x),
            None => {
                let sentence = summary::first_sentence_spec(line);
                if byte_len_seq(sentence) > 3 {
                    Some(truncate_spec(summary::strip_md_spec(sentence), 120))
                } else {
                    None
                }
            },
        }
    }
}

/// The first candidate from position `i` on that yields a request in
/// the relaxed pass.
pub open spec fn stage3_from(cands: Seq<Seq<char>>, i: int) -> Option<Seq<char>>
    decreases cands.len() - i,
{
    if i >= cands.len() {
        None
    } else if stage3_line(cands, i) is Some {
        stage3_line(cands, i)
    } else {
        stage3_from(cands, i + 1)
    }
}

/// What `extract_summary` yields: the first user message read by four
/// passes in turn, with the file-change fallback last. No user message
/// means no request summary.
pub open spec fn request_summary_spec(msgs: Seq<MessageData>, tcs: Seq<ToolCallData>) -> Option<
    Seq<char>,
> {
    match first_user_content(msgs) {
        None => None,
        Some(fm) => match stage1(text::lines_seq(fm)) {
            Some(x) => Some(x),
            None => {
                let cands = candidates(text::lines_seq(fm));
                match stage2(cands) {
                    Some(x) => Some(x),
                    None => match stage3_from(cands, 0) {
                        Some(x) => Some(x),
                        None => infer_summary_spec(tcs),
                    },
                }
            },
        },
    }
}

fn first_user_chars(msgs: &Vec<MessageData>) -> (r: Option<Vec<char>>)
    ensures
        match r {
            Some(fm) => first_user_content(msgs@) == Some(fm@),
            None => first_user_content(msgs@) is None,
        },
{
    let mut mi: usize = 0;
    proof {
        assert(msgs@.skip(0) =~= msgs@);
    }
    while mi < msgs.len()
        invariant
            mi <= msgs@.len(),
            first_user_content(msgs@) == first_user_content(msgs@.skip(mi as int)),
        decreases msgs@.len() - mi,
    {
        proof {
            assert(msgs@.skip(mi as int)[0] == msgs@[mi as int]);
            assert(msgs@.skip(mi as int).drop_first() =~= msgs@.skip(mi + 1));
        }
        if msgs[mi].role == Role::User {
            return Some(text::chars_of(msgs[mi].content.as_str()));
        }
        mi = mi + 1;
    }
    proof {
        assert(msgs@.skip(msgs@.len() as int) =~= Seq::<MessageData>::empty());
    }
    None
}

fn stage1_line_exec(line: &Vec<char>) -> (r: Option<Vec<char>>)
    ensures
        match r {
            Some(x) => stage1_line(line@) == Some(x@),
            None => stage1_line(line@) is None,
        },
{
    let t = text::trim_chars(line);
    if t.len() > 0 && t[0] == '#' {
        let bare = text::trim_chars(&text::drop_leading_chars(&t, '#'));
        let title = summary::strip_header_prefix_chars(&bare);
        if text::byte_len_gt(&title, 3) {
            return Some(summary::truncate_chars(&title, 120));
        }
    }
    None
}

fn stage2_line_exec(line: &Vec<char>) -> (r: Option<Vec<char>>)
    ensures
        match r {
            Some(x) => stage2_line(line@) == Some(x@),
            None => stage2_line(line@) is None,
        },
{
    let low = text::lower_chars(line);
    let generic = text::contains_lit(&low, "implement the following") || text::contains_lit(
        &low,
        "implement this",
    ) || text::contains_lit(&low, "다음을 구현") || text::contains_lit(&low, "아래 플랜")
        || text::contains_lit(&low, "아래 계획") || text::contains_lit(&low, "following plan")
        || text::contains_lit(&low, "이거보고") || text::contains_lit(&low, "이거 보고")
        || text::contains_lit(&low, "<local-command") || text::contains_lit(&low, "caveat:");
    let markup = text::starts_with_lit(line, "```") || text::starts_with_lit(line, "|")
        || text::starts_with_lit(line, "<!--") || text::starts_with_lit(line, "<")
        || text::starts_with_lit(line, "/") || text::starts_with_lit(line, "'/")
        || text::starts_with_lit(line, "\"/") || text::starts_with_lit(line, "~/");
    if generic || markup {
        return None;
    }
    let cleaned = summary::strip_markdown_chars(&summary::extract_first_sentence_chars(line));
    if text::byte_len_gt(&cleaned, 3) {
        Some(summary::truncate_chars(&cleaned, 120))
    } else {
        None
    }
}

fn first_eq_idx_exec(cands: &Vec<Vec<char>>, line: &Vec<char>) -> (r: usize)
    ensures
        r == first_eq_idx(cands.deep_view(), line@),
        r <= cands@.len(),
{
    let mut i: usize = 0;
    while i < cands.len()
        invariant
            i <= cands@.len(),
            forall|j: int| 0 <= j < i ==> cands.deep_view()[j] != line@,
        decreases cands@.len() - i,
    {
        proof {
            assert(cands.deep_view()[i as int] =~= cands@[i as int]@);
        }
        if text::eq_chars(&cands[i], line) {
            proof {
                assert(cands.deep_view()[i as int] == line@);
                lemma_first_eq_idx_unique(cands.deep_view(), line@, i as int);
            }
            return i;
        }
        i = i + 1;
    }
    proof {
        lemma_first_eq_idx_unique(cands.deep_view(), line@, cands.deep_view().len() as int);
    }
    cands.len()
}

impl SessionData {
    /// A short statement of what the user asked for, drawn from the
    /// first user message: a heading title, else a first sentence from a
    /// substantive line, else a relaxed second pass, else the names of
    /// the files the session touched. At most 120 characters.
    pub fn extract_summary(&self) -> (r: Option<String>)
        ensures
            match r {
                Some(x) => request_summary_spec(self.messages@, self.tool_calls@) == Some(x@),
                None => request_summary_spec(self.messages@, self.tool_calls@) is None,
            },
    {
        let fm = match first_user_chars(&self.messages) {
            None => {
                return None;
            },
            Some(fm) => fm,
        };
        let ls = text::split_lines(&fm);
        let mut i: usize = 0;
        proof {
            assert(ls.deep_view().skip(0) =~= ls.deep_view());
        }
        while i < ls.len()
            invariant
                i <= ls@.len(),
                ls.deep_view() == text::lines_seq(fm@),
                first_user_content(self.messages@) == Some(fm@),
                stage1(text::lines_seq(fm@)) == stage1(ls.deep_view().skip(i as int)),
            decreases ls@.len() - i,
        {
            proof {
                assert(ls.deep_view().skip(i as int)[0] == ls@[i as int]@);
                assert(ls.deep_view().skip(i as int).drop_first() =~= ls.deep_view().skip(i + 1));
            }
            if let Some(x) = stage1_line_exec(&ls[i]) {
                return Some(text::string_from_chars(&x));
            }
            i = i + 1;
        }
        proof {
            assert(ls.deep_view().skip(ls@.len() as int) =~= Seq::<Seq<char>>::empty());
        }
        let mut cands: Vec<Vec<char>> = Vec::new();
        let mut k: usize = 0;
        proof {
            assert(ls.deep_view().skip(0) =~= ls.deep_view());
            assert(cands.deep_view() =~~= Seq::<Seq<char>>::empty());
            assert(cands.deep_view() + candidates(ls.deep_view()) =~= candidates(ls.deep_view()));
        }
        while k < ls.len()
            invariant
                k <= ls@.len(),
                ls.deep_view() == text::lines_seq(fm@),
                first_user_content(self.messages@) == Some(fm@),
                stage1(text::lines_seq(fm@)) is None,
                candidates(text::lines_seq(fm@)) == cands.deep_view() + candidates(
                    ls.deep_view().skip(k as int),
                ),
            decreases ls@.len() - k,
        {
            proof {
                assert(ls.deep_view().skip(k as int)[0] == ls@[k as int]@);
                assert(ls.deep_view().skip(k as int).drop_first() =~= ls.deep_view().skip(k + 1));
            }
            let t = text::trim_chars(&ls[k]);
            if t.len() == 0 || t[0] == '#' || text::starts_with_lit(&t, "---") {
            } else {
                let ghost old_dv = cands.deep_view();
                let ghost t_view = t@;
                cands.push(t);
                proof {
                    assert(cands.deep_view() =~~= old_dv + seq![t_view]);
                }
            }
            k = k + 1;
        }
        proof {
            assert(ls.deep_view().skip(ls@.len() as int) =~= Seq::<Seq<char>>::empty());
            assert(cands.deep_view() + Seq::<Seq<char>>::empty() =~= cands.deep_view());
        }
        let mut j: usize = 0;
        proof {
            assert(cands.deep_view().skip(0) =~= cands.deep_view());
        }
        while j < cands.len()
            invariant
                j <= cands@.len(),
                cands.deep_view() == candidates(text::lines_seq(fm@)),
                first_user_content(self.messages@) == Some(fm@),
                stage1(text::lines_seq(fm@)) is None,
                stage2(candidates(text::lines_seq(fm@))) == stage2(
                    cands.deep_view().skip(j as int),
                ),
            decreases cands@.len() - j,
        {
            proof {
                assert(cands.deep_view().skip(j as int)[0] == cands@[j as int]@);
                assert(cands.deep_view().skip(j as int).drop_first() =~= cands.deep_view().skip(
                    j + 1,
                ));
            }
            if let Some(x) = stage2_line_exec(&cands[j]) {
                return Some(text::string_from_chars(&x));
            }
            j = j + 1;
        }
        proof {
            assert(cands.deep_view().skip(cands@.len() as int) =~= Seq::<Seq<char>>::empty());
        }
        let mut p: usize = 0;
        while p < cands.len()
            invariant
                p <= cands@.len(),
                cands.deep_view() == candidates(text::lines_seq(fm@)),
                first_user_content(self.messages@) == Some(fm@),
                stage1(text::lines_seq(fm@)) is None,
                stage2(candidates(text::lines_seq(fm@))) is None,
                stage3_from(candidates(text::lines_seq(fm@)), 0) == stage3_from(
                    cands.deep_view(),
                    p as int,
                ),
            decreases cands@.len() - p,
        {
            let line = &cands[p];
            proof {
                assert(cands.deep_view()[p as int] == cands@[p as int]@);
            }
            let skip_line = text::starts_with_lit(line, "<") || text::starts_with_lit(line, "/")
                || text::starts_with_lit(line, "'/") || text::starts_with_lit(line, "\"/")
                || text::starts_with_lit(line, "~/") || text::starts_with_lit(line, "```");
            if !skip_line {
                let mut borrowed: Option<Vec<char>> = None;
                if line.len() > 0 && line[line.len() - 1] == ':' {
                    let kk = first_eq_idx_exec(&cands, line);
                    if kk < cands.len() - 1 {
                        let nc = summary::strip_markdown_chars(&text::trim_chars(&cands[kk + 1]));
                        proof {
                            assert(cands.deep_view()[kk + 1] == cands@[kk + 1 as int]@);
                        }
                        if text::byte_len_gt(&nc, 3) && !text::starts_with_lit(&nc, "<")
                            && !text::starts_with_lit(&nc, "```") {
                            borrowed = Some(summary::truncate_chars(&nc, 120));
                        }
                    }
                }
                match borrowed {
                    Some(x) => {
                        proof {
                            assert(borrowed_line(cands.deep_view(), cands.deep_view()[p as int])
                                == Some(x@));
                        }
                        return Some(text::string_from_chars(&x));
                    },
                    None => {
                        let sentence = summary::extract_first_sentence_chars(line);
                        if text::byte_len_gt(&sentence, 3) {
                            let out = summary::truncate_chars(
                                &summary::strip_markdown_chars(&sentence),
                                120,
                            );
                            return Some(text::string_from_chars(&out));
                        }
                    },
                }
            }
            p = p + 1;
        }
        self.infer_summary_from_files()
    }
}

/// The contents of the assistant messages with nonempty content, in
/// conversation order.
pub open spec fn assistant_contents(msgs: Seq<MessageData>) -> Seq<Seq<char>>
    decreases msgs.len(),
{
    if msgs.len() == 0 {
        Seq::empty()
    } else if msgs[0].role == Role::Assistant && msgs[0].content@.len() > 0 {
        seq![msgs[0].content@] + assistant_contents(msgs.drop_first())
    } else {
        assistant_contents(msgs.drop_first())
    }
}

/// The newest assistant message that states a commit message.
pub open spec fn stage_w1(am: Seq<Seq<char>>) -> Option<Seq<char>>
    decreases am.len(),
{
    if am.len() == 0 {
        None
    } else if summary::commit_message_spec(am.last()) is Some {
        Some(truncate_spec(summary::commit_message_spec(am.last())->0, 120))
    } else {
        stage_w1(am.drop_last())
    }
}

/// Whether a lower-cased trimmed line opens a summary or result section,
/// in either supported language.
pub open spec fn is_summary_header(low: Seq<char>) -> bool {
    ||| text::occurs_at(low, "## summary"@, 0)
    ||| text::occurs_at(low, "## 요약"@, 0)
    ||| text::occurs_at(low, "## result"@, 0)
    ||| text::occurs_at(low, "## 결과"@, 0)
    ||| text::occurs_at(low, "## done"@, 0)
    ||| text::occurs_at(low, "## 완료"@, 0)
    ||| text::occurs_at(low, "## changes"@, 0)
    ||| text::occurs_at(low, "## 변경"@, 0)
    ||| text::occurs_at(low, "요약:"@, 0)
    ||| text::occurs_at(low, "summary:"@, 0)
    ||| text::occurs_at(low, "완료:"@, 0)
}

/// Up to `k` of the next lines, cleaned, keeping those longer than
/// three bytes.
pub open spec fn collect3(after: Seq<Seq<char>>, k: nat) -> Seq<Seq<char>>
    decreases after.len(),
{
    if after.len() == 0 || k == 0 {
        Seq::empty()
    } else {
        let x = summary::strip_md_spec(trim_seq(after[0]));
        (if byte_len_seq(x) > 3 {
            seq![x]
        } else {
            Seq::<Seq<char>>::empty()
        }) + collect3(after.drop_first(), (k - 1) as nat)
    }
}

/// The lines following the first summary header of `ls` that collects
/// anything, joined with a semicolon.
pub open spec fn stage_w2_lines(ls: Seq<Seq<char>>) -> Option<Seq<char>>
    decreases ls.len(),
{
    if ls.len() == 0 {
        None
    } else {
        let low = text::lower_seq(trim_seq(ls[0]));
        if is_summary_header(low) && collect3(ls.drop_first(), 3).len() > 0 {
            Some(truncate_spec(join_seq(collect3(ls.drop_first(), 3), "; "@), 120))
        } else {
            stage_w2_lines(ls.drop_first())
        }
    }
}

/// The newest assistant message with a summary section that collects
/// anything.
pub open spec fn stage_w2(am: Seq<Seq<char>>) -> Option<Seq<char>>
    decreases am.len(),
{
    if am.len() == 0 {
        None
    } else if stage_w2_lines(summary::meaningful_spec(am.last())) is Some {
        stage_w2_lines(summary::meaningful_spec(am.last()))
    } else {
        stage_w2(am.drop_last())
    }
}

/// How many completion keywords of the first supported language a
/// lower-cased line mentions.
pub open spec fn keyword_score_a(low: Seq<char>) -> nat {
    (if text::has_sub(low, "완료"@) { 1nat } else { 0nat })
    + (if text::has_sub(low, "구현"@) { 1nat } else { 0nat })
    + (if text::has_sub(low, "추가"@) { 1nat } else { 0nat })
    + (if text::has_sub(low, "수정"@) { 1nat } else { 0nat })
    + (if text::has_sub(low, "생성"@) { 1nat } else { 0nat })
    + (if text::has_sub(low, "삭제"@) { 1nat } else { 0nat })
    + (if text::has_sub(low, "변경"@) { 1nat } else { 0nat })
    + (if text::has_sub(low, "적용"@) { 1nat } else { 0nat })
    + (if text::has_sub(low, "배포"@) { 1nat } else { 0nat })
}

/// How many of the first half of the second language's completion
/// keywords a lower-cased line mentions.
pub open spec fn keyword_score_b1(low: Seq<char>) -> nat {
    (if text::has_sub(low, "complete"@) { 1nat } else { 0nat })
    + (if text::has_sub(low, "implement"@) { 1nat } else { 0nat })
    + (if text::has_sub(low, "added"@) { 1nat } else { 0nat })
    + (if text::has_sub(low, "modified"@) { 1nat } else { 0nat })
    + (if text::has_sub(low, "created"@) { 1nat } else { 0nat })
    + (if text::has_sub(low, "fixed"@) { 1nat } else { 0nat })
}

/// How many of the second half of the second language's completion
/// keywords a lower-cased line mentions.
pub open spec fn keyword_score_b2(low: Seq<char>) -> nat {
    (if text::has_sub(low, "updated"@) { 1nat } else { 0nat })
    + (if text::has_sub(low, "refactored"@) { 1nat } else { 0nat })
    + (if text::has_sub(low, "removed"@) { 1nat } else { 0nat })
    + (if text::has_sub(low, "resolved"@) { 1nat } else { 0nat })
    + (if text::has_sub(low, "deployed"@) { 1nat } else { 0nat })
    + (if text::has_sub(low, "built"@) { 1nat } else { 0nat })
}

/// How many completion keywords of the second supported language a
/// lower-cased line mentions.
pub open spec fn keyword_score_b(low: Seq<char>) -> nat {
    keyword_score_b1(low) + keyword_score_b2(low)
}

/// How many of the completion keywords, in either supported language,
/// a lower-cased line mentions.
pub open spec fn keyword_score(low: Seq<char>) -> nat {
    keyword_score_a(low) + keyword_score_b(low)
}

/// Whether a lower-cased line opens with a planning phrase.
pub open spec fn starts_skip_phrase(low: Seq<char>) -> bool {
    ||| text::occurs_at(low, "let me"@, 0)
    ||| text::occurs_at(low, "i'll"@, 0)
    ||| text::occurs_at(low, "i will"@, 0)
    ||| text::occurs_at(low, "now "@, 0)
    ||| text::occurs_at(low, "here"@, 0)
    ||| text::occurs_at(low, "looking"@, 0)
    ||| text::occurs_at(low, "reading"@, 0)
    ||| text::occurs_at(low, "checking"@, 0)
}

/// Whether a lower-cased line mentions an exploration phrase.
pub open spec fn contains_skip_phrase(low: Seq<char>) -> bool {
    ||| text::has_sub(low, "제가"@)
    ||| text::has_sub(low, "이제"@)
    ||| text::has_sub(low, "확인"@)
    ||| text::has_sub(low, "살펴"@)
    ||| text::has_sub(low, "읽어"@)
    ||| text::has_sub(low, "파악"@)
    ||| text::has_sub(low, "분석"@)
    ||| text::has_sub(low, "할게요"@)
    ||| text::has_sub(low, "하겠습니다"@)
    ||| text::has_sub(low, "볼게요"@)
    ||| text::has_sub(low, "탐색"@)
    ||| text::has_sub(low, "조사"@)
    ||| text::has_sub(low, "핵심 발견"@)
    ||| text::has_sub(low, "확인 완료"@)
    ||| text::has_sub(low, "탐색 완료"@)
}

/// Whether a score beats the best seen so far; a tie keeps the earlier
/// line.
pub open spec fn beats(cur: Option<(Seq<char>, nat)>, sc: nat) -> bool {
    match cur {
        None => true,
        Some(p) => sc > p.1,
    }
}

/// The best-scored line of `ls`, each scored by its keyword count times
/// the weight `w`, given the best seen so far.
pub open spec fn best_in_lines(ls: Seq<Seq<char>>, w: nat, cur: Option<(Seq<char>, nat)>) -> Option<
    (Seq<char>, nat),
>
    decreases ls.len(),
{
    if ls.len() == 0 {
        cur
    } else {
        let line = ls[0];
        let low = text::lower_seq(line);
        let t = trim_seq(line);
        let cur2 = if byte_len_seq(t) <= 5 || (t.len() > 0 && t[0] == '#') {
            cur
        } else if starts_skip_phrase(low) || contains_skip_phrase(low) {
            cur
        } else {
            let k = keyword_score(low);
            if k > 0 && beats(cur, k * w) {
                Some((summary::strip_md_spec(t), k * w))
            } else {
                cur
            }
        };
        best_in_lines(ls.drop_first(), w, cur2)
    }
}

/// The best-scored line over all assistant messages; a message at
/// position `idx` of `n` weighs `n + idx + 1`, so later messages win
/// ties on keyword count.
pub open spec fn stage_w3_scan(
    am: Seq<Seq<char>>,
    idx: nat,
    n: nat,
    cur: Option<(Seq<char>, nat)>,
) -> Option<(Seq<char>, nat)>
    decreases am.len(),
{
    if am.len() == 0 {
        cur
    } else {
        stage_w3_scan(
            am.drop_first(),
            idx + 1,
            n,
            best_in_lines(summary::meaningful_spec(am[0]), n + idx + 1, cur),
        )
    }
}

/// The keyword-scored pass over all assistant messages.
pub open spec fn stage_w3(am: Seq<Seq<char>>) -> Option<Seq<char>> {
    match stage_w3_scan(am, 0, am.len(), None) {
        Some(p) => Some(truncate_spec(p.0, 120)),
        None => None,
    }
}

/// The last substantive line of the last assistant message: longer than
/// ten bytes, no heading, and something left after cleaning.
pub open spec fn stage_w4_lines(ls: Seq<Seq<char>>) -> Option<Seq<char>>
    decreases ls.len(),
{
    if ls.len() == 0 {
        None
    } else {
        let t = trim_seq(ls.last());
        let cleaned = summary::strip_md_spec(t);
        if byte_len_seq(t) > 10 && !(t.len() > 0 && t[0] == '#') && cleaned.len() > 0 {
            Some(truncate_spec(cleaned, 120))
        } else {
            stage_w4_lines(ls.drop_last())
        }
    }
}

/// What `extract_work_summary` yields: the newest commit message, else
/// the newest summary section, else the best keyword-scored line, else
/// the last substantive line, else the file-count fallback.
pub open spec fn work_summary_spec(msgs: Seq<MessageData>, tcs: Seq<ToolCallData>) -> Option<
    Seq<char>,
> {
    let am = assistant_contents(msgs);
    if am.len() == 0 {
        infer_work_spec(tcs)
    } else {
        match stage_w1(am) {
            Some(x) => Some(x),
            None => match stage_w2(am) {
                Some(x) => Some(x),
                None => match stage_w3(am) {
                    Some(x) => Some(x),
                    None => match stage_w4_lines(summary::meaningful_spec(am.last())) {
                        Some(x) => Some(x),
                        None => infer_work_spec(tcs),
                    },
                },
            },
        }
    }
}

#[verifier::rlimit(50)]
fn keyword_score_a_exec(low: &Vec<char>) -> (r: usize)
    ensures
        r == keyword_score_a(low@),
        r <= 9,
{
    let mut r: usize = 0;
    if text::contains_lit(low, "완료") { r = r + 1; }
    if text::contains_lit(low, "구현") { r = r + 1; }
    if text::contains_lit(low, "추가") { r = r + 1; }
    if text::contains_lit(low, "수정") { r = r + 1; }
    if text::contains_lit(low, "생성") { r = r + 1; }
    if text::contains_lit(low, "삭제") { r = r + 1; }
    if text::contains_lit(low, "변경") { r = r + 1; }
    if text::contains_lit(low, "적용") { r = r + 1; }
    if text::contains_lit(low, "배포") { r = r + 1; }
    r
}

#[verifier::rlimit(50)]
fn keyword_score_b1_exec(low: &Vec<char>) -> (r: usize)
    ensures
        r == keyword_score_b1(low@),
        r <= 6,
{
    let mut r: usize = 0;
    if text::contains_lit(low, "complete") { r = r + 1; }
    if text::contains_lit(low, "implement") { r = r + 1; }
    if text::contains_lit(low, "added") { r = r + 1; }
    if text::contains_lit(low, "modified") { r = r + 1; }
    if text::contains_lit(low, "created") { r = r + 1; }
    if text::contains_lit(low, "fixed") { r = r + 1; }
    r
}

#[verifier::rlimit(50)]
fn keyword_score_b2_exec(low: &Vec<char>) -> (r: usize)
    ensures
        r == keyword_score_b2(low@),
        r <= 6,
{
    let mut r: usize = 0;
    if text::contains_lit(low, "updated") { r = r + 1; }
    if text::contains_lit(low, "refactored") { r = r + 1; }
    if text::contains_lit(low, "removed") { r = r + 1; }
    if text::contains_lit(low, "resolved") { r = r + 1; }
    if text::contains_lit(low, "deployed") { r = r + 1; }
    if text::contains_lit(low, "built") { r = r + 1; }
    r
}

fn keyword_score_exec(low: &Vec<char>) -> (r: usize)
    ensures
        r == keyword_score(low@),
        r <= 21,
{
    let a = keyword_score_a_exec(low);
    let b1 = keyword_score_b1_exec(low);
    let b2 = keyword_score_b2_exec(low);
    a + b1 + b2
}

fn is_summary_header_exec(low: &Vec<char>) -> (r: bool)
    ensures
        r == is_summary_header(low@),
{
    text::starts_with_lit(low, "## summary") || text::starts_with_lit(low, "## 요약")
        || text::starts_with_lit(low, "## result") || text::starts_with_lit(low, "## 결과")
        || text::starts_with_lit(low, "## done") || text::starts_with_lit(low, "## 완료")
        || text::starts_with_lit(low, "## changes") || text::starts_with_lit(low, "## 변경")
        || text::starts_with_lit(low, "요약:") || text::starts_with_lit(low, "summary:")
        || text::starts_with_lit(low, "완료:")
}

fn stage_w2_lines_exec(ls: &Vec<Vec<char>>) -> (r: Option<Vec<char>>)
    ensures
        match r {
            Some(x) => stage_w2_lines(ls.deep_view()) == Some(x@),
            None => stage_w2_lines(ls.deep_view()) is None,
        },
{
    let mut i: usize = 0;
    proof {
        assert(ls.deep_view().skip(0) =~= ls.deep_view());
    }
    while i < ls.len()
        invariant
            i <= ls@.len(),
            stage_w2_lines(ls.deep_view()) == stage_w2_lines(ls.deep_view().skip(i as int)),
        decreases ls@.len() - i,
    {
        proof {
            assert(ls.deep_view().skip(i as int)[0] == ls@[i as int]@);
            assert(ls.deep_view().skip(i as int).drop_first() =~= ls.deep_view().skip(i + 1));
        }
        let low = text::lower_chars(&text::trim_chars(&ls[i]));
        if is_summary_header_exec(&low) {
            let mut collected: Vec<Vec<char>> = Vec::new();
            let mut t: usize = 0;
            let lslen = ls.len();
            let avail = lslen - (i + 1);
            let take: usize = if avail < 3 {
                avail
            } else {
                3
            };
            proof {
                assert(ls.deep_view().skip(i + 1).skip(0) =~= ls.deep_view().skip(i + 1));
                assert(collected.deep_view() =~~= Seq::<Seq<char>>::empty());
                assert(collected.deep_view() + collect3(ls.deep_view().skip(i + 1), 3) =~= collect3(
                    ls.deep_view().skip(i + 1),
                    3,
                ));
            }
            while t < take
                invariant
                    t <= take,
                    take <= 3,
                    lslen == ls@.len(),
                    i + 1 + take <= ls@.len(),
                    take == 3 || i + 1 + take == ls@.len(),
                    collect3(ls.deep_view().skip(i + 1), 3) == collected.deep_view() + collect3(
                        ls.deep_view().skip(i + 1 + t),
                        (3 - t) as nat,
                    ),
                decreases take - t,
            {
                proof {
                    assert(ls.deep_view().skip(i + 1 + t)[0] == ls@[i + 1 + t] @);
                    assert(ls.deep_view().skip(i + 1 + t).drop_first() =~= ls.deep_view().skip(
                        i + 1 + t + 1,
                    ));
                }
                let x = summary::strip_markdown_chars(&text::trim_chars(&ls[i + 1 + t]));
                if text::byte_len_gt(&x, 3) {
                    let ghost old_dv = collected.deep_view();
                    let ghost x_view = x@;
                    collected.push(x);
                    proof {
                        assert(collected.deep_view() =~~= old_dv + seq![x_view]);
                    }
                } else {
                    proof {
                        assert(collected.deep_view() + Seq::<Seq<char>>::empty()
                            =~= collected.deep_view());
                    }
                }
                t = t + 1;
            }
            proof {
                if take < 3 {
                    assert(ls.deep_view().skip(i + 1 + take) =~= Seq::<Seq<char>>::empty());
                }
                assert(collect3(ls.deep_view().skip(i + 1 + take), (3 - take) as nat) =~= Seq::<
                    Seq<char>,
                >::empty());
                assert(collected.deep_view() + Seq::<Seq<char>>::empty()
                    =~= collected.deep_view());
            }
            if collected.len() > 0 {
                let joined = text::join_chars(&collected, "; ");
                return Some(summary::truncate_chars(&joined, 120));
            }
        }
        i = i + 1;
    }
    proof {
        assert(ls.deep_view().skip(ls@.len() as int) =~= Seq::<Seq<char>>::empty());
    }
    None
}

impl SessionData {
    /// A short statement of what the assistant accomplished, drawn from
    /// its messages newest-first: a commit message, else a summary
    /// section, else the line scoring highest on completion keywords
    /// with later messages favored, else the last substantive line, else
    /// the session's file mutation counts. At most 120 characters.
    pub fn extract_work_summary(&self) -> (r: Option<String>)
        ensures
            match r {
                Some(x) => work_summary_spec(self.messages@, self.tool_calls@) == Some(x@),
                None => work_summary_spec(self.messages@, self.tool_calls@) is None,
            },
    {
        let mut am: Vec<Vec<char>> = Vec::new();
        let mut i: usize = 0;
        proof {
            assert(self.messages@.skip(0) =~= self.messages@);
            assert(am.deep_view() =~~= Seq::<Seq<char>>::empty());
            assert(am.deep_view() + assistant_contents(self.messages@) =~= assistant_contents(
                self.messages@,
            ));
        }
        while i < self.messages.len()
            invariant
                i <= self.messages@.len(),
                assistant_contents(self.messages@) == am.deep_view() + assistant_contents(
                    self.messages@.skip(i as int),
                ),
            decreases self.messages@.len() - i,
        {
            proof {
                assert(self.messages@.skip(i as int)[0] == self.messages@[i as int]);
                assert(self.messages@.skip(i as int).drop_first() =~= self.messages@.skip(i + 1));
            }
            let m = &self.messages[i];
            if m.role == Role::Assistant && vstd::string::StrSliceExecFns::unicode_len(
                m.content.as_str(),
            ) > 0 {
                let ghost old_dv = am.deep_view();
                let c = text::chars_of(m.content.as_str());
                let ghost c_view = c@;
                am.push(c);
                proof {
                    assert(am.deep_view() =~~= old_dv + seq![c_view]);
                }
            }
            i = i + 1;
        }
        proof {
            assert(self.messages@.skip(self.messages@.len() as int) =~= Seq::<
                MessageData,
            >::empty());
            assert(am.deep_view() + Seq::<Seq<char>>::empty() =~= am.deep_view());
        }
        let ghost am_spec = assistant_contents(self.messages@);
        if am.len() == 0 {
            return self.infer_work_from_files();
        }
        // newest first: a commit message anywhere in a message
        let mut b: usize = am.len();
        proof {
            assert(am.deep_view().subrange(0, am@.len() as int) =~= am.deep_view());
        }
        while b > 0
            invariant
                b <= am@.len(),
                am.deep_view() == am_spec,
                am_spec == assistant_contents(self.messages@),
                stage_w1(am_spec) == stage_w1(am.deep_view().subrange(0, b as int)),
            decreases b,
        {
            proof {
                assert(am.deep_view().subrange(0, b as int).last() == am@[b - 1]@);
                assert(am.deep_view().subrange(0, b as int).drop_last() =~= am.deep_view()
                    .subrange(0, b - 1));
            }
            if let Some(m) = summary::extract_commit_message_chars(&am[b - 1]) {
                return Some(text::string_from_chars(&summary::truncate_chars(&m, 120)));
            }
            b = b - 1;
        }
        proof {
            assert(am.deep_view().subrange(0, 0) =~= Seq::<Seq<char>>::empty());
        }
        // newest first: a summary section
        let mut b2: usize = am.len();
        proof {
            assert(am.deep_view().subrange(0, am@.len() as int) =~= am.deep_view());
        }
        while b2 > 0
            invariant
                b2 <= am@.len(),
                am.deep_view() == am_spec,
                am_spec == assistant_contents(self.messages@),
                stage_w1(am_spec) is None,
                stage_w2(am_spec) == stage_w2(am.deep_view().subrange(0, b2 as int)),
            decreases b2,
        {
            proof {
                assert(am.deep_view().subrange(0, b2 as int).last() == am@[b2 - 1]@);
                assert(am.deep_view().subrange(0, b2 as int).drop_last() =~= am.deep_view()
                    .subrange(0, b2 - 1));
            }
            let ml = summary::meaningful_lines_chars(&am[b2 - 1]);
            if let Some(x) = stage_w2_lines_exec(&ml) {
                return Some(text::string_from_chars(&x));
            }
            b2 = b2 - 1;
        }
        proof {
            assert(am.deep_view().subrange(0, 0) =~= Seq::<Seq<char>>::empty());
        }
        // keyword scoring across all messages, later messages favored
        let n = am.len();
        let mut have_best = false;
        let mut best_line: Vec<char> = Vec::new();
        let mut best_score: u128 = 0;
        let mut mi: usize = 0;
        let ghost mut cur: Option<(Seq<char>, nat)> = None::<(Seq<char>, nat)>;
        proof {
            assert(am.deep_view().skip(0) =~= am.deep_view());
        }
        while mi < n
            invariant
                mi <= n,
                n == am@.len(),
                am.deep_view() == am_spec,
                am_spec == assistant_contents(self.messages@),
                stage_w1(am_spec) is None,
                stage_w2(am_spec) is None,
                stage_w3_scan(am_spec, 0, n as nat, None) == stage_w3_scan(
                    am.deep_view().skip(mi as int),
                    mi as nat,
                    n as nat,
                    cur,
                ),
                match cur {
                    None => !have_best,
                    Some(p) => have_best && p.0 == best_line@ && p.1 == best_score as nat,
                },
            decreases n - mi,
        {
            proof {
                assert(am.deep_view().skip(mi as int)[0] == am@[mi as int]@);
                assert(am.deep_view().skip(mi as int).drop_first() =~= am.deep_view().skip(
                    mi + 1,
                ));
            }
            let w: u128 = n as u128 + mi as u128 + 1;
            let ls = summary::meaningful_lines_chars(&am[mi]);
            let mut li: usize = 0;
            let ghost cur0 = cur;
            proof {
                assert(ls.deep_view().skip(0) =~= ls.deep_view());
            }
            while li < ls.len()
                invariant
                    li <= ls@.len(),
                    w == n as u128 + mi as u128 + 1,
                    mi < n == am@.len(),
                    ls.deep_view() == summary::meaningful_spec(am@[mi as int]@),
                    best_in_lines(ls.deep_view(), w as nat, cur0) == best_in_lines(
                        ls.deep_view().skip(li as int),
                        w as nat,
                        cur,
                    ),
                    match cur {
                        None => !have_best,
                        Some(p) => have_best && p.0 == best_line@ && p.1 == best_score as nat,
                    },
                decreases ls@.len() - li,
            {
                proof {
                    assert(ls.deep_view().skip(li as int)[0] == ls@[li as int]@);
                    assert(ls.deep_view().skip(li as int).drop_first() =~= ls.deep_view().skip(
                        li + 1,
                    ));
                }
                let line = &ls[li];
                let low = text::lower_chars(line);
                let t = text::trim_chars(line);
                let small = !text::byte_len_gt(&t, 5) || (t.len() > 0 && t[0] == '#');
                if !small {
                    let skip_start = text::starts_with_lit(&low, "let me")
                        || text::starts_with_lit(&low, "i'll") || text::starts_with_lit(
                        &low,
                        "i will",
                    ) || text::starts_with_lit(&low, "now ") || text::starts_with_lit(&low, "here")
                        || text::starts_with_lit(&low, "looking") || text::starts_with_lit(
                        &low,
                        "reading",
                    ) || text::starts_with_lit(&low, "checking");
                    let skip_contains = text::contains_lit(&low, "제가") || text::contains_lit(
                        &low,
                        "이제",
                    ) || text::contains_lit(&low, "확인") || text::contains_lit(&low, "살펴")
                        || text::contains_lit(&low, "읽어") || text::contains_lit(&low, "파악")
                        || text::contains_lit(&low, "분석") || text::contains_lit(
                        &low,
                        "할게요",
                    ) || text::contains_lit(&low, "하겠습니다") || text::contains_lit(
                        &low,
                        "볼게요",
                    ) || text::contains_lit(&low, "탐색") || text::contains_lit(&low, "조사")
                        || text::contains_lit(&low, "핵심 발견") || text::contains_lit(
                        &low,
                        "확인 완료",
                    ) || text::contains_lit(&low, "탐색 완료");
                    if !skip_start && !skip_contains {
                        let k = keyword_score_exec(&low);
                        if k > 0 {
                            proof {
                                assert((k as u128) * w <= 21u128 * w) by (nonlinear_arith)
                                    requires
                                        k <= 21,
                                        w >= 0,
                                ;
                            }
                            let sc: u128 = (k as u128) * w;
                            if !have_best || sc > best_score {
                                best_line = summary::strip_markdown_chars(&t);
                                best_score = sc;
                                have_best = true;
                                proof {
                                    cur = Some((best_line@, sc as nat));
                                }
                            }
                        }
                    }
                }
                li = li + 1;
            }
            proof {
                assert(ls.deep_view().skip(ls@.len() as int) =~= Seq::<Seq<char>>::empty());
            }
            mi = mi + 1;
        }
        proof {
            assert(am.deep_view().skip(n as int) =~= Seq::<Seq<char>>::empty());
        }
        if have_best {
            return Some(text::string_from_chars(&summary::truncate_chars(&best_line, 120)));
        }
        // last substantive line of the last assistant message
        let last = &am[am.len() - 1];
        proof {
            assert(am.deep_view()[am@.len() - 1] == am@[am@.len() - 1]@);
            assert(am_spec.last() == am@[am@.len() - 1]@);
        }
        let ls4 = summary::meaningful_lines_chars(last);
        let mut b4: usize = ls4.len();
        proof {
            assert(ls4.deep_view().subrange(0, ls4@.len() as int) =~= ls4.deep_view());
        }
        while b4 > 0
            invariant
                b4 <= ls4@.len(),
                am_spec == assistant_contents(self.messages@),
                am_spec.len() > 0,
                stage_w1(am_spec) is None,
                stage_w2(am_spec) is None,
                stage_w3(am_spec) is None,
                ls4.deep_view() == summary::meaningful_spec(am_spec.last()),
                stage_w4_lines(summary::meaningful_spec(am_spec.last())) == stage_w4_lines(
                    ls4.deep_view().subrange(0, b4 as int),
                ),
            decreases b4,
        {
            proof {
                assert(ls4.deep_view().subrange(0, b4 as int).last() == ls4@[b4 - 1]@);
                assert(ls4.deep_view().subrange(0, b4 as int).drop_last() =~= ls4.deep_view()
                    .subrange(0, b4 - 1));
            }
            let t = text::trim_chars(&ls4[b4 - 1]);
            if text::byte_len_gt(&t, 10) && !(t.len() > 0 && t[0] == '#') {
                let cleaned = summary::strip_markdown_chars(&t);
                if cleaned.len() > 0 {
                    return Some(text::string_from_chars(&summary::truncate_chars(&cleaned, 120)));
                }
            }
            b4 = b4 - 1;
        }
        proof {
            assert(ls4.deep_view().subrange(0, 0) =~= Seq::<Seq<char>>::empty());
        }
        self.infer_work_from_files()
    }
}

proof fn lemma_stage1_len(ls: Seq<Seq<char>>)
    ensures
        match stage1(ls) {
            Some(x) => x.len() <= 120,
            None => true,
        },
    decreases ls.len(),
{
    if ls.len() > 0 {
        if stage1_line(ls[0]) is Some {
            let t = trim_seq(ls[0]);
            summary::lemma_truncate_spec_len(
                summary::strip_header_prefix_spec(trim_seq(text::drop_leading(t, '#'))),
                120,
            );
        } else {
            lemma_stage1_len(ls.drop_first());
        }
    }
}

proof fn lemma_stage2_len(cands: Seq<Seq<char>>)
    ensures
        match stage2(cands) {
            Some(x) => x.len() <= 120,
            None => true,
        },
    decreases cands.len(),
{
    if cands.len() > 0 {
        if stage2_line(cands[0]) is Some {
            summary::lemma_truncate_spec_len(
                summary::strip_md_spec(summary::first_sentence_spec(cands[0])),
                120,
            );
        } else {
            lemma_stage2_len(cands.drop_first());
        }
    }
}

proof fn lemma_stage3_len(cands: Seq<Seq<char>>, i: int)
    ensures
        match stage3_from(cands, i) {
            Some(x) => x.len() <= 120,
            None => true,
        },
    decreases cands.len() - i,
{
    if i < cands.len() {
        if stage3_line(cands, i) is Some {
            let line = cands[i];
            match borrowed_line(cands, line) {
                Some(_) => {
                    let k = first_eq_idx(cands, line);
                    summary::lemma_truncate_spec_len(
                        summary::strip_md_spec(trim_seq(cands[k as int + 1])),
                        120,
                    );
                },
                None => {
                    summary::lemma_truncate_spec_len(
                        summary::strip_md_spec(summary::first_sentence_spec(line)),
                        120,
                    );
                },
            }
        } else {
            lemma_stage3_len(cands, i + 1);
        }
    }
}

proof fn lemma_infer_summary_len(tcs: Seq<ToolCallData>)
    ensures
        match infer_summary_spec(tcs) {
            Some(x) => x.len() <= 120,
            None => true,
        },
{
    let files = changed_files_spec(tcs);
    let created = files_with_marker(files, '+');
    let modified = files_with_marker(files, '~');
    summary::lemma_truncate_spec_len("Created "@ + join_seq(first_names(created, 3), ", "@), 120);
    summary::lemma_truncate_spec_len(
        "Modified "@ + join_seq(first_names(modified, 3), ", "@),
        120,
    );
}

/// A joined list of at most `n` parts, each at most `m` long, stays
/// within `n` parts and `n` separators.
proof fn lemma_join_bound(parts: Seq<Seq<char>>, sep: Seq<char>, m: nat)
    requires
        forall|i: int| 0 <= i < parts.len() ==> (#[trigger] parts[i]).len() <= m,
    ensures
        join_seq(parts, sep).len() <= parts.len() * (m + sep.len()),
    decreases parts.len(),
{
    if parts.len() > 1 {
        assert(forall|i: int|
            0 <= i < parts.drop_last().len() ==> (#[trigger] parts.drop_last()[i]).len() <= m);
        lemma_join_bound(parts.drop_last(), sep, m);
        let n = parts.len() as int;
        let k = (m + sep.len()) as int;
        assert((n - 1) * k + k == n * k) by (nonlinear_arith);
    }
}

proof fn lemma_infer_work_len(tcs: Seq<ToolCallData>)
    requires
        tcs.len() <= u64::MAX,
    ensures
        match infer_work_spec(tcs) {
            Some(x) => x.len() <= 120,
            None => true,
        },
{
    let c = tcs.filter(|tc: ToolCallData| is_create_call(tc)).len();
    let m = tcs.filter(|tc: ToolCallData| is_modify_call(tc)).len();
    let d = tcs.filter(|tc: ToolCallData| is_delete_call(tc)).len();
    broadcast use vstd::seq_lib::group_filter_ensures;

    assert(c <= tcs.len() && m <= tcs.len() && d <= tcs.len());
    assert(u64::MAX < vstd::arithmetic::power::pow(10, 20)) by {
        vstd::arithmetic::power::lemma_pow1(10);
        reveal_with_fuel(vstd::arithmetic::power::pow, 21);
    }
    text::lemma_dec_rep_len(c, 20);
    text::lemma_dec_rep_len(m, 20);
    text::lemma_dec_rep_len(d, 20);
    if c + m + d > 0 {
        reveal_strlit(" files created");
        reveal_strlit(" files modified");
        reveal_strlit(" files deleted");
        reveal_strlit(", ");
        let parts = (if c > 0 {
            seq![text::dec_rep(c) + " files created"@]
        } else {
            Seq::<Seq<char>>::empty()
        }) + (if m > 0 {
            seq![text::dec_rep(m) + " files modified"@]
        } else {
            Seq::<Seq<char>>::empty()
        }) + (if d > 0 {
            seq![text::dec_rep(d) + " files deleted"@]
        } else {
            Seq::<Seq<char>>::empty()
        });
        assert(parts.len() <= 3);
        assert(forall|i: int| 0 <= i < parts.len() ==> (#[trigger] parts[i]).len() <= 35);
        lemma_join_bound(parts, ", "@, 35);
        assert(parts.len() * (35 + 2) <= 3 * 37) by (nonlinear_arith)
            requires
                parts.len() <= 3,
        ;
    }
}

proof fn lemma_stage_w1_len(am: Seq<Seq<char>>)
    ensures
        match stage_w1(am) {
            Some(x) => x.len() <= 120,
            None => true,
        },
    decreases am.len(),
{
    if am.len() > 0 {
        if summary::commit_message_spec(am.last()) is Some {
            summary::lemma_truncate_spec_len(summary::commit_message_spec(am.last())->0, 120);
        } else {
            lemma_stage_w1_len(am.drop_last());
        }
    }
}

proof fn lemma_stage_w2_lines_len(ls: Seq<Seq<char>>)
    ensures
        match stage_w2_lines(ls) {
            Some(x) => x.len() <= 120,
            None => true,
        },
    decreases ls.len(),
{
    if ls.len() > 0 {
        let low = text::lower_seq(trim_seq(ls[0]));
        if is_summary_header(low) && collect3(ls.drop_first(), 3).len() > 0 {
            summary::lemma_truncate_spec_len(
                join_seq(collect3(ls.drop_first(), 3), "; "@),
                120,
            );
        } else {
            lemma_stage_w2_lines_len(ls.drop_first());
        }
    }
}

proof fn lemma_stage_w2_len(am: Seq<Seq<char>>)
    ensures
        match stage_w2(am) {
            Some(x) => x.len() <= 120,
            None => true,
        },
    decreases am.len(),
{
    if am.len() > 0 {
        if stage_w2_lines(summary::meaningful_spec(am.last())) is Some {
            lemma_stage_w2_lines_len(summary::meaningful_spec(am.last()));
        } else {
            lemma_stage_w2_len(am.drop_last());
        }
    }
}

proof fn lemma_stage_w4_len(ls: Seq<Seq<char>>)
    ensures
        match stage_w4_lines(ls) {
            Some(x) => x.len() <= 120,
            None => true,
        },
    decreases ls.len(),
{
    if ls.len() > 0 {
        let t = trim_seq(ls.last());
        let cleaned = summary::strip_md_spec(t);
        if byte_len_seq(t) > 10 && !(t.len() > 0 && t[0] == '#') && cleaned.len() > 0 {
            summary::lemma_truncate_spec_len(cleaned, 120);
        } else {
            lemma_stage_w4_len(ls.drop_last());
        }
    }
}

/// Neither summary ever exceeds 120 characters: every successful stage
/// routes through the 120-character truncation, and the file-count
/// fallback stays short by construction.
pub proof fn lemma_summaries_bounded(msgs: Seq<MessageData>, tcs: Seq<ToolCallData>)
    requires
        tcs.len() <= u64::MAX,
    ensures
        match request_summary_spec(msgs, tcs) {
            Some(x) => x.len() <= 120,
            None => true,
        },
        match work_summary_spec(msgs, tcs) {
            Some(x) => x.len() <= 120,
            None => true,
        },
{
    match first_user_content(msgs) {
        None => {},
        Some(fm) => {
            lemma_stage1_len(text::lines_seq(fm));
            lemma_stage2_len(candidates(text::lines_seq(fm)));
            lemma_stage3_len(candidates(text::lines_seq(fm)), 0);
            lemma_infer_summary_len(tcs);
        },
    }
    let am = assistant_contents(msgs);
    lemma_infer_work_len(tcs);
    if am.len() > 0 {
        lemma_stage_w1_len(am);
        lemma_stage_w2_len(am);
        match stage_w3_scan(am, 0, am.len(), None) {
            Some(p) => {
                summary::lemma_truncate_spec_len(p.0, 120);
            },
            None => {},
        }
        lemma_stage_w4_len(summary::meaningful_spec(am.last()));
    }
}

} // verus!
