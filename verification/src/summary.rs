//! The rule-based summarization engine: helper passes.
//!
//! Conversation text is markdown-flavored and bilingual; these helpers
//! strip markup, cut strings to a display length without leaving an open
//! code span, pick first sentences, and drop code blocks, tables and
//! comments from a message before any heuristic looks at it.

use vstd::prelude::*;
use crate::text;
use crate::text::{
    byte_len_seq, count_char_seq, drop_leading, first_where, has_sub, last_where, lines_seq,
    lower_seq, occurs_at, replace_seq, trim_seq, trim_start_seq,
};

verus! {

/// An ASCII decimal digit.
pub open spec fn is_ascii_digit_char(c: char) -> bool {
    48 <= c as u32 && c as u32 <= 57
}

/// What `strip_markdown` yields: emphasis markers removed everywhere,
/// then one leading run of heading markers, then one leading list
/// marker, and finally surrounding whitespace.
pub open spec fn strip_md_spec(s: Seq<char>) -> Seq<char> {
    let a = replace_seq(replace_seq(s, "**"@, Seq::<char>::empty()), "__"@, Seq::<char>::empty());
    let at = trim_start_seq(a);
    let b = if at.len() > 0 && at[0] == '#' {
        trim_start_seq(drop_leading(at, '#'))
    } else {
        a
    };
    let c = trim_start_seq(b);
    let d = if occurs_at(c, "- "@, 0) || occurs_at(c, "* "@, 0) {
        c.skip(2)
    } else if c.len() > 0 && is_ascii_digit_char(c[0]) && occurs_at(c.skip(1), ". "@, 0) {
        c.skip(3)
    } else {
        b
    };
    trim_seq(d)
}

/// Strips markdown emphasis, heading and list markers from `v`.
pub fn strip_markdown_chars(v: &Vec<char>) -> (r: Vec<char>)
    ensures
        r@ == strip_md_spec(v@),
{
    proof {
        reveal_strlit("");
        assert(""@ =~= Seq::<char>::empty());
    }
    let a0 = text::replace_lit(v, "**", "");
    let a = text::replace_lit(&a0, "__", "");
    let at = text::trim_start_chars(&a);
    let b = if at.len() > 0 && at[0] == '#' {
        text::trim_start_chars(&text::drop_leading_chars(&at, '#'))
    } else {
        a
    };
    let c = text::trim_start_chars(&b);
    let digit_first = c.len() > 0 && 48 <= c[0] as u32 && c[0] as u32 <= 57;
    let d = if text::starts_with_lit(&c, "- ") || text::starts_with_lit(&c, "* ") {
        proof {
            reveal_strlit("- ");
            reveal_strlit("* ");
            assert(c@.skip(2) =~= c@.subrange(2, c@.len() as int));
        }
        text::slice_range(&c, 2, c.len())
    } else if digit_first {
        let rest = text::slice_range(&c, 1, c.len());
        proof {
            assert(rest@ =~= c@.skip(1));
        }
        if text::starts_with_lit(&rest, ". ") {
            proof {
                reveal_strlit(". ");
                assert(c@.skip(3) =~= c@.subrange(3, c@.len() as int));
            }
            text::slice_range(&c, 3, c.len())
        } else {
            b
        }
    } else {
        b
    };
    text::trim_chars(&d)
}

/// Strips markdown emphasis, heading and list markers.
pub fn strip_markdown(s: &str) -> (r: String)
    ensures
        r@ == strip_md_spec(s@),
{
    let v = text::chars_of(s);
    let r = strip_markdown_chars(&v);
    text::string_from_chars(&r)
}

/// A character that truncation trims from the end of a summary.
pub open spec fn is_trail_punct(c: char) -> bool {
    c == ';' || c == ',' || c == ' '
}

/// `s` without its trailing run of summary punctuation.
pub open spec fn trim_trail_punct(s: Seq<char>) -> Seq<char>
    decreases s.len(),
{
    if s.len() > 0 && is_trail_punct(s.last()) {
        trim_trail_punct(s.drop_last())
    } else {
        s
    }
}

/// What `truncate_str` yields: `s` unchanged when it fits, otherwise the
/// first `max` characters, cut back before an unpaired backtick and
/// stripped of trailing separators.
pub open spec fn truncate_spec(s: Seq<char>, max: nat) -> Seq<char> {
    if s.len() <= max {
        s
    } else {
        let t = s.subrange(0, max as int);
        let t2 = if count_char_seq(t, '`') % 2 == 1 {
            t.subrange(0, last_where(t, |c: char| c == '`'))
        } else {
            t
        };
        trim_trail_punct(t2)
    }
}

proof fn lemma_count_char_add(a: Seq<char>, b: Seq<char>, c: char)
    ensures
        count_char_seq(a + b, c) == count_char_seq(a, c) + count_char_seq(b, c),
    decreases b.len(),
{
    if b.len() == 0 {
        assert(a + b =~= a);
    } else {
        assert((a + b).drop_last() =~= a + b.drop_last());
        lemma_count_char_add(a, b.drop_last(), c);
    }
}

proof fn lemma_count_char_only_first(u: Seq<char>, c: char)
    requires
        u.len() > 0,
        u[0] == c,
        forall|j: int| 0 < j < u.len() ==> u[j] != c,
    ensures
        count_char_seq(u, c) == 1,
    decreases u.len(),
{
    if u.len() == 1 {
        assert(u.drop_last().len() == 0);
        assert(count_char_seq(u.drop_last(), c) == 0);
    } else {
        assert(u.last() != c);
        assert(u.drop_last()[0] == c);
        assert(forall|j: int| 0 < j < u.len() - 1 ==> u.drop_last()[j] == u[j]);
        lemma_count_char_only_first(u.drop_last(), c);
    }
}

proof fn lemma_trim_trail_punct_count(s: Seq<char>, c: char)
    requires
        !is_trail_punct(c),
    ensures
        count_char_seq(trim_trail_punct(s), c) == count_char_seq(s, c),
        trim_trail_punct(s).len() <= s.len(),
    decreases s.len(),
{
    if s.len() > 0 && is_trail_punct(s.last()) {
        lemma_trim_trail_punct_count(s.drop_last(), c);
    }
}

/// A truncated result always carries an even number of backticks: either
/// the cut kept every pair, or the unpaired opener was cut away too.
pub proof fn lemma_truncate_even_backticks(s: Seq<char>, max: nat)
    requires
        s.len() > max,
    ensures
        count_char_seq(truncate_spec(s, max), '`') % 2 == 0,
{
    let t = s.subrange(0, max as int);
    let p = |c: char| c == '`';
    if count_char_seq(t, '`') % 2 == 1 {
        text::lemma_last_where(t, p);
        let lw = last_where(t, p);
        assert(count_char_seq(t, '`') >= 1) by {
            if count_char_seq(t, '`') == 0 {
            }
        }
        assert(lw >= 0) by {
            if lw == -1 {
                lemma_no_match_count_zero(t, '`');
            }
        }
        let t2 = t.subrange(0, lw);
        let suf = t.subrange(lw, t.len() as int);
        assert(t =~= t2 + suf);
        lemma_count_char_add(t2, suf, '`');
        lemma_count_char_only_first(suf, '`');
        lemma_trim_trail_punct_count(t2, '`');
    } else {
        lemma_trim_trail_punct_count(t, '`');
    }
}

proof fn lemma_no_match_count_zero(s: Seq<char>, c: char)
    requires
        forall|j: int| 0 <= j < s.len() ==> s[j] != c,
    ensures
        count_char_seq(s, c) == 0,
    decreases s.len(),
{
    if s.len() > 0 {
        lemma_no_match_count_zero(s.drop_last(), c);
    }
}

/// Cuts `v` to at most `max` characters without leaving an unpaired
/// backtick, trimming trailing separators after the cut.
pub fn truncate_chars(v: &Vec<char>, max: usize) -> (r: Vec<char>)
    ensures
        r@ == truncate_spec(v@, max as nat),
        r@.len() <= max,
        v@.len() > max ==> count_char_seq(r@, '`') % 2 == 0,
{
    if v.len() <= max {
        let mut r: Vec<char> = Vec::new();
        text::push_chars(&mut r, v);
        return r;
    }
    proof {
        lemma_truncate_even_backticks(v@, max as nat);
    }
    let t = text::slice_range(v, 0, max);
    let ticks = text::count_char(&t, '`');
    let t2 = if ticks % 2 == 1 {
        let mut b: usize = t.len();
        while b > 0 && t[b - 1] != '`'
            invariant
                b <= t@.len(),
                forall|j: int| b <= j < t@.len() ==> t@[j] != '`',
            decreases b,
        {
            b = b - 1;
        }
        if b == 0 {
            proof {
                lemma_no_match_count_zero(t@, '`');
            }
            // unreachable: an odd count means at least one backtick
            text::slice_range(&t, 0, 0)
        } else {
            proof {
                text::lemma_last_where_unique(t@, |c: char| c == '`', b - 1);
            }
            text::slice_range(&t, 0, b - 1)
        }
    } else {
        t
    };
    let mut e: usize = t2.len();
    while e > 0 && (t2[e - 1] == ';' || t2[e - 1] == ',' || t2[e - 1] == ' ')
        invariant
            e <= t2@.len(),
            forall|j: int| e <= j < t2@.len() ==> is_trail_punct(t2@[j]),
        decreases e,
    {
        e = e - 1;
    }
    proof {
        lemma_trim_trail_prefix(t2@, e as int);
    }
    let r = text::slice_range(&t2, 0, e);
    proof {
        lemma_trim_trail_punct_count(t2@, '`');
    }
    r
}

proof fn lemma_trim_trail_prefix(s: Seq<char>, i: int)
    requires
        0 <= i <= s.len(),
        forall|j: int| i <= j < s.len() ==> is_trail_punct(s[j]),
        i == 0 || !is_trail_punct(s[i - 1]),
    ensures
        trim_trail_punct(s) =~= s.subrange(0, i),
    decreases s.len() - i,
{
    if i == s.len() {
        assert(s.subrange(0, s.len() as int) =~= s);
    } else {
        lemma_trim_trail_prefix(s.drop_last(), i);
    }
}

/// Cuts a string to at most `max` characters, code-span-safely.
pub fn truncate_str(s: &str, max: usize) -> (r: String)
    ensures
        r@ == truncate_spec(s@, max as nat),
        r@.len() <= max,
        s@.len() > max ==> count_char_seq(r@, '`') % 2 == 0,
{
    let v = text::chars_of(s);
    let r = truncate_chars(&v, max);
    text::string_from_chars(&r)
}

/// Trimming trailing separators never lengthens a string.
pub proof fn lemma_trim_trail_punct_len(s: Seq<char>)
    ensures
        trim_trail_punct(s).len() <= s.len(),
    decreases s.len(),
{
    if s.len() > 0 && is_trail_punct(s.last()) {
        lemma_trim_trail_punct_len(s.drop_last());
    }
}

/// Truncation never exceeds its limit.
pub proof fn lemma_truncate_spec_len(s: Seq<char>, max: nat)
    ensures
        truncate_spec(s, max).len() <= max,
{
    if s.len() > max {
        let t = s.subrange(0, max as int);
        if count_char_seq(t, '`') % 2 == 1 {
            text::lemma_last_where(t, |c: char| c == '`');
            let lw = last_where(t, |c: char| c == '`');
            assert(lw >= 0) by {
                if lw == -1 {
                    lemma_no_match_count_zero(t, '`');
                }
            }
            lemma_trim_trail_punct_len(t.subrange(0, lw));
        } else {
            lemma_trim_trail_punct_len(t);
        }
    }
}

/// A sentence terminator.
pub open spec fn is_term_char(c: char) -> bool {
    c == '.' || c == '!' || c == '?'
}

/// The first sentence of `s`: up to and including the first terminator,
/// or all of `s`, trimmed either way.
pub open spec fn first_sentence_spec(s: Seq<char>) -> Seq<char> {
    let e = first_where(s, |c: char| is_term_char(c));
    if e < s.len() {
        trim_seq(s.subrange(0, e as int + 1))
    } else {
        trim_seq(s)
    }
}

/// The first sentence of `v`, split at `.`, `!` or `?`.
pub fn extract_first_sentence_chars(v: &Vec<char>) -> (r: Vec<char>)
    ensures
        r@ == first_sentence_spec(v@),
{
    let mut i: usize = 0;
    while i < v.len()
        invariant
            i <= v@.len(),
            forall|j: int| 0 <= j < i ==> !is_term_char(v@[j]),
        decreases v@.len() - i,
    {
        let c = v[i];
        if c == '.' || c == '!' || c == '?' {
            proof {
                text::lemma_first_where_unique(v@, |c: char| is_term_char(c), i as int);
            }
            let t = text::slice_range(v, 0, i + 1);
            return text::trim_chars(&t);
        }
        i = i + 1;
    }
    proof {
        text::lemma_first_where_unique(v@, |c: char| is_term_char(c), v@.len() as int);
        assert(v@.subrange(0, v@.len() as int) =~= v@);
    }
    let t = text::slice_range(v, 0, v.len());
    text::trim_chars(&t)
}

/// The first sentence of `s`, split at `.`, `!` or `?`.
pub fn extract_first_sentence(s: &str) -> (r: String)
    ensures
        r@ == first_sentence_spec(s@),
{
    let v = text::chars_of(s);
    let r = extract_first_sentence_chars(&v);
    text::string_from_chars(&r)
}

/// `s` stripped of one known heading label (such as a plan, task, bug or
/// fix label, in either supported language) when the rest is nonempty.
pub open spec fn try_prefix_spec(s: Seq<char>, p: Seq<char>) -> Option<Seq<char>> {
    if occurs_at(s, p, 0) && trim_seq(s.skip(p.len() as int)).len() > 0 {
        Some(trim_seq(s.skip(p.len() as int)))
    } else {
        None
    }
}

/// The heading labels that `strip_header_prefix` removes.
pub open spec fn header_prefixes() -> Seq<Seq<char>> {
    seq![
        "Plan:"@,
        "plan:"@,
        "계획:"@,
        "Task:"@,
        "task:"@,
        "작업:"@,
        "Feature:"@,
        "feature:"@,
        "기능:"@,
        "Bug:"@,
        "bug:"@,
        "버그:"@,
        "Fix:"@,
        "fix:"@,
        "수정:"@,
        "Refactor:"@,
        "refactor:"@,
        "리팩토링:"@,
    ]
}

/// `s` stripped of the first matching label of `ps`, or `s` itself.
pub open spec fn pick_prefix(s: Seq<char>, ps: Seq<Seq<char>>) -> Seq<char>
    decreases ps.len(),
{
    if ps.len() == 0 {
        s
    } else if try_prefix_spec(s, ps[0]) is Some {
        try_prefix_spec(s, ps[0])->0
    } else {
        pick_prefix(s, ps.drop_first())
    }
}

/// What `strip_header_prefix` yields.
pub open spec fn strip_header_prefix_spec(s: Seq<char>) -> Seq<char> {
    pick_prefix(s, header_prefixes())
}

fn try_prefix(v: &Vec<char>, p: &str) -> (r: Option<Vec<char>>)
    ensures
        match r {
            Some(x) => try_prefix_spec(v@, p@) == Some(x@),
            None => try_prefix_spec(v@, p@) is None,
        },
{
    if text::starts_with_lit(v, p) {
        let n = vstd::string::StrSliceExecFns::unicode_len(p);
        let rest = text::slice_range(v, n, v.len());
        proof {
            assert(rest@ =~= v@.skip(p@.len() as int));
        }
        let t = text::trim_chars(&rest);
        if t.len() > 0 {
            return Some(t);
        }
    }
    None
}

/// Strips a known heading label (`Plan:`, `Fix:` and the like, in either
/// supported language) from a heading title, keeping the title itself
/// when the label would leave nothing.
pub fn strip_header_prefix_chars(v: &Vec<char>) -> (r: Vec<char>)
    ensures
        r@ == strip_header_prefix_spec(v@),
{
    let prefixes: Vec<&'static str> = vec![
        "Plan:",
        "plan:",
        "계획:",
        "Task:",
        "task:",
        "작업:",
        "Feature:",
        "feature:",
        "기능:",
        "Bug:",
        "bug:",
        "버그:",
        "Fix:",
        "fix:",
        "수정:",
        "Refactor:",
        "refactor:",
        "리팩토링:",
    ];
    proof {
        assert(prefixes.deep_view() =~~= header_prefixes());
        assert(header_prefixes().skip(0) =~= header_prefixes());
    }
    let mut k: usize = 0;
    while k < prefixes.len()
        invariant
            k <= prefixes@.len(),
            prefixes.deep_view() == header_prefixes(),
            strip_header_prefix_spec(v@) == pick_prefix(v@, header_prefixes().skip(k as int)),
        decreases prefixes@.len() - k,
    {
        proof {
            assert(header_prefixes().skip(k as int)[0] == prefixes@[k as int]@);
            assert(header_prefixes().skip(k as int).drop_first() =~= header_prefixes().skip(
                k + 1,
            ));
        }
        if let Some(r) = try_prefix(v, prefixes[k]) {
            return r;
        }
        k = k + 1;
    }
    let mut r: Vec<char> = Vec::new();
    text::push_chars(&mut r, v);
    r
}

/// Strips a known heading label from a heading title.
pub fn strip_header_prefix(title: &str) -> (r: String)
    ensures
        r@ == strip_header_prefix_spec(title@),
{
    let v = text::chars_of(title);
    let r = strip_header_prefix_chars(&v);
    text::string_from_chars(&r)
}

/// The index of the first occurrence of `c` in `s`, or `s.len()`.
pub open spec fn first_char_idx(s: Seq<char>, c: char) -> nat
    decreases s.len(),
{
    if s.len() == 0 {
        0
    } else if s[0] == c {
        0
    } else {
        1 + first_char_idx(s.drop_first(), c)
    }
}

proof fn lemma_first_char_idx_unique(s: Seq<char>, c: char, i: int)
    requires
        0 <= i <= s.len(),
        forall|j: int| 0 <= j < i ==> s[j] != c,
        i < s.len() ==> s[i] == c,
    ensures
        i == first_char_idx(s, c),
    decreases i,
{
    if s.len() > 0 && s[0] != c {
        assert(i > 0);
        assert(forall|j: int| 0 <= j < i - 1 ==> s.drop_first()[j] == s[j + 1] && s.drop_first()[j] != c);
        lemma_first_char_idx_unique(s.drop_first(), c, i - 1);
    }
}

/// The contents of the first single- or double-quoted span of `s`, after
/// trimming: the text between the opening quote and the next quote of
/// the same kind.
pub open spec fn extract_quoted_spec(s: Seq<char>) -> Option<Seq<char>> {
    let t = trim_seq(s);
    if t.len() == 0 || (t[0] != '"' && t[0] != '\'') {
        None
    } else {
        let rest = t.drop_first();
        let e = first_char_idx(rest, t[0]);
        if e < rest.len() {
            Some(rest.subrange(0, e as int))
        } else {
            None
        }
    }
}

/// The first quoted span of `v`, if `v` begins (after trimming) with a
/// quote that is closed later.
pub fn extract_quoted_chars(v: &Vec<char>) -> (r: Option<Vec<char>>)
    ensures
        match r {
            Some(x) => extract_quoted_spec(v@) == Some(x@),
            None => extract_quoted_spec(v@) is None,
        },
{
    let t = text::trim_chars(v);
    if t.len() == 0 {
        return None;
    }
    let q = t[0];
    if q != '"' && q != '\'' {
        return None;
    }
    let mut i: usize = 1;
    while i < t.len()
        invariant
            1 <= i <= t@.len(),
            t@ == trim_seq(v@),
            t@.len() > 0,
            q == t@[0],
            q == '"' || q == '\'',
            forall|j: int| 1 <= j < i ==> t@[j] != q,
        decreases t@.len() - i,
    {
        if t[i] == q {
            proof {
                assert(forall|j: int|
                    0 <= j < i - 1 ==> t@.drop_first()[j] == t@[j + 1] && t@.drop_first()[j] != q);
                lemma_first_char_idx_unique(t@.drop_first(), t@[0], i - 1);
            }
            let r = text::slice_range(&t, 1, i);
            proof {
                assert(r@ =~= t@.drop_first().subrange(0, i - 1));
            }
            return Some(r);
        }
        i = i + 1;
    }
    proof {
        assert(forall|j: int|
            0 <= j < t@.drop_first().len() ==> t@.drop_first()[j] == t@[j + 1] && t@.drop_first()[j]
                != q);
        lemma_first_char_idx_unique(t@.drop_first(), t@[0], t@.drop_first().len() as int);
    }
    None
}

/// The first quoted span of `s`.
pub fn extract_quoted(s: &str) -> (r: Option<String>)
    ensures
        match r {
            Some(x) => extract_quoted_spec(s@) == Some(x@),
            None => extract_quoted_spec(s@) is None,
        },
{
    let v = text::chars_of(s);
    match extract_quoted_chars(&v) {
        Some(x) => Some(text::string_from_chars(&x)),
        None => None,
    }
}

/// The lines of a message that the heuristics may look at, given whether
/// the scan currently stands inside a fenced code block: fence markers
/// toggle the state, and fenced lines, blank lines, table rows,
/// comment openers and rules are dropped.
pub open spec fn meaningful_acc(ls: Seq<Seq<char>>, in_code: bool) -> Seq<Seq<char>>
    decreases ls.len(),
{
    if ls.len() == 0 {
        Seq::empty()
    } else {
        let t = trim_seq(ls[0]);
        if occurs_at(t, "```"@, 0) {
            meaningful_acc(ls.drop_first(), !in_code)
        } else if in_code {
            meaningful_acc(ls.drop_first(), in_code)
        } else if t.len() == 0 || occurs_at(t, "|"@, 0) || occurs_at(t, "<!--"@, 0) || occurs_at(
            t,
            "---"@,
            0,
        ) {
            meaningful_acc(ls.drop_first(), in_code)
        } else {
            seq![ls[0]] + meaningful_acc(ls.drop_first(), in_code)
        }
    }
}

/// The meaningful lines of a whole message.
pub open spec fn meaningful_spec(s: Seq<char>) -> Seq<Seq<char>> {
    meaningful_acc(lines_seq(s), false)
}

/// The lines of `v` outside code fences, tables and comments.
pub fn meaningful_lines_chars(v: &Vec<char>) -> (r: Vec<Vec<char>>)
    ensures
        r.deep_view() == meaningful_spec(v@),
{
    let ls = text::split_lines(v);
    let mut r: Vec<Vec<char>> = Vec::new();
    let mut in_code = false;
    let mut i: usize = 0;
    proof {
        assert(ls.deep_view().skip(0) =~= ls.deep_view());
        assert(r.deep_view() =~~= Seq::<Seq<char>>::empty());
        assert(r.deep_view() + meaningful_acc(ls.deep_view(), false) =~= meaningful_acc(
            ls.deep_view(),
            false,
        ));
    }
    while i < ls.len()
        invariant
            i <= ls@.len(),
            meaningful_spec(v@) == r.deep_view() + meaningful_acc(
                ls.deep_view().skip(i as int),
                in_code,
            ),
        decreases ls@.len() - i,
    {
        proof {
            assert(ls.deep_view().skip(i as int)[0] == ls@[i as int]@);
            assert(ls.deep_view().skip(i as int).drop_first() =~= ls.deep_view().skip(i + 1));
        }
        let t = text::trim_chars(&ls[i]);
        if text::starts_with_lit(&t, "```") {
            in_code = !in_code;
        } else if in_code {
        } else if t.len() == 0 || text::starts_with_lit(&t, "|") || text::starts_with_lit(
            &t,
            "<!--",
        ) || text::starts_with_lit(&t, "---") {
        } else {
            let ghost old_dv = r.deep_view();
            let line = text::slice_range(&ls[i], 0, ls[i].len());
            proof {
                assert(line@ =~= ls@[i as int]@);
            }
            r.push(line);
            proof {
                assert(r.deep_view() =~~= old_dv + seq![ls@[i as int]@]);
            }
        }
        i = i + 1;
    }
    proof {
        assert(ls.deep_view().skip(ls@.len() as int) =~= Seq::<Seq<char>>::empty());
        assert(r.deep_view() + Seq::<Seq<char>>::empty() =~= r.deep_view());
    }
    r
}

/// The lines of `text` outside code fences, tables and comments.
pub fn filter_meaningful_lines(text: &str) -> (r: Vec<String>)
    ensures
        r.deep_view() == meaningful_spec(text@),
{
    let v = text::chars_of(text);
    let ls = meaningful_lines_chars(&v);
    let mut r: Vec<String> = Vec::new();
    let mut i: usize = 0;
    while i < ls.len()
        invariant
            i <= ls@.len(),
            r@.len() == i,
            forall|j: int| 0 <= j < i ==> r@[j]@ == ls@[j]@,
        decreases ls@.len() - i,
    {
        r.push(text::string_from_chars(&ls[i]));
        i = i + 1;
    }
    proof {
        assert(r.deep_view() =~~= ls.deep_view());
    }
    r
}

/// Whether a lower-cased line begins like a conventional commit subject.
pub open spec fn is_commit_prefix_line(l: Seq<char>) -> bool {
    ||| occurs_at(l, "feat:"@, 0)
    ||| occurs_at(l, "fix:"@, 0)
    ||| occurs_at(l, "chore:"@, 0)
    ||| occurs_at(l, "refactor:"@, 0)
    ||| occurs_at(l, "docs:"@, 0)
    ||| occurs_at(l, "test:"@, 0)
    ||| occurs_at(l, "style:"@, 0)
    ||| occurs_at(l, "perf:"@, 0)
    ||| occurs_at(l, "feat("@, 0)
    ||| occurs_at(l, "fix("@, 0)
    ||| occurs_at(l, "chore("@, 0)
    ||| occurs_at(l, "refactor("@, 0)
    ||| occurs_at(l, "docs("@, 0)
    ||| occurs_at(l, "test("@, 0)
}

/// A commit message drawn from one line's explicit `commit -m` call:
/// the quoted argument, when it is longer than five bytes.
pub open spec fn commit_m_line(line: Seq<char>) -> Option<Seq<char>> {
    let t = trim_seq(line);
    let pos = text::find_sub(t, "commit -m"@);
    if pos == -1 {
        None
    } else {
        let after = trim_start_seq(t.skip(pos + 9));
        match extract_quoted_spec(after) {
            Some(m) => if byte_len_seq(m) > 5 {
                Some(m)
            } else {
                None
            },
            None => None,
        }
    }
}

/// The first line of `ls` whose `commit -m` argument qualifies.
pub open spec fn first_commit_m(ls: Seq<Seq<char>>) -> Option<Seq<char>>
    decreases ls.len(),
{
    if ls.len() == 0 {
        None
    } else if commit_m_line(ls[0]) is Some {
        commit_m_line(ls[0])
    } else {
        first_commit_m(ls.drop_first())
    }
}

/// A conventional-commit subject line taken only when an earlier line
/// mentioned committing: `ctx` says whether the previous nonempty line
/// did.
pub open spec fn commit_ctx_scan(ls: Seq<Seq<char>>, ctx: bool) -> Option<Seq<char>>
    decreases ls.len(),
{
    if ls.len() == 0 {
        None
    } else {
        let t = trim_seq(ls[0]);
        let low = lower_seq(t);
        if has_sub(low, "commit"@) || has_sub(low, "커밋"@) {
            commit_ctx_scan(ls.drop_first(), true)
        } else if ctx && is_commit_prefix_line(low) && byte_len_seq(t) > 10 && byte_len_seq(t)
            < 200 {
            Some(strip_md_spec(t))
        } else {
            commit_ctx_scan(ls.drop_first(), if t.len() > 0 {
                false
            } else {
                ctx
            })
        }
    }
}

/// What `extract_commit_message` yields: an explicit `commit -m` argument
/// anywhere in the text, else a conventional-commit line in commit
/// context.
pub open spec fn commit_message_spec(s: Seq<char>) -> Option<Seq<char>> {
    match first_commit_m(lines_seq(s)) {
        Some(m) => Some(m),
        None => commit_ctx_scan(lines_seq(s), false),
    }
}

fn commit_m_line_exec(line: &Vec<char>) -> (r: Option<Vec<char>>)
    ensures
        match r {
            Some(x) => commit_m_line(line@) == Some(x@),
            None => commit_m_line(line@) is None,
        },
{
    let t = text::trim_chars(line);
    match text::find_lit(&t, "commit -m") {
        None => None,
        Some(pos) => {
            proof {
                text::lemma_find_sub(t@, "commit -m"@);
                reveal_strlit("commit -m");
                assert(occurs_at(t@, "commit -m"@, pos as int));
                assert(pos + 9 <= t@.len());
            }
            let tl = t.len();
            let after0 = text::slice_range(&t, pos + 9, tl);
            proof {
                assert(after0@ =~= t@.skip(pos + 9));
            }
            let after = text::trim_start_chars(&after0);
            match extract_quoted_chars(&after) {
                Some(m) => {
                    if text::byte_len_gt(&m, 5) {
                        Some(m)
                    } else {
                        None
                    }
                },
                None => None,
            }
        },
    }
}

fn is_commit_prefix_exec(l: &Vec<char>) -> (r: bool)
    ensures
        r == is_commit_prefix_line(l@),
{
    text::starts_with_lit(l, "feat:") || text::starts_with_lit(l, "fix:") || text::starts_with_lit(
        l,
        "chore:",
    ) || text::starts_with_lit(l, "refactor:") || text::starts_with_lit(l, "docs:")
        || text::starts_with_lit(l, "test:") || text::starts_with_lit(l, "style:")
        || text::starts_with_lit(l, "perf:") || text::starts_with_lit(l, "feat(")
        || text::starts_with_lit(l, "fix(") || text::starts_with_lit(l, "chore(")
        || text::starts_with_lit(l, "refactor(") || text::starts_with_lit(l, "docs(")
        || text::starts_with_lit(l, "test(")
}

/// The commit message stated in `v`, if the text shows one: an explicit
/// `commit -m "..."` argument, or a conventional-commit line right after
/// a line that mentions committing.
pub fn extract_commit_message_chars(v: &Vec<char>) -> (r: Option<Vec<char>>)
    ensures
        match r {
            Some(x) => commit_message_spec(v@) == Some(x@),
            None => commit_message_spec(v@) is None,
        },
{
    let ls = text::split_lines(v);
    let mut i: usize = 0;
    proof {
        assert(ls.deep_view().skip(0) =~= ls.deep_view());
    }
    while i < ls.len()
        invariant
            i <= ls@.len(),
            ls.deep_view() == lines_seq(v@),
            first_commit_m(lines_seq(v@)) == first_commit_m(ls.deep_view().skip(i as int)),
        decreases ls@.len() - i,
    {
        proof {
            assert(ls.deep_view().skip(i as int)[0] == ls@[i as int]@);
            assert(ls.deep_view().skip(i as int).drop_first() =~= ls.deep_view().skip(i + 1));
        }
        if let Some(m) = commit_m_line_exec(&ls[i]) {
            return Some(m);
        }
        i = i + 1;
    }
    proof {
        assert(ls.deep_view().skip(ls@.len() as int) =~= Seq::<Seq<char>>::empty());
    }
    let mut ctx = false;
    let mut k: usize = 0;
    proof {
        assert(ls.deep_view().skip(0) =~= ls.deep_view());
    }
    while k < ls.len()
        invariant
            k <= ls@.len(),
            ls.deep_view() == lines_seq(v@),
            first_commit_m(lines_seq(v@)) is None,
            commit_ctx_scan(lines_seq(v@), false) == commit_ctx_scan(
                ls.deep_view().skip(k as int),
                ctx,
            ),
        decreases ls@.len() - k,
    {
        proof {
            assert(ls.deep_view().skip(k as int)[0] == ls@[k as int]@);
            assert(ls.deep_view().skip(k as int).drop_first() =~= ls.deep_view().skip(k + 1));
        }
        let t = text::trim_chars(&ls[k]);
        let low = text::lower_chars(&t);
        if text::contains_lit(&low, "commit") || text::contains_lit(&low, "커밋") {
            ctx = true;
        } else if ctx && is_commit_prefix_exec(&low) && text::byte_len_gt(&t, 10) && !text::byte_len_gt(
            &t,
            199,
        ) {
            return Some(strip_markdown_chars(&t));
        } else {
            if t.len() > 0 {
                ctx = false;
            }
        }
        k = k + 1;
    }
    proof {
        assert(ls.deep_view().skip(ls@.len() as int) =~= Seq::<Seq<char>>::empty());
    }
    None
}

/// The commit message stated in `text`, if any.
pub fn extract_commit_message(text: &str) -> (r: Option<String>)
    ensures
        match r {
            Some(x) => commit_message_spec(text@) == Some(x@),
            None => commit_message_spec(text@) is None,
        },
{
    let v = text::chars_of(text);
    match extract_commit_message_chars(&v) {
        Some(x) => Some(text::string_from_chars(&x)),
        None => None,
    }
}

/// Whether a character separates path components.
pub open spec fn is_slash_char(c: char) -> bool {
    c == '/'
}

/// The index of the last slash of `s`, or `-1`.
pub open spec fn last_slash(s: Seq<char>) -> int {
    last_where(s, |c: char| is_slash_char(c))
}

/// The last two components of a path: everything after the
/// second-to-last slash, or the path itself when it has fewer than two.
pub open spec fn shorten_path_spec(s: Seq<char>) -> Seq<char> {
    let p1 = last_slash(s);
    if p1 == -1 {
        s
    } else {
        let p2 = last_slash(s.subrange(0, p1));
        if p2 == -1 {
            s
        } else {
            s.subrange(p2 + 1, s.len() as int)
        }
    }
}

/// The last component of a path: everything after its last slash.
pub open spec fn short_path_spec(s: Seq<char>) -> Seq<char> {
    let p1 = last_slash(s);
    if p1 == -1 {
        s
    } else {
        s.subrange(p1 + 1, s.len() as int)
    }
}

fn find_last_slash(v: &Vec<char>) -> (r: Option<usize>)
    ensures
        match r {
            Some(i) => i == last_slash(v@) && i < v@.len(),
            None => last_slash(v@) == -1,
        },
{
    proof {
        text::lemma_last_where(v@, |c: char| is_slash_char(c));
    }
    let mut b: usize = v.len();
    while b > 0
        invariant
            b <= v@.len(),
            forall|j: int| b <= j < v@.len() ==> v@[j] != '/',
        decreases b,
    {
        b = b - 1;
        if v[b] == '/' {
            proof {
                text::lemma_last_where_unique(v@, |c: char| is_slash_char(c), b as int);
            }
            return Some(b);
        }
    }
    proof {
        if last_slash(v@) >= 0 {
            assert(is_slash_char(v@[last_slash(v@)]));
        }
    }
    None
}

/// Shortens a file path to its last two components.
pub fn shorten_path_chars(v: &Vec<char>) -> (r: Vec<char>)
    ensures
        r@ == shorten_path_spec(v@),
{
    match find_last_slash(v) {
        None => text::slice_range(v, 0, v.len()),
        Some(p1) => {
            let head = text::slice_range(v, 0, p1);
            proof {
                assert(head@ =~= v@.subrange(0, p1 as int));
            }
            let n = v.len();
            match find_last_slash(&head) {
                None => text::slice_range(v, 0, n),
                Some(p2) => text::slice_range(v, p2 + 1, n),
            }
        },
    }
}

/// Shortens a file path to its last two components.
pub fn shorten_path(path: &str) -> (r: String)
    ensures
        r@ == shorten_path_spec(path@),
{
    let v = text::chars_of(path);
    let r = shorten_path_chars(&v);
    text::string_from_chars(&r)
}

/// The file name at the end of a path.
pub fn short_path_chars(v: &Vec<char>) -> (r: Vec<char>)
    ensures
        r@ == short_path_spec(v@),
{
    let n = v.len();
    match find_last_slash(v) {
        None => text::slice_range(v, 0, n),
        Some(p1) => text::slice_range(v, p1 + 1, n),
    }
}

/// The file name at the end of a path.
pub fn short_path(path: &str) -> (r: String)
    ensures
        r@ == short_path_spec(path@),
{
    let v = text::chars_of(path);
    let r = short_path_chars(&v);
    text::string_from_chars(&r)
}

} // verus!
