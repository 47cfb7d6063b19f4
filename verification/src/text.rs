//! Character-level text utilities.
//!
//! The engine manipulates conversation text as `Vec<char>`, whose view is
//! the same `Seq<char>` as the view of the `String` it came from, so every
//! transformation is stated and proved over one mathematical model.
//! Whitespace and case folding are defined over ASCII; other characters
//! pass through unchanged.

use vstd::prelude::*;
use vstd::string::StrSliceExecFns;

verus! {

/// ASCII lower-casing of one character.
pub open spec fn lower_char(c: char) -> char {
    if 65 <= c as u32 && c as u32 <= 90 {
        (((c as u32) + 32) as u8) as char
    } else {
        c
    }
}

/// ASCII lower-casing of a character sequence.
pub open spec fn lower_seq(s: Seq<char>) -> Seq<char> {
    s.map_values(|c: char| lower_char(c))
}

/// The whitespace characters that trimming removes.
pub open spec fn is_space_char(c: char) -> bool {
    c == ' ' || c == '\t' || c == '\r' || c == '\n'
}

/// `s` without leading whitespace.
pub open spec fn trim_start_seq(s: Seq<char>) -> Seq<char>
    decreases s.len(),
{
    if s.len() > 0 && is_space_char(s[0]) {
        trim_start_seq(s.drop_first())
    } else {
        s
    }
}

/// `s` without trailing whitespace.
pub open spec fn trim_end_seq(s: Seq<char>) -> Seq<char>
    decreases s.len(),
{
    if s.len() > 0 && is_space_char(s.last()) {
        trim_end_seq(s.drop_last())
    } else {
        s
    }
}

/// `s` without leading or trailing whitespace.
pub open spec fn trim_seq(s: Seq<char>) -> Seq<char> {
    trim_end_seq(trim_start_seq(s))
}

/// How often `c` occurs in `s`.
pub open spec fn count_char_seq(s: Seq<char>, c: char) -> nat
    decreases s.len(),
{
    if s.len() == 0 {
        0
    } else {
        count_char_seq(s.drop_last(), c) + if s.last() == c {
            1nat
        } else {
            0nat
        }
    }
}

/// Whether `p` occurs in `s` starting at position `i`.
pub open spec fn occurs_at(s: Seq<char>, p: Seq<char>, i: int) -> bool {
    0 <= i && i + p.len() <= s.len() && s.subrange(i, i + p.len()) == p
}

/// Whether `p` occurs anywhere in `s`.
pub open spec fn has_sub(s: Seq<char>, p: Seq<char>) -> bool {
    exists|i: int| occurs_at(s, p, i)
}

/// ASCII lower-casing, as an executable function.
pub fn lower_chars(v: &Vec<char>) -> (r: Vec<char>)
    ensures
        r@ == lower_seq(v@),
{
    let mut r: Vec<char> = Vec::new();
    let mut i: usize = 0;
    while i < v.len()
        invariant
            i <= v@.len(),
            r@ == lower_seq(v@.subrange(0, i as int)),
        decreases v@.len() - i,
    {
        let c = v[i];
        let u = c as u32;
        if 65 <= u && u <= 90 {
            r.push(((u + 32) as u8) as char);
        } else {
            r.push(c);
        }
        i = i + 1;
        proof {
            assert(r@ =~= lower_seq(v@.subrange(0, i as int)));
        }
    }
    proof {
        assert(r@ =~= lower_seq(v@));
    }
    r
}

/// Executable whitespace test.
pub fn is_space(c: char) -> (r: bool)
    ensures
        r == is_space_char(c),
{
    c == ' ' || c == '\t' || c == '\r' || c == '\n'
}

proof fn lemma_trim_start_is_suffix(s: Seq<char>, i: int)
    requires
        0 <= i <= s.len(),
        forall|j: int| 0 <= j < i ==> is_space_char(s[j]),
        i == s.len() || !is_space_char(s[i]),
    ensures
        trim_start_seq(s) =~= s.subrange(i, s.len() as int),
    decreases i,
{
    if i == 0 {
        assert(s.subrange(0, s.len() as int) =~= s);
    } else {
        assert(is_space_char(s[0]));
        lemma_trim_start_is_suffix(s.drop_first(), i - 1);
        assert(s.drop_first().subrange(i - 1, s.drop_first().len() as int) =~= s.subrange(
            i,
            s.len() as int,
        ));
    }
}

proof fn lemma_trim_end_is_prefix(s: Seq<char>, i: int)
    requires
        0 <= i <= s.len(),
        forall|j: int| i <= j < s.len() ==> is_space_char(s[j]),
        i == 0 || !is_space_char(s[i - 1]),
    ensures
        trim_end_seq(s) =~= s.subrange(0, i),
    decreases s.len() - i,
{
    if i == s.len() {
        assert(s.subrange(0, s.len() as int) =~= s);
    } else {
        assert(is_space_char(s.last()));
        lemma_trim_end_is_prefix(s.drop_last(), i);
    }
}

/// `v` without leading or trailing whitespace.
pub fn trim_chars(v: &Vec<char>) -> (r: Vec<char>)
    ensures
        r@ == trim_seq(v@),
{
    let n = v.len();
    let mut a: usize = 0;
    while a < n && is_space(v[a])
        invariant
            a <= n,
            n == v@.len(),
            forall|j: int| 0 <= j < a ==> is_space_char(v@[j]),
        decreases n - a,
    {
        a = a + 1;
    }
    proof {
        lemma_trim_start_is_suffix(v@, a as int);
    }
    let mut b: usize = n;
    while b > a && is_space(v[b - 1])
        invariant
            a <= b <= n,
            n == v@.len(),
            forall|j: int| b <= j < n ==> is_space_char(v@[j]),
        decreases b,
    {
        b = b - 1;
    }
    proof {
        lemma_trim_end_is_prefix(v@.subrange(a as int, n as int), b - a);
        assert(v@.subrange(a as int, n as int).subrange(0, b - a) =~= v@.subrange(
            a as int,
            b as int,
        ));
    }
    let mut r: Vec<char> = Vec::new();
    let mut i: usize = a;
    while i < b
        invariant
            a <= i <= b <= n,
            n == v@.len(),
            r@ == v@.subrange(a as int, i as int),
        decreases b - i,
    {
        r.push(v[i]);
        i = i + 1;
        proof {
            assert(r@ =~= v@.subrange(a as int, i as int));
        }
    }
    r
}

/// How often `c` occurs in `v`.
pub fn count_char(v: &Vec<char>, c: char) -> (r: usize)
    ensures
        r == count_char_seq(v@, c),
{
    let mut r: usize = 0;
    let mut i: usize = 0;
    while i < v.len()
        invariant
            i <= v@.len(),
            r == count_char_seq(v@.subrange(0, i as int), c),
            r <= i,
        decreases v@.len() - i,
    {
        proof {
            assert(v@.subrange(0, i + 1).drop_last() =~= v@.subrange(0, i as int));
        }
        if v[i] == c {
            r = r + 1;
        }
        i = i + 1;
    }
    proof {
        assert(v@.subrange(0, v@.len() as int) =~= v@);
    }
    r
}

/// Whether the characters of `v` equal the characters of the literal `p`.
pub fn eq_lit(v: &Vec<char>, p: &str) -> (r: bool)
    ensures
        r == (v@ == p@),
{
    let n = p.unicode_len();
    if v.len() != n {
        return false;
    }
    let mut i: usize = 0;
    while i < n
        invariant
            i <= n,
            n == p@.len(),
            v@.len() == n,
            forall|j: int| 0 <= j < i ==> v@[j] == p@[j],
        decreases n - i,
    {
        if v[i] != p.get_char(i) {
            return false;
        }
        i = i + 1;
    }
    proof {
        assert(v@ =~= p@);
    }
    true
}

/// Whether `v` begins with the literal `p`.
pub fn starts_with_lit(v: &Vec<char>, p: &str) -> (r: bool)
    ensures
        r == occurs_at(v@, p@, 0),
{
    let n = p.unicode_len();
    if v.len() < n {
        return false;
    }
    let mut i: usize = 0;
    while i < n
        invariant
            i <= n,
            n == p@.len(),
            v@.len() >= n,
            forall|j: int| 0 <= j < i ==> v@[j] == p@[j],
        decreases n - i,
    {
        if v[i] != p.get_char(i) {
            proof {
                assert(v@.subrange(0, n as int)[i as int] != p@[i as int]);
            }
            return false;
        }
        i = i + 1;
    }
    proof {
        assert(v@.subrange(0, n as int) =~= p@);
    }
    true
}

/// Whether `v` ends with the literal `p`.
pub fn ends_with_lit(v: &Vec<char>, p: &str) -> (r: bool)
    ensures
        r == occurs_at(v@, p@, v@.len() - p@.len()),
{
    let n = p.unicode_len();
    if v.len() < n {
        return false;
    }
    let base = v.len() - n;
    let mut i: usize = 0;
    while i < n
        invariant
            i <= n,
            n == p@.len(),
            base == v@.len() - n,
            v@.len() <= usize::MAX,
            forall|j: int| 0 <= j < i ==> v@[base + j] == p@[j],
        decreases n - i,
    {
        if v[base + i] != p.get_char(i) {
            proof {
                assert(v@.subrange(base as int, v@.len() as int)[i as int] != p@[i as int]);
            }
            return false;
        }
        i = i + 1;
    }
    proof {
        assert(v@.subrange(base as int, v@.len() as int) =~= p@);
    }
    true
}

/// Whether the literal `p` occurs anywhere in `v`.
pub fn contains_lit(v: &Vec<char>, p: &str) -> (r: bool)
    ensures
        r == has_sub(v@, p@),
{
    let n = p.unicode_len();
    if n > v.len() {
        proof {
            assert(forall|i: int| !occurs_at(v@, p@, i));
        }
        return false;
    }
    if n == 0 {
        proof {
            assert(v@.subrange(0, 0) =~= p@);
            assert(occurs_at(v@, p@, 0));
        }
        return true;
    }
    let last = v.len() - n;
    let mut i: usize = 0;
    while i <= last
        invariant
            i <= last + 1,
            last == v@.len() - n,
            0 < n == p@.len(),
            n <= v@.len(),
            v@.len() <= usize::MAX,
            forall|k: int| 0 <= k < i ==> !occurs_at(v@, p@, k),
        decreases last + 1 - i,
    {
        let mut j: usize = 0;
        let mut ok = true;
        while j < n
            invariant
                j <= n,
                i <= last,
                last == v@.len() - n,
                0 < n == p@.len(),
                n <= v@.len(),
                v@.len() <= usize::MAX,
                ok ==> forall|t: int| 0 <= t < j ==> v@[i + t] == p@[t],
                !ok ==> !occurs_at(v@, p@, i as int),
            decreases n - j,
        {
            if ok && v[i + j] != p.get_char(j) {
                proof {
                    if occurs_at(v@, p@, i as int) {
                        assert(v@.subrange(i as int, i + p@.len())[j as int] == p@[j as int]);
                    }
                }
                ok = false;
            }
            j = j + 1;
        }
        if ok {
            proof {
                assert(v@.subrange(i as int, i + p@.len()) =~= p@);
                assert(occurs_at(v@, p@, i as int));
            }
            return true;
        }
        i = i + 1;
    }
    proof {
        assert(forall|k: int| occurs_at(v@, p@, k) ==> 0 <= k <= last);
    }
    false
}

/// A copy of `v[a..b]`.
pub fn slice_range(v: &Vec<char>, a: usize, b: usize) -> (r: Vec<char>)
    requires
        a <= b <= v@.len(),
    ensures
        r@ == v@.subrange(a as int, b as int),
{
    let mut r: Vec<char> = Vec::new();
    let mut i: usize = a;
    while i < b
        invariant
            a <= i <= b <= v@.len(),
            r@ == v@.subrange(a as int, i as int),
        decreases b - i,
    {
        r.push(v[i]);
        i = i + 1;
        proof {
            assert(r@ =~= v@.subrange(a as int, i as int));
        }
    }
    r
}

/// Appends the characters of the literal `p` to `dst`.
pub fn push_lit(dst: &mut Vec<char>, p: &str)
    ensures
        final(dst)@ == old(dst)@ + p@,
{
    let n = p.unicode_len();
    let mut i: usize = 0;
    while i < n
        invariant
            i <= n,
            n == p@.len(),
            dst@ == old(dst)@ + p@.subrange(0, i as int),
        decreases n - i,
    {
        dst.push(p.get_char(i));
        i = i + 1;
        proof {
            assert(dst@ =~= old(dst)@ + p@.subrange(0, i as int));
        }
    }
    proof {
        assert(dst@ =~= old(dst)@ + p@);
    }
}

/// Appends the characters of `src` to `dst`.
pub fn push_chars(dst: &mut Vec<char>, src: &Vec<char>)
    ensures
        final(dst)@ == old(dst)@ + src@,
{
    let mut i: usize = 0;
    while i < src.len()
        invariant
            i <= src@.len(),
            dst@ == old(dst)@ + src@.subrange(0, i as int),
        decreases src@.len() - i,
    {
        dst.push(src[i]);
        i = i + 1;
        proof {
            assert(dst@ =~= old(dst)@ + src@.subrange(0, i as int));
        }
    }
    proof {
        assert(dst@ =~= old(dst)@ + src@);
    }
}

/// The characters of a string, in order.
pub fn chars_of(s: &str) -> (v: Vec<char>)
    ensures
        v@ == s@,
{
    let n = s.unicode_len();
    let mut v: Vec<char> = Vec::new();
    let mut i: usize = 0;
    while i < n
        invariant
            i <= n,
            n == s@.len(),
            v@ == s@.subrange(0, i as int),
        decreases n - i,
    {
        v.push(s.get_char(i));
        i = i + 1;
        proof {
            assert(v@ =~= s@.subrange(0, i as int));
        }
    }
    proof {
        assert(v@ =~= s@);
    }
    v
}

/// The index of the first character of `s` satisfying `p`, or `s.len()`
/// if there is none.
pub open spec fn first_where(s: Seq<char>, p: spec_fn(char) -> bool) -> nat
    decreases s.len(),
{
    if s.len() == 0 {
        0
    } else if p(s[0]) {
        0
    } else {
        1 + first_where(s.drop_first(), p)
    }
}

/// What `first_where` returns: the first position satisfying `p`.
pub proof fn lemma_first_where(s: Seq<char>, p: spec_fn(char) -> bool)
    ensures
        first_where(s, p) <= s.len(),
        forall|j: int| 0 <= j < first_where(s, p) ==> !p(s[j]),
        first_where(s, p) < s.len() ==> p(s[first_where(s, p) as int]),
    decreases s.len(),
{
    if s.len() > 0 && !p(s[0]) {
        lemma_first_where(s.drop_first(), p);
        assert forall|j: int| 1 <= j < first_where(s, p) implies !p(s[j]) by {
            assert(s.drop_first()[j - 1] == s[j]);
            assert(!p(s.drop_first()[j - 1]));
        }
    }
}

/// Any position with the first-match property is `first_where`.
pub proof fn lemma_first_where_unique(s: Seq<char>, p: spec_fn(char) -> bool, i: int)
    requires
        0 <= i <= s.len(),
        forall|j: int| 0 <= j < i ==> !p(s[j]),
        i < s.len() ==> p(s[i]),
    ensures
        i == first_where(s, p),
{
    lemma_first_where(s, p);
    let f = first_where(s, p) as int;
    if i < f {
        assert(!p(s[i]));
    } else if f < i {
        assert(!p(s[f]));
    }
}

/// A line with a trailing carriage return removed.
pub open spec fn drop_cr(s: Seq<char>) -> Seq<char> {
    if s.len() > 0 && s.last() == '\r' {
        s.drop_last()
    } else {
        s
    }
}

/// The lines of `s` after `cur` has already been read from the current
/// line: lines end at a newline, which eats a trailing carriage return,
/// and a final unterminated line counts only if it is nonempty.
pub open spec fn lines_acc(s: Seq<char>, cur: Seq<char>) -> Seq<Seq<char>>
    decreases s.len(),
{
    if s.len() == 0 {
        if cur.len() == 0 {
            Seq::empty()
        } else {
            seq![cur]
        }
    } else if s[0] == '\n' {
        seq![drop_cr(cur)] + lines_acc(s.drop_first(), Seq::empty())
    } else {
        lines_acc(s.drop_first(), cur.push(s[0]))
    }
}

/// The lines of `s`, as `str::lines` yields them.
pub open spec fn lines_seq(s: Seq<char>) -> Seq<Seq<char>> {
    lines_acc(s, Seq::empty())
}

/// Splits `v` into its lines.
pub fn split_lines(v: &Vec<char>) -> (r: Vec<Vec<char>>)
    ensures
        r.deep_view() == lines_seq(v@),
{
    let mut r: Vec<Vec<char>> = Vec::new();
    let mut cur: Vec<char> = Vec::new();
    let mut i: usize = 0;
    proof {
        assert(r.deep_view() =~~= Seq::<Seq<char>>::empty());
        assert(v@.skip(0) =~= v@);
    }
    while i < v.len()
        invariant
            i <= v@.len(),
            lines_seq(v@) == r.deep_view() + lines_acc(v@.skip(i as int), cur@),
        decreases v@.len() - i,
    {
        let c = v[i];
        proof {
            assert(v@.skip(i as int)[0] == c);
            assert(v@.skip(i as int).drop_first() =~= v@.skip(i + 1));
        }
        if c == '\n' {
            if cur.len() > 0 && cur[cur.len() - 1] == '\r' {
                cur.pop();
            }
            let ghost old_dv = r.deep_view();
            let ghost cur_v = cur@;
            r.push(cur);
            cur = Vec::new();
            proof {
                assert(r.deep_view() =~~= old_dv + seq![cur_v]);
            }
        } else {
            cur.push(c);
        }
        i = i + 1;
    }
    proof {
        assert(v@.skip(v@.len() as int) =~= Seq::<char>::empty());
    }
    if cur.len() > 0 {
        let ghost old_dv = r.deep_view();
        let ghost cur_v = cur@;
        r.push(cur);
        proof {
            assert(r.deep_view() =~~= old_dv + seq![cur_v]);
        }
    }
    r
}

/// The decimal digit character for `d`.
pub open spec fn digit_char(d: nat) -> char {
    ((48 + d) as u8) as char
}

/// The decimal representation of `n`.
pub open spec fn dec_rep(n: nat) -> Seq<char>
    decreases n,
{
    if n < 10 {
        seq![digit_char(n)]
    } else {
        dec_rep(n / 10).push(digit_char(n % 10))
    }
}

/// The decimal representation never exceeds `k` digits below `10^k`.
pub proof fn lemma_dec_rep_len(n: nat, k: nat)
    requires
        1 <= k,
        n < vstd::arithmetic::power::pow(10, k),
    ensures
        dec_rep(n).len() <= k,
    decreases n,
{
    if n >= 10 {
        assert(vstd::arithmetic::power::pow(10, k) == 10 * vstd::arithmetic::power::pow(
            10,
            (k - 1) as nat,
        )) by {
            reveal(vstd::arithmetic::power::pow);
        }
        assert(k >= 2) by {
            if k == 1 {
                vstd::arithmetic::power::lemma_pow1(10);
            }
        }
        lemma_dec_rep_len(n / 10, (k - 1) as nat);
    }
}

/// `n` rendered in decimal; at most 20 characters.
pub fn u64_to_dec(n: u64) -> (r: Vec<char>)
    ensures
        r@ == dec_rep(n as nat),
        r@.len() <= 20,
    decreases n,
{
    proof {
        assert(u64::MAX < vstd::arithmetic::power::pow(10, 20)) by {
            vstd::arithmetic::power::lemma_pow1(10);
            reveal_with_fuel(vstd::arithmetic::power::pow, 21);
        }
        lemma_dec_rep_len(n as nat, 20);
    }
    if n < 10 {
        let mut r: Vec<char> = Vec::new();
        r.push(((48 + n) as u8) as char);
        proof {
            assert(r@ =~= dec_rep(n as nat));
        }
        r
    } else {
        let mut r = u64_to_dec(n / 10);
        r.push(((48 + n % 10) as u8) as char);
        r
    }
}

/// The parts joined with `sep` between consecutive parts.
pub open spec fn join_seq(parts: Seq<Seq<char>>, sep: Seq<char>) -> Seq<char>
    decreases parts.len(),
{
    if parts.len() == 0 {
        Seq::empty()
    } else if parts.len() == 1 {
        parts[0]
    } else {
        join_seq(parts.drop_last(), sep) + sep + parts.last()
    }
}

/// Joins the parts with the literal separator `sep`.
pub fn join_chars(parts: &Vec<Vec<char>>, sep: &str) -> (r: Vec<char>)
    ensures
        r@ == join_seq(parts.deep_view(), sep@),
{
    let mut r: Vec<char> = Vec::new();
    let mut i: usize = 0;
    while i < parts.len()
        invariant
            i <= parts@.len(),
            r@ == join_seq(parts.deep_view().subrange(0, i as int), sep@),
        decreases parts@.len() - i,
    {
        if i > 0 {
            push_lit(&mut r, sep);
        }
        push_chars(&mut r, &parts[i]);
        i = i + 1;
        proof {
            assert(parts.deep_view().subrange(0, i as int).drop_last() =~= parts.deep_view()
                .subrange(0, i - 1));
            assert(parts.deep_view().subrange(0, i as int).last() == parts@[i - 1]@);
        }
    }
    proof {
        assert(parts.deep_view().subrange(0, parts.deep_view().len() as int) =~= parts.deep_view());
    }
    r
}

/// The UTF-8 encoded length of one character.
pub open spec fn utf8_len_char(c: char) -> nat {
    if (c as u32) < 0x80 {
        1
    } else if (c as u32) < 0x800 {
        2
    } else if (c as u32) < 0x10000 {
        3
    } else {
        4
    }
}

/// The UTF-8 encoded length of a character sequence.
pub open spec fn byte_len_seq(s: Seq<char>) -> nat
    decreases s.len(),
{
    if s.len() == 0 {
        0
    } else {
        byte_len_seq(s.drop_last()) + utf8_len_char(s.last())
    }
}

/// Encoded length adds over concatenation.
pub proof fn lemma_byte_len_add(a: Seq<char>, b: Seq<char>)
    ensures
        byte_len_seq(a + b) == byte_len_seq(a) + byte_len_seq(b),
    decreases b.len(),
{
    if b.len() == 0 {
        assert(a + b =~= a);
    } else {
        assert((a + b).drop_last() =~= a + b.drop_last());
        lemma_byte_len_add(a, b.drop_last());
    }
}

/// Whether the UTF-8 encoded length of `v` exceeds `k`.
pub fn byte_len_gt(v: &Vec<char>, k: usize) -> (r: bool)
    ensures
        r == (byte_len_seq(v@) > k),
{
    let mut r: usize = 0;
    let mut i: usize = 0;
    while i < v.len()
        invariant
            i <= v@.len(),
            r == byte_len_seq(v@.subrange(0, i as int)),
            r <= k,
        decreases v@.len() - i,
    {
        proof {
            assert(v@.subrange(0, i + 1).drop_last() =~= v@.subrange(0, i as int));
        }
        let u = v[i] as u32;
        let w: usize = if u < 0x80 {
            1
        } else if u < 0x800 {
            2
        } else if u < 0x10000 {
            3
        } else {
            4
        };
        if w > k - r {
            proof {
                assert(v@.subrange(0, i + 1) + v@.skip(i + 1) =~= v@);
                lemma_byte_len_add(v@.subrange(0, i + 1), v@.skip(i + 1));
                lemma_byte_len_nonneg(v@.skip(i + 1));
            }
            return true;
        }
        r = r + w;
        i = i + 1;
    }
    proof {
        assert(v@.subrange(0, v@.len() as int) =~= v@);
    }
    false
}

proof fn lemma_byte_len_nonneg(s: Seq<char>)
    ensures
        byte_len_seq(s) >= s.len(),
    decreases s.len(),
{
    if s.len() > 0 {
        lemma_byte_len_nonneg(s.drop_last());
    }
}

/// Whether the literal `p` occurs in `v` at position `i`.
pub fn occurs_at_idx(v: &Vec<char>, p: &str, i: usize) -> (r: bool)
    ensures
        r == occurs_at(v@, p@, i as int),
{
    let n = p.unicode_len();
    if i > v.len() || n > v.len() - i {
        return false;
    }
    let mut j: usize = 0;
    while j < n
        invariant
            j <= n,
            n == p@.len(),
            i + n <= v@.len(),
            v@.len() <= usize::MAX,
            forall|t: int| 0 <= t < j ==> v@[i + t] == p@[t],
        decreases n - j,
    {
        if v[i + j] != p.get_char(j) {
            proof {
                if occurs_at(v@, p@, i as int) {
                    assert(v@.subrange(i as int, i + p@.len())[j as int] == p@[j as int]);
                }
            }
            return false;
        }
        j = j + 1;
    }
    proof {
        assert(v@.subrange(i as int, i + p@.len()) =~= p@);
    }
    true
}

/// The position of the first occurrence of `p` in `s`, or `-1` if there
/// is none.
pub open spec fn find_sub(s: Seq<char>, p: Seq<char>) -> int
    decreases s.len(),
{
    if occurs_at(s, p, 0) {
        0
    } else if s.len() == 0 {
        -1
    } else {
        let r = find_sub(s.drop_first(), p);
        if r == -1 {
            -1
        } else {
            1 + r
        }
    }
}

/// What `find_sub` returns: the first occurrence, or `-1`.
pub proof fn lemma_find_sub(s: Seq<char>, p: Seq<char>)
    ensures
        find_sub(s, p) == -1 ==> !has_sub(s, p),
        find_sub(s, p) != -1 ==> {
            &&& occurs_at(s, p, find_sub(s, p))
            &&& forall|j: int| 0 <= j < find_sub(s, p) ==> !occurs_at(s, p, j)
        },
    decreases s.len(),
{
    if !occurs_at(s, p, 0) && s.len() > 0 {
        lemma_find_sub(s.drop_first(), p);
        assert forall|i: int| 1 <= i && occurs_at(s, p, i) implies occurs_at(
            s.drop_first(),
            p,
            i - 1,
        ) by {
            assert(s.drop_first().subrange(i - 1, i - 1 + p.len() as int) =~= s.subrange(
                i,
                i + p.len() as int,
            ));
        }
        assert forall|i: int| 0 <= i && occurs_at(s.drop_first(), p, i) implies occurs_at(
            s,
            p,
            i + 1,
        ) by {
            assert(s.subrange(i + 1, i + 1 + p.len() as int) =~= s.drop_first().subrange(
                i,
                i + p.len() as int,
            ));
        }
        if find_sub(s.drop_first(), p) == -1 {
            assert forall|i: int| true implies !occurs_at(s, p, i) by {
                if 1 <= i {
                    assert(!occurs_at(s.drop_first(), p, i - 1));
                }
            }
        }
    }
}

/// The position of the first occurrence of the literal `p` in `v`, if any.
pub fn find_lit(v: &Vec<char>, p: &str) -> (r: Option<usize>)
    ensures
        match r {
            Some(i) => i == find_sub(v@, p@),
            None => find_sub(v@, p@) == -1,
        },
{
    proof {
        lemma_find_sub(v@, p@);
    }
    if p.unicode_len() == 0 {
        proof {
            assert(v@.subrange(0, 0) =~= p@);
            assert(occurs_at(v@, p@, 0));
            lemma_find_sub_unique(v@, p@, 0);
        }
        return Some(0);
    }
    let mut i: usize = 0;
    while i < v.len()
        invariant
            i <= v@.len(),
            p@.len() > 0,
            forall|k: int| 0 <= k < i ==> !occurs_at(v@, p@, k),
        decreases v@.len() - i,
    {
        if occurs_at_idx(v, p, i) {
            proof {
                lemma_find_sub_unique(v@, p@, i as int);
            }
            return Some(i);
        }
        i = i + 1;
    }
    proof {
        assert(forall|k: int| occurs_at(v@, p@, k) ==> 0 <= k < v@.len());
        if find_sub(v@, p@) != -1 {
            assert(occurs_at(v@, p@, find_sub(v@, p@)));
        }
    }
    None
}

/// A position with the first-occurrence property is `find_sub`.
pub proof fn lemma_find_sub_unique(s: Seq<char>, p: Seq<char>, i: int)
    requires
        occurs_at(s, p, i),
        forall|j: int| 0 <= j < i ==> !occurs_at(s, p, j),
    ensures
        find_sub(s, p) == i,
{
    lemma_find_sub(s, p);
    let f = find_sub(s, p);
    if f == -1 {
        assert(!has_sub(s, p));
        assert(occurs_at(s, p, i));
    } else if f < i {
        assert(!occurs_at(s, p, f));
    } else if i < f {
        assert(!occurs_at(s, p, i));
    }
}

/// `s` with every occurrence of `p` replaced by `q`, left to right and
/// without overlap; `s` itself if `p` is empty.
pub open spec fn replace_seq(s: Seq<char>, p: Seq<char>, q: Seq<char>) -> Seq<char>
    decreases s.len(),
{
    if p.len() == 0 || s.len() == 0 {
        s
    } else if occurs_at(s, p, 0) {
        q + replace_seq(s.skip(p.len() as int), p, q)
    } else {
        seq![s[0]] + replace_seq(s.drop_first(), p, q)
    }
}

/// `v` with every occurrence of the literal `p` replaced by the literal `q`.
pub fn replace_lit(v: &Vec<char>, p: &str, q: &str) -> (r: Vec<char>)
    ensures
        r@ == replace_seq(v@, p@, q@),
{
    let plen = p.unicode_len();
    if plen == 0 {
        let mut r: Vec<char> = Vec::new();
        push_chars(&mut r, v);
        return r;
    }
    let mut r: Vec<char> = Vec::new();
    let mut i: usize = 0;
    proof {
        assert(v@.skip(0) =~= v@);
        assert(r@ + replace_seq(v@, p@, q@) =~= replace_seq(v@, p@, q@));
    }
    while i < v.len()
        invariant
            i <= v@.len(),
            0 < plen == p@.len(),
            replace_seq(v@, p@, q@) == r@ + replace_seq(v@.skip(i as int), p@, q@),
        decreases v@.len() - i,
    {
        let ghost rem = v@.skip(i as int);
        if occurs_at_idx(v, p, i) {
            proof {
                assert(rem.subrange(0, p@.len() as int) =~= v@.subrange(i as int, i + p@.len()));
                assert(occurs_at(rem, p@, 0));
                assert(rem.skip(p@.len() as int) =~= v@.skip(i + p@.len()));
            }
            push_lit(&mut r, q);
            i = i + plen;
        } else {
            proof {
                if occurs_at(rem, p@, 0) {
                    assert(v@.subrange(i as int, i + p@.len()) =~= rem.subrange(
                        0,
                        p@.len() as int,
                    ));
                }
                assert(rem.drop_first() =~= v@.skip(i + 1));
                assert(seq![rem[0]] + v@.skip(i + 1) =~= rem);
            }
            let c = v[i];
            r.push(c);
            i = i + 1;
        }
    }
    proof {
        assert(v@.skip(v@.len() as int) =~= Seq::<char>::empty());
        assert(r@ + Seq::<char>::empty() =~= r@);
    }
    r
}

/// `s` without its leading run of the character `c`.
pub open spec fn drop_leading(s: Seq<char>, c: char) -> Seq<char>
    decreases s.len(),
{
    if s.len() > 0 && s[0] == c {
        drop_leading(s.drop_first(), c)
    } else {
        s
    }
}

/// Removes the leading run of `c` from `v`.
pub fn drop_leading_chars(v: &Vec<char>, c: char) -> (r: Vec<char>)
    ensures
        r@ == drop_leading(v@, c),
{
    let mut a: usize = 0;
    while a < v.len() && v[a] == c
        invariant
            a <= v@.len(),
            forall|j: int| 0 <= j < a ==> v@[j] == c,
        decreases v@.len() - a,
    {
        a = a + 1;
    }
    proof {
        lemma_drop_leading(v@, c, a as int);
    }
    slice_range(v, a, v.len())
}

proof fn lemma_drop_leading(s: Seq<char>, c: char, i: int)
    requires
        0 <= i <= s.len(),
        forall|j: int| 0 <= j < i ==> s[j] == c,
        i == s.len() || s[i] != c,
    ensures
        drop_leading(s, c) =~= s.subrange(i, s.len() as int),
    decreases i,
{
    if i == 0 {
        assert(s.subrange(0, s.len() as int) =~= s);
    } else {
        lemma_drop_leading(s.drop_first(), c, i - 1);
        assert(s.drop_first().subrange(i - 1, s.drop_first().len() as int) =~= s.subrange(
            i,
            s.len() as int,
        ));
    }
}

/// Removes leading whitespace from `v`.
pub fn trim_start_chars(v: &Vec<char>) -> (r: Vec<char>)
    ensures
        r@ == trim_start_seq(v@),
{
    let mut a: usize = 0;
    while a < v.len() && is_space(v[a])
        invariant
            a <= v@.len(),
            forall|j: int| 0 <= j < a ==> is_space_char(v@[j]),
        decreases v@.len() - a,
    {
        a = a + 1;
    }
    proof {
        lemma_trim_start_is_suffix(v@, a as int);
    }
    slice_range(v, a, v.len())
}

/// The index of the last character of `s` satisfying `p`, or `-1`.
pub open spec fn last_where(s: Seq<char>, p: spec_fn(char) -> bool) -> int
    decreases s.len(),
{
    if s.len() == 0 {
        -1
    } else if p(s.last()) {
        s.len() - 1
    } else {
        last_where(s.drop_last(), p)
    }
}

/// What `last_where` returns: the last position satisfying `p`.
pub proof fn lemma_last_where(s: Seq<char>, p: spec_fn(char) -> bool)
    ensures
        -1 <= last_where(s, p) < s.len(),
        forall|j: int| last_where(s, p) < j < s.len() ==> !p(s[j]),
        last_where(s, p) >= 0 ==> p(s[last_where(s, p)]),
    decreases s.len(),
{
    if s.len() > 0 && !p(s.last()) {
        lemma_last_where(s.drop_last(), p);
        assert(forall|j: int|
            last_where(s, p) < j < s.len() - 1 ==> s[j] == s.drop_last()[j] && !p(s[j]));
    }
}

/// A position with the last-match property is `last_where`.
pub proof fn lemma_last_where_unique(s: Seq<char>, p: spec_fn(char) -> bool, i: int)
    requires
        0 <= i < s.len(),
        p(s[i]),
        forall|j: int| i < j < s.len() ==> !p(s[j]),
    ensures
        last_where(s, p) == i,
{
    lemma_last_where(s, p);
    let f = last_where(s, p);
    if f < i {
        assert(!p(s[i]));
    } else if i < f {
        assert(!p(s[f]));
    }
}

/// Whether two character vectors hold the same characters.
pub fn eq_chars(a: &Vec<char>, b: &Vec<char>) -> (r: bool)
    ensures
        r == (a@ == b@),
{
    if a.len() != b.len() {
        return false;
    }
    let mut i: usize = 0;
    while i < a.len()
        invariant
            i <= a@.len(),
            a@.len() == b@.len(),
            forall|j: int| 0 <= j < i ==> a@[j] == b@[j],
        decreases a@.len() - i,
    {
        if a[i] != b[i] {
            return false;
        }
        i = i + 1;
    }
    proof {
        assert(a@ =~= b@);
    }
    true
}

/// Whether the pattern `p` occurs anywhere in `v`, for a pattern only
/// known at run time.
pub fn contains_chars(v: &Vec<char>, p: &Vec<char>) -> (r: bool)
    ensures
        r == has_sub(v@, p@),
{
    let n = p.len();
    if n > v.len() {
        proof {
            assert(forall|i: int| !occurs_at(v@, p@, i));
        }
        return false;
    }
    if n == 0 {
        proof {
            assert(v@.subrange(0, 0) =~= p@);
            assert(occurs_at(v@, p@, 0));
        }
        return true;
    }
    let last = v.len() - n;
    let mut i: usize = 0;
    while i <= last
        invariant
            i <= last + 1,
            last == v@.len() - n,
            0 < n == p@.len(),
            n <= v@.len(),
            v@.len() <= usize::MAX,
            forall|k: int| 0 <= k < i ==> !occurs_at(v@, p@, k),
        decreases last + 1 - i,
    {
        let mut j: usize = 0;
        let mut ok = true;
        while j < n
            invariant
                j <= n,
                i <= last,
                last == v@.len() - n,
                0 < n == p@.len(),
                n <= v@.len(),
                v@.len() <= usize::MAX,
                ok ==> forall|t: int| 0 <= t < j ==> v@[i + t] == p@[t],
                !ok ==> !occurs_at(v@, p@, i as int),
            decreases n - j,
        {
            if ok && v[i + j] != p[j] {
                proof {
                    if occurs_at(v@, p@, i as int) {
                        assert(v@.subrange(i as int, i + p@.len())[j as int] == p@[j as int]);
                    }
                }
                ok = false;
            }
            j = j + 1;
        }
        if ok {
            proof {
                assert(v@.subrange(i as int, i + p@.len()) =~= p@);
                assert(occurs_at(v@, p@, i as int));
            }
            return true;
        }
        i = i + 1;
    }
    proof {
        assert(forall|k: int| occurs_at(v@, p@, k) ==> 0 <= k <= last);
    }
    false
}

/// The nonempty runs of `s` between occurrences of the separator `c`,
/// with `cur` the run read so far.
pub open spec fn split_acc(s: Seq<char>, c: char, cur: Seq<char>) -> Seq<Seq<char>>
    decreases s.len(),
{
    if s.len() == 0 {
        if cur.len() == 0 {
            Seq::empty()
        } else {
            seq![cur]
        }
    } else if s[0] == c {
        (if cur.len() == 0 {
            Seq::<Seq<char>>::empty()
        } else {
            seq![cur]
        }) + split_acc(s.drop_first(), c, Seq::empty())
    } else {
        split_acc(s.drop_first(), c, cur.push(s[0]))
    }
}

/// The nonempty runs of `s` between occurrences of `c`.
pub open spec fn split_nonempty(s: Seq<char>, c: char) -> Seq<Seq<char>> {
    split_acc(s, c, Seq::empty())
}

/// Splits `v` at `c`, keeping the nonempty pieces.
pub fn split_nonempty_chars(v: &Vec<char>, c: char) -> (r: Vec<Vec<char>>)
    ensures
        r.deep_view() == split_nonempty(v@, c),
{
    let mut r: Vec<Vec<char>> = Vec::new();
    let mut cur: Vec<char> = Vec::new();
    let mut i: usize = 0;
    proof {
        assert(v@.skip(0) =~= v@);
        assert(r.deep_view() =~~= Seq::<Seq<char>>::empty());
        assert(r.deep_view() + split_acc(v@, c, cur@) =~= split_acc(v@, c, cur@));
    }
    while i < v.len()
        invariant
            i <= v@.len(),
            split_nonempty(v@, c) == r.deep_view() + split_acc(v@.skip(i as int), c, cur@),
        decreases v@.len() - i,
    {
        proof {
            assert(v@.skip(i as int)[0] == v@[i as int]);
            assert(v@.skip(i as int).drop_first() =~= v@.skip(i + 1));
        }
        let x = v[i];
        let ghost rest = split_acc(v@.skip(i + 1), c, Seq::<char>::empty());
        proof {
            assert(v@.skip(i as int).len() > 0);
            assert(v@.skip(i as int)[0] == x);
        }
        if x == c {
            if cur.len() > 0 {
                let ghost old_dv = r.deep_view();
                let ghost cur_v = cur@;
                proof {
                    assert(split_acc(v@.skip(i as int), c, cur_v) == seq![cur_v] + rest);
                }
                r.push(cur);
                cur = Vec::new();
                proof {
                    assert(r.deep_view() =~~= old_dv + seq![cur_v]);
                    assert(old_dv + (seq![cur_v] + rest) =~= (old_dv + seq![cur_v]) + rest);
                }
            } else {
                proof {
                    assert(cur@ =~= Seq::<char>::empty());
                    assert(Seq::<Seq<char>>::empty() + rest =~= rest);
                }
            }
        } else {
            let ghost cur_old = cur@;
            cur.push(x);
            proof {
                assert(split_acc(v@.skip(i as int), c, cur_old) == split_acc(
                    v@.skip(i + 1),
                    c,
                    cur_old.push(x),
                ));
            }
        }
        i = i + 1;
    }
    proof {
        assert(v@.skip(v@.len() as int) =~= Seq::<char>::empty());
    }
    if cur.len() > 0 {
        let ghost old_dv = r.deep_view();
        let ghost cur_v = cur@;
        r.push(cur);
        proof {
            assert(r.deep_view() =~~= old_dv + seq![cur_v]);
        }
    }
    r
}

/// A character that belongs to a search token: an ASCII letter or
/// digit, or any character beyond ASCII.
pub open spec fn is_token_char(c: char) -> bool {
    (48 <= c as u32 && c as u32 <= 57) || (97 <= c as u32 && c as u32 <= 122) || (65 <= c as u32
        && c as u32 <= 90) || c as u32 >= 128
}

/// The search tokens of `s`: maximal runs of token characters, each
/// ASCII-lower-cased, with `cur` the run read so far.
pub open spec fn token_acc(s: Seq<char>, cur: Seq<char>) -> Seq<Seq<char>>
    decreases s.len(),
{
    if s.len() == 0 {
        if cur.len() == 0 {
            Seq::empty()
        } else {
            seq![cur]
        }
    } else if is_token_char(s[0]) {
        token_acc(s.drop_first(), cur.push(lower_char(s[0])))
    } else {
        (if cur.len() == 0 {
            Seq::<Seq<char>>::empty()
        } else {
            seq![cur]
        }) + token_acc(s.drop_first(), Seq::empty())
    }
}

/// The case-folded search tokens of `s`.
pub open spec fn tokens_of(s: Seq<char>) -> Seq<Seq<char>> {
    token_acc(s, Seq::empty())
}

/// The case-folded search tokens of `v`.
pub fn tokenize(v: &Vec<char>) -> (r: Vec<Vec<char>>)
    ensures
        r.deep_view() == tokens_of(v@),
{
    let mut r: Vec<Vec<char>> = Vec::new();
    let mut cur: Vec<char> = Vec::new();
    let mut i: usize = 0;
    proof {
        assert(v@.skip(0) =~= v@);
        assert(r.deep_view() =~~= Seq::<Seq<char>>::empty());
        assert(r.deep_view() + token_acc(v@, cur@) =~= token_acc(v@, cur@));
    }
    while i < v.len()
        invariant
            i <= v@.len(),
            tokens_of(v@) == r.deep_view() + token_acc(v@.skip(i as int), cur@),
        decreases v@.len() - i,
    {
        proof {
            assert(v@.skip(i as int)[0] == v@[i as int]);
            assert(v@.skip(i as int).drop_first() =~= v@.skip(i + 1));
        }
        let x = v[i];
        let u = x as u32;
        let tok = (48 <= u && u <= 57) || (97 <= u && u <= 122) || (65 <= u && u <= 90) || u
            >= 128;
        if tok {
            if 65 <= u && u <= 90 {
                cur.push(((u + 32) as u8) as char);
            } else {
                cur.push(x);
            }
        } else {
            let ghost rest = token_acc(v@.skip(i + 1), Seq::<char>::empty());
            if cur.len() > 0 {
                let ghost old_dv = r.deep_view();
                let ghost cur_v = cur@;
                r.push(cur);
                cur = Vec::new();
                proof {
                    assert(r.deep_view() =~~= old_dv + seq![cur_v]);
                    assert(old_dv + (seq![cur_v] + rest) =~= (old_dv + seq![cur_v]) + rest);
                }
            } else {
                proof {
                    assert(cur@ =~= Seq::<char>::empty());
                    assert(Seq::<Seq<char>>::empty() + rest =~= rest);
                }
            }
        }
        i = i + 1;
    }
    proof {
        assert(v@.skip(v@.len() as int) =~= Seq::<char>::empty());
    }
    if cur.len() > 0 {
        let ghost old_dv = r.deep_view();
        let ghost cur_v = cur@;
        r.push(cur);
        proof {
            assert(r.deep_view() =~~= old_dv + seq![cur_v]);
        }
    }
    r
}

/// Relies on `String`'s `FromIterator<char>` impl: collecting the
/// characters of `v` yields the string whose characters are exactly `v`.
#[verifier::external_body]
pub fn string_from_chars(v: &Vec<char>) -> (s: String)
    ensures
        s@ == v@,
{
    v.iter().collect()
}

} // verus!
