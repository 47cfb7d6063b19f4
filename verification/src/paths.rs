//! Path handling: the lexical canonical form that the query layer
//! compares project paths with.
//!
//! A project filter may arrive relative or absolute; both are brought to
//! the same canonical absolute form before comparison, against an
//! explicitly supplied working directory — the engine never reads the
//! process environment. The form is lexical: empty and `.` segments
//! drop, `..` removes the segment before it, and what symbolic links
//! would do to the path is no concern of the engine.

use vstd::prelude::*;
use crate::text;
use crate::text::{join_seq, split_nonempty};

verus! {

/// Whether a path is absolute.
pub open spec fn is_abs_path(p: Seq<char>) -> bool {
    p.len() > 0 && p[0] == '/'
}

/// Resolves `.` and `..` over the segments read so far.
pub open spec fn norm_segments(segs: Seq<Seq<char>>, acc: Seq<Seq<char>>) -> Seq<Seq<char>>
    decreases segs.len(),
{
    if segs.len() == 0 {
        acc
    } else {
        let s0 = segs[0];
        let acc2 = if s0 == "."@ {
            acc
        } else if s0 == ".."@ {
            if acc.len() > 0 {
                acc.drop_last()
            } else {
                acc
            }
        } else {
            acc.push(s0)
        };
        norm_segments(segs.drop_first(), acc2)
    }
}

/// The canonical absolute form of `p` against the working directory
/// `cwd`: the path made absolute, its segments cleaned, and rejoined
/// under a leading slash.
pub open spec fn norm_path_spec(p: Seq<char>, cwd: Seq<char>) -> Seq<char> {
    let full = if is_abs_path(p) {
        p
    } else {
        cwd + "/"@ + p
    };
    "/"@ + join_seq(norm_segments(split_nonempty(full, '/'), Seq::empty()), "/"@)
}

/// Brings a path to its canonical absolute form against `cwd`.
pub fn norm_path(p: &str, cwd: &str) -> (r: String)
    ensures
        r@ == norm_path_spec(p@, cwd@),
{
    let pv = text::chars_of(p);
    let full: Vec<char> = if pv.len() > 0 && pv[0] == '/' {
        pv
    } else {
        let mut f = text::chars_of(cwd);
        text::push_lit(&mut f, "/");
        text::push_chars(&mut f, &pv);
        proof {
            assert(f@ =~= cwd@ + "/"@ + p@);
        }
        f
    };
    let segs = text::split_nonempty_chars(&full, '/');
    let mut acc: Vec<Vec<char>> = Vec::new();
    let mut i: usize = 0;
    proof {
        assert(segs.deep_view().skip(0) =~= segs.deep_view());
        assert(acc.deep_view() =~~= Seq::<Seq<char>>::empty());
    }
    while i < segs.len()
        invariant
            i <= segs@.len(),
            norm_segments(segs.deep_view(), Seq::empty()) == norm_segments(
                segs.deep_view().skip(i as int),
                acc.deep_view(),
            ),
        decreases segs@.len() - i,
    {
        proof {
            assert(segs.deep_view().skip(i as int)[0] == segs@[i as int]@);
            assert(segs.deep_view().skip(i as int).drop_first() =~= segs.deep_view().skip(i + 1));
        }
        let sg = &segs[i];
        if text::eq_lit(sg, ".") {
        } else if text::eq_lit(sg, "..") {
            if acc.len() > 0 {
                let ghost pre = acc.deep_view();
                acc.pop();
                proof {
                    assert(acc.deep_view() =~~= pre.drop_last());
                }
            }
        } else {
            let ghost pre = acc.deep_view();
            let copy = text::slice_range(sg, 0, sg.len());
            let ghost cv = copy@;
            proof {
                assert(cv =~= segs@[i as int]@);
            }
            acc.push(copy);
            proof {
                assert(acc.deep_view() =~~= pre.push(cv));
            }
        }
        i = i + 1;
    }
    proof {
        assert(segs.deep_view().skip(segs@.len() as int) =~= Seq::<Seq<char>>::empty());
    }
    let joined = text::join_chars(&acc, "/");
    let mut out: Vec<char> = Vec::new();
    text::push_lit(&mut out, "/");
    text::push_chars(&mut out, &joined);
    proof {
        assert(out@ =~= "/"@ + joined@);
    }
    text::string_from_chars(&out)
}

} // verus!
