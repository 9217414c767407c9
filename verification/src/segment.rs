//! Block segmentation: finding maximal runs of `///` lines.
//!
//! A line qualifies as a doc-comment line when its trimmed form starts with
//! the three-character marker `///`. A maximal run of qualifying lines makes
//! one raw block: each line contributes its content (marker prefix stripped,
//! then trimmed) followed by a newline. The first non-qualifying line after
//! a non-empty run flushes the block, and so does the end of the input.

use vstd::prelude::*;
use crate::chars::{
    chars_to_string, lemma_deep_view_chars, lemma_deep_view_strings, spec_lines, split_lines,
    str_to_chars, subrange_chars, trim, trim_chars,
};

verus! {

/// Does `s` itself start with the `///` marker?
pub open spec fn is_marker_prefix(s: Seq<char>) -> bool {
    s.len() >= 3 && s[0] == '/' && s[1] == '/' && s[2] == '/'
}

/// Does the line, after trimming, start with the `///` marker?
pub open spec fn is_doc_line(line: Seq<char>) -> bool {
    is_marker_prefix(trim(line))
}

/// `s` without its leading run of `///` markers.
pub open spec fn strip_markers(s: Seq<char>) -> Seq<char>
    decreases s.len(),
{
    if is_marker_prefix(s) {
        strip_markers(s.skip(3))
    } else {
        s
    }
}

/// The content a doc-comment line contributes to its block: the line is
/// trimmed, its marker prefix is dropped, and the remainder is trimmed.
pub open spec fn doc_content(line: Seq<char>) -> Seq<char> {
    trim(strip_markers(trim(line)))
}

/// One step of segmentation: `cur` accumulates the content of the current
/// run of doc-comment lines, `ls` is what is still unread.
pub open spec fn segment_rec(ls: Seq<Seq<char>>, cur: Seq<char>) -> Seq<Seq<char>>
    decreases ls.len(),
{
    if ls.len() == 0 {
        if cur.len() == 0 {
            Seq::empty()
        } else {
            seq![cur]
        }
    } else if is_doc_line(ls[0]) {
        segment_rec(ls.drop_first(), cur + doc_content(ls[0]) + seq!['\n'])
    } else if cur.len() > 0 {
        seq![cur] + segment_rec(ls.drop_first(), Seq::empty())
    } else {
        segment_rec(ls.drop_first(), Seq::empty())
    }
}

/// The raw blocks of an input buffer, in source order.
pub open spec fn spec_segment(input: Seq<char>) -> Seq<Seq<char>> {
    segment_rec(spec_lines(input), Seq::empty())
}

/// The content of a run made only of doc-comment lines: each line's content
/// followed by a newline.
pub open spec fn block_content(ls: Seq<Seq<char>>) -> Seq<char>
    decreases ls.len(),
{
    if ls.len() == 0 {
        Seq::empty()
    } else {
        doc_content(ls[0]) + seq!['\n'] + block_content(ls.drop_first())
    }
}

/// Lines without any doc-comment line segment to nothing.
proof fn lemma_segment_rec_no_doc(ls: Seq<Seq<char>>)
    requires
        forall|i: int| 0 <= i < ls.len() ==> !is_doc_line(ls[i]),
    ensures
        segment_rec(ls, Seq::empty()) == Seq::<Seq<char>>::empty(),
    decreases ls.len(),
{
    if ls.len() > 0 {
        let t = ls.drop_first();
        lemma_segment_rec_no_doc(t);
    }
}

/// An input with no doc-marker line yields an empty block sequence.
pub proof fn lemma_segment_no_markers(input: Seq<char>)
    requires
        forall|i: int| 0 <= i < spec_lines(input).len() ==> !is_doc_line(spec_lines(input)[i]),
    ensures
        spec_segment(input) == Seq::<Seq<char>>::empty(),
{
    lemma_segment_rec_no_doc(spec_lines(input));
}

/// A run made only of doc-comment lines accumulates into a single block.
proof fn lemma_segment_rec_all_doc(ls: Seq<Seq<char>>, cur: Seq<char>)
    requires
        forall|i: int| 0 <= i < ls.len() ==> is_doc_line(ls[i]),
    ensures
        segment_rec(ls, cur) == if cur.len() + block_content(ls).len() == 0 {
            Seq::<Seq<char>>::empty()
        } else {
            seq![cur + block_content(ls)]
        },
    decreases ls.len(),
{
    if ls.len() == 0 {
        assert(cur + block_content(ls) =~= cur);
    } else {
        let t = ls.drop_first();
        let cur2 = cur + doc_content(ls[0]) + seq!['\n'];
        lemma_segment_rec_all_doc(t, cur2);
        assert(cur2 + block_content(t) =~= cur + block_content(ls));
        assert(cur2.len() > 0);
    }
}

/// After a line that does not qualify, segmentation starts afresh: the blocks
/// of the whole are the blocks of the first part followed by those of the
/// rest.
pub proof fn lemma_segment_rec_split(ls1: Seq<Seq<char>>, ls2: Seq<Seq<char>>, cur: Seq<char>)
    requires
        ls1.len() > 0,
        !is_doc_line(ls1.last()),
    ensures
        segment_rec(ls1 + ls2, cur) == segment_rec(ls1, cur) + segment_rec(ls2, Seq::empty()),
    decreases ls1.len(),
{
    let l0 = ls1[0];
    let rest = ls1.drop_first();
    assert((ls1 + ls2).drop_first() =~= rest + ls2);
    assert((ls1 + ls2)[0] == l0);
    if ls1.len() == 1 {
        assert(!is_doc_line(l0));
        if cur.len() > 0 {
            assert(segment_rec(ls1, cur) == seq![cur] + segment_rec(rest, Seq::empty()));
            assert(rest =~= Seq::<Seq<char>>::empty());
            assert(segment_rec(ls1, cur) =~= seq![cur]);
            assert(seq![cur] + segment_rec(ls2, Seq::empty()) =~= segment_rec(ls1, cur)
                + segment_rec(ls2, Seq::empty()));
        } else {
            assert(rest =~= Seq::<Seq<char>>::empty());
            assert(segment_rec(ls1, cur) =~= Seq::<Seq<char>>::empty());
            assert(Seq::empty() + segment_rec(ls2, Seq::empty()) =~= segment_rec(
                ls2,
                Seq::empty(),
            ));
        }
    } else {
        assert(rest.last() == ls1.last());
        if is_doc_line(l0) {
            lemma_segment_rec_split(rest, ls2, cur + doc_content(l0) + seq!['\n']);
        } else if cur.len() > 0 {
            lemma_segment_rec_split(rest, ls2, Seq::empty());
            assert(seq![cur] + (segment_rec(rest, Seq::empty()) + segment_rec(ls2, Seq::empty()))
                =~= (seq![cur] + segment_rec(rest, Seq::empty())) + segment_rec(ls2, Seq::empty()));
        } else {
            lemma_segment_rec_split(rest, ls2, Seq::empty());
        }
    }
}

/// A run of doc-comment lines followed by one non-qualifying line segments
/// as the run alone: the extra line only flushes the block.
proof fn lemma_segment_rec_flush(ls: Seq<Seq<char>>, sep: Seq<char>, cur: Seq<char>)
    requires
        forall|i: int| 0 <= i < ls.len() ==> is_doc_line(ls[i]),
        !is_doc_line(sep),
    ensures
        segment_rec(ls + seq![sep], cur) == segment_rec(ls, cur),
    decreases ls.len(),
{
    if ls.len() == 0 {
        let e = seq![sep];
        assert(ls + e =~= e);
        assert(e[0] == sep);
        assert(e.drop_first() =~= Seq::<Seq<char>>::empty());
        assert(segment_rec(e.drop_first(), Seq::empty()) =~= Seq::<Seq<char>>::empty());
        if cur.len() > 0 {
            assert(segment_rec(e, cur) == seq![cur] + segment_rec(e.drop_first(), Seq::empty()));
            assert(seq![cur] + Seq::<Seq<char>>::empty() =~= seq![cur]);
        } else {
            assert(segment_rec(e, cur) == segment_rec(e.drop_first(), Seq::empty()));
        }
    } else {
        let t = ls.drop_first();
        assert((ls + seq![sep]).drop_first() =~= t + seq![sep]);
        assert((ls + seq![sep])[0] == ls[0]);
        lemma_segment_rec_flush(t, sep, cur + doc_content(ls[0]) + seq!['\n']);
    }
}

/// Two runs of doc-comment lines separated by any number (at least one) of
/// non-qualifying lines are segmented into two separate blocks, never
/// merged.
pub proof fn lemma_two_blocks(ls1: Seq<Seq<char>>, seps: Seq<Seq<char>>, ls2: Seq<
    Seq<char>,
>)
    requires
        ls1.len() > 0,
        ls2.len() > 0,
        seps.len() >= 1,
        forall|i: int| 0 <= i < ls1.len() ==> is_doc_line(ls1[i]),
        forall|i: int| 0 <= i < seps.len() ==> !is_doc_line(seps[i]),
        forall|i: int| 0 <= i < ls2.len() ==> is_doc_line(ls2[i]),
    ensures
        segment_rec(ls1 + seps + ls2, Seq::empty()) == seq![
            block_content(ls1),
            block_content(ls2),
        ],
{
    let a = ls1 + seps;
    assert(a.last() == seps.last());
    lemma_segment_rec_split(a, ls2, Seq::empty());
    assert(a + ls2 =~= ls1 + seps + ls2);
    // the first part flushes one block and nothing more
    let b = ls1 + seq![seps[0]];
    let rest = seps.drop_first();
    if rest.len() == 0 {
        assert(a =~= b);
    } else {
        assert(b.last() == seps[0]);
        assert(a =~= b + rest);
        lemma_segment_rec_split(b, rest, Seq::empty());
        lemma_segment_rec_no_doc(rest);
    }
    lemma_segment_rec_flush(ls1, seps[0], Seq::empty());
    lemma_segment_rec_all_doc(ls1, Seq::empty());
    lemma_segment_rec_all_doc(ls2, Seq::empty());
    assert(block_content(ls1).len() > 0);
    assert(block_content(ls2).len() > 0);
    assert(Seq::empty() + block_content(ls1) =~= block_content(ls1));
    assert(Seq::empty() + block_content(ls2) =~= block_content(ls2));
    assert(segment_rec(b, Seq::empty()) == seq![block_content(ls1)]);
    assert(segment_rec(a, Seq::empty()) =~= seq![block_content(ls1)]);
    assert(seq![block_content(ls1)] + seq![block_content(ls2)] =~= seq![
        block_content(ls1),
        block_content(ls2),
    ]);
}

/// Splits the input into raw doc-comment blocks, in source order.
#[verifier::loop_isolation(false)]
pub fn segment(input: &str) -> (r: Vec<String>)
    ensures
        r.deep_view() == spec_segment(input@),
{
    let cs = str_to_chars(input);
    let ls = split_lines(&cs);
    let ghost lsv = ls.deep_view();
    let n = ls.len();
    proof {
        lemma_deep_view_chars(ls);
        assert(lsv.skip(0) =~= lsv);
    }
    let mut out: Vec<String> = Vec::new();
    let mut cur: Vec<char> = Vec::new();
    let mut i: usize = 0;
    while i < n
        invariant
            i <= n,
            n == ls@.len(),
            out.deep_view() + segment_rec(lsv.skip(i as int), cur@) =~= segment_rec(
                lsv,
                Seq::empty(),
            ),
        decreases n - i,
    {
        proof {
            assert(lsv.skip(i as int).drop_first() =~= lsv.skip(i as int + 1));
            assert(lsv.skip(i as int)[0] == lsv[i as int]);
            assert(lsv[i as int] == ls@[i as int]@);
        }
        let ghost prev_cur = cur@;
        let t = trim_chars(&ls[i]);
        let is_doc = t.len() >= 3 && t[0] == '/' && t[1] == '/' && t[2] == '/';
        proof {
            assert(is_doc == is_doc_line(lsv[i as int]));
        }
        if is_doc {
            let mut p = t;
            while p.len() >= 3 && p[0] == '/' && p[1] == '/' && p[2] == '/'
                invariant
                    strip_markers(p@) == strip_markers(trim(lsv[i as int])),
                decreases p.len(),
            {
                let ghost pv = p@;
                p = subrange_chars(&p, 3, p.len());
                proof {
                    assert(p@ =~= pv.skip(3));
                }
            }
            let content = trim_chars(&p);
            proof {
                assert(content@ == doc_content(lsv[i as int]));
            }
            let m = content.len();
            let mut j: usize = 0;
            while j < m
                invariant
                    j <= m,
                    m == content@.len(),
                    cur@ =~= prev_cur + content@.take(j as int),
                decreases m - j,
            {
                cur.push(content[j]);
                j = j + 1;
            }
            cur.push('\n');
            proof {
                assert(content@.take(m as int) =~= content@);
                assert(cur@ =~= prev_cur + doc_content(lsv[i as int]) + seq!['\n']);
            }
        } else {
            if cur.len() > 0 {
                let ghost prev_out = out.deep_view();
                proof {
                    lemma_deep_view_strings(out);
                }
                let s = chars_to_string(&cur);
                out.push(s);
                cur = Vec::new();
                proof {
                    lemma_deep_view_strings(out);
                    assert(out.deep_view() =~= prev_out.push(prev_cur));
                    assert(prev_out.push(prev_cur) + segment_rec(lsv.skip(i as int + 1), cur@)
                        =~= prev_out + (seq![prev_cur] + segment_rec(
                        lsv.skip(i as int + 1),
                        Seq::empty(),
                    )));
                }
            }
        }
        i = i + 1;
    }
    proof {
        assert(lsv.skip(n as int) =~= Seq::<Seq<char>>::empty());
    }
    if cur.len() > 0 {
        let ghost prev_out = out.deep_view();
        let ghost prev_cur = cur@;
        proof {
            lemma_deep_view_strings(out);
        }
        let s = chars_to_string(&cur);
        out.push(s);
        proof {
            lemma_deep_view_strings(out);
            assert(out.deep_view() =~= prev_out.push(prev_cur));
            assert(prev_out.push(prev_cur) =~= prev_out + segment_rec(Seq::empty(), prev_cur));
        }
    }
    assert(out.deep_view() =~= spec_segment(input@));
    out
}

} // verus!
