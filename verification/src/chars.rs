//! Character classes, whitespace trimming, token runs and line splitting.
//!
//! Everything downstream (segmentation, field grammars, rendering) is
//! specified over `Seq<char>`; this module holds the character-level spec
//! functions, the executable counterparts, and the lemmas tying the two
//! together.

use vstd::prelude::*;

verus! {

/// Whitespace, as the trimming and token rules of this library understand it.
pub open spec fn is_space_char(c: char) -> bool {
    c == ' ' || c == '\t' || c == '\r' || c == '\n'
}

/// Word characters, the alphabet of parameter names.
pub open spec fn is_word_char(c: char) -> bool {
    ('a' as u32 <= c as u32 && c as u32 <= 'z' as u32)
        || ('A' as u32 <= c as u32 && c as u32 <= 'Z' as u32)
        || ('0' as u32 <= c as u32 && c as u32 <= '9' as u32)
        || c == '_'
}

/// The sequence without its leading whitespace.
pub open spec fn trim_start(s: Seq<char>) -> Seq<char>
    decreases s.len(),
{
    if s.len() > 0 && is_space_char(s[0]) {
        trim_start(s.drop_first())
    } else {
        s
    }
}

/// The sequence without its trailing whitespace.
pub open spec fn trim_end(s: Seq<char>) -> Seq<char>
    decreases s.len(),
{
    if s.len() > 0 && is_space_char(s.last()) {
        trim_end(s.drop_last())
    } else {
        s
    }
}

/// The sequence without leading and trailing whitespace.
pub open spec fn trim(s: Seq<char>) -> Seq<char> {
    trim_end(trim_start(s))
}

/// Index of the first occurrence of `c` in `s`, or `s.len()` if absent.
pub open spec fn first_index_of(s: Seq<char>, c: char) -> nat
    decreases s.len(),
{
    if s.len() == 0 {
        0
    } else if s[0] == c {
        0
    } else {
        1 + first_index_of(s.drop_first(), c)
    }
}

/// Length of the longest prefix of `s` made of word characters.
pub open spec fn word_run(s: Seq<char>) -> nat
    decreases s.len(),
{
    if s.len() > 0 && is_word_char(s[0]) {
        1 + word_run(s.drop_first())
    } else {
        0
    }
}

/// Length of the longest prefix of `s` made of non-whitespace characters.
pub open spec fn token_run(s: Seq<char>) -> nat
    decreases s.len(),
{
    if s.len() > 0 && !is_space_char(s[0]) {
        1 + token_run(s.drop_first())
    } else {
        0
    }
}

/// The elements of `ls` concatenated with `sep` between neighbours.
pub open spec fn join_with(ls: Seq<Seq<char>>, sep: Seq<char>) -> Seq<char>
    decreases ls.len(),
{
    if ls.len() == 0 {
        Seq::empty()
    } else if ls.len() == 1 {
        ls[0]
    } else {
        ls[0] + sep + join_with(ls.drop_first(), sep)
    }
}

/// A line terminated by `'\n'` sheds one trailing `'\r'`.
pub open spec fn strip_cr(l: Seq<char>) -> Seq<char> {
    if l.len() > 0 && l.last() == '\r' {
        l.drop_last()
    } else {
        l
    }
}

/// One step of line splitting: `cur` holds the characters of the line being
/// read, `s` what is still unread.
pub open spec fn lines_rec(s: Seq<char>, cur: Seq<char>) -> Seq<Seq<char>>
    decreases s.len(),
{
    if s.len() == 0 {
        if cur.len() == 0 {
            Seq::empty()
        } else {
            seq![cur]
        }
    } else if s[0] == '\n' {
        seq![strip_cr(cur)] + lines_rec(s.drop_first(), Seq::empty())
    } else {
        lines_rec(s.drop_first(), cur.push(s[0]))
    }
}

/// The lines of `s`: split at `'\n'`, each terminated line shedding one
/// trailing `'\r'`, with no final empty line when `s` ends in `'\n'`.
pub open spec fn spec_lines(s: Seq<char>) -> Seq<Seq<char>> {
    lines_rec(s, Seq::empty())
}

/// `trim_start` removes exactly the leading whitespace run.
pub proof fn lemma_trim_start_is(s: Seq<char>, k: int)
    requires
        0 <= k <= s.len(),
        forall|i: int| 0 <= i < k ==> is_space_char(s[i]),
        k == s.len() || !is_space_char(s[k]),
    ensures
        trim_start(s) == s.skip(k),
    decreases k,
{
    if k == 0 {
        assert(s.skip(0) =~= s);
    } else {
        assert(is_space_char(s[0]));
        let t = s.drop_first();
        assert(forall|i: int| 0 <= i < k - 1 ==> is_space_char(t[i]));
        lemma_trim_start_is(t, k - 1);
        assert(t.skip(k - 1) =~= s.skip(k));
    }
}

/// `trim_end` removes exactly the trailing whitespace run.
pub proof fn lemma_trim_end_is(s: Seq<char>, k: int)
    requires
        0 <= k <= s.len(),
        forall|i: int| k <= i < s.len() ==> is_space_char(s[i]),
        k == 0 || !is_space_char(s[k - 1]),
    ensures
        trim_end(s) == s.take(k),
    decreases s.len(),
{
    if k == s.len() {
        assert(s.take(k) =~= s);
    } else {
        assert(is_space_char(s.last()));
        let t = s.drop_last();
        lemma_trim_end_is(t, k);
        assert(t.take(k) =~= s.take(k));
    }
}

/// A sequence with non-whitespace ends is already trimmed.
pub proof fn lemma_trim_noop(s: Seq<char>)
    requires
        s.len() > 0,
        !is_space_char(s[0]),
        !is_space_char(s.last()),
    ensures
        trim(s) == s,
{
    assert(trim_start(s) == s);
    assert(trim_end(s) == s);
}

/// `first_index_of` is pinned down by its characteristic properties.
pub proof fn lemma_first_index_is(s: Seq<char>, c: char, k: int)
    requires
        0 <= k <= s.len(),
        forall|i: int| 0 <= i < k ==> s[i] != c,
        k == s.len() || s[k] == c,
    ensures
        first_index_of(s, c) == k,
    decreases k,
{
    if k == 0 {
    } else {
        let t = s.drop_first();
        assert(forall|i: int| 0 <= i < k - 1 ==> t[i] != c);
        lemma_first_index_is(t, c, k - 1);
    }
}

/// `first_index_of` never exceeds the length, characters before it differ
/// from `c`, and when it is inside the sequence it points at `c`.
pub proof fn lemma_first_index_le(s: Seq<char>, c: char)
    ensures
        first_index_of(s, c) <= s.len(),
        forall|i: int| 0 <= i < first_index_of(s, c) ==> s[i] != c,
        first_index_of(s, c) < s.len() ==> s[first_index_of(s, c) as int] == c,
    decreases s.len(),
{
    if s.len() == 0 {
    } else if s[0] == c {
    } else {
        let t = s.drop_first();
        lemma_first_index_le(t, c);
        assert forall|i: int| 0 <= i < first_index_of(s, c) implies s[i] != c by {
            if i > 0 {
                assert(t[i - 1] != c);
            }
        }
    }
}

/// `word_run` is pinned down by its characteristic properties.
pub proof fn lemma_word_run_is(s: Seq<char>, k: int)
    requires
        0 <= k <= s.len(),
        forall|i: int| 0 <= i < k ==> is_word_char(s[i]),
        k == s.len() || !is_word_char(s[k]),
    ensures
        word_run(s) == k,
    decreases k,
{
    if k == 0 {
    } else {
        let t = s.drop_first();
        assert(forall|i: int| 0 <= i < k - 1 ==> is_word_char(t[i]));
        lemma_word_run_is(t, k - 1);
    }
}

/// `token_run` is pinned down by its characteristic properties.
pub proof fn lemma_token_run_is(s: Seq<char>, k: int)
    requires
        0 <= k <= s.len(),
        forall|i: int| 0 <= i < k ==> !is_space_char(s[i]),
        k == s.len() || is_space_char(s[k]),
    ensures
        token_run(s) == k,
    decreases k,
{
    if k == 0 {
    } else {
        let t = s.drop_first();
        assert(forall|i: int| 0 <= i < k - 1 ==> !is_space_char(t[i]));
        lemma_token_run_is(t, k - 1);
    }
}

/// Appending one element to a joined list appends one separator and the
/// element.
pub proof fn lemma_join_with_push(ls: Seq<Seq<char>>, sep: Seq<char>, l: Seq<char>)
    ensures
        join_with(ls.push(l), sep) == if ls.len() == 0 {
            l
        } else {
            join_with(ls, sep) + sep + l
        },
    decreases ls.len(),
{
    let e = ls.push(l);
    if ls.len() == 0 {
        assert(e.len() == 1);
        assert(e[0] == l);
    } else if ls.len() == 1 {
        assert(e.len() == 2);
        assert(e.drop_first() =~= Seq::empty().push(l));
        lemma_join_with_push(Seq::empty(), sep, l);
        assert(join_with(e, sep) == e[0] + sep + l);
        assert(e[0] == ls[0]);
        assert(join_with(ls, sep) == ls[0]);
    } else {
        assert(e.drop_first() =~= ls.drop_first().push(l));
        lemma_join_with_push(ls.drop_first(), sep, l);
        assert(join_with(e, sep) == ls[0] + sep + (join_with(ls.drop_first(), sep) + sep + l));
        assert(ls[0] + sep + (join_with(ls.drop_first(), sep) + sep + l) =~= (ls[0] + sep
            + join_with(ls.drop_first(), sep)) + sep + l);
    }
}

/// `deep_view` of a vector of character vectors reads each element's view.
pub proof fn lemma_deep_view_chars(v: Vec<Vec<char>>)
    ensures
        v.deep_view().len() == v@.len(),
        forall|i: int| 0 <= i < v@.len() ==> #[trigger] v.deep_view()[i] == v@[i]@,
{
    assert forall|i: int| 0 <= i < v@.len() implies #[trigger] v.deep_view()[i] == v@[i]@ by {
        assert(v@[i].deep_view() =~= v@[i]@);
    }
}

/// `deep_view` of a vector of strings reads each element's view.
pub proof fn lemma_deep_view_strings(v: Vec<String>)
    ensures
        v.deep_view().len() == v@.len(),
        forall|i: int| 0 <= i < v@.len() ==> #[trigger] v.deep_view()[i] == v@[i]@,
{
}

/// Runtime test for [`is_space_char`].
pub fn is_space(c: char) -> (r: bool)
    ensures
        r == is_space_char(c),
{
    c == ' ' || c == '\t' || c == '\r' || c == '\n'
}

/// Runtime test for [`is_word_char`].
pub fn is_word(c: char) -> (r: bool)
    ensures
        r == is_word_char(c),
{
    let u = c as u32;
    (97 <= u && u <= 122) || (65 <= u && u <= 90) || (48 <= u && u <= 57) || c == '_'
}

/// The characters of `s`, in order.
#[verifier::loop_isolation(false)]
pub fn str_to_chars(s: &str) -> (r: Vec<char>)
    ensures
        r@ == s@,
{
    let n = s.unicode_len();
    let mut r: Vec<char> = Vec::new();
    let mut i: usize = 0;
    while i < n
        invariant
            i <= n,
            r@ =~= s@.take(i as int),
        decreases n - i,
    {
        r.push(s.get_char(i));
        i = i + 1;
    }
    assert(s@.take(n as int) =~= s@);
    r
}

/// Relies on std's `String::push`: appends the character to the end of the
/// string.
#[verifier::external_body]
pub fn push_char(s: &mut String, c: char)
    ensures
        final(s)@ == old(s)@.push(c),
{
    s.push(c);
}

/// A `String` holding exactly the characters of `v`.
#[verifier::loop_isolation(false)]
pub fn chars_to_string(v: &Vec<char>) -> (r: String)
    ensures
        r@ == v@,
{
    let mut r = String::new();
    let mut i: usize = 0;
    while i < v.len()
        invariant
            i <= v.len(),
            r@ =~= v@.take(i as int),
        decreases v.len() - i,
    {
        push_char(&mut r, v[i]);
        i = i + 1;
    }
    assert(v@.take(v.len() as int) =~= v@);
    r
}

/// The characters of `s` from `lo` (inclusive) to `hi` (exclusive).
#[verifier::loop_isolation(false)]
pub fn subrange_chars(s: &Vec<char>, lo: usize, hi: usize) -> (r: Vec<char>)
    requires
        lo <= hi <= s.len(),
    ensures
        r@ == s@.subrange(lo as int, hi as int),
{
    let mut r: Vec<char> = Vec::new();
    let mut i: usize = lo;
    while i < hi
        invariant
            lo <= i <= hi,
            r@ =~= s@.subrange(lo as int, i as int),
        decreases hi - i,
    {
        r.push(s[i]);
        i = i + 1;
    }
    r
}

/// Runtime counterpart of [`trim_start`].
#[verifier::loop_isolation(false)]
pub fn trim_start_chars(s: &Vec<char>) -> (r: Vec<char>)
    ensures
        r@ == trim_start(s@),
{
    let n = s.len();
    let mut lo: usize = 0;
    while lo < n && is_space(s[lo])
        invariant
            lo <= n,
            forall|i: int| 0 <= i < lo ==> is_space_char(s@[i]),
        decreases n - lo,
    {
        lo = lo + 1;
    }
    proof {
        lemma_trim_start_is(s@, lo as int);
        assert(s@.skip(lo as int) =~= s@.subrange(lo as int, n as int));
    }
    subrange_chars(s, lo, n)
}

/// Runtime counterpart of [`trim_end`].
#[verifier::loop_isolation(false)]
pub fn trim_end_chars(s: &Vec<char>) -> (r: Vec<char>)
    ensures
        r@ == trim_end(s@),
{
    let n = s.len();
    let mut hi: usize = n;
    while hi > 0 && is_space(s[hi - 1])
        invariant
            hi <= n,
            forall|i: int| hi <= i < n ==> is_space_char(s@[i]),
        decreases hi,
    {
        hi = hi - 1;
    }
    proof {
        lemma_trim_end_is(s@, hi as int);
        assert(s@.take(hi as int) =~= s@.subrange(0, hi as int));
    }
    subrange_chars(s, 0, hi)
}

/// Runtime counterpart of [`trim`].
pub fn trim_chars(s: &Vec<char>) -> (r: Vec<char>)
    ensures
        r@ == trim(s@),
{
    let t = trim_start_chars(s);
    trim_end_chars(&t)
}

/// Runtime counterpart of [`first_index_of`].
#[verifier::loop_isolation(false)]
pub fn find_char(s: &Vec<char>, c: char) -> (k: usize)
    ensures
        k == first_index_of(s@, c),
        k <= s.len(),
{
    let n = s.len();
    let mut k: usize = 0;
    while k < n && s[k] != c
        invariant
            k <= n,
            forall|i: int| 0 <= i < k ==> s@[i] != c,
        decreases n - k,
    {
        k = k + 1;
    }
    proof {
        lemma_first_index_is(s@, c, k as int);
    }
    k
}

/// Runtime counterpart of [`word_run`].
#[verifier::loop_isolation(false)]
pub fn word_run_len(s: &Vec<char>) -> (k: usize)
    ensures
        k == word_run(s@),
        k <= s.len(),
{
    let n = s.len();
    let mut k: usize = 0;
    while k < n && is_word(s[k])
        invariant
            k <= n,
            forall|i: int| 0 <= i < k ==> is_word_char(s@[i]),
        decreases n - k,
    {
        k = k + 1;
    }
    proof {
        lemma_word_run_is(s@, k as int);
    }
    k
}

/// Runtime counterpart of [`token_run`].
#[verifier::loop_isolation(false)]
pub fn token_run_len(s: &Vec<char>) -> (k: usize)
    ensures
        k == token_run(s@),
        k <= s.len(),
{
    let n = s.len();
    let mut k: usize = 0;
    while k < n && !is_space(s[k])
        invariant
            k <= n,
            forall|i: int| 0 <= i < k ==> !is_space_char(s@[i]),
        decreases n - k,
    {
        k = k + 1;
    }
    proof {
        lemma_token_run_is(s@, k as int);
    }
    k
}

/// Runtime counterpart of [`spec_lines`].
#[verifier::loop_isolation(false)]
pub fn split_lines(s: &Vec<char>) -> (r: Vec<Vec<char>>)
    ensures
        r.deep_view() == spec_lines(s@),
{
    let n = s.len();
    let mut out: Vec<Vec<char>> = Vec::new();
    let mut cur: Vec<char> = Vec::new();
    let mut i: usize = 0;
    proof {
        assert(s@.skip(0) =~= s@);
    }
    while i < n
        invariant
            i <= n,
            out.deep_view() + lines_rec(s@.skip(i as int), cur@) =~= spec_lines(s@),
        decreases n - i,
    {
        proof {
            assert(s@.skip(i as int).drop_first() =~= s@.skip(i as int + 1));
            assert(s@.skip(i as int)[0] == s@[i as int]);
        }
        let c = s[i];
        if c == '\n' {
            let ghost prev = cur@;
            if cur.len() > 0 && cur[cur.len() - 1] == '\r' {
                cur.pop();
                proof {
                    assert(cur@ =~= strip_cr(prev));
                }
            }
            assert(cur@ == strip_cr(prev));
            let ghost prev_out = out.deep_view();
            let ghost prev_seq = out@;
            proof {
                lemma_deep_view_chars(out);
            }
            out.push(cur);
            proof {
                lemma_deep_view_chars(out);
                assert(out.deep_view() =~= prev_out.push(strip_cr(prev)));
                assert(prev_out.push(strip_cr(prev)) + lines_rec(s@.skip(i as int + 1), Seq::empty())
                    =~= prev_out + (seq![strip_cr(prev)] + lines_rec(
                    s@.skip(i as int + 1),
                    Seq::empty(),
                )));
            }
            cur = Vec::new();
        } else {
            cur.push(c);
        }
        i = i + 1;
    }
    proof {
        assert(s@.skip(n as int) =~= Seq::<char>::empty());
    }
    if cur.len() > 0 {
        let ghost prev_out = out.deep_view();
        let ghost prev_cur = cur@;
        proof {
            lemma_deep_view_chars(out);
        }
        out.push(cur);
        proof {
            lemma_deep_view_chars(out);
            assert(out.deep_view() =~= prev_out.push(prev_cur));
            assert(prev_out.push(prev_cur) =~= prev_out + lines_rec(Seq::empty(), prev_cur));
        }
    }
    assert(out.deep_view() =~= spec_lines(s@));
    out
}

} // verus!
