//! Round-trip laws: a well-formed field serializes to a line that parses
//! back to exactly the same field, alternatives, default and description.
//!
//! Serialization writes the canonical spelling of each grammar: one space
//! between parts, a bracketed ` | `-joined union for several alternatives,
//! ` = ` before the default. Well-formedness asks of each part no more than
//! the grammar itself can carry: names are word runs, tokens carry no
//! whitespace, alternatives carry no `|` or `]`, free text is trimmed.

use vstd::prelude::*;
use crate::chars::{
    is_space_char, is_word_char, join_with, lemma_first_index_is, lemma_token_run_is,
    lemma_trim_noop, lemma_trim_start_is, lemma_trim_end_is, lemma_word_run_is, lines_rec,
    spec_lines, strip_cr, token_run, trim, trim_end, trim_start, word_run,
};
use crate::fields::{
    is_bracket_char, lemma_bracket_trim_end_is, lemma_bracket_trim_start_is, param_tag,
    return_tag, split_alternatives, starts_with, strip_brackets, type_token_run, SpecParam,
    SpecReturn, spec_parse_param, spec_parse_return,
};
use crate::extract::{
    is_tag_line, lemma_description_lines_is, lemma_tagless_line_no_field, spec_extract,
    spec_params, spec_return, SpecRecord,
};

verus! {

/// The canonical spelling of a type expression: the lone alternative, or a
/// bracketed ` | `-joined union.
pub open spec fn render_type_expr(alts: Seq<Seq<char>>) -> Seq<char> {
    if alts.len() == 1 {
        alts[0]
    } else {
        seq!['['] + join_with(alts, " | "@) + seq![']']
    }
}

/// The canonical spelling of the default clause: ` = d`, or nothing.
pub open spec fn render_default_clause(d: Option<Seq<char>>) -> Seq<char> {
    match d {
        Some(t) => " = "@ + t,
        None => Seq::empty(),
    }
}

/// A trailing part: one separating space before it, or nothing when empty.
pub open spec fn render_trailing(d: Seq<char>) -> Seq<char> {
    if d.len() == 0 {
        Seq::empty()
    } else {
        seq![' '] + d
    }
}

/// The canonical spelling of a param field as one line.
pub open spec fn render_param_line(p: SpecParam) -> Seq<char> {
    param_tag() + seq![' '] + p.name + seq![' '] + render_type_expr(p.type_alternatives)
        + render_default_clause(p.default) + render_trailing(p.description)
}

/// The canonical spelling of a return field as one line.
pub open spec fn render_return_line(r: SpecReturn) -> Seq<char> {
    return_tag() + seq![' '] + r.ret_type + render_trailing(r.description)
}

/// A name the grammar can carry: a non-empty word run.
pub open spec fn wf_name(s: Seq<char>) -> bool {
    s.len() > 0 && forall|i: int| 0 <= i < s.len() ==> is_word_char(#[trigger] s[i])
}

/// A token the grammar can carry: non-empty, no whitespace.
pub open spec fn wf_token(s: Seq<char>) -> bool {
    s.len() > 0 && forall|i: int| 0 <= i < s.len() ==> !is_space_char(#[trigger] s[i])
}

/// Free text the grammar can carry back unchanged: empty, or with
/// non-whitespace ends.
pub open spec fn wf_text(s: Seq<char>) -> bool {
    s.len() == 0 || (!is_space_char(s[0]) && !is_space_char(s[s.len() - 1]))
}

/// A lone type token: additionally free of the union syntax's characters.
pub open spec fn wf_single_type(s: Seq<char>) -> bool {
    s.len() > 0 && forall|i: int|
        0 <= i < s.len() ==> !is_space_char(#[trigger] s[i]) && s[i] != '|' && s[i] != '['
            && s[i] != ']'
}

/// One alternative inside a union: no `|` or `]` or line-breaking
/// whitespace anywhere, and no plain space at either end (so that trimming
/// gives it back). The empty alternative is allowed and survives the trip.
pub open spec fn wf_union_alt(a: Seq<char>) -> bool {
    (forall|i: int|
        0 <= i < a.len() ==> !(#[trigger] a[i] == '|' || a[i] == ']' || a[i] == '\n' || a[i]
            == '\r' || a[i] == '\t')) && (a.len() == 0 || (a[0] != ' ' && a[a.len() - 1] != ' '))
}

/// A union the grammar can carry: two or more alternatives, none touching
/// the closing syntax, the outermost characters no brackets.
pub open spec fn wf_union(alts: Seq<Seq<char>>) -> bool {
    alts.len() >= 2 && (forall|i: int| 0 <= i < alts.len() ==> wf_union_alt(#[trigger] alts[i]))
        && (alts[0].len() > 0 ==> alts[0][0] != '[') && (alts[alts.len() - 1].len() > 0
        ==> alts[alts.len() - 1][alts[alts.len() - 1].len() - 1] != '[')
}

/// A param field whose canonical line parses back to it.
pub open spec fn wf_param(p: SpecParam) -> bool {
    &&& wf_name(p.name)
    &&& p.type_alternatives.len() >= 1
    &&& (p.type_alternatives.len() == 1 ==> wf_single_type(p.type_alternatives[0]))
    &&& (p.type_alternatives.len() != 1 ==> wf_union(p.type_alternatives))
    &&& (match p.default {
        Some(d) => wf_token(d),
        None => true,
    })
    &&& wf_text(p.description)
    &&& (p.default is None ==> (p.description.len() == 0 || p.description[0] != '='))
}

/// A return field whose canonical line parses back to it.
pub open spec fn wf_return(r: SpecReturn) -> bool {
    wf_token(r.ret_type) && wf_text(r.description)
}

/// `trim_start` keeps every character property.
proof fn lemma_trim_start_no_char(s: Seq<char>, c: char)
    requires
        forall|i: int| 0 <= i < s.len() ==> s[i] != c,
    ensures
        forall|i: int| 0 <= i < trim_start(s).len() ==> trim_start(s)[i] != c,
    decreases s.len(),
{
    if s.len() > 0 && is_space_char(s[0]) {
        let t = s.drop_first();
        assert(forall|i: int| 0 <= i < t.len() ==> t[i] != c);
        lemma_trim_start_no_char(t, c);
        assert(trim_start(s) == trim_start(t));
        assert forall|i: int| 0 <= i < trim_start(s).len() implies trim_start(s)[i] != c by {
            assert(trim_start(t)[i] != c);
        }
    } else {
        assert(trim_start(s) == s);
        assert forall|i: int| 0 <= i < trim_start(s).len() implies trim_start(s)[i] != c by {
            assert(s[i] != c);
        }
    }
}

/// `trim_end` keeps every character property.
proof fn lemma_trim_end_no_char(s: Seq<char>, c: char)
    requires
        forall|i: int| 0 <= i < s.len() ==> s[i] != c,
    ensures
        forall|i: int| 0 <= i < trim_end(s).len() ==> trim_end(s)[i] != c,
    decreases s.len(),
{
    if s.len() > 0 && is_space_char(s[s.len() - 1]) {
        let t = s.drop_last();
        assert(forall|i: int| 0 <= i < t.len() ==> t[i] != c);
        lemma_trim_end_no_char(t, c);
        assert(trim_end(s) == trim_end(t));
        assert forall|i: int| 0 <= i < trim_end(s).len() implies trim_end(s)[i] != c by {
            assert(trim_end(t)[i] != c);
        }
    } else {
        assert(trim_end(s) == s);
        assert forall|i: int| 0 <= i < trim_end(s).len() implies trim_end(s)[i] != c by {
            assert(s[i] != c);
        }
    }
}

/// A param line without any `=` character yields an absent default.
pub proof fn lemma_no_equals_no_default(line: Seq<char>)
    requires
        forall|i: int| 0 <= i < line.len() ==> line[i] != '=',
    ensures
        match spec_parse_param(line) {
            Some(p) => p.default is None,
            None => true,
        },
{
    lemma_trim_start_no_char(line, '=');
    lemma_trim_end_no_char(trim_start(line), '=');
    let s = trim(line);
    if starts_with(s, param_tag()) {
        let s1 = s.skip(param_tag().len() as int);
        assert(forall|i: int| 0 <= i < s1.len() ==> s1[i] != '=');
        if s1.len() > 0 && is_space_char(s1[0]) {
            lemma_trim_start_no_char(s1, '=');
            let s2 = trim_start(s1);
            let nlen = word_run(s2);
            let s3 = s2.skip(nlen as int);
            if nlen > 0 && s3.len() > 0 && is_space_char(s3[0]) {
                assert(nlen <= s2.len()) by {
                    lemma_word_run_le(s2);
                }
                assert(forall|i: int| 0 <= i < s3.len() ==> s3[i] != '=');
                lemma_trim_start_no_char(s3, '=');
                let s4 = trim_start(s3);
                let tlen = type_token_run(s4);
                if tlen > 0 {
                    assert(tlen <= s4.len()) by {
                        lemma_type_token_run_le(s4);
                    }
                    let s5 = trim_start(s4.skip(tlen as int));
                    assert(forall|i: int|
                        0 <= i < s4.skip(tlen as int).len() ==> s4.skip(tlen as int)[i] != '=');
                    lemma_trim_start_no_char(s4.skip(tlen as int), '=');
                    assert(!(s5.len() > 0 && s5[0] == '='));
                }
            }
        }
    }
}

/// `word_run` never exceeds the length.
proof fn lemma_word_run_le(s: Seq<char>)
    ensures
        word_run(s) <= s.len(),
    decreases s.len(),
{
    if s.len() > 0 && is_word_char(s[0]) {
        lemma_word_run_le(s.drop_first());
    }
}

/// `token_run` never exceeds the length.
proof fn lemma_token_run_le(s: Seq<char>)
    ensures
        token_run(s) <= s.len(),
    decreases s.len(),
{
    if s.len() > 0 && !is_space_char(s[0]) {
        lemma_token_run_le(s.drop_first());
    }
}

/// `type_token_run` never exceeds the length.
proof fn lemma_type_token_run_le(s: Seq<char>)
    ensures
        type_token_run(s) <= s.len(),
{
    lemma_token_run_le(s);
}

/// A word character is never whitespace.
proof fn lemma_word_not_space(c: char)
    requires
        is_word_char(c),
    ensures
        !is_space_char(c),
{
}

/// A `| `-joined union interior never holds the closing bracket.
proof fn lemma_join_no_close(alts: Seq<Seq<char>>)
    requires
        forall|i: int| 0 <= i < alts.len() ==> wf_union_alt(#[trigger] alts[i]),
    ensures
        forall|i: int|
            0 <= i < join_with(alts, " | "@).len() ==> #[trigger] join_with(alts, " | "@)[i]
                != ']',
    decreases alts.len(),
{
    reveal_strlit(" | ");
    let j = join_with(alts, " | "@);
    if alts.len() == 0 {
    } else if alts.len() == 1 {
        assert(j == alts[0]);
        assert(wf_union_alt(alts[0]));
        assert forall|i: int| 0 <= i < j.len() implies #[trigger] j[i] != ']' by {
            assert(!(alts[0][i] == '|' || alts[0][i] == ']' || alts[0][i] == '\n' || alts[0][i]
                == '\r' || alts[0][i] == '\t'));
        }
    } else {
        let rest = alts.drop_first();
        lemma_join_no_close(rest);
        assert(j == alts[0] + " | "@ + join_with(rest, " | "@));
        assert forall|i: int| 0 <= i < j.len() implies #[trigger] j[i] != ']' by {
            let a0 = alts[0];
            if i < a0.len() {
                assert(j[i] == a0[i]);
                assert(!(a0[i] == '|' || a0[i] == ']' || a0[i] == '\n' || a0[i] == '\r' || a0[i]
                    == '\t'));
            } else if i < a0.len() + 3 {
                assert(j[i] == " | "@[i - a0.len()]);
            } else {
                assert(j[i] == join_with(rest, " | "@)[i - a0.len() - 3]);
            }
        }
    }
}

/// Splitting a padded union interior (as the text after a separator looks)
/// gives back the alternatives.
proof fn lemma_split_join_padded(alts: Seq<Seq<char>>)
    requires
        alts.len() >= 1,
        forall|i: int| 0 <= i < alts.len() ==> wf_union_alt(#[trigger] alts[i]),
    ensures
        split_alternatives(seq![' '] + join_with(alts, " | "@)) == alts,
    decreases alts.len(),
{
    reveal_strlit(" | ");
    let s = seq![' '] + join_with(alts, " | "@);
    let a0 = alts[0];
    if alts.len() == 1 {
        assert(s =~= seq![' '] + a0);
        assert(forall|i: int| 0 <= i < s.len() ==> s[i] != '|');
        lemma_first_index_is(s, '|', s.len() as int);
        if a0.len() == 0 {
            lemma_trim_start_is(s, 1);
            assert(s.skip(1) =~= a0);
            assert(trim(s) =~= a0);
        } else {
            assert(!is_space_char(a0[0]));
            assert(!is_space_char(a0[a0.len() - 1]));
            lemma_trim_start_is(s, 1);
            assert(s.skip(1) =~= a0);
            assert(trim_end(a0) == a0);
        }
        assert(split_alternatives(s) =~= seq![a0]);
        assert(seq![a0] =~= alts);
    } else {
        let rest = alts.drop_first();
        let jr = join_with(rest, " | "@);
        assert(join_with(alts, " | "@) == a0 + " | "@ + jr);
        let pre = seq![' '] + a0 + seq![' '];
        let post = seq![' '] + jr;
        assert(" | "@ =~= seq![' '] + seq!['|'] + seq![' ']);
        assert(s =~= pre + seq!['|'] + post);
        let jidx = pre.len() as int;
        assert(forall|i: int| 0 <= i < a0.len() ==> a0[i] != '|');
        assert forall|i: int| 0 <= i < jidx implies s[i] != '|' by {
            if 1 <= i < 1 + a0.len() {
                assert(s[i] == a0[i - 1]);
            }
        }
        assert(s[jidx] == '|');
        lemma_first_index_is(s, '|', jidx);
        assert(s.take(jidx) =~= pre);
        assert(s.skip(jidx + 1) =~= post);
        // trim(pre) == a0
        if a0.len() == 0 {
            lemma_trim_start_is(pre, 2);
            assert(pre.skip(2) =~= a0);
            assert(trim(pre) =~= a0);
        } else {
            assert(!is_space_char(a0[0]));
            assert(!is_space_char(a0[a0.len() - 1]));
            lemma_trim_start_is(pre, 1);
            assert(pre.skip(1) =~= a0 + seq![' ']);
            lemma_trim_end_is(a0 + seq![' '], a0.len() as int);
            assert((a0 + seq![' ']).take(a0.len() as int) =~= a0);
        }
        lemma_split_join_padded(rest);
        assert(split_alternatives(s) == seq![trim(pre)] + rest);
        assert(seq![a0] + rest =~= alts);
    }
}

/// Splitting a union interior gives back the alternatives, in order and
/// count.
pub proof fn lemma_split_join(alts: Seq<Seq<char>>)
    requires
        alts.len() >= 1,
        forall|i: int| 0 <= i < alts.len() ==> wf_union_alt(#[trigger] alts[i]),
    ensures
        split_alternatives(join_with(alts, " | "@)) == alts,
    decreases alts.len(),
{
    reveal_strlit(" | ");
    let s = join_with(alts, " | "@);
    let a0 = alts[0];
    if alts.len() == 1 {
        assert(s == a0);
        assert(forall|i: int| 0 <= i < s.len() ==> s[i] != '|');
        lemma_first_index_is(s, '|', s.len() as int);
        if a0.len() == 0 {
            assert(trim(a0) =~= a0);
        } else {
            assert(!is_space_char(a0[0]));
            assert(!is_space_char(a0[a0.len() - 1]));
            lemma_trim_noop(a0);
        }
        assert(split_alternatives(s) =~= seq![a0]);
        assert(seq![a0] =~= alts);
    } else {
        let rest = alts.drop_first();
        let jr = join_with(rest, " | "@);
        assert(s == a0 + " | "@ + jr);
        let pre = a0 + seq![' '];
        let post = seq![' '] + jr;
        assert(" | "@ =~= seq![' '] + seq!['|'] + seq![' ']);
        assert(s =~= pre + seq!['|'] + post);
        let jidx = pre.len() as int;
        assert(forall|i: int| 0 <= i < a0.len() ==> a0[i] != '|');
        assert forall|i: int| 0 <= i < jidx implies s[i] != '|' by {
            if i < a0.len() {
                assert(s[i] == a0[i]);
            }
        }
        assert(s[jidx] == '|');
        lemma_first_index_is(s, '|', jidx);
        assert(s.take(jidx) =~= pre);
        assert(s.skip(jidx + 1) =~= post);
        if a0.len() == 0 {
            lemma_trim_start_is(pre, 1);
            assert(pre.skip(1) =~= a0);
            assert(trim(pre) =~= a0);
        } else {
            assert(!is_space_char(a0[0]));
            assert(!is_space_char(a0[a0.len() - 1]));
            lemma_trim_start_is(pre, 0);
            assert(pre.skip(0) =~= pre);
            lemma_trim_end_is(pre, a0.len() as int);
            assert(pre.take(a0.len() as int) =~= a0);
        }
        lemma_split_join_padded(rest);
        assert(split_alternatives(s) == seq![trim(pre)] + rest);
        assert(seq![a0] + rest =~= alts);
    }
}

/// The bracketed spelling of a union strips and splits back to exactly the
/// alternatives written, in order and count.
pub proof fn lemma_union_round_trip(alts: Seq<Seq<char>>)
    requires
        wf_union(alts),
    ensures
        split_alternatives(strip_brackets(render_type_expr(alts))) == alts,
{
    reveal_strlit(" | ");
    let j = join_with(alts, " | "@);
    let raw = seq!['['] + j + seq![']'];
    assert(render_type_expr(alts) =~= raw);
    let a0 = alts[0];
    let last = alts[alts.len() - 1];
    // the interior's first and last characters are no brackets
    assert(j == a0 + " | "@ + join_with(alts.drop_first(), " | "@));
    assert(j.len() >= a0.len() + 3);
    if a0.len() > 0 {
        assert(j[0] == a0[0]);
        assert(!(a0[0] == '|' || a0[0] == ']' || a0[0] == '\n' || a0[0] == '\r' || a0[0] == '\t'));
    } else {
        assert(j[0] == ' ');
    }
    lemma_join_last(alts);
    assert(!is_bracket_char(raw[1]));
    assert(!is_bracket_char(j[j.len() - 1]));
    // strip the brackets
    lemma_bracket_trim_start_is(raw, 1);
    assert(raw.skip(1) =~= j + seq![']']);
    lemma_bracket_trim_end_is(j + seq![']'], j.len() as int);
    assert((j + seq![']']).take(j.len() as int) =~= j);
    assert(strip_brackets(raw) == j);
    lemma_split_join(alts);
}

/// The last character of a joined union is the last alternative's last
/// character, or the separator's trailing space when that alternative is
/// empty; either way no bracket.
proof fn lemma_join_last(alts: Seq<Seq<char>>)
    requires
        alts.len() >= 2,
        forall|i: int| 0 <= i < alts.len() ==> wf_union_alt(#[trigger] alts[i]),
        alts[alts.len() - 1].len() > 0 ==> alts[alts.len() - 1][alts[alts.len() - 1].len() - 1]
            != '[',
    ensures
        join_with(alts, " | "@).len() >= 1,
        !is_bracket_char(join_with(alts, " | "@)[join_with(alts, " | "@).len() - 1]),
    decreases alts.len(),
{
    reveal_strlit(" | ");
    let j = join_with(alts, " | "@);
    let last = alts[alts.len() - 1];
    let rest = alts.drop_first();
    let jr = join_with(rest, " | "@);
    assert(j == alts[0] + " | "@ + jr);
    if alts.len() == 2 {
        assert(rest.len() == 1);
        assert(rest[0] == last);
        assert(jr == last);
        if last.len() == 0 {
            assert(j =~= alts[0] + " | "@);
            assert(j[j.len() - 1] == " | "@[2]);
        } else {
            assert(j[j.len() - 1] == last[last.len() - 1]);
            assert(!(last[last.len() - 1] == '|' || last[last.len() - 1] == ']'
                || last[last.len() - 1] == '\n' || last[last.len() - 1] == '\r'
                || last[last.len() - 1] == '\t'));
        }
    } else {
        assert(rest[rest.len() - 1] == last);
        lemma_join_last(rest);
        assert(j[j.len() - 1] == jr[jr.len() - 1]);
    }
}

/// A lone well-formed type token strips and splits to itself alone.
pub proof fn lemma_single_round_trip(t: Seq<char>)
    requires
        wf_single_type(t),
    ensures
        split_alternatives(strip_brackets(t)) == seq![t],
{
    assert(!is_bracket_char(t[0]));
    assert(!is_bracket_char(t[t.len() - 1]));
    lemma_bracket_trim_start_is(t, 0);
    assert(t.skip(0) =~= t);
    lemma_bracket_trim_end_is(t, t.len() as int);
    assert(t.take(t.len() as int) =~= t);
    assert(strip_brackets(t) == t);
    assert(forall|i: int| 0 <= i < t.len() ==> t[i] != '|');
    lemma_first_index_is(t, '|', t.len() as int);
    lemma_trim_noop(t);
    assert(split_alternatives(t) =~= seq![t]);
}

/// Facts about the rendered type expression's extent: non-empty, with
/// non-whitespace ends.
proof fn lemma_te_ends(p: SpecParam)
    requires
        wf_param(p),
    ensures
        ({
            let te = render_type_expr(p.type_alternatives);
            te.len() > 0 && !is_space_char(te[0]) && !is_space_char(te[te.len() - 1])
        }),
{
    reveal_strlit(" | ");
    let alts = p.type_alternatives;
    let te = render_type_expr(alts);
    if alts.len() == 1 {
        assert(te == alts[0]);
    } else {
        let j = join_with(alts, " | "@);
        assert(te =~= seq!['['] + j + seq![']']);
        assert(te[0] == '[');
        assert(te[te.len() - 1] == ']');
    }
}

/// The head of a canonical param line: trimming-stable, tagged, and the
/// name parses off the front.
proof fn lemma_param_head(p: SpecParam)
    requires
        wf_param(p),
    ensures
        ({
            let line = render_param_line(p);
            let te = render_type_expr(p.type_alternatives);
            let tail = seq![' '] + te + render_default_clause(p.default) + render_trailing(
                p.description,
            );
            let s1 = line.skip(param_tag().len() as int);
            let s2 = trim_start(s1);
            &&& trim(line) == line
            &&& starts_with(line, param_tag())
            &&& s1.len() > 0
            &&& is_space_char(s1[0])
            &&& s2 == p.name + tail
            &&& word_run(s2) == p.name.len()
            &&& s2.take(p.name.len() as int) == p.name
            &&& s2.skip(p.name.len() as int) == tail
        }),
{
    reveal_strlit(" | ");
    reveal_strlit(" = ");
    lemma_te_ends(p);
    let name = p.name;
    let d = p.description;
    let te = render_type_expr(p.type_alternatives);
    let dc = render_default_clause(p.default);
    let rt = render_trailing(d);
    let tail = seq![' '] + te + dc + rt;
    let line = render_param_line(p);
    assert(line.len() == 8 + name.len() + te.len() + dc.len() + rt.len());
    assert(line[0] == '@');
    if d.len() > 0 {
        assert(line[line.len() - 1] == d[d.len() - 1]);
    } else if p.default is Some {
        let dt = p.default->0;
        assert(dc =~= " = "@ + dt);
        assert(line[line.len() - 1] == dt[dt.len() - 1]);
    } else {
        assert(line[line.len() - 1] == te[te.len() - 1]);
    }
    lemma_trim_noop(line);
    assert(line.take(6) =~= param_tag());
    assert(starts_with(line, param_tag()));
    let s1 = line.skip(6);
    assert(s1 =~= seq![' '] + name + tail);
    assert(s1[0] == ' ');
    assert(s1[1] == name[0]);
    assert forall|i: int| 0 <= i < name.len() implies !is_space_char(name[i]) by {
        lemma_word_not_space(name[i]);
    }
    lemma_trim_start_is(s1, 1);
    let s2 = s1.skip(1);
    assert(s2 =~= name + tail);
    assert(forall|i: int| 0 <= i < name.len() ==> s2[i] == name[i]);
    assert(s2[name.len() as int] == ' ');
    lemma_word_run_is(s2, name.len() as int);
    assert(s2.take(name.len() as int) =~= name);
    assert(s2.skip(name.len() as int) =~= tail);
}

/// The middle of a canonical param line: the type expression parses off the
/// front of the tail and splits back to the alternatives.
proof fn lemma_param_type(p: SpecParam)
    requires
        wf_param(p),
    ensures
        ({
            let te = render_type_expr(p.type_alternatives);
            let dc = render_default_clause(p.default);
            let rt = render_trailing(p.description);
            let tail = seq![' '] + te + dc + rt;
            let s4 = trim_start(tail);
            &&& tail.len() > 0
            &&& is_space_char(tail[0])
            &&& s4 == te + dc + rt
            &&& type_token_run(s4) == te.len()
            &&& s4.take(te.len() as int) == te
            &&& s4.skip(te.len() as int) == dc + rt
            &&& split_alternatives(strip_brackets(te)) == p.type_alternatives
        }),
{
    reveal_strlit(" | ");
    reveal_strlit(" = ");
    lemma_te_ends(p);
    let alts = p.type_alternatives;
    let d = p.description;
    let te = render_type_expr(alts);
    let dc = render_default_clause(p.default);
    let rt = render_trailing(d);
    let tail = seq![' '] + te + dc + rt;
    assert(tail[0] == ' ');
    assert(tail[1] == te[0]);
    lemma_trim_start_is(tail, 1);
    let s4 = tail.skip(1);
    assert(s4 =~= te + dc + rt);
    assert(forall|i: int| 0 <= i < te.len() ==> s4[i] == te[i]);
    if dc.len() > 0 {
        assert(dc == " = "@ + p.default->0);
        assert(dc[0] == ' ');
        assert(s4[te.len() as int] == ' ');
    } else if rt.len() > 0 {
        assert(rt[0] == ' ');
        assert(s4 =~= te + rt);
        assert(s4[te.len() as int] == ' ');
    }
    if alts.len() == 1 {
        assert(forall|i: int| 0 <= i < te.len() ==> !is_space_char(s4[i]) && s4[i] != '[');
        lemma_token_run_is(s4, te.len() as int);
        assert(s4[0] != '[');
        assert(type_token_run(s4) == te.len());
        lemma_single_round_trip(alts[0]);
        assert(split_alternatives(strip_brackets(te)) == seq![alts[0]]);
        assert(seq![alts[0]] =~= alts);
    } else {
        let j = join_with(alts, " | "@);
        assert(te =~= seq!['['] + j + seq![']']);
        assert(s4[0] == '[');
        lemma_join_no_close(alts);
        assert forall|i: int| 0 <= i < te.len() - 1 implies s4[i] != ']' by {
            if i >= 1 {
                assert(s4[i] == j[i - 1]);
            }
        }
        assert(s4[te.len() - 1] == ']');
        lemma_first_index_is(s4, ']', te.len() - 1);
        assert(j.len() >= 3) by {
            assert(j == alts[0] + " | "@ + join_with(alts.drop_first(), " | "@));
        }
        assert(te.len() - 1 >= 2);
        assert(type_token_run(s4) == te.len());
        lemma_union_round_trip(alts);
    }
    assert(s4.take(te.len() as int) =~= te);
    assert(s4.skip(te.len() as int) =~= dc + rt);
}

/// The end of a canonical param line: the default token and the trimmed
/// description parse off the rest.
proof fn lemma_param_tail(p: SpecParam)
    requires
        wf_param(p),
    ensures
        ({
            let dc = render_default_clause(p.default);
            let rt = render_trailing(p.description);
            let s5 = trim_start(dc + rt);
            match p.default {
                Some(dt) => {
                    &&& s5.len() > 0
                    &&& s5[0] == '='
                    &&& {
                        let s6 = trim_start(s5.skip(1));
                        &&& token_run(s6) == dt.len()
                        &&& s6.take(dt.len() as int) == dt
                        &&& trim_end(trim_start(s6.skip(dt.len() as int))) == p.description
                    }
                },
                None => {
                    &&& !(s5.len() > 0 && s5[0] == '=')
                    &&& trim_end(s5) == p.description
                },
            }
        }),
{
    reveal_strlit(" = ");
    let d = p.description;
    let dc = render_default_clause(p.default);
    let rt = render_trailing(d);
    let s5pre = dc + rt;
    match p.default {
        Some(dt) => {
            assert(dc =~= seq![' '] + seq!['='] + seq![' '] + dt);
            assert(s5pre[0] == ' ');
            assert(s5pre[1] == '=');
            lemma_trim_start_is(s5pre, 1);
            let s5 = s5pre.skip(1);
            assert(s5 =~= seq!['='] + seq![' '] + dt + rt);
            assert(s5[0] == '=');
            let s5b = s5.skip(1);
            assert(s5b =~= seq![' '] + dt + rt);
            assert(s5b[0] == ' ');
            assert(s5b[1] == dt[0]);
            lemma_trim_start_is(s5b, 1);
            let s6 = s5b.skip(1);
            assert(s6 =~= dt + rt);
            assert(forall|i: int| 0 <= i < dt.len() ==> s6[i] == dt[i]);
            if rt.len() > 0 {
                assert(s6[dt.len() as int] == ' ');
            }
            lemma_token_run_is(s6, dt.len() as int);
            assert(s6.take(dt.len() as int) =~= dt);
            let s7 = s6.skip(dt.len() as int);
            assert(s7 =~= rt);
            if d.len() == 0 {
                assert(trim_end(trim_start(s7)) =~= Seq::<char>::empty());
            } else {
                assert(s7[0] == ' ');
                assert(s7[1] == d[0]);
                lemma_trim_start_is(s7, 1);
                assert(s7.skip(1) =~= d);
                assert(trim_end(d) == d);
            }
        },
        None => {
            assert(dc.len() == 0);
            assert(s5pre =~= rt);
            if d.len() == 0 {
                assert(s5pre.len() == 0);
                assert(trim_start(s5pre) == s5pre);
                assert(trim_end(s5pre) =~= Seq::<char>::empty());
            } else {
                assert(s5pre[0] == ' ');
                assert(s5pre[1] == d[0]);
                lemma_trim_start_is(s5pre, 1);
                assert(s5pre.skip(1) =~= d);
                assert(d[0] != '=');
                assert(trim_end(d) == d);
            }
        },
    }
}

/// A well-formed param field's canonical line parses back to it: the same
/// name, the same alternatives in the same order, the same default, the
/// same description.
pub proof fn lemma_param_round_trip(p: SpecParam)
    requires
        wf_param(p),
    ensures
        spec_parse_param(render_param_line(p)) == Some(p),
{
    lemma_param_head(p);
    lemma_param_type(p);
    lemma_param_tail(p);
    let line = render_param_line(p);
    let te = render_type_expr(p.type_alternatives);
    let dc = render_default_clause(p.default);
    let rt = render_trailing(p.description);
    let tail = seq![' '] + te + dc + rt;
    let s = trim(line);
    assert(s == line);
    let s1 = s.skip(param_tag().len() as int);
    let s2 = trim_start(s1);
    assert(s2.skip(word_run(s2) as int) == tail);
    let s4 = trim_start(tail);
    assert(type_token_run(s4) == te.len());
    assert(te.len() > 0) by {
        lemma_te_ends(p);
    }
    assert(s4.skip(te.len() as int) == dc + rt);
    let s5 = trim_start(dc + rt);
    match p.default {
        Some(dt) => {
            assert(spec_parse_param(line) matches Some(q) && q =~= p);
        },
        None => {
            assert(spec_parse_param(line) matches Some(q) && q =~= p);
        },
    }
}

/// A well-formed return field's canonical line parses back to it.
pub proof fn lemma_return_round_trip(r: SpecReturn)
    requires
        wf_return(r),
    ensures
        spec_parse_return(render_return_line(r)) == Some(r),
{
    let ty = r.ret_type;
    let d = r.description;
    let rt = render_trailing(d);
    let line = render_return_line(r);
    assert(line.len() == 8 + ty.len() + rt.len());
    assert(line[0] == '@');
    if d.len() > 0 {
        assert(line[line.len() - 1] == d[d.len() - 1]);
    } else {
        assert(line[line.len() - 1] == ty[ty.len() - 1]);
    }
    lemma_trim_noop(line);
    assert(line.take(7) =~= return_tag());
    assert(starts_with(line, return_tag()));
    let s1 = line.skip(7);
    assert(s1 =~= seq![' '] + ty + rt);
    assert(s1[0] == ' ');
    assert(s1[1] == ty[0]);
    lemma_trim_start_is(s1, 1);
    let s2 = s1.skip(1);
    assert(s2 =~= ty + rt);
    assert(forall|i: int| 0 <= i < ty.len() ==> s2[i] == ty[i]);
    if rt.len() > 0 {
        assert(s2[ty.len() as int] == ' ');
    }
    lemma_token_run_is(s2, ty.len() as int);
    assert(s2.take(ty.len() as int) =~= ty);
    let s3 = s2.skip(ty.len() as int);
    assert(s3 =~= rt);
    if d.len() == 0 {
        assert(trim_end(trim_start(s3)) =~= Seq::<char>::empty());
    } else {
        assert(s3[0] == ' ');
        assert(s3[1] == d[0]);
        lemma_trim_start_is(s3, 1);
        assert(s3.skip(1) =~= d);
        assert(trim_end(d) == d);
    }
    assert(spec_parse_return(line) matches Some(q) && q =~= SpecReturn { ret_type: ty, description: d });
}

/// Lines written back as one block: each line followed by a newline.
pub open spec fn unlines(ls: Seq<Seq<char>>) -> Seq<char>
    decreases ls.len(),
{
    if ls.len() == 0 {
        Seq::empty()
    } else {
        ls[0] + seq!['\n'] + unlines(ls.drop_first())
    }
}

/// A line that survives being written into a block: no newline inside, no
/// carriage return at its end.
pub open spec fn line_fits(l: Seq<char>) -> bool {
    (forall|i: int| 0 <= i < l.len() ==> #[trigger] l[i] != '\n') && (l.len() == 0 || l[l.len()
        - 1] != '\r')
}

/// No line break anywhere in the text.
pub open spec fn no_break(s: Seq<char>) -> bool {
    forall|i: int| 0 <= i < s.len() ==> #[trigger] s[i] != '\n' && s[i] != '\r'
}

/// Reading one written line gathers exactly its characters.
proof fn lemma_lines_rec_one(l: Seq<char>, rest: Seq<char>, cur: Seq<char>)
    requires
        forall|i: int| 0 <= i < l.len() ==> #[trigger] l[i] != '\n',
        (cur + l).len() == 0 || (cur + l)[(cur + l).len() - 1] != '\r',
    ensures
        lines_rec(l + seq!['\n'] + rest, cur) == seq![cur + l] + lines_rec(rest, Seq::empty()),
    decreases l.len(),
{
    let s = l + seq!['\n'] + rest;
    if l.len() == 0 {
        assert(s =~= seq!['\n'] + rest);
        assert(s[0] == '\n');
        assert(s.drop_first() =~= rest);
        assert(cur + l =~= cur);
        assert(strip_cr(cur) == cur);
    } else {
        assert(s[0] == l[0]);
        assert(s.drop_first() =~= l.drop_first() + seq!['\n'] + rest);
        assert(cur.push(l[0]) + l.drop_first() =~= cur + l);
        lemma_lines_rec_one(l.drop_first(), rest, cur.push(l[0]));
    }
}

/// Splitting a written block gives back its lines.
pub proof fn lemma_lines_unlines(ls: Seq<Seq<char>>)
    requires
        forall|i: int| 0 <= i < ls.len() ==> line_fits(#[trigger] ls[i]),
    ensures
        spec_lines(unlines(ls)) == ls,
    decreases ls.len(),
{
    if ls.len() == 0 {
    } else {
        let rest = ls.drop_first();
        assert(line_fits(ls[0]));
        assert(Seq::<char>::empty() + ls[0] =~= ls[0]);
        lemma_lines_rec_one(ls[0], unlines(rest), Seq::empty());
        lemma_lines_unlines(rest);
        assert(seq![Seq::<char>::empty() + ls[0]] + rest =~= ls);
    }
}

/// The lines of a record written back as one block: the description line,
/// one line per param, the return line.
pub open spec fn render_record_lines(r: SpecRecord) -> Seq<Seq<char>> {
    seq![r.description] + r.params.map_values(|p: SpecParam| render_param_line(p)) + (
    match r.return_field {
        Some(f) => seq![render_return_line(f)],
        None => Seq::<Seq<char>>::empty(),
    })
}

/// A record written back as one block.
pub open spec fn render_record_block(r: SpecRecord) -> Seq<char> {
    unlines(render_record_lines(r))
}

/// A record whose written block extracts back to it.
pub open spec fn wf_record(r: SpecRecord) -> bool {
    &&& wf_text(r.description)
    &&& no_break(r.description)
    &&& (r.description.len() > 0 ==> r.description[0] != '@')
    &&& (forall|i: int|
        0 <= i < r.params.len() ==> wf_param(#[trigger] r.params[i]) && no_break(
            r.params[i].description,
        ))
    &&& (match r.return_field {
        Some(f) => wf_return(f) && no_break(f.description),
        None => true,
    })
}

/// A canonical param line fits in a block.
proof fn lemma_param_line_fits(p: SpecParam)
    requires
        wf_param(p),
        no_break(p.description),
    ensures
        line_fits(render_param_line(p)),
        trim(render_param_line(p)) == render_param_line(p),
        render_param_line(p)[0] == '@',
        spec_parse_param(render_param_line(p)) == Some(p),
{
    reveal_strlit(" | ");
    reveal_strlit(" = ");
    lemma_param_head(p);
    lemma_param_round_trip(p);
    lemma_te_ends(p);
    let name = p.name;
    let te = render_type_expr(p.type_alternatives);
    let dc = render_default_clause(p.default);
    let rt = render_trailing(p.description);
    let line = render_param_line(p);
    assert forall|i: int| 0 <= i < te.len() implies #[trigger] te[i] != '\n' && te[i] != '\r' by {
        if p.type_alternatives.len() == 1 {
            assert(te[i] == p.type_alternatives[0][i]);
        } else {
            let j = join_with(p.type_alternatives, " | "@);
            assert(te =~= seq!['['] + j + seq![']']);
            if 1 <= i < te.len() - 1 {
                assert(te[i] == j[i - 1]);
                lemma_join_no_break(p.type_alternatives);
            }
        }
    }
    assert forall|i: int| 0 <= i < line.len() implies #[trigger] line[i] != '\n' by {
        if i < 6 {
            assert(line[i] == param_tag()[i]);
        } else if i == 6 {
            assert(line[i] == ' ');
        } else if i < 7 + name.len() {
            assert(line[i] == name[i - 7]);
            lemma_word_not_space(name[i - 7]);
        } else if i == 7 + name.len() {
            assert(line[i] == ' ');
        } else if i < 8 + name.len() + te.len() {
            assert(line[i] == te[i - 8 - name.len()]);
        } else if i < 8 + name.len() + te.len() + dc.len() {
            let k = i - 8 - name.len() - te.len();
            assert(dc =~= seq![' '] + seq!['='] + seq![' '] + p.default->0);
            assert(line[i] == dc[k]);
            if k >= 3 {
                assert(dc[k] == p.default->0[k - 3]);
            }
        } else {
            let k = i - 8 - name.len() - te.len() - dc.len();
            assert(line[i] == rt[k]);
            assert(rt =~= seq![' '] + p.description);
            if k >= 1 {
                assert(rt[k] == p.description[k - 1]);
            }
        }
    }
    assert(line[line.len() - 1] != '\r') by {
        if p.description.len() > 0 {
            assert(line[line.len() - 1] == p.description[p.description.len() - 1]);
        } else if p.default is Some {
            let dt = p.default->0;
            assert(dc =~= " = "@ + dt);
            assert(line[line.len() - 1] == dt[dt.len() - 1]);
        } else {
            assert(line[line.len() - 1] == te[te.len() - 1]);
        }
    }
}

/// A `| `-joined union interior never holds a line break.
proof fn lemma_join_no_break(alts: Seq<Seq<char>>)
    requires
        forall|i: int| 0 <= i < alts.len() ==> wf_union_alt(#[trigger] alts[i]),
    ensures
        forall|i: int|
            0 <= i < join_with(alts, " | "@).len() ==> #[trigger] join_with(alts, " | "@)[i]
                != '\n' && join_with(alts, " | "@)[i] != '\r',
    decreases alts.len(),
{
    reveal_strlit(" | ");
    let j = join_with(alts, " | "@);
    if alts.len() == 0 {
    } else if alts.len() == 1 {
        assert(j == alts[0]);
        assert forall|i: int| 0 <= i < j.len() implies #[trigger] j[i] != '\n' && j[i] != '\r' by {
            assert(!(alts[0][i] == '|' || alts[0][i] == ']' || alts[0][i] == '\n' || alts[0][i]
                == '\r' || alts[0][i] == '\t'));
        }
    } else {
        let rest = alts.drop_first();
        lemma_join_no_break(rest);
        assert(j == alts[0] + " | "@ + join_with(rest, " | "@));
        assert forall|i: int| 0 <= i < j.len() implies #[trigger] j[i] != '\n' && j[i] != '\r' by {
            let a0 = alts[0];
            if i < a0.len() {
                assert(j[i] == a0[i]);
                assert(!(a0[i] == '|' || a0[i] == ']' || a0[i] == '\n' || a0[i] == '\r' || a0[i]
                    == '\t'));
            } else if i < a0.len() + 3 {
                assert(j[i] == " | "@[i - a0.len()]);
            } else {
                assert(j[i] == join_with(rest, " | "@)[i - a0.len() - 3]);
            }
        }
    }
}

/// A canonical return line fits in a block, and never reads as a param
/// line.
proof fn lemma_return_line_fits(f: SpecReturn)
    requires
        wf_return(f),
        no_break(f.description),
    ensures
        line_fits(render_return_line(f)),
        trim(render_return_line(f)) == render_return_line(f),
        render_return_line(f)[0] == '@',
        spec_parse_return(render_return_line(f)) == Some(f),
        spec_parse_param(render_return_line(f)) is None,
{
    lemma_return_round_trip(f);
    let ty = f.ret_type;
    let d = f.description;
    let rt = render_trailing(d);
    let line = render_return_line(f);
    assert(line[0] == '@');
    if d.len() > 0 {
        assert(line[line.len() - 1] == d[d.len() - 1]);
    } else {
        assert(line[line.len() - 1] == ty[ty.len() - 1]);
    }
    lemma_trim_noop(line);
    assert forall|i: int| 0 <= i < line.len() implies #[trigger] line[i] != '\n' by {
        if i < 7 {
            assert(line[i] == return_tag()[i]);
        } else if i == 7 {
            assert(line[i] == ' ');
        } else if i < 8 + ty.len() {
            assert(line[i] == ty[i - 8]);
        } else {
            let k = i - 8 - ty.len();
            assert(line[i] == rt[k]);
            assert(rt =~= seq![' '] + d);
            if k >= 1 {
                assert(rt[k] == d[k - 1]);
            }
        }
    }
    assert(line[line.len() - 1] != '\r');
    if starts_with(trim(line), param_tag()) {
        assert(trim(line)[1] == trim(line).take(6)[1]);
        assert(line[1] == 'p');
        assert(line[1] == return_tag()[1]);
        assert(false);
    }
}

/// Scanning rendered param lines, then lines free of params, collects
/// exactly the params.
proof fn lemma_params_scan(pls: Seq<SpecParam>, extra: Seq<Seq<char>>)
    requires
        forall|i: int|
            0 <= i < pls.len() ==> spec_parse_param(render_param_line(#[trigger] pls[i]))
                == Some(pls[i]),
        spec_params(extra) == Seq::<SpecParam>::empty(),
    ensures
        spec_params(pls.map_values(|p: SpecParam| render_param_line(p)) + extra) == pls,
    decreases pls.len(),
{
    let m = pls.map_values(|p: SpecParam| render_param_line(p));
    let e = m + extra;
    if pls.len() == 0 {
        assert(e =~= extra);
    } else {
        assert(e[0] == render_param_line(pls[0]));
        assert(e.drop_first() =~= pls.drop_first().map_values(|p: SpecParam| render_param_line(p))
            + extra);
        lemma_params_scan(pls.drop_first(), extra);
        assert(spec_params(e) == seq![pls[0]] + pls.drop_first());
        assert(seq![pls[0]] + pls.drop_first() =~= pls);
    }
}

/// Scanning rendered param lines never yields a return field; what follows
/// them decides.
proof fn lemma_return_scan(pls: Seq<SpecParam>, extra: Seq<Seq<char>>)
    requires
        forall|i: int|
            0 <= i < pls.len() ==> spec_parse_param(render_param_line(#[trigger] pls[i]))
                == Some(pls[i]),
    ensures
        spec_return(pls.map_values(|p: SpecParam| render_param_line(p)) + extra) == spec_return(
            extra,
        ),
    decreases pls.len(),
{
    let m = pls.map_values(|p: SpecParam| render_param_line(p));
    let e = m + extra;
    if pls.len() == 0 {
        assert(e =~= extra);
    } else {
        assert(e[0] == render_param_line(pls[0]));
        assert(e.drop_first() =~= pls.drop_first().map_values(|p: SpecParam| render_param_line(p))
            + extra);
        lemma_return_scan(pls.drop_first(), extra);
    }
}

/// A well-formed record written back as one block extracts to exactly the
/// record: the description, the params in order, the return field.
#[verifier::rlimit(60)]
pub proof fn lemma_record_round_trip(r: SpecRecord)
    requires
        wf_record(r),
    ensures
        spec_extract(render_record_block(r)) == r,
{
    let pls = r.params;
    let m = pls.map_values(|p: SpecParam| render_param_line(p));
    let extra = match r.return_field {
        Some(f) => seq![render_return_line(f)],
        None => Seq::<Seq<char>>::empty(),
    };
    let ls = render_record_lines(r);
    assert(ls =~= seq![r.description] + m + extra);
    // every line fits, so the block splits back into the lines
    assert forall|i: int| 0 <= i < ls.len() implies line_fits(#[trigger] ls[i]) by {
        if i == 0 {
            assert(ls[0] == r.description);
        } else if i < 1 + m.len() {
            assert(ls[i] == render_param_line(pls[i - 1]));
            lemma_param_line_fits(pls[i - 1]);
        } else {
            let f = r.return_field->0;
            assert(ls[i] == render_return_line(f));
            lemma_return_line_fits(f);
        }
    }
    lemma_lines_unlines(ls);
    // the description line is no tag line; every other line is one
    assert(!is_tag_line(r.description)) by {
        if r.description.len() == 0 {
            assert(trim(r.description) == r.description);
        } else {
            lemma_trim_noop(r.description);
        }
    }
    lemma_tagless_line_no_field(r.description);
    assert forall|i: int| 1 <= i < ls.len() implies is_tag_line(#[trigger] ls[i]) by {
        if i < 1 + m.len() {
            lemma_param_line_fits(pls[i - 1]);
            assert(ls[i] == render_param_line(pls[i - 1]));
            lemma_param_head(pls[i - 1]);
        } else {
            let f = r.return_field->0;
            lemma_return_line_fits(f);
            assert(ls[i] == render_return_line(f));
        }
    }
    // description
    if ls.len() > 1 {
        lemma_description_lines_is(ls, 1);
    } else {
        lemma_description_lines_is(ls, 1);
    }
    assert(ls.take(1) =~= seq![r.description]);
    assert(join_with(seq![r.description], seq![' ']) == r.description);
    assert(trim(r.description) == r.description) by {
        if r.description.len() > 0 {
            lemma_trim_noop(r.description);
        }
    }
    // params and return
    assert forall|i: int|
        0 <= i < pls.len() implies spec_parse_param(render_param_line(#[trigger] pls[i]))
        == Some(pls[i]) by {
        lemma_param_line_fits(pls[i]);
    }
    assert(spec_params(extra) == Seq::<SpecParam>::empty() && spec_return(extra)
        == r.return_field) by {
        assert(spec_params(Seq::<Seq<char>>::empty()) == Seq::<SpecParam>::empty());
        assert(spec_return(Seq::<Seq<char>>::empty()) is None);
        match r.return_field {
            Some(f) => {
                lemma_return_line_fits(f);
                assert(extra[0] == render_return_line(f));
                assert(extra.drop_first() =~= Seq::<Seq<char>>::empty());
            },
            None => {},
        }
    }
    lemma_params_scan(pls, extra);
    lemma_return_scan(pls, extra);
    assert(ls[0] == r.description);
    assert(ls.drop_first() =~= m + extra);
    assert(spec_params(ls) == pls);
    assert(spec_return(ls) == r.return_field);
    assert(spec_extract(render_record_block(r)) =~= r);
}

} // verus!
