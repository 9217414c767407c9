//! The tagged-field line grammars.
//!
//! A param line reads `@param <name> <type-expr> [= <default>] <description>`:
//! the name is a non-empty run of word characters, the type expression is
//! either a bracketed union `[A | B | ...]` or a single non-whitespace token,
//! the optional default is the single token after `=`, and the rest of the
//! line, trimmed, is the description. A return line reads
//! `@return <type> <description>` with a single token type: union syntax is
//! deliberately not offered for return types. Both grammars anchor at the
//! start of the trimmed line, and both allow the description to be empty. A
//! line fitting neither grammar is dropped by the extractor.

use vstd::prelude::*;
use crate::chars::{
    chars_to_string, find_char, first_index_of, is_space, is_space_char, lemma_deep_view_strings,
    token_run, token_run_len, trim, trim_chars, trim_end, trim_end_chars, trim_start,
    trim_start_chars, subrange_chars, word_run, word_run_len,
};

verus! {

/// A parsed `@param` field, at the specification level.
#[verifier::ext_equal]
pub ghost struct SpecParam {
    /// The parameter's name.
    pub name: Seq<char>,
    /// The type alternatives, in source order; always at least one.
    pub type_alternatives: Seq<Seq<char>>,
    /// The default literal, kept uninterpreted, if one was given.
    pub default: Option<Seq<char>>,
    /// The trailing free text of the line.
    pub description: Seq<char>,
}

/// A parsed `@return` field, at the specification level.
#[verifier::ext_equal]
pub ghost struct SpecReturn {
    /// The return type, a single token.
    pub ret_type: Seq<char>,
    /// The trailing free text of the line.
    pub description: Seq<char>,
}

/// The tag opening a param line.
pub open spec fn param_tag() -> Seq<char> {
    seq!['@', 'p', 'a', 'r', 'a', 'm']
}

/// The tag opening a return line.
pub open spec fn return_tag() -> Seq<char> {
    seq!['@', 'r', 'e', 't', 'u', 'r', 'n']
}

/// Does `s` begin with `p`?
pub open spec fn starts_with(s: Seq<char>, p: Seq<char>) -> bool {
    s.len() >= p.len() && s.take(p.len() as int) == p
}

/// Is `c` one of the brackets of the union syntax?
pub open spec fn is_bracket_char(c: char) -> bool {
    c == '[' || c == ']'
}

/// The sequence without its leading brackets.
pub open spec fn bracket_trim_start(s: Seq<char>) -> Seq<char>
    decreases s.len(),
{
    if s.len() > 0 && is_bracket_char(s[0]) {
        bracket_trim_start(s.drop_first())
    } else {
        s
    }
}

/// The sequence without its trailing brackets.
pub open spec fn bracket_trim_end(s: Seq<char>) -> Seq<char>
    decreases s.len(),
{
    if s.len() > 0 && is_bracket_char(s.last()) {
        bracket_trim_end(s.drop_last())
    } else {
        s
    }
}

/// The sequence without leading and trailing brackets.
pub open spec fn strip_brackets(s: Seq<char>) -> Seq<char> {
    bracket_trim_end(bracket_trim_start(s))
}

/// Length of the type expression at the head of `s`: a bracketed union runs
/// to the first `]` (which must close a non-empty interior); anything else is
/// a plain non-whitespace token.
pub open spec fn type_token_run(s: Seq<char>) -> nat {
    if s.len() > 0 && s[0] == '[' && first_index_of(s, ']') >= 2 && first_index_of(s, ']')
        < s.len() {
        first_index_of(s, ']') + 1
    } else {
        token_run(s)
    }
}

/// The interior of a type expression split on `|`, each alternative trimmed.
/// Empty alternatives are retained as empty strings, not filtered.
pub open spec fn split_alternatives(s: Seq<char>) -> Seq<Seq<char>>
    decreases s.len(),
{
    let j = first_index_of(s, '|');
    if j >= s.len() {
        seq![trim(s)]
    } else {
        seq![trim(s.take(j as int))] + split_alternatives(s.skip(j as int + 1))
    }
}

/// The param line grammar. `None` when the line does not fit it.
pub open spec fn spec_parse_param(line: Seq<char>) -> Option<SpecParam> {
    let s = trim(line);
    if !starts_with(s, param_tag()) {
        None
    } else {
        let s1 = s.skip(param_tag().len() as int);
        if s1.len() == 0 || !is_space_char(s1[0]) {
            None
        } else {
            let s2 = trim_start(s1);
            let nlen = word_run(s2);
            if nlen == 0 {
                None
            } else {
                let name = s2.take(nlen as int);
                let s3 = s2.skip(nlen as int);
                if s3.len() == 0 || !is_space_char(s3[0]) {
                    None
                } else {
                    let s4 = trim_start(s3);
                    let tlen = type_token_run(s4);
                    if tlen == 0 {
                        None
                    } else {
                        let alts = split_alternatives(strip_brackets(s4.take(tlen as int)));
                        let s5 = trim_start(s4.skip(tlen as int));
                        if s5.len() > 0 && s5[0] == '=' {
                            let s6 = trim_start(s5.skip(1));
                            let dlen = token_run(s6);
                            if dlen == 0 {
                                Some(
                                    SpecParam {
                                        name,
                                        type_alternatives: alts,
                                        default: None,
                                        description: trim_end(s5),
                                    },
                                )
                            } else {
                                Some(
                                    SpecParam {
                                        name,
                                        type_alternatives: alts,
                                        default: Some(s6.take(dlen as int)),
                                        description: trim_end(trim_start(s6.skip(dlen as int))),
                                    },
                                )
                            }
                        } else {
                            Some(
                                SpecParam {
                                    name,
                                    type_alternatives: alts,
                                    default: None,
                                    description: trim_end(s5),
                                },
                            )
                        }
                    }
                }
            }
        }
    }
}

/// The return line grammar. `None` when the line does not fit it.
pub open spec fn spec_parse_return(line: Seq<char>) -> Option<SpecReturn> {
    let s = trim(line);
    if !starts_with(s, return_tag()) {
        None
    } else {
        let s1 = s.skip(return_tag().len() as int);
        if s1.len() == 0 || !is_space_char(s1[0]) {
            None
        } else {
            let s2 = trim_start(s1);
            let tlen = token_run(s2);
            if tlen == 0 {
                None
            } else {
                Some(
                    SpecReturn {
                        ret_type: s2.take(tlen as int),
                        description: trim_end(trim_start(s2.skip(tlen as int))),
                    },
                )
            }
        }
    }
}

/// A parse result always carries at least one type alternative.
pub proof fn lemma_alternatives_nonempty(s: Seq<char>)
    ensures
        split_alternatives(s).len() >= 1,
    decreases s.len(),
{
    let j = first_index_of(s, '|');
    if j < s.len() {
        lemma_alternatives_nonempty(s.skip(j as int + 1));
    }
}

/// Whatever line a param parse succeeds on, the field carries at least one
/// type alternative.
pub proof fn lemma_param_alternatives_nonempty(line: Seq<char>)
    ensures
        spec_parse_param(line) matches Some(p) ==> p.type_alternatives.len() >= 1,
{
    let s = trim(line);
    if starts_with(s, param_tag()) {
        let s1 = s.skip(param_tag().len() as int);
        if s1.len() > 0 && is_space_char(s1[0]) {
            let s2 = trim_start(s1);
            let nlen = word_run(s2);
            let s3 = s2.skip(nlen as int);
            if nlen > 0 && s3.len() > 0 && is_space_char(s3[0]) {
                let s4 = trim_start(s3);
                let tlen = type_token_run(s4);
                if tlen > 0 {
                    lemma_alternatives_nonempty(strip_brackets(s4.take(tlen as int)));
                }
            }
        }
    }
}

/// `bracket_trim_start` removes exactly the leading bracket run.
pub proof fn lemma_bracket_trim_start_is(s: Seq<char>, k: int)
    requires
        0 <= k <= s.len(),
        forall|i: int| 0 <= i < k ==> is_bracket_char(s[i]),
        k == s.len() || !is_bracket_char(s[k]),
    ensures
        bracket_trim_start(s) == s.skip(k),
    decreases k,
{
    if k == 0 {
        assert(s.skip(0) =~= s);
    } else {
        let t = s.drop_first();
        assert(forall|i: int| 0 <= i < k - 1 ==> is_bracket_char(t[i]));
        lemma_bracket_trim_start_is(t, k - 1);
        assert(t.skip(k - 1) =~= s.skip(k));
    }
}

/// `bracket_trim_end` removes exactly the trailing bracket run.
pub proof fn lemma_bracket_trim_end_is(s: Seq<char>, k: int)
    requires
        0 <= k <= s.len(),
        forall|i: int| k <= i < s.len() ==> is_bracket_char(s[i]),
        k == 0 || !is_bracket_char(s[k - 1]),
    ensures
        bracket_trim_end(s) == s.take(k),
    decreases s.len(),
{
    if k == s.len() {
        assert(s.take(k) =~= s);
    } else {
        let t = s.drop_last();
        lemma_bracket_trim_end_is(t, k);
        assert(t.take(k) =~= s.take(k));
    }
}

/// A parsed `@param` field.
pub struct ParamField {
    /// The parameter's name.
    pub name: String,
    /// The type alternatives, in source order; always at least one.
    pub type_alternatives: Vec<String>,
    /// The default literal, kept uninterpreted, if one was given.
    pub default: Option<String>,
    /// The trailing free text of the line.
    pub description: String,
}

impl View for ParamField {
    type V = SpecParam;

    open spec fn view(&self) -> SpecParam {
        SpecParam {
            name: self.name@,
            type_alternatives: self.type_alternatives.deep_view(),
            default: self.default.deep_view(),
            description: self.description@,
        }
    }
}

impl DeepView for ParamField {
    type V = SpecParam;

    open spec fn deep_view(&self) -> SpecParam {
        self.view()
    }
}

/// A parsed `@return` field.
pub struct ReturnField {
    /// The return type, a single token.
    pub ret_type: String,
    /// The trailing free text of the line.
    pub description: String,
}

impl View for ReturnField {
    type V = SpecReturn;

    open spec fn view(&self) -> SpecReturn {
        SpecReturn { ret_type: self.ret_type@, description: self.description@ }
    }
}

impl DeepView for ReturnField {
    type V = SpecReturn;

    open spec fn deep_view(&self) -> SpecReturn {
        self.view()
    }
}

/// Runtime counterpart of [`strip_brackets`].
#[verifier::loop_isolation(false)]
pub fn strip_brackets_chars(s: &Vec<char>) -> (r: Vec<char>)
    ensures
        r@ == strip_brackets(s@),
{
    let n = s.len();
    let mut lo: usize = 0;
    while lo < n && (s[lo] == '[' || s[lo] == ']')
        invariant
            lo <= n,
            forall|i: int| 0 <= i < lo ==> is_bracket_char(s@[i]),
        decreases n - lo,
    {
        lo = lo + 1;
    }
    let mut hi: usize = n;
    while hi > lo && (s[hi - 1] == '[' || s[hi - 1] == ']')
        invariant
            lo <= hi <= n,
            forall|i: int| hi <= i < n ==> is_bracket_char(s@[i]),
        decreases hi,
    {
        hi = hi - 1;
    }
    proof {
        lemma_bracket_trim_start_is(s@, lo as int);
        let t = s@.skip(lo as int);
        assert(forall|i: int| hi - lo <= i < t.len() ==> is_bracket_char(t[i]));
        lemma_bracket_trim_end_is(t, hi - lo);
        assert(t.take(hi - lo) =~= s@.subrange(lo as int, hi as int));
    }
    subrange_chars(s, lo, hi)
}

/// Runtime counterpart of [`type_token_run`].
pub fn type_token_len(s: &Vec<char>) -> (k: usize)
    ensures
        k == type_token_run(s@),
        k <= s.len(),
{
    if s.len() > 0 && s[0] == '[' {
        let j = find_char(s, ']');
        if j >= 2 && j < s.len() {
            j + 1
        } else {
            token_run_len(s)
        }
    } else {
        token_run_len(s)
    }
}

/// Runtime counterpart of [`split_alternatives`].
pub fn split_alts(s: &Vec<char>) -> (r: Vec<String>)
    ensures
        r.deep_view() == split_alternatives(s@),
{
    let mut out: Vec<String> = Vec::new();
    let mut pos: usize = 0;
    proof {
        assert(s@.skip(0) =~= s@);
    }
    loop
        invariant_except_break
            out.deep_view() + split_alternatives(s@.skip(pos as int)) =~= split_alternatives(s@),
        invariant
            pos <= s.len(),
        ensures
            out.deep_view() == split_alternatives(s@),
        decreases s.len() - pos,
    {
        let t = subrange_chars(s, pos, s.len());
        proof {
            assert(t@ =~= s@.skip(pos as int));
        }
        let j = find_char(&t, '|');
        if j >= t.len() {
            let piece = trim_chars(&t);
            let ghost prev_out = out.deep_view();
            proof {
                lemma_deep_view_strings(out);
            }
            out.push(chars_to_string(&piece));
            proof {
                lemma_deep_view_strings(out);
                assert(out.deep_view() =~= prev_out.push(trim(t@)));
                assert(prev_out.push(trim(t@)) =~= prev_out + seq![trim(t@)]);
                assert(split_alternatives(t@) == seq![trim(t@)]);
                assert(out.deep_view() =~= split_alternatives(s@));
            }
            break ;
        } else {
            let piece0 = subrange_chars(&t, 0, j);
            proof {
                assert(piece0@ =~= t@.take(j as int));
            }
            let piece = trim_chars(&piece0);
            let ghost prev_out = out.deep_view();
            proof {
                lemma_deep_view_strings(out);
            }
            out.push(chars_to_string(&piece));
            proof {
                lemma_deep_view_strings(out);
                assert(out.deep_view() =~= prev_out.push(trim(t@.take(j as int))));
                assert(t@.skip(j as int + 1) =~= s@.skip(pos as int + j as int + 1));
                assert(prev_out.push(trim(t@.take(j as int))) + split_alternatives(
                    t@.skip(j as int + 1),
                ) =~= prev_out + (seq![trim(t@.take(j as int))] + split_alternatives(
                    t@.skip(j as int + 1),
                )));
            }
            pos = pos + j + 1;
        }
    }
    out
}

/// Tries the param line grammar on one line.
pub fn parse_param_line(line: &Vec<char>) -> (r: Option<ParamField>)
    ensures
        match r {
            Some(p) => spec_parse_param(line@) == Some(p@),
            None => spec_parse_param(line@) is None,
        },
{
    let s = trim_chars(line);
    let tag_ok = s.len() >= 6 && s[0] == '@' && s[1] == 'p' && s[2] == 'a' && s[3] == 'r' && s[4]
        == 'a' && s[5] == 'm';
    proof {
        if s@.len() >= 6 {
            if tag_ok {
                assert(s@.take(6) =~= param_tag());
            } else if s@.take(6) == param_tag() {
                assert(s@[0] == s@.take(6)[0]);
                assert(s@[1] == s@.take(6)[1]);
                assert(s@[2] == s@.take(6)[2]);
                assert(s@[3] == s@.take(6)[3]);
                assert(s@[4] == s@.take(6)[4]);
                assert(s@[5] == s@.take(6)[5]);
                assert(false);
            }
        }
        assert(tag_ok == starts_with(s@, param_tag()));
    }
    if !tag_ok {
        return None;
    }
    let s1 = subrange_chars(&s, 6, s.len());
    proof {
        assert(s1@ =~= s@.skip(6));
    }
    if s1.len() == 0 || !is_space(s1[0]) {
        return None;
    }
    let s2 = trim_start_chars(&s1);
    let nlen = word_run_len(&s2);
    if nlen == 0 {
        return None;
    }
    let name_chars = subrange_chars(&s2, 0, nlen);
    let s3 = subrange_chars(&s2, nlen, s2.len());
    proof {
        assert(name_chars@ =~= s2@.take(nlen as int));
        assert(s3@ =~= s2@.skip(nlen as int));
    }
    if s3.len() == 0 || !is_space(s3[0]) {
        return None;
    }
    let s4 = trim_start_chars(&s3);
    let tlen = type_token_len(&s4);
    if tlen == 0 {
        return None;
    }
    let raw_type = subrange_chars(&s4, 0, tlen);
    let rest4 = subrange_chars(&s4, tlen, s4.len());
    proof {
        assert(raw_type@ =~= s4@.take(tlen as int));
        assert(rest4@ =~= s4@.skip(tlen as int));
    }
    let stripped = strip_brackets_chars(&raw_type);
    let alts = split_alts(&stripped);
    let s5 = trim_start_chars(&rest4);
    let name = chars_to_string(&name_chars);
    if s5.len() > 0 && s5[0] == '=' {
        let rest5 = subrange_chars(&s5, 1, s5.len());
        proof {
            assert(rest5@ =~= s5@.skip(1));
        }
        let s6 = trim_start_chars(&rest5);
        let dlen = token_run_len(&s6);
        if dlen == 0 {
            let desc = trim_end_chars(&s5);
            let p = ParamField {
                name,
                type_alternatives: alts,
                default: None,
                description: chars_to_string(&desc),
            };
            return Some(p);
        } else {
            let def_chars = subrange_chars(&s6, 0, dlen);
            let rest6 = subrange_chars(&s6, dlen, s6.len());
            proof {
                assert(def_chars@ =~= s6@.take(dlen as int));
                assert(rest6@ =~= s6@.skip(dlen as int));
            }
            let after = trim_start_chars(&rest6);
            let desc = trim_end_chars(&after);
            let p = ParamField {
                name,
                type_alternatives: alts,
                default: Some(chars_to_string(&def_chars)),
                description: chars_to_string(&desc),
            };
            return Some(p);
        }
    } else {
        let desc = trim_end_chars(&s5);
        let p = ParamField {
            name,
            type_alternatives: alts,
            default: None,
            description: chars_to_string(&desc),
        };
        return Some(p);
    }
}

/// Tries the return line grammar on one line.
pub fn parse_return_line(line: &Vec<char>) -> (r: Option<ReturnField>)
    ensures
        match r {
            Some(f) => spec_parse_return(line@) == Some(f@),
            None => spec_parse_return(line@) is None,
        },
{
    let s = trim_chars(line);
    let tag_ok = s.len() >= 7 && s[0] == '@' && s[1] == 'r' && s[2] == 'e' && s[3] == 't' && s[4]
        == 'u' && s[5] == 'r' && s[6] == 'n';
    proof {
        if s@.len() >= 7 {
            if tag_ok {
                assert(s@.take(7) =~= return_tag());
            } else if s@.take(7) == return_tag() {
                assert(s@[0] == s@.take(7)[0]);
                assert(s@[1] == s@.take(7)[1]);
                assert(s@[2] == s@.take(7)[2]);
                assert(s@[3] == s@.take(7)[3]);
                assert(s@[4] == s@.take(7)[4]);
                assert(s@[5] == s@.take(7)[5]);
                assert(s@[6] == s@.take(7)[6]);
                assert(false);
            }
        }
        assert(tag_ok == starts_with(s@, return_tag()));
    }
    if !tag_ok {
        return None;
    }
    let s1 = subrange_chars(&s, 7, s.len());
    proof {
        assert(s1@ =~= s@.skip(7));
    }
    if s1.len() == 0 || !is_space(s1[0]) {
        return None;
    }
    let s2 = trim_start_chars(&s1);
    let tlen = token_run_len(&s2);
    if tlen == 0 {
        return None;
    }
    let ty_chars = subrange_chars(&s2, 0, tlen);
    let rest = subrange_chars(&s2, tlen, s2.len());
    proof {
        assert(ty_chars@ =~= s2@.take(tlen as int));
        assert(rest@ =~= s2@.skip(tlen as int));
    }
    let after = trim_start_chars(&rest);
    let desc = trim_end_chars(&after);
    let f = ReturnField {
        ret_type: chars_to_string(&ty_chars),
        description: chars_to_string(&desc),
    };
    Some(f)
}

} // verus!
