//! Markdown rendering of parsed records.
//!
//! A record renders as a `##` heading taken from its description's title,
//! then a `### Parameters:` section with one line per param, then a
//! `### Returns:` section for the return field. The heading needs the
//! description to split on the fixed `": "` separator into a title and a
//! body; a record whose description lacks the separator cannot be rendered,
//! and the caller must test for that first.

use vstd::prelude::*;
use vstd::string::StringExecFns;
use crate::chars::{
    chars_to_string, join_with, lemma_deep_view_strings, lemma_join_with_push, str_to_chars,
    subrange_chars,
};
use crate::extract::{DocRecord, SpecRecord};
use crate::fields::{ParamField, ReturnField, SpecParam, SpecReturn};

verus! {

/// Index of the first `": "` separator in `s`, or `s.len()` when absent.
pub open spec fn sep_index(s: Seq<char>) -> nat
    decreases s.len(),
{
    if s.len() < 2 {
        s.len()
    } else if s[0] == ':' && s[1] == ' ' {
        0
    } else {
        1 + sep_index(s.drop_first())
    }
}

/// Does the description hold the `": "` separator that splits it into a
/// title and a body?
pub open spec fn spec_has_title_separator(s: Seq<char>) -> bool {
    exists|j: int| 0 <= j && j + 2 <= s.len() && #[trigger] s[j] == ':' && s[j + 1] == ' '
}

/// The rendered default clause of a param: `(default: d)`, or nothing.
pub open spec fn spec_default_markdown(d: Option<Seq<char>>) -> Seq<char> {
    match d {
        Some(t) => "(default: "@ + t + ")"@,
        None => Seq::empty(),
    }
}

/// One rendered param line.
pub open spec fn spec_param_markdown(p: SpecParam) -> Seq<char> {
    p.name + ": `"@ + join_with(p.type_alternatives, " | "@) + "` "@ + spec_default_markdown(
        p.default,
    ) + " "@ + p.description + " \n"@
}

/// One rendered return line.
pub open spec fn spec_return_markdown(r: SpecReturn) -> Seq<char> {
    "`"@ + r.ret_type + "`: "@ + r.description + " \n"@
}

/// The rendered param lines, concatenated in order.
pub open spec fn spec_params_markdown(ps: Seq<SpecParam>) -> Seq<char>
    decreases ps.len(),
{
    if ps.len() == 0 {
        Seq::empty()
    } else {
        spec_param_markdown(ps[0]) + spec_params_markdown(ps.drop_first())
    }
}

/// The rendered record: heading from the description's title, then the
/// params section when there are params, then the returns section.
pub open spec fn spec_record_markdown(r: SpecRecord) -> Seq<char> {
    "## "@ + r.description.take(sep_index(r.description) as int) + "\n"@ + (if r.params.len() > 0 {
        "### Parameters: \n"@ + spec_params_markdown(r.params)
    } else {
        Seq::empty()
    }) + (match r.return_field {
        Some(f) => "### Returns: \n"@ + spec_return_markdown(f),
        None => Seq::empty(),
    }) + "\n"@
}

/// `sep_index` is pinned down by its characteristic properties.
proof fn lemma_sep_index_is(s: Seq<char>, k: int)
    requires
        0 <= k,
        k + 2 <= s.len(),
        forall|j: int| 0 <= j < k ==> !(#[trigger] s[j] == ':' && s[j + 1] == ' '),
        s[k] == ':' && s[k + 1] == ' ',
    ensures
        sep_index(s) == k,
    decreases k,
{
    if k == 0 {
    } else {
        let t = s.drop_first();
        assert(forall|j: int| 0 <= j < k - 1 ==> !(#[trigger] t[j] == ':' && t[j + 1] == ' '));
        lemma_sep_index_is(t, k - 1);
    }
}

/// Bounds and characterization of `sep_index`.
pub proof fn lemma_sep_index_le(s: Seq<char>)
    ensures
        sep_index(s) <= s.len(),
        sep_index(s) < s.len() ==> sep_index(s) + 2 <= s.len() && s[sep_index(s) as int] == ':'
            && s[sep_index(s) as int + 1] == ' ',
        forall|j: int|
            0 <= j < sep_index(s) ==> !(j + 2 <= s.len() && #[trigger] s[j] == ':' && s[j + 1] == ' '),
    decreases s.len(),
{
    if s.len() < 2 {
    } else if s[0] == ':' && s[1] == ' ' {
    } else {
        let t = s.drop_first();
        lemma_sep_index_le(t);
        assert forall|j: int|
            0 <= j < sep_index(s) implies !(j + 2 <= s.len() && #[trigger] s[j] == ':' && s[j + 1] == ' ') by {
            if j > 0 && j + 2 <= s.len() {
                assert(t[j - 1] == s[j] && t[j] == s[j + 1]);
            }
        }
    }
}

/// The separator is present exactly when `sep_index` falls inside `s`.
pub proof fn lemma_sep_index_found(s: Seq<char>)
    ensures
        spec_has_title_separator(s) <==> sep_index(s) < s.len(),
{
    lemma_sep_index_le(s);
    if spec_has_title_separator(s) {
        let j = choose|j: int| 0 <= j && j + 2 <= s.len() && #[trigger] s[j] == ':' && s[j + 1] == ' ';
        if sep_index(s) >= s.len() {
            assert(!(j + 2 <= s.len() && s[j] == ':' && s[j + 1] == ' '));
        }
    }
}

/// Rendering one more param appends its line.
proof fn lemma_params_markdown_push(ps: Seq<SpecParam>, p: SpecParam)
    ensures
        spec_params_markdown(ps.push(p)) == spec_params_markdown(ps) + spec_param_markdown(p),
    decreases ps.len(),
{
    let e = ps.push(p);
    if ps.len() == 0 {
        assert(e[0] == p);
        assert(e.drop_first() =~= Seq::<SpecParam>::empty());
        assert(spec_params_markdown(Seq::<SpecParam>::empty()) == Seq::<char>::empty());
        assert(spec_param_markdown(p) + Seq::<char>::empty() =~= spec_param_markdown(p));
        assert(Seq::<char>::empty() + spec_param_markdown(p) =~= spec_param_markdown(p));
    } else {
        assert(e[0] == ps[0]);
        assert(e.drop_first() =~= ps.drop_first().push(p));
        lemma_params_markdown_push(ps.drop_first(), p);
        assert(spec_param_markdown(ps[0]) + (spec_params_markdown(ps.drop_first())
            + spec_param_markdown(p)) =~= (spec_param_markdown(ps[0]) + spec_params_markdown(
            ps.drop_first(),
        )) + spec_param_markdown(p));
    }
}

/// Finds the first `": "` separator.
#[verifier::loop_isolation(false)]
fn find_sep(dc: &Vec<char>) -> (k: usize)
    ensures
        k == sep_index(dc@),
        k <= dc.len(),
{
    let n = dc.len();
    let mut i: usize = 0;
    while i < n && !(i + 1 < n && dc[i] == ':' && dc[i + 1] == ' ')
        invariant
            i <= n,
            forall|j: int| 0 <= j < i ==> !(j + 2 <= n && #[trigger] dc@[j] == ':' && dc@[j + 1] == ' '),
        decreases n - i,
    {
        i = i + 1;
    }
    proof {
        lemma_sep_index_le(dc@);
        if i < n {
            lemma_sep_index_is(dc@, i as int);
        } else {
            if sep_index(dc@) < n {
                assert(!(sep_index(dc@) + 2 <= n && dc@[sep_index(dc@) as int] == ':'
                    && dc@[sep_index(dc@) as int + 1] == ' '));
            }
        }
    }
    i
}

impl ReturnField {
    /// Renders this return field as one Markdown line.
    pub fn into_markdown(&self) -> (r: String)
        ensures
            r@ == spec_return_markdown(self@),
    {
        let mut md = String::new();
        md.append("`");
        md.append(self.ret_type.as_str());
        md.append("`: ");
        md.append(self.description.as_str());
        md.append(" \n");
        proof {
            assert(md@ =~= spec_return_markdown(self@));
        }
        md
    }
}

/// Joins the strings of `parts` with `sep` between neighbours.
#[verifier::loop_isolation(false)]
pub fn join_strings(parts: &Vec<String>, sep: &str) -> (r: String)
    ensures
        r@ == join_with(parts.deep_view(), sep@),
{
    let ghost pv = parts.deep_view();
    proof {
        lemma_deep_view_strings(*parts);
        assert(pv.take(0) =~= Seq::<Seq<char>>::empty());
    }
    let mut r = String::new();
    let mut i: usize = 0;
    while i < parts.len()
        invariant
            i <= parts.len(),
            r@ =~= join_with(pv.take(i as int), sep@),
        decreases parts.len() - i,
    {
        if i > 0 {
            r.append(sep);
        }
        r.append(parts[i].as_str());
        proof {
            lemma_join_with_push(pv.take(i as int), sep@, pv[i as int]);
            assert(pv.take(i as int).push(pv[i as int]) =~= pv.take(i as int + 1));
        }
        i = i + 1;
    }
    proof {
        assert(pv.take(parts@.len() as int) =~= pv);
    }
    r
}

impl ParamField {
    /// Renders this param as one Markdown line.
    pub fn into_markdown(&self) -> (r: String)
        ensures
            r@ == spec_param_markdown(self@),
    {
        let types = join_strings(&self.type_alternatives, " | ");
        let mut md = String::new();
        md.append(self.name.as_str());
        md.append(": `");
        md.append(types.as_str());
        md.append("` ");
        match &self.default {
            Some(d) => {
                md.append("(default: ");
                md.append(d.as_str());
                md.append(")");
            },
            None => {},
        }
        md.append(" ");
        md.append(self.description.as_str());
        md.append(" \n");
        proof {
            assert(md@ =~= spec_param_markdown(self@));
        }
        md
    }
}

impl DocRecord {
    /// Does this record's description hold the `": "` separator the renderer
    /// needs?
    pub fn has_title_separator(&self) -> (r: bool)
        ensures
            r == spec_has_title_separator(self@.description),
    {
        let dc = str_to_chars(self.description.as_str());
        let k = find_sep(&dc);
        proof {
            lemma_sep_index_found(dc@);
        }
        k < dc.len()
    }

    /// Renders this record as Markdown: heading, params section, returns
    /// section.
    #[verifier::loop_isolation(false)]
    pub fn into_markdown(&self) -> (r: String)
        requires
            spec_has_title_separator(self@.description),
        ensures
            r@ == spec_record_markdown(self@),
    {
        let dc = str_to_chars(self.description.as_str());
        let k = find_sep(&dc);
        proof {
            lemma_sep_index_found(dc@);
        }
        let title_chars = subrange_chars(&dc, 0, k);
        proof {
            assert(title_chars@ =~= self@.description.take(sep_index(self@.description) as int));
        }
        let title = chars_to_string(&title_chars);
        let mut md = String::new();
        md.append("## ");
        md.append(title.as_str());
        md.append("\n");
        let ghost head = md@;
        if self.params.len() > 0 {
            md.append("### Parameters: \n");
            let ghost pv = self.params.deep_view();
            let ghost base = md@;
            let mut i: usize = 0;
            proof {
                crate::extract::lemma_deep_view_fields(self.params);
                assert(pv.take(0) =~= Seq::<SpecParam>::empty());
            }
            while i < self.params.len()
                invariant
                    i <= self.params.len(),
                    md@ =~= base + spec_params_markdown(pv.take(i as int)),
                decreases self.params.len() - i,
            {
                let line = self.params[i].into_markdown();
                md.append(line.as_str());
                proof {
                    lemma_params_markdown_push(pv.take(i as int), pv[i as int]);
                    assert(pv.take(i as int).push(pv[i as int]) =~= pv.take(i as int + 1));
                }
                i = i + 1;
            }
            proof {
                assert(pv.take(self.params@.len() as int) =~= pv);
            }
        }
        match &self.return_field {
            Some(f) => {
                md.append("### Returns: \n");
                let line = f.into_markdown();
                md.append(line.as_str());
            },
            None => {},
        }
        md.append("\n");
        proof {
            assert(md@ =~= spec_record_markdown(self@));
        }
        md
    }
}

} // verus!
