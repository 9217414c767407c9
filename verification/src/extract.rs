//! Block extraction: from one raw block to one structured record.
//!
//! The leading lines of a block, up to the first line whose trimmed form
//! starts with `@`, are joined with single spaces and trimmed into the
//! description. Every line of the block is then held against the param
//! grammar and, failing that, the return grammar; lines fitting neither are
//! dropped. Params keep source order; only the first return line counts.

use vstd::prelude::*;
use crate::chars::{
    join_with, lemma_deep_view_chars, lemma_join_with_push, spec_lines, split_lines, str_to_chars,
    trim, trim_chars, chars_to_string,
};
use crate::fields::{
    spec_parse_param, spec_parse_return, starts_with, param_tag, return_tag, ParamField,
    ReturnField, SpecParam, SpecReturn, parse_param_line, parse_return_line,
};
use crate::segment::{segment, spec_segment};

verus! {

/// One parsed doc comment, at the specification level.
#[verifier::ext_equal]
pub ghost struct SpecRecord {
    /// The whitespace-joined free text before the first tag line.
    pub description: Seq<char>,
    /// The `@param` fields, in source order; duplicates are retained.
    pub params: Seq<SpecParam>,
    /// The first `@return` field, if any line fits that grammar.
    pub return_field: Option<SpecReturn>,
}

/// One parsed doc comment.
pub struct DocRecord {
    /// The whitespace-joined free text before the first tag line.
    pub description: String,
    /// The `@param` fields, in source order; duplicates are retained.
    pub params: Vec<ParamField>,
    /// The first `@return` field, if any line fits that grammar.
    pub return_field: Option<ReturnField>,
}

impl View for DocRecord {
    type V = SpecRecord;

    open spec fn view(&self) -> SpecRecord {
        SpecRecord {
            description: self.description@,
            params: self.params.deep_view(),
            return_field: self.return_field.deep_view(),
        }
    }
}

impl DeepView for DocRecord {
    type V = SpecRecord;

    open spec fn deep_view(&self) -> SpecRecord {
        self.view()
    }
}

/// Does the line, after trimming, start with the `@` tag marker?
pub open spec fn is_tag_line(line: Seq<char>) -> bool {
    trim(line).len() > 0 && trim(line)[0] == '@'
}

/// The leading lines of the block before the first tag line.
pub open spec fn description_lines(ls: Seq<Seq<char>>) -> Seq<Seq<char>>
    decreases ls.len(),
{
    if ls.len() == 0 {
        Seq::empty()
    } else if is_tag_line(ls[0]) {
        Seq::empty()
    } else {
        seq![ls[0]] + description_lines(ls.drop_first())
    }
}

/// The params of the block's lines, in order.
pub open spec fn spec_params(ls: Seq<Seq<char>>) -> Seq<SpecParam>
    decreases ls.len(),
{
    if ls.len() == 0 {
        Seq::empty()
    } else {
        match spec_parse_param(ls[0]) {
            Some(p) => seq![p] + spec_params(ls.drop_first()),
            None => spec_params(ls.drop_first()),
        }
    }
}

/// The first return field of the block's lines; a line that fits the param
/// grammar is never read as a return line.
pub open spec fn spec_return(ls: Seq<Seq<char>>) -> Option<SpecReturn>
    decreases ls.len(),
{
    if ls.len() == 0 {
        None
    } else if spec_parse_param(ls[0]) is Some {
        spec_return(ls.drop_first())
    } else {
        match spec_parse_return(ls[0]) {
            Some(r) => Some(r),
            None => spec_return(ls.drop_first()),
        }
    }
}

/// The record extracted from one raw block.
pub open spec fn spec_extract(block: Seq<char>) -> SpecRecord {
    let ls = spec_lines(block);
    SpecRecord {
        description: trim(join_with(description_lines(ls), seq![' '])),
        params: spec_params(ls),
        return_field: spec_return(ls),
    }
}

/// The records of a whole input buffer, one per raw block.
pub open spec fn spec_parse_document(input: Seq<char>) -> Seq<SpecRecord> {
    spec_segment(input).map_values(|b: Seq<char>| spec_extract(b))
}

/// `description_lines` takes exactly the lines before the first tag line.
pub proof fn lemma_description_lines_is(ls: Seq<Seq<char>>, k: int)
    requires
        0 <= k <= ls.len(),
        forall|i: int| 0 <= i < k ==> !is_tag_line(ls[i]),
        k == ls.len() || is_tag_line(ls[k]),
    ensures
        description_lines(ls) == ls.take(k),
    decreases k,
{
    if k == 0 {
        assert(ls.take(0) =~= Seq::<Seq<char>>::empty());
    } else {
        let t = ls.drop_first();
        assert(forall|i: int| 0 <= i < k - 1 ==> !is_tag_line(t[i]));
        lemma_description_lines_is(t, k - 1);
        assert(seq![ls[0]] + t.take(k - 1) =~= ls.take(k));
    }
}

/// Appending a line extends the param list by that line's parse, if any.
pub proof fn lemma_spec_params_push(ls: Seq<Seq<char>>, l: Seq<char>)
    ensures
        spec_params(ls.push(l)) == spec_params(ls) + (match spec_parse_param(l) {
            Some(p) => seq![p],
            None => Seq::<SpecParam>::empty(),
        }),
    decreases ls.len(),
{
    let e = ls.push(l);
    if ls.len() == 0 {
        assert(e[0] == l);
        assert(e.drop_first() =~= Seq::<Seq<char>>::empty());
        assert(spec_params(Seq::<Seq<char>>::empty()) == Seq::<SpecParam>::empty());
        match spec_parse_param(l) {
            Some(p) => {
                assert(spec_params(e) == seq![p] + spec_params(e.drop_first()));
                assert(seq![p] + Seq::<SpecParam>::empty() =~= seq![p]);
                assert(Seq::<SpecParam>::empty() + seq![p] =~= seq![p]);
            },
            None => {
                assert(Seq::<SpecParam>::empty() + Seq::<SpecParam>::empty()
                    =~= Seq::<SpecParam>::empty());
            },
        }
    } else {
        assert(e[0] == ls[0]);
        assert(e.drop_first() =~= ls.drop_first().push(l));
        lemma_spec_params_push(ls.drop_first(), l);
        match spec_parse_param(ls[0]) {
            Some(p0) => {
                assert(seq![p0] + (spec_params(ls.drop_first()) + (match spec_parse_param(l) {
                    Some(p) => seq![p],
                    None => Seq::<SpecParam>::empty(),
                })) =~= (seq![p0] + spec_params(ls.drop_first())) + (match spec_parse_param(l) {
                    Some(p) => seq![p],
                    None => Seq::<SpecParam>::empty(),
                }));
            },
            None => {},
        }
    }
}

/// Appending a line never changes an already-found return field; on lines
/// without one, the appended line decides.
pub proof fn lemma_spec_return_push(ls: Seq<Seq<char>>, l: Seq<char>)
    ensures
        spec_return(ls.push(l)) == if spec_return(ls) is Some {
            spec_return(ls)
        } else if spec_parse_param(l) is Some {
            None
        } else {
            spec_parse_return(l)
        },
    decreases ls.len(),
{
    let e = ls.push(l);
    if ls.len() == 0 {
        assert(e[0] == l);
        assert(e.drop_first() =~= Seq::<Seq<char>>::empty());
    } else {
        assert(e[0] == ls[0]);
        assert(e.drop_first() =~= ls.drop_first().push(l));
        lemma_spec_return_push(ls.drop_first(), l);
    }
}

/// Only the first return line of a block is retained: once some lines hold a
/// return field, lines after them cannot change it.
pub proof fn lemma_first_return_wins(ls1: Seq<Seq<char>>, ls2: Seq<Seq<char>>)
    requires
        spec_return(ls1) is Some,
    ensures
        spec_return(ls1 + ls2) == spec_return(ls1),
    decreases ls1.len(),
{
    let e = ls1 + ls2;
    assert(ls1.len() > 0);
    assert(e[0] == ls1[0]);
    assert(e.drop_first() =~= ls1.drop_first() + ls2);
    if spec_parse_param(ls1[0]) is Some {
        lemma_first_return_wins(ls1.drop_first(), ls2);
    } else if spec_parse_return(ls1[0]) is Some {
    } else {
        lemma_first_return_wins(ls1.drop_first(), ls2);
    }
}

/// A line that does not start with the tag marker fits neither grammar.
pub proof fn lemma_tagless_line_no_field(l: Seq<char>)
    requires
        !is_tag_line(l),
    ensures
        spec_parse_param(l) is None,
        spec_parse_return(l) is None,
{
    let s = trim(l);
    if starts_with(s, param_tag()) {
        assert(s[0] == s.take(6)[0]);
        assert(s[0] == '@');
    }
    if starts_with(s, return_tag()) {
        assert(s[0] == s.take(7)[0]);
        assert(s[0] == '@');
    }
}

/// Lines without any tag line hold no fields.
proof fn lemma_no_tags_no_fields(ls: Seq<Seq<char>>)
    requires
        forall|i: int| 0 <= i < ls.len() ==> !is_tag_line(ls[i]),
    ensures
        spec_params(ls) == Seq::<SpecParam>::empty(),
        spec_return(ls) is None,
    decreases ls.len(),
{
    if ls.len() > 0 {
        lemma_tagless_line_no_field(ls[0]);
        lemma_no_tags_no_fields(ls.drop_first());
    }
}

/// A block with only a description and no tag lines produces empty params,
/// an absent return field, and the joined, trimmed text as description.
pub proof fn lemma_description_only(block: Seq<char>)
    requires
        forall|i: int|
            0 <= i < spec_lines(block).len() ==> !is_tag_line(spec_lines(block)[i]),
    ensures
        spec_extract(block) == (SpecRecord {
            description: trim(join_with(spec_lines(block), seq![' '])),
            params: Seq::<SpecParam>::empty(),
            return_field: None,
        }),
{
    let ls = spec_lines(block);
    lemma_no_tags_no_fields(ls);
    lemma_description_lines_is(ls, ls.len() as int);
    assert(ls.take(ls.len() as int) =~= ls);
}

/// `deep_view` of a vector of param fields reads each element's view.
pub proof fn lemma_deep_view_fields(v: Vec<ParamField>)
    ensures
        v.deep_view().len() == v@.len(),
        forall|i: int| 0 <= i < v@.len() ==> #[trigger] v.deep_view()[i] == v@[i]@,
{
}

/// `deep_view` of a vector of records reads each element's view.
pub proof fn lemma_deep_view_records(v: Vec<DocRecord>)
    ensures
        v.deep_view().len() == v@.len(),
        forall|i: int| 0 <= i < v@.len() ==> #[trigger] v.deep_view()[i] == v@[i]@,
{
}

/// Does the line, after trimming, start with the `@` tag marker?
pub fn is_tag_line_exec(line: &Vec<char>) -> (r: bool)
    ensures
        r == is_tag_line(line@),
{
    let t = trim_chars(line);
    t.len() > 0 && t[0] == '@'
}

/// Extracts the structured record of one raw block.
#[verifier::loop_isolation(false)]
pub fn parse_block(block: &str) -> (r: DocRecord)
    ensures
        r@ == spec_extract(block@),
{
    let cs = str_to_chars(block);
    let ls = split_lines(&cs);
    let ghost lsv = ls.deep_view();
    let n = ls.len();
    proof {
        lemma_deep_view_chars(ls);
    }
    // description: join the lines before the first tag line
    let mut k: usize = 0;
    while k < n && !is_tag_line_exec(&ls[k])
        invariant
            k <= n,
            forall|i: int| 0 <= i < k ==> !is_tag_line(lsv[i]),
        decreases n - k,
    {
        k = k + 1;
    }
    proof {
        lemma_description_lines_is(lsv, k as int);
    }
    let mut acc: Vec<char> = Vec::new();
    let mut j: usize = 0;
    proof {
        assert(lsv.take(0) =~= Seq::<Seq<char>>::empty());
    }
    while j < k
        invariant
            j <= k <= n,
            acc@ =~= join_with(lsv.take(j as int), seq![' ']),
        decreases k - j,
    {
        if j > 0 {
            acc.push(' ');
        }
        let line = &ls[j];
        let m = line.len();
        let ghost base = acc@;
        let mut q: usize = 0;
        while q < m
            invariant
                q <= m,
                m == line@.len(),
                acc@ =~= base + line@.take(q as int),
            decreases m - q,
        {
            acc.push(line[q]);
            q = q + 1;
        }
        proof {
            assert(line@.take(m as int) =~= line@);
            assert(line@ == lsv[j as int]);
            lemma_join_with_push(lsv.take(j as int), seq![' '], lsv[j as int]);
            assert(lsv.take(j as int).push(lsv[j as int]) =~= lsv.take(j as int + 1));
            if j > 0 {
                assert(acc@ =~= join_with(lsv.take(j as int), seq![' ']) + seq![' ']
                    + lsv[j as int]);
            }
        }
        j = j + 1;
    }
    let desc_chars = trim_chars(&acc);
    let description = chars_to_string(&desc_chars);
    // field scan over every line of the block
    let mut params: Vec<ParamField> = Vec::new();
    let mut return_field: Option<ReturnField> = None;
    let mut i: usize = 0;
    proof {
        assert(lsv.take(0) =~= Seq::<Seq<char>>::empty());
    }
    while i < n
        invariant
            i <= n,
            params.deep_view() =~= spec_params(lsv.take(i as int)),
            match return_field {
                Some(f) => spec_return(lsv.take(i as int)) == Some(f@),
                None => spec_return(lsv.take(i as int)) is None,
            },
        decreases n - i,
    {
        proof {
            assert(lsv.take(i as int + 1) =~= lsv.take(i as int).push(lsv[i as int]));
            lemma_spec_params_push(lsv.take(i as int), lsv[i as int]);
            lemma_spec_return_push(lsv.take(i as int), lsv[i as int]);
        }
        match parse_param_line(&ls[i]) {
            Some(p) => {
                let ghost prev = params.deep_view();
                proof {
                    lemma_deep_view_fields(params);
                }
                params.push(p);
                proof {
                    lemma_deep_view_fields(params);
                    assert(params.deep_view() =~= prev.push(p@));
                    assert(prev.push(p@) =~= prev + seq![p@]);
                }
            },
            None => {
                proof {
                    assert(spec_params(lsv.take(i as int)) + Seq::<SpecParam>::empty()
                        =~= spec_params(lsv.take(i as int)));
                }
                match parse_return_line(&ls[i]) {
                    Some(f) => {
                        if return_field.is_none() {
                            return_field = Some(f);
                        }
                    },
                    None => {},
                }
            },
        }
        i = i + 1;
    }
    proof {
        assert(lsv.take(n as int) =~= lsv);
    }
    DocRecord { description, params, return_field }
}

/// Parses a whole input buffer: one record per doc-comment block, in source
/// order.
#[verifier::loop_isolation(false)]
pub fn parse_document(input: &str) -> (r: Vec<DocRecord>)
    ensures
        r.deep_view() == spec_parse_document(input@),
{
    let blocks = segment(input);
    let ghost bv = blocks.deep_view();
    let mut out: Vec<DocRecord> = Vec::new();
    let mut i: usize = 0;
    while i < blocks.len()
        invariant
            i <= blocks.len(),
            bv.len() == blocks@.len(),
            forall|q: int| 0 <= q < bv.len() ==> bv[q] == blocks@[q]@,
            out.deep_view() =~= bv.take(i as int).map_values(|b: Seq<char>| spec_extract(b)),
        decreases blocks.len() - i,
    {
        let rec = parse_block(blocks[i].as_str());
        let ghost prev = out.deep_view();
        proof {
            lemma_deep_view_records(out);
        }
        out.push(rec);
        proof {
            lemma_deep_view_records(out);
            assert(out.deep_view() =~= prev.push(spec_extract(bv[i as int])));
            assert(bv.take(i as int + 1).map_values(|b: Seq<char>| spec_extract(b)) =~= prev.push(
                spec_extract(bv[i as int]),
            ));
        }
        i = i + 1;
    }
    proof {
        assert(bv.take(blocks@.len() as int) =~= bv);
    }
    out
}

} // verus!
