use docparse::extract::parse_block;
use docparse::extract::parse_document;
use docparse::segment::segment;

#[test]
fn no_marker_lines_yield_no_blocks() {
    let blocks = segment("fn foo() {}\nlet x = 1;\n");
    assert!(blocks.is_empty());
}

#[test]
fn empty_input_yields_no_blocks() {
    let blocks = segment("");
    assert!(blocks.is_empty());
}

#[test]
fn single_block_is_captured() {
    let blocks = segment("/// a: b\n/// @param x int\n");
    assert_eq!(blocks.len(), 1);
    assert_eq!(blocks[0], "a: b\n@param x int\n");
}

#[test]
fn block_at_end_of_input_is_captured() {
    let blocks = segment("code\n/// tail: z");
    assert_eq!(blocks.len(), 1);
    assert_eq!(blocks[0], "tail: z\n");
}

#[test]
fn two_blocks_split_by_one_line_stay_separate() {
    let blocks = segment("/// one: x\ncode\n/// two: y\n");
    assert_eq!(blocks.len(), 2);
    assert_eq!(blocks[0], "one: x\n");
    assert_eq!(blocks[1], "two: y\n");
}

#[test]
fn two_blocks_split_by_many_lines_stay_separate() {
    let blocks = segment("/// one: x\ncode\nmore code\n\n/// two: y\n");
    assert_eq!(blocks.len(), 2);
    assert_eq!(blocks[0], "one: x\n");
    assert_eq!(blocks[1], "two: y\n");
}

#[test]
fn blank_marker_line_keeps_paragraph_break() {
    let blocks = segment("/// a\n///\n/// b\n");
    assert_eq!(blocks.len(), 1);
    assert_eq!(blocks[0], "a\n\nb\n");
}

#[test]
fn indented_markers_qualify() {
    let blocks = segment("    /// hi: there\n");
    assert_eq!(blocks.len(), 1);
    assert_eq!(blocks[0], "hi: there\n");
}

#[test]
fn repeated_markers_are_stripped() {
    let blocks = segment("////// x\n//// y\n");
    assert_eq!(blocks.len(), 1);
    assert_eq!(blocks[0], "x\n/ y\n");
}

#[test]
fn description_only_block() {
    let rec = parse_block("just a description\nmore text\n");
    assert_eq!(rec.description, "just a description more text");
    assert!(rec.params.is_empty());
    assert!(rec.return_field.is_none());
}

#[test]
fn full_block_extracts_fields_in_order() {
    let rec = parse_block(
        "sends a request\n@param url string\n@param retries int = 3 number of retries\n@param timeout ms = 5000 request timeout\n@return Response description\n",
    );
    assert_eq!(rec.description, "sends a request");
    assert_eq!(rec.params.len(), 3);
    assert_eq!(rec.params[0].name, "url");
    assert_eq!(rec.params[0].type_alternatives, vec!["string".to_string()]);
    assert_eq!(rec.params[0].default, None);
    assert_eq!(rec.params[0].description, "");
    assert_eq!(rec.params[1].name, "retries");
    assert_eq!(rec.params[1].type_alternatives, vec!["int".to_string()]);
    assert_eq!(rec.params[1].default.as_deref(), Some("3"));
    assert_eq!(rec.params[1].description, "number of retries");
    assert_eq!(rec.params[2].name, "timeout");
    assert_eq!(rec.params[2].type_alternatives, vec!["ms".to_string()]);
    assert_eq!(rec.params[2].default.as_deref(), Some("5000"));
    assert_eq!(rec.params[2].description, "request timeout");
    let ret = rec.return_field.expect("return field");
    assert_eq!(ret.ret_type, "Response");
    assert_eq!(ret.description, "description");
}

#[test]
fn union_type_keeps_order_and_count() {
    let rec = parse_block("d\n@param v [int | float] speed\n");
    assert_eq!(rec.params.len(), 1);
    assert_eq!(
        rec.params[0].type_alternatives,
        vec!["int".to_string(), "float".to_string()]
    );
}

#[test]
fn union_with_default_and_description() {
    let rec = parse_block("d\n@param cols [int | array] = 1 Number of columns\n");
    assert_eq!(rec.params.len(), 1);
    assert_eq!(rec.params[0].name, "cols");
    assert_eq!(
        rec.params[0].type_alternatives,
        vec!["int".to_string(), "array".to_string()]
    );
    assert_eq!(rec.params[0].default.as_deref(), Some("1"));
    assert_eq!(rec.params[0].description, "Number of columns");
}

#[test]
fn union_alternatives_are_trimmed() {
    let rec = parse_block("d\n@param cols [int | array ] = 1 Number of columns\n");
    assert_eq!(
        rec.params[0].type_alternatives,
        vec!["int".to_string(), "array".to_string()]
    );
}

#[test]
fn empty_union_alternative_is_kept_as_empty_string() {
    let rec = parse_block("d\n@param x [int | ] = 1 d\n");
    assert_eq!(
        rec.params[0].type_alternatives,
        vec!["int".to_string(), "".to_string()]
    );
}

#[test]
fn param_without_equals_has_no_default() {
    let rec = parse_block("d\n@param x int foo\n");
    assert_eq!(rec.params[0].default, None);
    assert_eq!(rec.params[0].description, "foo");
}

#[test]
fn param_with_equals_captures_the_token() {
    let rec = parse_block("d\n@param x int = 3 foo\n");
    assert_eq!(rec.params[0].default.as_deref(), Some("3"));
    assert_eq!(rec.params[0].description, "foo");
}

#[test]
fn only_first_return_line_is_retained() {
    let rec = parse_block("d\n@return A first\n@return B second\n");
    let ret = rec.return_field.expect("return field");
    assert_eq!(ret.ret_type, "A");
    assert_eq!(ret.description, "first");
}

#[test]
fn return_without_description_is_kept_with_empty_text() {
    let rec = parse_block("d\n@return int\n");
    let ret = rec.return_field.expect("return field");
    assert_eq!(ret.ret_type, "int");
    assert_eq!(ret.description, "");
}

#[test]
fn malformed_tag_lines_are_dropped() {
    let rec = parse_block("d\n@param onlyname\n@paramx int t\n@ random\n@return\n");
    assert!(rec.params.is_empty());
    assert!(rec.return_field.is_none());
    assert_eq!(rec.description, "d");
}

#[test]
fn non_tag_lines_after_fields_are_dropped() {
    let rec = parse_block("d\n@param x int\ntrailing text\n");
    assert_eq!(rec.description, "d");
    assert_eq!(rec.params.len(), 1);
}

#[test]
fn duplicate_param_names_are_both_retained() {
    let rec = parse_block("d\n@param x int\n@param x float\n");
    assert_eq!(rec.params.len(), 2);
    assert_eq!(rec.params[0].name, "x");
    assert_eq!(rec.params[1].name, "x");
    assert_eq!(rec.params[0].type_alternatives, vec!["int".to_string()]);
    assert_eq!(rec.params[1].type_alternatives, vec!["float".to_string()]);
}

#[test]
fn parse_document_maps_blocks_in_order() {
    let recs = parse_document(
        "code\n/// first: a\n/// @param x int\nmore code\n/// second: b\n/// @return t done\n",
    );
    assert_eq!(recs.len(), 2);
    assert_eq!(recs[0].description, "first: a");
    assert_eq!(recs[0].params.len(), 1);
    assert!(recs[0].return_field.is_none());
    assert_eq!(recs[1].description, "second: b");
    assert!(recs[1].params.is_empty());
    assert_eq!(recs[1].return_field.as_ref().expect("ret").ret_type, "t");
}
