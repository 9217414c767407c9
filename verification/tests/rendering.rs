use docparse::extract::parse_block;
use docparse::extract::DocRecord;
use docparse::fields::{ParamField, ReturnField};

#[test]
fn return_field_renders_exactly() {
    let f = ReturnField {
        ret_type: "int".to_string(),
        description: "the count".to_string(),
    };
    assert_eq!(f.into_markdown(), "`int`: the count \n");
}

#[test]
fn param_with_default_renders_exactly() {
    let p = ParamField {
        name: "x".to_string(),
        type_alternatives: vec!["int".to_string(), "float".to_string()],
        default: Some("3".to_string()),
        description: "count".to_string(),
    };
    assert_eq!(p.into_markdown(), "x: `int | float` (default: 3) count \n");
}

#[test]
fn param_without_default_renders_exactly() {
    let p = ParamField {
        name: "x".to_string(),
        type_alternatives: vec!["int".to_string()],
        default: None,
        description: "d".to_string(),
    };
    assert_eq!(p.into_markdown(), "x: `int`  d \n");
}

#[test]
fn record_renders_heading_params_and_returns() {
    let rec = parse_block("title: body\n@param x int d\n@return int r\n");
    assert!(rec.has_title_separator());
    let md = rec.into_markdown();
    assert_eq!(
        md,
        "## title\n### Parameters: \nx: `int`  d \n### Returns: \n`int`: r \n\n"
    );
}

#[test]
fn record_without_params_skips_the_section() {
    let rec = parse_block("title: body\n");
    let md = rec.into_markdown();
    assert_eq!(md, "## title\n\n");
}

#[test]
fn title_is_text_before_first_separator() {
    let rec = parse_block("a: b: c\n");
    assert!(rec.has_title_separator());
    assert_eq!(rec.into_markdown(), "## a\n\n");
}

#[test]
fn description_without_separator_is_not_renderable() {
    let rec = parse_block("no separator here\n@param x int\n");
    assert!(!rec.has_title_separator());
}

#[test]
fn colon_without_space_is_no_separator() {
    let rec = DocRecord {
        description: "a:b".to_string(),
        params: Vec::new(),
        return_field: None,
    };
    assert!(!rec.has_title_separator());
}

#[test]
fn document_renders_like_its_records() {
    let recs = docparse::extract::parse_document("/// exam_init: set up\n/// @param body content Question Body\n");
    assert_eq!(recs.len(), 1);
    let md = recs[0].into_markdown();
    assert_eq!(
        md,
        "## exam_init\n### Parameters: \nbody: `content`  Question Body \n\n"
    );
}
