use xml_compile::{xml_compile, CompileError};

fn compiled(text: &str) -> String {
    match xml_compile(text) {
        Ok(json) => json,
        Err(e) => panic!("{:?} for {:?}", e, text),
    }
}

#[test]
fn single_tag_with_string_and_flag_attributes() {
    assert_eq!(
        compiled("<x a=\"1\" b/>"),
        "[{\"type\":\"Tag\",\"nodename\":\"x\",\"props\":{\"a\":\"1\",\"b\":true}}]"
    );
}

#[test]
fn single_tag_has_no_children_key() {
    let json = compiled("<x a=\"1\" b/>");
    assert!(json.contains("\"type\":\"Tag\""));
    assert!(json.contains("\"nodename\":\"x\""));
    assert!(!json.contains("children"));
}

#[test]
fn whitespace_only_input_compiles_to_empty_array() {
    assert_eq!(compiled(""), "[]");
    assert_eq!(compiled(" "), "[]");
    assert_eq!(compiled(" \r\n\t  \n"), "[]");
}

#[test]
fn greater_than_inside_quotes_does_not_end_the_tag() {
    assert_eq!(
        compiled("<x a=\"1>2\"/>"),
        "[{\"type\":\"Tag\",\"nodename\":\"x\",\"props\":{\"a\":\"1>2\"}}]"
    );
    assert_eq!(
        compiled("<x a='1>2' b=\"p q\">t</x>"),
        "[{\"type\":\"Tag\",\"nodename\":\"x\",\"props\":{\"a\":\"1>2\",\"b\":\"p q\"},\"children\":[\"t\"]}]"
    );
}

#[test]
fn fragment_nesting() {
    assert_eq!(
        compiled("<><a/></>"),
        "[{\"type\":\"Fragment\",\"children\":[{\"type\":\"Tag\",\"nodename\":\"a\"}]}]"
    );
    assert_eq!(compiled("<></>"), "[{\"type\":\"Fragment\",\"children\":[]}]");
}

#[test]
fn comment_extraction() {
    assert_eq!(compiled("<!--hi-->"), "[{\"type\":\"Comment\",\"value\":\"hi\"}]");
    assert_eq!(compiled("<!---->"), "[{\"type\":\"Comment\",\"value\":\"\"}]");
}

#[test]
fn comment_is_not_quote_aware_and_keeps_its_text_untrimmed() {
    assert_eq!(
        compiled("<!-- it's > \"x -->"),
        "[{\"type\":\"Comment\",\"value\":\" it's > \\\"x \"}]"
    );
    assert_eq!(compiled("<!--a-->-->"), "[{\"type\":\"Comment\",\"value\":\"a\"},\"-->\"]");
}

#[test]
fn text_is_trimmed_and_keeps_interior_spaces() {
    assert_eq!(
        compiled("<a>  hello  </a>"),
        "[{\"type\":\"Tag\",\"nodename\":\"a\",\"children\":[\"hello\"]}]"
    );
    assert_eq!(
        compiled("<a>a b</a>"),
        "[{\"type\":\"Tag\",\"nodename\":\"a\",\"children\":[\"a b\"]}]"
    );
    assert_eq!(
        compiled("<a> \n </a>"),
        "[{\"type\":\"Tag\",\"nodename\":\"a\",\"children\":[]}]"
    );
}

#[test]
fn boolean_and_string_attributes() {
    assert_eq!(
        compiled("<a disabled checked=\"yes\"/>"),
        "[{\"type\":\"Tag\",\"nodename\":\"a\",\"props\":{\"disabled\":true,\"checked\":\"yes\"}}]"
    );
}

#[test]
fn same_input_gives_same_output() {
    let text = "head <a x=\"1\" y z='2'><b/>mid<!--c--><>f</></a> tail";
    let first = compiled(text);
    let second = compiled(text);
    assert_eq!(first, second);
    assert_eq!(
        first,
        "[\"head\",{\"type\":\"Tag\",\"nodename\":\"a\",\"props\":{\"x\":\"1\",\"y\":true,\"z\":\"2\"},\"children\":[{\"type\":\"Tag\",\"nodename\":\"b\"},\"mid\",{\"type\":\"Comment\",\"value\":\"c\"},{\"type\":\"Fragment\",\"children\":[\"f\"]}]},\"tail\"]"
    );
}

#[test]
fn mismatched_closer_leaves_the_structure_open() {
    assert_eq!(xml_compile("<a><b></a>"), Err(CompileError::UnterminatedStructure));
}

#[test]
fn mismatched_closer_is_passed_over() {
    assert_eq!(
        compiled("<a><b></a></b></a>"),
        "[{\"type\":\"Tag\",\"nodename\":\"a\",\"children\":[{\"type\":\"Tag\",\"nodename\":\"b\",\"children\":[]}]}]"
    );
    assert_eq!(
        compiled("<a></></a>"),
        "[{\"type\":\"Tag\",\"nodename\":\"a\",\"children\":[]}]"
    );
    assert_eq!(compiled("</a>x</>"), "[\"x\"]");
}

#[test]
fn closer_names_are_case_sensitive() {
    assert_eq!(xml_compile("<a></A>"), Err(CompileError::UnterminatedStructure));
}

#[test]
fn unterminated_tag() {
    assert_eq!(xml_compile("<a"), Err(CompileError::UnterminatedTag));
    assert_eq!(xml_compile("text <"), Err(CompileError::UnterminatedTag));
    assert_eq!(xml_compile("<!-"), Err(CompileError::UnterminatedTag));
    assert_eq!(xml_compile("<a b=\"x\""), Err(CompileError::UnterminatedTag));
}

#[test]
fn unterminated_comment() {
    assert_eq!(xml_compile("<!-- x"), Err(CompileError::UnterminatedComment));
    assert_eq!(xml_compile("<!--"), Err(CompileError::UnterminatedComment));
    assert_eq!(xml_compile("<!-->"), Err(CompileError::UnterminatedComment));
    assert_eq!(xml_compile("<!--->"), Err(CompileError::UnterminatedComment));
}

#[test]
fn unterminated_quote() {
    assert_eq!(xml_compile("<a b=\"x>"), Err(CompileError::UnterminatedQuote));
    assert_eq!(xml_compile("<a b='x\">"), Err(CompileError::UnterminatedQuote));
}

#[test]
fn unterminated_structure() {
    assert_eq!(xml_compile("<a>"), Err(CompileError::UnterminatedStructure));
    assert_eq!(xml_compile("<>"), Err(CompileError::UnterminatedStructure));
    assert_eq!(xml_compile("<a><b/>"), Err(CompileError::UnterminatedStructure));
}

#[test]
fn several_top_level_nodes() {
    assert_eq!(
        compiled(" lead <a/> trail "),
        "[\"lead\",{\"type\":\"Tag\",\"nodename\":\"a\"},\"trail\"]"
    );
}

#[test]
fn later_attribute_of_the_same_name_wins_and_keeps_the_place() {
    assert_eq!(
        compiled("<a k=1 j k=\"2\"/>"),
        "[{\"type\":\"Tag\",\"nodename\":\"a\",\"props\":{\"k\":\"2\",\"j\":true}}]"
    );
}

#[test]
fn output_escapes_what_json_requires() {
    assert_eq!(compiled("a\nb\rc"), "[\"a\\nb\\rc\"]");
    assert_eq!(compiled("say \"hi\" \\ bye"), "[\"say \\\"hi\\\" \\\\ bye\"]");
    assert_eq!(compiled("a\tb"), "[\"a\\tb\"]");
    assert_eq!(compiled("a\u{1}b\u{1f}c"), "[\"a\\u0001b\\u001fc\"]");
    assert_eq!(compiled("caf\u{e9} \u{4e2d}"), "[\"caf\u{e9} \u{4e2d}\"]");
}

#[test]
fn non_ascii_whitespace_is_text() {
    assert_eq!(compiled("\u{a0}"), "[\"\u{a0}\"]");
    assert_eq!(compiled("<a>\u{3000}</a>"), "[{\"type\":\"Tag\",\"nodename\":\"a\",\"children\":[\"\u{3000}\"]}]");
}
