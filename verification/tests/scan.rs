use xml_compile::{
    parse_to_nodes, Comment, CompileError, Fragment, FragmentEnd, Node, Prop, PropValue, Tag,
    TagEnd,
};

fn buffer(text: &str) -> Vec<char> {
    text.chars().collect()
}

#[test]
fn scans_text_tags_and_closers_in_order() {
    let xml = buffer(" hi <a>x</a> ");
    let a = buffer("a");
    let hi = buffer("hi");
    let x = buffer("x");
    assert_eq!(
        parse_to_nodes(&xml),
        Ok(vec![
            Node::String(&hi),
            Node::Tag(Tag { node_name: &a, props: None, is_single_tag: false, children: None }),
            Node::String(&x),
            Node::TagEnd(TagEnd { node_name: &a }),
        ])
    );
}

#[test]
fn scans_fragment_markers() {
    let xml = buffer("<></>");
    assert_eq!(
        parse_to_nodes(&xml),
        Ok(vec![
            Node::Fragment(Fragment { children: None }),
            Node::FragmentEnd(FragmentEnd {}),
        ])
    );
}

#[test]
fn scans_comment_between_its_markers() {
    let xml = buffer("<!-- a > b -->");
    let body = buffer(" a > b ");
    assert_eq!(parse_to_nodes(&xml), Ok(vec![Node::Comment(Comment { value: &body })]));
}

#[test]
fn tag_without_tokens_has_no_attributes() {
    let xml = buffer("<a >");
    let a = buffer("a");
    assert_eq!(
        parse_to_nodes(&xml),
        Ok(vec![Node::Tag(Tag {
            node_name: &a,
            props: None,
            is_single_tag: false,
            children: None
        })])
    );
}

#[test]
fn trailing_slash_marks_a_single_tag_and_is_no_attribute() {
    let a = buffer("a");
    let b = buffer("b");
    let single = |props| Node::Tag(Tag { node_name: &a, props, is_single_tag: true, children: None });
    let flag = vec![Prop { name: &b, value: PropValue::BooleanValue(true) }];
    assert_eq!(parse_to_nodes(&buffer("<a/>")), Ok(vec![single(None)]));
    assert_eq!(parse_to_nodes(&buffer("<a />")), Ok(vec![single(None)]));
    assert_eq!(parse_to_nodes(&buffer("<a b/>")), Ok(vec![single(Some(flag.clone()))]));
    assert_eq!(parse_to_nodes(&buffer("<a b />")), Ok(vec![single(Some(flag))]));
}

#[test]
fn whitespace_inside_quotes_does_not_split_tokens() {
    let xml = buffer("<a  t=\"x y\"\n\tu='p\tq' >");
    let a = buffer("a");
    let t = buffer("t");
    let u = buffer("u");
    let xy = buffer("x y");
    let pq = buffer("p\tq");
    assert_eq!(
        parse_to_nodes(&xml),
        Ok(vec![Node::Tag(Tag {
            node_name: &a,
            props: Some(vec![
                Prop { name: &t, value: PropValue::StringValue(&xy) },
                Prop { name: &u, value: PropValue::StringValue(&pq) },
            ]),
            is_single_tag: false,
            children: None
        })])
    );
}

#[test]
fn closing_tag_forms() {
    let a = buffer("a");
    assert_eq!(
        parse_to_nodes(&buffer("</a>")),
        Ok(vec![Node::TagEnd(TagEnd { node_name: &a })])
    );
    assert_eq!(
        parse_to_nodes(&buffer("</a/>")),
        Ok(vec![Node::TagEnd(TagEnd { node_name: &a })])
    );
    assert_eq!(parse_to_nodes(&buffer("<//>")), Ok(vec![Node::FragmentEnd(FragmentEnd {})]));
}

#[test]
fn slash_name_followed_by_whitespace_is_an_opening_tag() {
    let name = buffer("/a");
    assert_eq!(
        parse_to_nodes(&buffer("</a >")),
        Ok(vec![Node::Tag(Tag {
            node_name: &name,
            props: None,
            is_single_tag: false,
            children: None
        })])
    );
}

#[test]
fn interior_that_starts_with_whitespace_is_its_own_name() {
    let name = buffer(" a b");
    let a = buffer("a");
    let b = buffer("b");
    assert_eq!(
        parse_to_nodes(&buffer("< a b>")),
        Ok(vec![Node::Tag(Tag {
            node_name: &name,
            props: Some(vec![
                Prop { name: &a, value: PropValue::BooleanValue(true) },
                Prop { name: &b, value: PropValue::BooleanValue(true) },
            ]),
            is_single_tag: false,
            children: None
        })])
    );
}

#[test]
fn quotes_in_text_are_plain_characters() {
    let xml = buffer("it's <a/>");
    let text = buffer("it's");
    let a = buffer("a");
    assert_eq!(
        parse_to_nodes(&xml),
        Ok(vec![
            Node::String(&text),
            Node::Tag(Tag { node_name: &a, props: None, is_single_tag: true, children: None }),
        ])
    );
}

#[test]
fn scanner_errors() {
    assert_eq!(parse_to_nodes(&buffer("<")), Err(CompileError::UnterminatedTag));
    assert_eq!(parse_to_nodes(&buffer("<a href=\"x")), Err(CompileError::UnterminatedQuote));
    assert_eq!(parse_to_nodes(&buffer("<a 'b'")), Err(CompileError::UnterminatedTag));
    assert_eq!(parse_to_nodes(&buffer("<!--a->")), Err(CompileError::UnterminatedComment));
    assert_eq!(parse_to_nodes(&buffer("ok <a> then <!-- ")), Err(CompileError::UnterminatedComment));
}

#[test]
fn empty_buffer_has_no_events() {
    assert_eq!(parse_to_nodes(&buffer("")), Ok(vec![]));
    assert_eq!(parse_to_nodes(&buffer(" \t\r\n")), Ok(vec![]));
}
