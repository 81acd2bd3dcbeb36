use xml_compile::{
    generate_json, is_white_space, is_xml_tree_node_add_to_children, parse_expression_to_props,
    parse_to_trees, push_chars, trim_string, Comment, CompileError, Fragment, FragmentEnd, Node,
    Prop, PropValue, Tag, TagEnd, XMLTreeNode,
};

fn run(text: &str) -> Vec<char> {
    text.chars().collect()
}

fn text_of(chars: &[char]) -> String {
    chars.iter().collect()
}

#[test]
fn whitespace_is_exactly_four_characters() {
    assert!(is_white_space(' '));
    assert!(is_white_space('\r'));
    assert!(is_white_space('\n'));
    assert!(is_white_space('\t'));
    assert!(!is_white_space('a'));
    assert!(!is_white_space('\u{b}'));
    assert!(!is_white_space('\u{c}'));
    assert!(!is_white_space('\u{a0}'));
    assert!(!is_white_space('\u{2003}'));
}

#[test]
fn trim_string_cuts_both_ends() {
    let padded = run(" \t hello world \r\n");
    assert_eq!(trim_string(&padded).map(text_of), Some("hello world".to_string()));
    let bare = run("x");
    assert_eq!(trim_string(&bare).map(text_of), Some("x".to_string()));
    let left = run("  x");
    assert_eq!(trim_string(&left).map(text_of), Some("x".to_string()));
    let right = run("x  ");
    assert_eq!(trim_string(&right).map(text_of), Some("x".to_string()));
}

#[test]
fn trim_string_gives_nothing_for_blank_runs() {
    let empty = run("");
    assert_eq!(trim_string(&empty), None);
    let blank = run(" \n\t\r ");
    assert_eq!(trim_string(&blank), None);
    let one = run(" ");
    assert_eq!(trim_string(&one), None);
}

#[test]
fn trim_string_borrows_from_its_argument() {
    let padded = run("  ab ");
    let trimmed = trim_string(&padded).unwrap();
    assert!(std::ptr::eq(trimmed.as_ptr(), padded[2..].as_ptr()));
    assert_eq!(trimmed.len(), 2);
}

#[test]
fn no_tokens_no_attributes() {
    assert_eq!(parse_expression_to_props(vec![]), None);
}

#[test]
fn token_without_equals_is_a_flag() {
    let t = run("disabled");
    assert_eq!(
        parse_expression_to_props(vec![&t]),
        Some(vec![Prop { name: &t, value: PropValue::BooleanValue(true) }])
    );
}

#[test]
fn quoted_values_lose_their_quotes() {
    let double = run("a=\"1\"");
    let single = run("b='2'");
    let empty = run("c=\"\"");
    let props = parse_expression_to_props(vec![&double, &single, &empty]).unwrap();
    assert_eq!(props.len(), 3);
    assert_eq!(text_of(props[0].name), "a");
    assert_eq!(props[0].value, PropValue::StringValue(&['1']));
    assert_eq!(text_of(props[1].name), "b");
    assert_eq!(props[1].value, PropValue::StringValue(&['2']));
    assert_eq!(text_of(props[2].name), "c");
    assert_eq!(props[2].value, PropValue::StringValue(&[]));
}

#[test]
fn unquoted_and_odd_values_are_kept_verbatim() {
    let bare = run("a=1");
    let lone = run("b=\"");
    let none = run("c=");
    let mixed = run("d=\"x'");
    let open = run("e=\"x");
    let inner = run("f=x=y");
    let props =
        parse_expression_to_props(vec![&bare, &lone, &none, &mixed, &open, &inner]).unwrap();
    let values: Vec<String> = props
        .iter()
        .map(|p| match p.value {
            PropValue::StringValue(v) => text_of(v),
            PropValue::BooleanValue(_) => "<flag>".to_string(),
        })
        .collect();
    assert_eq!(values, vec!["1", "\"", "", "\"x'", "\"x", "x=y"]);
    let names: Vec<String> = props.iter().map(|p| text_of(p.name)).collect();
    assert_eq!(names, vec!["a", "b", "c", "d", "e", "f"]);
}

#[test]
fn equals_inside_quotes_does_not_split_the_name() {
    let t = run("\"a=b\"=c");
    let props = parse_expression_to_props(vec![&t]).unwrap();
    assert_eq!(text_of(props[0].name), "\"a=b\"");
    assert_eq!(props[0].value, PropValue::StringValue(&['c']));
    let quoted = run("'k=v'");
    let props = parse_expression_to_props(vec![&quoted]).unwrap();
    assert_eq!(text_of(props[0].name), "'k=v'");
    assert_eq!(props[0].value, PropValue::BooleanValue(true));
}

#[test]
fn last_value_of_a_name_stands() {
    let first = run("k=1");
    let other = run("j");
    let second = run("k");
    let third = run("k='3'");
    let props = parse_expression_to_props(vec![&first, &other, &second, &third]).unwrap();
    assert_eq!(props.len(), 2);
    assert_eq!(text_of(props[0].name), "k");
    assert_eq!(props[0].value, PropValue::StringValue(&['3']));
    assert_eq!(text_of(props[1].name), "j");
    assert_eq!(props[1].value, PropValue::BooleanValue(true));
}

#[test]
fn closers_are_not_added_to_children() {
    let a = run("a");
    let mut children = vec![];
    is_xml_tree_node_add_to_children(Node::TagEnd(TagEnd { node_name: &a }), &mut children);
    is_xml_tree_node_add_to_children(Node::FragmentEnd(FragmentEnd {}), &mut children);
    assert_eq!(children, vec![]);
    is_xml_tree_node_add_to_children(Node::String(&a), &mut children);
    is_xml_tree_node_add_to_children(Node::Comment(Comment { value: &a }), &mut children);
    is_xml_tree_node_add_to_children(Node::Fragment(Fragment { children: None }), &mut children);
    is_xml_tree_node_add_to_children(
        Node::Tag(Tag { node_name: &a, props: None, is_single_tag: true, children: None }),
        &mut children,
    );
    assert_eq!(
        children,
        vec![
            XMLTreeNode::String(&a),
            XMLTreeNode::Comment(Comment { value: &a }),
            XMLTreeNode::Fragment(Fragment { children: None }),
            XMLTreeNode::Tag(Tag {
                node_name: &a,
                props: None,
                is_single_tag: true,
                children: None
            }),
        ]
    );
}

#[test]
fn tree_nests_children_under_their_tag() {
    let a = run("a");
    let b = run("b");
    let t = run("t");
    let open = |name| Node::Tag(Tag { node_name: name, props: None, is_single_tag: false, children: None });
    let events = vec![
        open(&a),
        Node::String(&t),
        open(&b),
        Node::TagEnd(TagEnd { node_name: &b }),
        Node::TagEnd(TagEnd { node_name: &a }),
        Node::String(&t),
    ];
    assert_eq!(
        parse_to_trees(events),
        Ok(vec![
            XMLTreeNode::Tag(Tag {
                node_name: &a,
                props: None,
                is_single_tag: false,
                children: Some(vec![
                    XMLTreeNode::String(&t),
                    XMLTreeNode::Tag(Tag {
                        node_name: &b,
                        props: None,
                        is_single_tag: false,
                        children: Some(vec![]),
                    }),
                ]),
            }),
            XMLTreeNode::String(&t),
        ])
    );
}

#[test]
fn single_tag_keeps_children_absent() {
    let a = run("a");
    let events =
        vec![Node::Tag(Tag { node_name: &a, props: None, is_single_tag: true, children: None })];
    assert_eq!(
        parse_to_trees(events),
        Ok(vec![XMLTreeNode::Tag(Tag {
            node_name: &a,
            props: None,
            is_single_tag: true,
            children: None
        })])
    );
}

#[test]
fn fragment_in_tree_has_children_present() {
    let events =
        vec![Node::Fragment(Fragment { children: None }), Node::FragmentEnd(FragmentEnd {})];
    assert_eq!(
        parse_to_trees(events),
        Ok(vec![XMLTreeNode::Fragment(Fragment { children: Some(vec![]) })])
    );
}

#[test]
fn tree_builder_refuses_open_structures() {
    let a = run("a");
    let b = run("b");
    let open = |name| Node::Tag(Tag { node_name: name, props: None, is_single_tag: false, children: None });
    assert_eq!(parse_to_trees(vec![open(&a)]), Err(CompileError::UnterminatedStructure));
    assert_eq!(
        parse_to_trees(vec![Node::Fragment(Fragment { children: None })]),
        Err(CompileError::UnterminatedStructure)
    );
    assert_eq!(
        parse_to_trees(vec![open(&a), open(&b), Node::TagEnd(TagEnd { node_name: &a })]),
        Err(CompileError::UnterminatedStructure)
    );
    assert_eq!(
        parse_to_trees(vec![open(&a), Node::FragmentEnd(FragmentEnd {})]),
        Err(CompileError::UnterminatedStructure)
    );
}

#[test]
fn stray_closers_at_top_level_are_dropped() {
    let a = run("a");
    let events = vec![
        Node::TagEnd(TagEnd { node_name: &a }),
        Node::String(&a),
        Node::FragmentEnd(FragmentEnd {}),
    ];
    assert_eq!(parse_to_trees(events), Ok(vec![XMLTreeNode::String(&a)]));
    assert_eq!(parse_to_trees(vec![]), Ok(vec![]));
}

#[test]
fn push_chars_escapes_and_appends() {
    let mut out = String::from("x:");
    push_chars(&mut out, &run("a\nb\rc\"d\\e\tf\u{0}g\u{1b}h"));
    assert_eq!(out, "x:a\\nb\\rc\\\"d\\\\e\\tf\\u0000g\\u001bh");
    let mut plain = String::new();
    push_chars(&mut plain, &run("plain <text> & 'more' \u{7f}\u{e9}"));
    assert_eq!(plain, "plain <text> & 'more' \u{7f}\u{e9}");
    let mut all = String::new();
    push_chars(&mut all, &['\u{8}', '\u{c}', '\u{a}', '\u{10}', '\u{1f}', ' ']);
    assert_eq!(all, "\\u0008\\u000c\\n\\u0010\\u001f ");
}

#[test]
fn generate_json_writes_an_array_after_what_is_there() {
    let mut out = String::from("=");
    generate_json(vec![], &mut out);
    assert_eq!(out, "=[]");
    let t = run("t");
    generate_json(vec![XMLTreeNode::String(&t), XMLTreeNode::String(&t)], &mut out);
    assert_eq!(out, "=[][\"t\",\"t\"]");
}

#[test]
fn generate_json_omits_absent_members() {
    let a = run("a");
    let k = run("k");
    let v = run("v");
    let mut out = String::new();
    generate_json(
        vec![
            XMLTreeNode::Fragment(Fragment { children: None }),
            XMLTreeNode::Tag(Tag {
                node_name: &a,
                props: Some(vec![]),
                is_single_tag: false,
                children: Some(vec![]),
            }),
            XMLTreeNode::Tag(Tag {
                node_name: &a,
                props: Some(vec![
                    Prop { name: &k, value: PropValue::StringValue(&v) },
                    Prop { name: &v, value: PropValue::BooleanValue(false) },
                ]),
                is_single_tag: true,
                children: None,
            }),
            XMLTreeNode::Comment(Comment { value: &v }),
        ],
        &mut out,
    );
    assert_eq!(
        out,
        "[{\"type\":\"Fragment\"},{\"type\":\"Tag\",\"nodename\":\"a\",\"props\":{},\"children\":[]},{\"type\":\"Tag\",\"nodename\":\"a\",\"props\":{\"k\":\"v\",\"v\":true}},{\"type\":\"Comment\",\"value\":\"v\"}]"
    );
}
