//! The serializer: from the tree to JSON text.
//!
//! A list of nodes becomes an array. A text node becomes a string, every
//! other node an object with a `type`. In a string, line feed, carriage
//! return and tab become `\n`, `\r` and `\t`, the quotation mark and the
//! backslash get a backslash in front, and any other character below U+0020
//! becomes `\u00XX`; every other character stands for itself.

use vstd::prelude::*;
use vstd::string::StringExecFns;
use crate::model::{
    opt_props_view, props_view, tree_view, trees_view, Children, Prop, PropValue, PropValueView,
    PropView, Props, TreeView, XMLTreeNode,
};

verus! {

/// `String::push` of the standard library appends one character to the end
/// of the string: the characters after the call are those before it followed
/// by `ch`. This is taken from its documentation and not proved here.
pub assume_specification[ std::string::String::push ](s: &mut std::string::String, ch: char)
    ensures
        final(s)@ == old(s)@.push(ch),
;

/// The lower-case hexadecimal digit for a number below sixteen.
pub open spec fn hex_digit(n: int) -> char {
    if n < 10 {
        ('0' as int + n) as char
    } else {
        ('a' as int + n - 10) as char
    }
}

/// What stands for one character inside a JSON string.
pub open spec fn escaped_char(c: char) -> Seq<char> {
    if c == '\n' {
        seq!['\\', 'n']
    } else if c == '\r' {
        seq!['\\', 'r']
    } else if c == '\t' {
        seq!['\\', 't']
    } else if c == '"' {
        seq!['\\', '"']
    } else if c == '\\' {
        seq!['\\', '\\']
    } else if (c as int) < 0x20 {
        seq!['\\', 'u', '0', '0', hex_digit((c as int) / 16), hex_digit((c as int) % 16)]
    } else {
        seq![c]
    }
}

/// What stands for a run of characters inside a JSON string.
pub open spec fn escaped(s: Seq<char>) -> Seq<char>
    decreases s.len(),
{
    if s.len() == 0 {
        Seq::empty()
    } else {
        escaped(s.drop_last()) + escaped_char(s.last())
    }
}

/// A JSON string literal.
pub open spec fn json_string(s: Seq<char>) -> Seq<char> {
    seq!['"'] + escaped(s) + seq!['"']
}

/// One attribute as a member of a JSON object: a flag is `true`, whatever it
/// holds.
pub open spec fn json_prop(prop: PropView) -> Seq<char> {
    json_string(prop.name) + seq![':'] + match prop.value {
        PropValueView::StringValue(text) => json_string(text),
        PropValueView::BooleanValue(_) => seq!['t', 'r', 'u', 'e'],
    }
}

/// The first `k` attributes as members of a JSON object, separated by commas.
pub open spec fn json_prop_members(props: Seq<PropView>, k: int) -> Seq<char>
    decreases k,
{
    if k <= 0 || k > props.len() {
        Seq::empty()
    } else if k == 1 {
        json_prop(props[0])
    } else {
        json_prop_members(props, k - 1) + seq![','] + json_prop(props[k - 1])
    }
}

/// The attributes as a JSON object.
pub open spec fn json_props(props: Seq<PropView>) -> Seq<char> {
    seq!['{'] + json_prop_members(props, props.len() as int) + seq!['}']
}

/// The member `,"props":{...}` of a tag, or nothing for a tag without
/// attributes.
pub open spec fn json_props_member(props: Option<Seq<PropView>>) -> Seq<char> {
    match props {
        Some(p) => ",\"props\":"@ + json_props(p),
        None => Seq::empty(),
    }
}

/// One node as JSON.
pub open spec fn json_node(node: TreeView) -> Seq<char>
    decreases node, 0int,
{
    match node {
        TreeView::String(text) => json_string(text),
        TreeView::Comment(text) => "{\"type\":\"Comment\",\"value\":"@ + json_string(text)
            + seq!['}'],
        TreeView::Fragment(fragment) => "{\"type\":\"Fragment\""@ + json_children_member(
            fragment.children,
        ) + seq!['}'],
        TreeView::Tag(tag) => "{\"type\":\"Tag\",\"nodename\":"@ + json_string(tag.node_name)
            + json_props_member(tag.props) + json_children_member(tag.children) + seq!['}'],
    }
}

/// The member `,"children":[...]` of a tag or fragment, or nothing where
/// there is no list of children.
pub open spec fn json_children_member(children: Option<Seq<TreeView>>) -> Seq<char>
    decreases children, 0int,
{
    match children {
        Some(c) => ",\"children\":"@ + json_nodes(c),
        None => Seq::empty(),
    }
}

/// The first `k` nodes as JSON, separated by commas.
pub open spec fn json_items(nodes: Seq<TreeView>, k: int) -> Seq<char>
    decreases nodes, k,
{
    if k <= 0 || k > nodes.len() {
        Seq::empty()
    } else if k == 1 {
        json_node(nodes[0])
    } else {
        json_items(nodes, k - 1) + seq![','] + json_node(nodes[k - 1])
    }
}

/// A list of nodes as a JSON array.
pub open spec fn json_nodes(nodes: Seq<TreeView>) -> Seq<char>
    decreases nodes, nodes.len() + 1,
{
    seq!['['] + json_items(nodes, nodes.len() as int) + seq![']']
}

/// A tag without a list of children, as every single tag is, has no
/// `children` member in its JSON; a tag without attributes has no `props`
/// member.
pub proof fn lemma_absent_members(tag: crate::model::TagView)
    ensures
        tag.children is None ==> json_node(TreeView::Tag(tag)) == "{\"type\":\"Tag\",\"nodename\":"@
            + json_string(tag.node_name) + json_props_member(tag.props) + seq!['}'],
        tag.props is None ==> json_node(TreeView::Tag(tag)) == "{\"type\":\"Tag\",\"nodename\":"@
            + json_string(tag.node_name) + json_children_member(tag.children) + seq!['}'],
{
    let head = "{\"type\":\"Tag\",\"nodename\":"@ + json_string(tag.node_name);
    if tag.children is None {
        assert(head + json_props_member(tag.props) + Seq::<char>::empty() == head
            + json_props_member(tag.props));
    }
    if tag.props is None {
        assert(head + Seq::<char>::empty() == head);
    }
}

/// Gives the lower-case hexadecimal digit for a number below sixteen.
fn hex_digit_char(n: u32) -> (r: char)
    requires
        n < 16,
    ensures
        r == hex_digit(n as int),
{
    if n == 0 {
        '0'
    } else if n == 1 {
        '1'
    } else if n == 2 {
        '2'
    } else if n == 3 {
        '3'
    } else if n == 4 {
        '4'
    } else if n == 5 {
        '5'
    } else if n == 6 {
        '6'
    } else if n == 7 {
        '7'
    } else if n == 8 {
        '8'
    } else if n == 9 {
        '9'
    } else if n == 10 {
        'a'
    } else if n == 11 {
        'b'
    } else if n == 12 {
        'c'
    } else if n == 13 {
        'd'
    } else if n == 14 {
        'e'
    } else {
        'f'
    }
}

/// Appends one character to `target`, escaped for a JSON string.
fn push_escaped_char(target: &mut String, c: char)
    ensures
        final(target)@ == old(target)@ + escaped_char(c),
{
    let code: u32 = c as u32;
    if c == '\n' {
        target.push('\\');
        target.push('n');
    } else if c == '\r' {
        target.push('\\');
        target.push('r');
    } else if c == '\t' {
        target.push('\\');
        target.push('t');
    } else if c == '"' {
        target.push('\\');
        target.push('"');
    } else if c == '\\' {
        target.push('\\');
        target.push('\\');
    } else if code < 0x20 {
        target.push('\\');
        target.push('u');
        target.push('0');
        target.push('0');
        target.push(hex_digit_char(code / 16));
        target.push(hex_digit_char(code % 16));
    } else {
        target.push(c);
    }
    assert(target@ == old(target)@ + escaped_char(c));
}

/// Appends `chars` to `target`, escaped for a JSON string.
pub fn push_chars(target: &mut String, chars: &[char])
    ensures
        final(target)@ == old(target)@ + escaped(chars@),
{
    let len: usize = chars.len();
    let mut i: usize = 0;
    assert(chars@.subrange(0, 0) == Seq::<char>::empty());
    assert(target@ == old(target)@ + escaped(chars@.subrange(0, 0)));
    while i < len
        invariant
            len == chars@.len(),
            i <= len,
            target@ == old(target)@ + escaped(chars@.subrange(0, i as int)),
        decreases len - i,
    {
        push_escaped_char(target, chars[i]);
        i += 1;
        assert(chars@.subrange(0, i as int).drop_last() == chars@.subrange(0, i - 1));
        assert(target@ == old(target)@ + escaped(chars@.subrange(0, i as int)));
    }
    assert(chars@.subrange(0, len as int) == chars@);
}

/// Appends `chars` to `target` as a JSON string literal.
fn push_json_string(target: &mut String, chars: &[char])
    ensures
        final(target)@ == old(target)@ + json_string(chars@),
{
    target.push('"');
    push_chars(target, chars);
    target.push('"');
    assert(target@ == old(target)@ + json_string(chars@));
}

/// Appends one attribute to `target` as a member of a JSON object.
fn push_prop(target: &mut String, prop: &Prop)
    ensures
        final(target)@ == old(target)@ + json_prop(prop@),
{
    push_json_string(target, prop.name);
    target.push(':');
    match prop.value {
        PropValue::StringValue(text) => {
            push_json_string(target, text);
        },
        PropValue::BooleanValue(_) => {
            target.push('t');
            target.push('r');
            target.push('u');
            target.push('e');
        },
    }
    assert(target@ == old(target)@ + json_prop(prop@));
}

/// Appends the attributes to `target` as a JSON object.
fn push_props(target: &mut String, props: &Props)
    ensures
        final(target)@ == old(target)@ + json_props(props_view(props@)),
{
    let ghost views = props_view(props@);
    let len: usize = props.len();
    target.push('{');
    let mut i: usize = 0;
    assert(target@ == old(target)@ + seq!['{'] + json_prop_members(views, 0));
    while i < len
        invariant
            views == props_view(props@),
            len == props@.len(),
            i <= len,
            target@ == old(target)@ + seq!['{'] + json_prop_members(views, i as int),
        decreases len - i,
    {
        let ghost before = target@;
        if i > 0 {
            target.push(',');
        }
        push_prop(target, &props[i]);
        i += 1;
        assert(target@ == old(target)@ + seq!['{'] + json_prop_members(views, i as int)) by {
            assert(props@[i - 1]@ == views[i - 1]);
            if i > 1 {
                assert(target@ == before + seq![','] + json_prop(views[i - 1]));
                assert(before + seq![','] + json_prop(views[i - 1]) == old(target)@ + seq!['{'] + (
                json_prop_members(views, i - 1) + seq![','] + json_prop(views[i - 1])));
            }
        }
    }
    target.push('}');
    assert(target@ == old(target)@ + json_props(views));
}

/// Appends one node to `target` as JSON.
fn push_node(target: &mut String, node: &XMLTreeNode)
    ensures
        final(target)@ == old(target)@ + json_node(node@),
    decreases node, 0int,
{
    match node {
        XMLTreeNode::String(text) => {
            push_json_string(target, text);
        },
        XMLTreeNode::Comment(comment) => {
            target.append("{\"type\":\"Comment\",\"value\":");
            push_json_string(target, comment.value);
            target.push('}');
            assert(target@ == old(target)@ + json_node(node@));
        },
        XMLTreeNode::Fragment(fragment) => {
            target.append("{\"type\":\"Fragment\"");
            let ghost head = target@;
            if let Some(children) = &fragment.children {
                target.append(",\"children\":");
                push_nodes(target, children);
            }
            assert(target@ == head + json_children_member(node@->Fragment_0.children));
            target.push('}');
            assert(target@ == old(target)@ + json_node(node@));
        },
        XMLTreeNode::Tag(tag) => {
            target.append("{\"type\":\"Tag\",\"nodename\":");
            push_json_string(target, tag.node_name);
            let ghost head = target@;
            if let Some(props) = &tag.props {
                target.append(",\"props\":");
                push_props(target, props);
            }
            assert(target@ == head + json_props_member(node@->Tag_0.props));
            let ghost middle = target@;
            if let Some(children) = &tag.children {
                target.append(",\"children\":");
                push_nodes(target, children);
            }
            assert(target@ == middle + json_children_member(node@->Tag_0.children));
            target.push('}');
            assert(target@ == old(target)@ + json_node(node@));
        },
    }
}

/// Appends a list of nodes to `target` as a JSON array.
fn push_nodes(target: &mut String, nodes: &Children)
    ensures
        final(target)@ == old(target)@ + json_nodes(trees_view(nodes@)),
    decreases nodes, 1int,
{
    let ghost views = trees_view(nodes@);
    let len: usize = nodes.len();
    target.push('[');
    let mut i: usize = 0;
    assert(target@ == old(target)@ + seq!['['] + json_items(views, 0));
    while i < len
        invariant
            views == trees_view(nodes@),
            len == nodes@.len(),
            i <= len,
            target@ == old(target)@ + seq!['['] + json_items(views, i as int),
        decreases len - i,
    {
        let ghost before = target@;
        if i > 0 {
            target.push(',');
        }
        push_node(target, &nodes[i]);
        i += 1;
        assert(target@ == old(target)@ + seq!['['] + json_items(views, i as int)) by {
            assert(nodes@[i - 1]@ == views[i - 1]);
            if i > 1 {
                assert(target@ == before + seq![','] + json_node(views[i - 1]));
                assert(before + seq![','] + json_node(views[i - 1]) == old(target)@ + seq!['['] + (
                json_items(views, i - 1) + seq![','] + json_node(views[i - 1])));
            }
        }
    }
    target.push(']');
    assert(target@ == old(target)@ + json_nodes(views));
}

/// Appends the JSON text of a list of nodes to `result`: an array, `[]` for
/// an empty list. What `result` held before stays in front of it.
///
/// Children are written by recursion, one call deep for each level of
/// nesting.
pub fn generate_json(xml_tree_nodes: Children, result: &mut String)
    ensures
        final(result)@ == old(result)@ + json_nodes(trees_view(xml_tree_nodes@)),
{
    push_nodes(result, &xml_tree_nodes);
}

} // verus!
