//! The data that flows through the pipeline, and its mathematical views.
//!
//! Every piece of text in an event or a tree node is a slice borrowed from the
//! input buffer. The views replace each slice by the sequence of characters it
//! holds, and each vector by a sequence of views.

use vstd::prelude::*;

verus! {

/// The value of an attribute: a string, or a flag for an attribute that is
/// present without a value.
#[derive(Debug, Clone, Copy, PartialEq, Eq)]
pub enum PropValue<'a> {
    StringValue(&'a [char]),
    BooleanValue(bool),
}

/// One attribute of a tag.
#[derive(Debug, Clone, Copy, PartialEq, Eq)]
pub struct Prop<'a> {
    pub name: &'a [char],
    pub value: PropValue<'a>,
}

/// The attributes of a tag, in the order in which their names first occurred.
pub type Props<'a> = Vec<Prop<'a>>;

/// The children of a tag or fragment, in document order.
pub type Children<'a> = Vec<XMLTreeNode<'a>>;

/// An opening tag. As an event it has no children; as a tree node it has
/// children unless it is a single (self-closing) tag.
#[derive(Debug, PartialEq, Eq)]
pub struct Tag<'a> {
    pub node_name: &'a [char],
    pub props: Option<Props<'a>>,
    pub is_single_tag: bool,
    pub children: Option<Children<'a>>,
}

/// A closing tag.
#[derive(Debug, Clone, Copy, PartialEq, Eq)]
pub struct TagEnd<'a> {
    pub node_name: &'a [char],
}

/// A comment: the text between `<!--` and `-->`.
#[derive(Debug, Clone, Copy, PartialEq, Eq)]
pub struct Comment<'a> {
    pub value: &'a [char],
}

/// A fragment, `<>...</>`: children without a name.
#[derive(Debug, PartialEq, Eq)]
pub struct Fragment<'a> {
    pub children: Option<Children<'a>>,
}

/// The closing marker of a fragment, `</>`.
#[derive(Debug, Clone, Copy, PartialEq, Eq)]
pub struct FragmentEnd {}

/// One event of the scanner's flat output.
#[derive(Debug, PartialEq, Eq)]
pub enum Node<'a> {
    Tag(Tag<'a>),
    TagEnd(TagEnd<'a>),
    Fragment(Fragment<'a>),
    FragmentEnd(FragmentEnd),
    Comment(Comment<'a>),
    String(&'a [char]),
}

/// The scanner's output: events in document order.
pub type Nodes<'a> = Vec<Node<'a>>;

/// A node of the finished tree. Closing markers do not occur in it.
#[derive(Debug, PartialEq, Eq)]
pub enum XMLTreeNode<'a> {
    Tag(Tag<'a>),
    Fragment(Fragment<'a>),
    Comment(Comment<'a>),
    String(&'a [char]),
}

/// View of a [`PropValue`].
pub enum PropValueView {
    StringValue(Seq<char>),
    BooleanValue(bool),
}

/// View of a [`Prop`].
pub struct PropView {
    pub name: Seq<char>,
    pub value: PropValueView,
}

/// View of a [`Tag`].
pub struct TagView {
    pub node_name: Seq<char>,
    pub props: Option<Seq<PropView>>,
    pub is_single_tag: bool,
    pub children: Option<Seq<TreeView>>,
}

/// View of a [`Fragment`].
pub struct FragmentView {
    pub children: Option<Seq<TreeView>>,
}

/// View of an [`XMLTreeNode`].
pub enum TreeView {
    Tag(TagView),
    Fragment(FragmentView),
    Comment(Seq<char>),
    String(Seq<char>),
}

/// View of a [`Node`].
pub enum NodeView {
    Tag(TagView),
    TagEnd(Seq<char>),
    Fragment(FragmentView),
    FragmentEnd,
    Comment(Seq<char>),
    String(Seq<char>),
}

impl<'a> View for PropValue<'a> {
    type V = PropValueView;

    open spec fn view(&self) -> PropValueView {
        match *self {
            PropValue::StringValue(s) => PropValueView::StringValue(s@),
            PropValue::BooleanValue(b) => PropValueView::BooleanValue(b),
        }
    }
}

impl<'a> View for Prop<'a> {
    type V = PropView;

    open spec fn view(&self) -> PropView {
        PropView { name: self.name@, value: self.value@ }
    }
}

/// The views of a sequence of attributes.
pub open spec fn props_view(props: Seq<Prop>) -> Seq<PropView> {
    Seq::new(props.len(), |i: int| props[i]@)
}

/// The view of an optional attribute list.
pub open spec fn opt_props_view(props: Option<Props>) -> Option<Seq<PropView>> {
    match props {
        Some(p) => Some(props_view(p@)),
        None => None,
    }
}

/// The view of a tree node.
pub open spec fn tree_view(node: XMLTreeNode) -> TreeView
    decreases node,
{
    match node {
        XMLTreeNode::Tag(t) => TreeView::Tag(tag_view(t)),
        XMLTreeNode::Fragment(f) => TreeView::Fragment(fragment_view(f)),
        XMLTreeNode::Comment(c) => TreeView::Comment(c.value@),
        XMLTreeNode::String(s) => TreeView::String(s@),
    }
}

/// The view of a tag.
pub open spec fn tag_view(tag: Tag) -> TagView
    decreases tag,
{
    TagView {
        node_name: tag.node_name@,
        props: opt_props_view(tag.props),
        is_single_tag: tag.is_single_tag,
        children: opt_trees_view(tag.children),
    }
}

/// The view of a fragment.
pub open spec fn fragment_view(fragment: Fragment) -> FragmentView
    decreases fragment,
{
    FragmentView { children: opt_trees_view(fragment.children) }
}

/// The view of an optional list of children.
pub open spec fn opt_trees_view(children: Option<Children>) -> Option<Seq<TreeView>>
    decreases children,
{
    match children {
        Some(c) => Some(trees_view(c@)),
        None => None,
    }
}

/// The views of a sequence of tree nodes.
pub open spec fn trees_view(nodes: Seq<XMLTreeNode>) -> Seq<TreeView>
    decreases nodes,
{
    Seq::new(
        nodes.len(),
        |i: int|
            if 0 <= i < nodes.len() {
                tree_view(nodes[i])
            } else {
                arbitrary()
            },
    )
}

impl<'a> View for XMLTreeNode<'a> {
    type V = TreeView;

    open spec fn view(&self) -> TreeView {
        tree_view(*self)
    }
}

impl<'a> View for Tag<'a> {
    type V = TagView;

    open spec fn view(&self) -> TagView {
        tag_view(*self)
    }
}

impl<'a> View for Fragment<'a> {
    type V = FragmentView;

    open spec fn view(&self) -> FragmentView {
        fragment_view(*self)
    }
}

impl<'a> View for Node<'a> {
    type V = NodeView;

    open spec fn view(&self) -> NodeView {
        match *self {
            Node::Tag(t) => NodeView::Tag(t@),
            Node::TagEnd(e) => NodeView::TagEnd(e.node_name@),
            Node::Fragment(f) => NodeView::Fragment(f@),
            Node::FragmentEnd(_) => NodeView::FragmentEnd,
            Node::Comment(c) => NodeView::Comment(c.value@),
            Node::String(s) => NodeView::String(s@),
        }
    }
}

/// The views of a sequence of events.
pub open spec fn nodes_view(nodes: Seq<Node>) -> Seq<NodeView> {
    Seq::new(nodes.len(), |i: int| nodes[i]@)
}

} // verus!
