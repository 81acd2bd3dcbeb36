//! The tree builder: from the flat list of events to nested nodes.
//!
//! An opening tag that is not a single tag gathers what follows as its
//! children, up to the first closing tag that bears exactly its name. A
//! fragment gathers up to the first fragment closer. Closers are matched by
//! name alone, not by a stack: a closer that does not end the structure being
//! read is passed over and leaves no trace in the tree, at the top level too.
//! So in `<a><b></a>` the closer `</a>` is passed over while `b` is read, the
//! events end with `b` and `a` both open, and the document is refused.

use vstd::prelude::*;
use crate::chars::same_chars;
use crate::error::CompileError;
use crate::model::{
    nodes_view, trees_view, Children, FragmentView, Node, NodeView, Nodes, TagView, TreeView,
    XMLTreeNode,
};

verus! {

/// What ends the list of children being read.
#[derive(Debug, Clone, Copy)]
pub enum Closer<'a> {
    /// Nothing but the end of the events: the top level.
    End,
    /// A closing tag of this name.
    Tag(&'a [char]),
    /// A fragment closer.
    Fragment,
}

/// View of a [`Closer`].
pub enum CloserView {
    End,
    Tag(Seq<char>),
    Fragment,
}

impl<'a> View for Closer<'a> {
    type V = CloserView;

    open spec fn view(&self) -> CloserView {
        match *self {
            Closer::End => CloserView::End,
            Closer::Tag(name) => CloserView::Tag(name@),
            Closer::Fragment => CloserView::Fragment,
        }
    }
}

/// `event` ends a list of children that waits for `closer`.
pub open spec fn closes(event: NodeView, closer: CloserView) -> bool {
    match closer {
        CloserView::End => false,
        CloserView::Tag(name) => event == NodeView::TagEnd(name),
        CloserView::Fragment => event is FragmentEnd,
    }
}

/// The tree nodes that an event read by `build_node` stands for: itself, or
/// nothing for a closer, which never enters the tree.
pub open spec fn tree_nodes(event: NodeView) -> Seq<TreeView> {
    match event {
        NodeView::Tag(tag) => seq![TreeView::Tag(tag)],
        NodeView::Fragment(fragment) => seq![TreeView::Fragment(fragment)],
        NodeView::Comment(text) => seq![TreeView::Comment(text)],
        NodeView::String(text) => seq![TreeView::String(text)],
        NodeView::TagEnd(_) => Seq::empty(),
        NodeView::FragmentEnd => Seq::empty(),
    }
}

/// Reads one node from the front of `events`, which is not empty: gives the
/// first event, with its children where it opens a structure, and the events
/// that are left.
pub open spec fn build_node(events: Seq<NodeView>) -> Result<(NodeView, Seq<NodeView>), CompileError>
    decreases events.len(), 0int,
{
    if events.len() == 0 {
        Err(CompileError::UnterminatedStructure)
    } else {
        let rest = events.drop_first();
        match events[0] {
            NodeView::Tag(tag) => if tag.is_single_tag {
                Ok((events[0], rest))
            } else {
                match build_children(rest, CloserView::Tag(tag.node_name)) {
                    Ok((children, after)) => Ok(
                        (
                            NodeView::Tag(
                                TagView {
                                    node_name: tag.node_name,
                                    props: tag.props,
                                    is_single_tag: tag.is_single_tag,
                                    children: Some(children),
                                },
                            ),
                            after,
                        ),
                    ),
                    Err(e) => Err(e),
                }
            },
            NodeView::Fragment(_) => match build_children(rest, CloserView::Fragment) {
                Ok((children, after)) => Ok(
                    (NodeView::Fragment(FragmentView { children: Some(children) }), after),
                ),
                Err(e) => Err(e),
            },
            _ => Ok((events[0], rest)),
        }
    }
}

/// Reads nodes from the front of `events` up to the event that `closer` asks
/// for: gives the nodes and the events that are left after that event. At the
/// top level the list ends where the events end; anywhere else events that
/// end first leave the structure unterminated.
///
/// The test on the lengths only serves to show that the definition is well
/// founded: reading a node always takes at least one event (see
/// `lemma_build_node`).
pub open spec fn build_children(events: Seq<NodeView>, closer: CloserView) -> Result<
    (Seq<TreeView>, Seq<NodeView>),
    CompileError,
>
    decreases events.len(), 1int,
{
    if events.len() == 0 {
        if closer is End {
            Ok((Seq::empty(), events))
        } else {
            Err(CompileError::UnterminatedStructure)
        }
    } else {
        match build_node(events) {
            Ok((node, rest)) => if closes(node, closer) {
                Ok((Seq::empty(), rest))
            } else if rest.len() < events.len() {
                match build_children(rest, closer) {
                    Ok((more, after)) => Ok((tree_nodes(node) + more, after)),
                    Err(e) => Err(e),
                }
            } else {
                Err(CompileError::UnterminatedStructure)
            },
            Err(e) => Err(e),
        }
    }
}

/// The tree of a whole list of events: its top-level nodes, in order.
pub open spec fn build(events: Seq<NodeView>) -> Result<Seq<TreeView>, CompileError> {
    match build_children(events, CloserView::End) {
        Ok((trees, _)) => Ok(trees),
        Err(e) => Err(e),
    }
}

/// Reading a node takes at least one event, and the only error there is is
/// that of a structure left open.
pub proof fn lemma_build_node(events: Seq<NodeView>)
    requires
        events.len() > 0,
    ensures
        build_node(events) matches Ok((_, rest)) ==> rest.len() < events.len(),
        build_node(events) matches Err(e) ==> e == CompileError::UnterminatedStructure,
    decreases events.len(), 0int,
{
    let rest = events.drop_first();
    match events[0] {
        NodeView::Tag(tag) => {
            if !tag.is_single_tag {
                lemma_build_children(rest, CloserView::Tag(tag.node_name));
            }
        },
        NodeView::Fragment(_) => {
            lemma_build_children(rest, CloserView::Fragment);
        },
        _ => {},
    }
}

/// Reading a list of children never gives events back that were not there,
/// and the only error there is is that of a structure left open; at the top
/// level there is none, and all events are read.
pub proof fn lemma_build_children(events: Seq<NodeView>, closer: CloserView)
    ensures
        build_children(events, closer) matches Ok((_, after)) ==> after.len() <= events.len(),
        build_children(events, closer) matches Err(e) ==> e == CompileError::UnterminatedStructure,
        closer is End ==> (build_children(events, closer) matches Ok((_, after)) ==> after.len()
            == 0),
    decreases events.len(), 1int,
{
    if events.len() > 0 {
        lemma_build_node(events);
        match build_node(events) {
            Ok((node, rest)) => {
                if !closes(node, closer) {
                    lemma_build_children(rest, closer);
                }
            },
            Err(_) => {},
        }
    }
}

/// What holds of every node of a tree built from scanned events, at every
/// depth: a single tag has no list of children, every other tag has one, and
/// so has every fragment.
pub open spec fn finished_tree(node: TreeView) -> bool
    decreases node,
{
    match node {
        TreeView::Tag(tag) => match tag.children {
            Some(children) => !tag.is_single_tag && forall|i: int|
                0 <= i < children.len() ==> finished_tree(#[trigger] children[i]),
            None => tag.is_single_tag,
        },
        TreeView::Fragment(fragment) => match fragment.children {
            Some(children) => forall|i: int|
                0 <= i < children.len() ==> finished_tree(#[trigger] children[i]),
            None => false,
        },
        _ => true,
    }
}

/// Every node of `trees` satisfies `finished_tree`.
pub open spec fn finished_trees(trees: Seq<TreeView>) -> bool {
    forall|i: int| 0 <= i < trees.len() ==> finished_tree(#[trigger] trees[i])
}

/// No tag or fragment among `events` has children yet.
pub open spec fn childless_events(events: Seq<NodeView>) -> bool {
    forall|i: int|
        0 <= i < events.len() ==> match #[trigger] events[i] {
            NodeView::Tag(tag) => tag.children is None,
            NodeView::Fragment(fragment) => fragment.children is None,
            _ => true,
        }
}

/// A node read from events without children is finished, and the events that
/// are left are still without children.
pub proof fn lemma_build_node_finished(events: Seq<NodeView>)
    requires
        events.len() > 0,
        childless_events(events),
    ensures
        build_node(events) matches Ok((node, rest)) ==> finished_trees(tree_nodes(node))
            && childless_events(rest),
    decreases events.len(), 0int,
{
    let rest = events.drop_first();
    assert forall|i: int| 0 <= i < rest.len() implies match #[trigger] rest[i] {
        NodeView::Tag(tag) => tag.children is None,
        NodeView::Fragment(fragment) => fragment.children is None,
        _ => true,
    } by {
        assert(rest[i] == events[i + 1]);
    }
    match events[0] {
        NodeView::Tag(tag) => {
            if !tag.is_single_tag {
                lemma_build_children_finished(rest, CloserView::Tag(tag.node_name));
            }
        },
        NodeView::Fragment(_) => {
            lemma_build_children_finished(rest, CloserView::Fragment);
        },
        _ => {},
    }
}

/// The children read from events without children are finished, and the
/// events that are left are still without children.
pub proof fn lemma_build_children_finished(events: Seq<NodeView>, closer: CloserView)
    requires
        childless_events(events),
    ensures
        build_children(events, closer) matches Ok((trees, after)) ==> finished_trees(trees)
            && childless_events(after),
    decreases events.len(), 1int,
{
    if events.len() > 0 {
        lemma_build_node(events);
        lemma_build_node_finished(events);
        match build_node(events) {
            Ok((node, rest)) => {
                if !closes(node, closer) {
                    lemma_build_children_finished(rest, closer);
                    match build_children(rest, closer) {
                        Ok((more, after)) => {
                            let trees = tree_nodes(node) + more;
                            assert forall|i: int| 0 <= i < trees.len() implies finished_tree(
                                #[trigger] trees[i],
                            ) by {
                                if i < tree_nodes(node).len() {
                                    assert(trees[i] == tree_nodes(node)[i]);
                                } else {
                                    assert(trees[i] == more[i - tree_nodes(node).len()]);
                                }
                            }
                        },
                        Err(_) => {},
                    }
                }
            },
            Err(_) => {},
        }
    }
}

/// In the tree of events without children, such as the scanner gives, every
/// single tag is without a list of children and every other tag and every
/// fragment has one, at every depth. The only error of the tree builder is
/// that of a structure left open.
pub proof fn lemma_build(events: Seq<NodeView>)
    requires
        childless_events(events),
    ensures
        build(events) matches Ok(trees) ==> finished_trees(trees),
        build(events) matches Err(e) ==> e == CompileError::UnterminatedStructure,
{
    lemma_build_children(events, CloserView::End);
    lemma_build_children_finished(events, CloserView::End);
}

/// The views of the events on a stack, from its top down: the order in which
/// they will be read.
pub open spec fn pending(stack: Seq<Node>) -> Seq<NodeView> {
    Seq::new(stack.len(), |i: int| stack[stack.len() - 1 - i]@)
}

/// Tells whether the event `node` ends a list of children that waits for
/// `closer`.
fn is_closer(node: &Node, closer: &Closer) -> (r: bool)
    ensures
        r == closes(node@, closer@),
{
    match closer {
        Closer::End => false,
        Closer::Tag(name) => match node {
            Node::TagEnd(end) => same_chars(end.node_name, name),
            _ => false,
        },
        Closer::Fragment => match node {
            Node::FragmentEnd(_) => true,
            _ => false,
        },
    }
}

/// Adds the event `node` to `children` as a tree node, unless it is a closer:
/// a closer is dropped.
pub fn is_xml_tree_node_add_to_children<'a>(node: Node<'a>, children: &mut Children<'a>)
    ensures
        trees_view(final(children)@) == trees_view(old(children)@) + tree_nodes(node@),
{
    match node {
        Node::Tag(tag) => {
            children.push(XMLTreeNode::Tag(tag));
        },
        Node::Fragment(fragment) => {
            children.push(XMLTreeNode::Fragment(fragment));
        },
        Node::Comment(comment) => {
            children.push(XMLTreeNode::Comment(comment));
        },
        Node::String(text) => {
            children.push(XMLTreeNode::String(text));
        },
        _ => {},
    }
    assert(trees_view(children@) == trees_view(old(children)@) + tree_nodes(node@));
}

/// Takes one event off the stack of events and, where it opens a structure,
/// all that belongs to it: gives the event with its children filled in.
fn take_node<'a>(stack: &mut Vec<Node<'a>>) -> (r: Result<Node<'a>, CompileError>)
    requires
        old(stack)@.len() > 0,
    ensures
        r matches Ok(node) ==> build_node(pending(old(stack)@)) == Ok::<
            (NodeView, Seq<NodeView>),
            CompileError,
        >((node@, pending(final(stack)@))),
        r matches Err(e) ==> build_node(pending(old(stack)@)) == Err::<
            (NodeView, Seq<NodeView>),
            CompileError,
        >(e),
        final(stack)@.len() < old(stack)@.len(),
    decreases old(stack)@.len(), 0int,
{
    let node = stack.pop().unwrap();
    assert(pending(stack@) == pending(old(stack)@).drop_first());
    assert(node@ == pending(old(stack)@)[0]);
    match node {
        Node::Tag(tag) => {
            if tag.is_single_tag {
                Ok(Node::Tag(tag))
            } else {
                let mut tag = tag;
                let closer = Closer::Tag(tag.node_name);
                match take_children(stack, &closer) {
                    Ok(children) => {
                        tag.children = Some(children);
                        Ok(Node::Tag(tag))
                    },
                    Err(e) => Err(e),
                }
            }
        },
        Node::Fragment(fragment) => {
            let mut fragment = fragment;
            match take_children(stack, &Closer::Fragment) {
                Ok(children) => {
                    fragment.children = Some(children);
                    Ok(Node::Fragment(fragment))
                },
                Err(e) => Err(e),
            }
        },
        other => Ok(other),
    }
}

/// Takes nodes off the stack of events up to the event that `closer` asks
/// for, which it takes off too.
fn take_children<'a>(stack: &mut Vec<Node<'a>>, closer: &Closer<'a>) -> (r: Result<
    Children<'a>,
    CompileError,
>)
    ensures
        r matches Ok(children) ==> build_children(pending(old(stack)@), closer@) == Ok::<
            (Seq<TreeView>, Seq<NodeView>),
            CompileError,
        >((trees_view(children@), pending(final(stack)@))),
        r matches Err(e) ==> build_children(pending(old(stack)@), closer@) == Err::<
            (Seq<TreeView>, Seq<NodeView>),
            CompileError,
        >(e),
        final(stack)@.len() <= old(stack)@.len(),
    decreases old(stack)@.len(), 1int,
{
    let mut children: Children<'a> = Vec::new();
    assert(trees_view(children@) == Seq::<TreeView>::empty());
    loop
        invariant
            stack@.len() <= old(stack)@.len(),
            build_children(pending(old(stack)@), closer@) == match build_children(
                pending(stack@),
                closer@,
            ) {
                Ok((more, after)) => Ok::<(Seq<TreeView>, Seq<NodeView>), CompileError>(
                    (trees_view(children@) + more, after),
                ),
                Err(e) => Err(e),
            },
        decreases stack@.len(),
    {
        if stack.len() == 0 {
            assert(pending(stack@).len() == 0);
            match closer {
                Closer::End => {
                    assert(trees_view(children@) + Seq::<TreeView>::empty() == trees_view(
                        children@,
                    ));
                    return Ok(children);
                },
                _ => {
                    return Err(CompileError::UnterminatedStructure);
                },
            }
        }
        let ghost sofar = trees_view(children@);
        match take_node(stack) {
            Ok(node) => {
                if is_closer(&node, closer) {
                    assert(sofar + Seq::<TreeView>::empty() == sofar);
                    return Ok(children);
                }
                is_xml_tree_node_add_to_children(node, &mut children);
                proof {
                    match build_children(pending(stack@), closer@) {
                        Ok((more, after)) => {
                            assert((sofar + tree_nodes(node@)) + more == sofar + (tree_nodes(
                                node@,
                            ) + more));
                        },
                        Err(_) => {},
                    }
                }
            },
            Err(e) => {
                return Err(e);
            },
        }
    }
}

/// Rebuilds the nesting of a flat list of events: gives the top-level nodes,
/// in order, each with its children.
///
/// Fails exactly when a tag or fragment is still open where the events end.
/// Children are read by recursion, one call deep for each level of nesting.
pub fn parse_to_trees<'a>(nodes: Nodes<'a>) -> (r: Result<Children<'a>, CompileError>)
    ensures
        r matches Ok(trees) ==> build(nodes_view(nodes@)) == Ok::<Seq<TreeView>, CompileError>(
            trees_view(trees@),
        ),
        r matches Err(e) ==> build(nodes_view(nodes@)) == Err::<Seq<TreeView>, CompileError>(e),
        r matches Err(e) ==> e == CompileError::UnterminatedStructure,
{
    let mut queue: Nodes<'a> = nodes;
    let mut stack: Vec<Node<'a>> = Vec::new();
    while queue.len() > 0
        invariant
            queue@.len() + stack@.len() == nodes@.len(),
            queue@ == nodes@.subrange(0, queue@.len() as int),
            forall|i: int|
                0 <= i < stack@.len() ==> #[trigger] stack@[i] == nodes@[nodes@.len() - 1 - i],
        decreases queue@.len(),
    {
        let node = queue.pop().unwrap();
        stack.push(node);
    }
    assert(pending(stack@) == nodes_view(nodes@));
    proof {
        lemma_build_children(nodes_view(nodes@), CloserView::End);
    }
    take_children(&mut stack, &Closer::End)
}

} // verus!
