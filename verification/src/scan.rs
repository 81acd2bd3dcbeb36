//! The scanner: from the character buffer to a flat list of events.
//!
//! Outside `<...>` characters gather into text runs; a run is trimmed and
//! becomes a text event unless nothing is left of it. A `<` followed by `!--`
//! opens a comment, which lasts up to the next `-->`. Any other `<` opens a
//! tag, which lasts up to the next `>` outside quotation marks.

use vstd::prelude::*;
use vstd::slice::slice_subrange;
use crate::chars::{
    find_char, find_char_from, is_quote, is_quote_mark, is_white_space, is_ws, lemma_find_char,
    lemma_trimmed, trim_string, trimmed,
};
use crate::error::CompileError;
use crate::model::{
    nodes_view, Comment, Fragment, FragmentEnd, FragmentView, Node, NodeView, Nodes, Tag, TagEnd,
    TagView,
};
use crate::props::{
    lemma_props_last_wins, parse_expression_to_props, parse_props, tokens_view, unique_names,
};

verus! {

/// The index of the `>` that closes a tag whose interior starts at `i`: the
/// least index `j >= i` at which `buf` holds a `>` outside quotation marks.
/// A quotation mark opens a quoted run that lasts up to the next occurrence
/// of the same mark.
pub open spec fn tag_close(buf: Seq<char>, i: int) -> Result<int, CompileError>
    decreases buf.len() - i,
{
    if i < 0 || i >= buf.len() {
        Err(CompileError::UnterminatedTag)
    } else if buf[i] == '>' {
        Ok(i)
    } else if is_quote(buf[i]) {
        let close = find_char(buf, buf[i], i + 1);
        if close >= buf.len() {
            Err(CompileError::UnterminatedQuote)
        } else {
            proof {
                lemma_find_char(buf, buf[i], i + 1);
            }
            tag_close(buf, close + 1)
        }
    } else {
        tag_close(buf, i + 1)
    }
}

/// `buf` holds `!--` at index `i`.
pub open spec fn comment_opens_at(buf: Seq<char>, i: int) -> bool {
    0 <= i && i + 3 <= buf.len() && buf[i] == '!' && buf[i + 1] == '-' && buf[i + 2] == '-'
}

/// `buf` holds `-->` at index `i`.
pub open spec fn comment_closes_at(buf: Seq<char>, i: int) -> bool {
    0 <= i && i + 3 <= buf.len() && buf[i] == '-' && buf[i + 1] == '-' && buf[i + 2] == '>'
}

/// The least index `j >= i` at which `buf` holds `-->`, or `buf.len()` if there
/// is none.
pub open spec fn comment_close(buf: Seq<char>, i: int) -> int
    decreases buf.len() - i,
{
    if i < 0 || i + 3 > buf.len() {
        buf.len() as int
    } else if comment_closes_at(buf, i) {
        i
    } else {
        comment_close(buf, i + 1)
    }
}

/// The end of the token that starts at `i`: the least index `j >= i` at which
/// `s` holds whitespace outside quotation marks, or `s.len()` if there is
/// none. A quoted run that is never closed lasts to the end of `s`.
pub open spec fn token_end(s: Seq<char>, i: int) -> int
    decreases s.len() - i,
{
    if i < 0 || i >= s.len() {
        s.len() as int
    } else if is_ws(s[i]) {
        i
    } else if is_quote(s[i]) {
        let close = find_char(s, s[i], i + 1);
        if close >= s.len() {
            s.len() as int
        } else {
            proof {
                lemma_find_char(s, s[i], i + 1);
            }
            token_end(s, close + 1)
        }
    } else {
        token_end(s, i + 1)
    }
}

/// The tokens of `s` from index `i` on: the maximal runs without whitespace
/// outside quotation marks, in order, none of them empty.
pub open spec fn tokens_from(s: Seq<char>, i: int) -> Seq<Seq<char>>
    decreases s.len() - i,
{
    if i < 0 || i >= s.len() {
        Seq::empty()
    } else if is_ws(s[i]) {
        tokens_from(s, i + 1)
    } else {
        proof {
            lemma_token_end(s, i);
        }
        seq![s.subrange(i, token_end(s, i))] + tokens_from(s, token_end(s, i))
    }
}

/// The event that a tag with the given interior stands for; the interior is
/// what lies between `<` and `>`.
///
/// A `/` at the end of an interior of more than one character marks a single
/// tag and is no part of what follows. Of the rest:
///
/// - with whitespace outside quotation marks in it, it is an opening tag:
///   what precedes the first such whitespace is its name, the tokens after it
///   are its attributes; if nothing precedes that whitespace, the whole rest
///   is the name;
/// - empty, it opens a fragment;
/// - a lone `/` closes a fragment, and `/` before a name closes the tag of
///   that name;
/// - anything else is an opening tag without attributes.
pub open spec fn tag_event(interior: Seq<char>) -> NodeView {
    let single = interior.len() > 1 && interior.last() == '/';
    let content = if single {
        interior.drop_last()
    } else {
        interior
    };
    let name_end = token_end(content, 0);
    if name_end < content.len() {
        NodeView::Tag(
            TagView {
                node_name: if name_end == 0 {
                    content
                } else {
                    content.subrange(0, name_end)
                },
                props: parse_props(tokens_from(content, name_end)),
                is_single_tag: single,
                children: None,
            },
        )
    } else if content.len() == 0 {
        NodeView::Fragment(FragmentView { children: None })
    } else if content[0] == '/' {
        if content.len() == 1 {
            NodeView::FragmentEnd
        } else {
            NodeView::TagEnd(content.subrange(1, content.len() as int))
        }
    } else {
        NodeView::Tag(
            TagView { node_name: content, props: None, is_single_tag: single, children: None },
        )
    }
}

/// The event that the markup starting with the `<` at index `lt` stands for,
/// and the index just after that markup.
pub open spec fn markup(buf: Seq<char>, lt: int) -> Result<(NodeView, int), CompileError> {
    if comment_opens_at(buf, lt + 1) {
        let close = comment_close(buf, lt + 4);
        if close >= buf.len() {
            Err(CompileError::UnterminatedComment)
        } else {
            Ok((NodeView::Comment(buf.subrange(lt + 4, close)), close + 3))
        }
    } else {
        match tag_close(buf, lt + 1) {
            Ok(gt) => Ok((tag_event(buf.subrange(lt + 1, gt)), gt + 1)),
            Err(e) => Err(e),
        }
    }
}

/// The events of a text run: its trimmed text, unless nothing is left of it.
pub open spec fn text_events(run: Seq<char>) -> Seq<NodeView> {
    match trimmed(run) {
        Some(text) => seq![NodeView::String(text)],
        None => Seq::empty(),
    }
}

/// `events` followed by what `rest` holds, or the error of `rest`.
pub open spec fn events_then(
    events: Seq<NodeView>,
    rest: Result<Seq<NodeView>, CompileError>,
) -> Result<Seq<NodeView>, CompileError> {
    match rest {
        Ok(more) => Ok(events + more),
        Err(e) => Err(e),
    }
}

/// The events of `buf` from index `start` on, where `start` lies outside any
/// markup.
pub open spec fn scan_from(buf: Seq<char>, start: int) -> Result<Seq<NodeView>, CompileError>
    decreases buf.len() - start,
{
    if start < 0 || start > buf.len() {
        Ok(Seq::empty())
    } else {
        let lt = find_char(buf, '<', start);
        let text = text_events(buf.subrange(start, lt));
        if lt >= buf.len() {
            Ok(text)
        } else {
            match markup(buf, lt) {
                Ok((event, next)) => {
                    proof {
                        lemma_find_char(buf, '<', start);
                        lemma_markup(buf, lt);
                    }
                    events_then(text.push(event), scan_from(buf, next))
                },
                Err(e) => Err(e),
            }
        }
    }
}

/// The events of a whole buffer, or the reason why it has none.
pub open spec fn scan(buf: Seq<char>) -> Result<Seq<NodeView>, CompileError> {
    scan_from(buf, 0)
}

/// Putting events in front is the same in one step as in two, and putting
/// none in front changes nothing.
pub proof fn lemma_events_then(
    first: Seq<NodeView>,
    second: Seq<NodeView>,
    rest: Result<Seq<NodeView>, CompileError>,
)
    ensures
        events_then(first + second, rest) == events_then(first, events_then(second, rest)),
        events_then(Seq::empty(), rest) == rest,
{
    match rest {
        Ok(more) => {
            assert((first + second) + more == first + (second + more));
            assert(Seq::<NodeView>::empty() + more == more);
        },
        Err(_) => {},
    }
}

/// What `tag_close` finds lies at or after `i` and is a `>`.
pub proof fn lemma_tag_close(buf: Seq<char>, i: int)
    requires
        0 <= i <= buf.len(),
    ensures
        tag_close(buf, i) matches Ok(gt) ==> i <= gt < buf.len() && buf[gt] == '>',
        tag_close(buf, i) matches Err(e) ==> e == CompileError::UnterminatedTag || e
            == CompileError::UnterminatedQuote,
    decreases buf.len() - i,
{
    if i < buf.len() && buf[i] != '>' {
        if is_quote(buf[i]) {
            let close = find_char(buf, buf[i], i + 1);
            lemma_find_char(buf, buf[i], i + 1);
            if close < buf.len() {
                lemma_tag_close(buf, close + 1);
            }
        } else {
            lemma_tag_close(buf, i + 1);
        }
    }
}

/// A `>` between quotation marks does not end the tag: where a quoted run
/// opens at `i` and closes at `close`, the tag ends where it ends when read
/// from just after `close`, whatever lies between the marks.
pub proof fn lemma_quoted_run_is_passed_over(buf: Seq<char>, i: int, close: int)
    requires
        0 <= i < close < buf.len(),
        is_quote(buf[i]),
        buf[close] == buf[i],
        forall|k: int| i < k < close ==> #[trigger] buf[k] != buf[i],
    ensures
        tag_close(buf, i) == tag_close(buf, close + 1),
{
    lemma_find_char(buf, buf[i], i + 1);
    let found = find_char(buf, buf[i], i + 1);
    if found < close {
        assert(buf[found] == buf[i]);
    }
}

/// What `comment_close` finds: `-->` does not start between `i` and the
/// result, and it starts at the result if that lies inside `buf`.
pub proof fn lemma_comment_close(buf: Seq<char>, i: int)
    requires
        0 <= i <= buf.len(),
    ensures
        i <= comment_close(buf, i) <= buf.len(),
        comment_close(buf, i) < buf.len() ==> comment_closes_at(buf, comment_close(buf, i)),
        forall|k: int| i <= k < comment_close(buf, i) ==> !#[trigger] comment_closes_at(buf, k),
    decreases buf.len() - i,
{
    if i + 3 <= buf.len() && !comment_closes_at(buf, i) {
        lemma_comment_close(buf, i + 1);
    }
}

/// What `token_end` finds lies at or after `i`, strictly after it if the
/// token is not empty, and is whitespace if it lies inside `s`.
pub proof fn lemma_token_end(s: Seq<char>, i: int)
    requires
        0 <= i <= s.len(),
    ensures
        i <= token_end(s, i) <= s.len(),
        i < s.len() && !is_ws(s[i]) ==> i < token_end(s, i),
        token_end(s, i) < s.len() ==> is_ws(s[token_end(s, i)]),
    decreases s.len() - i,
{
    if i < s.len() && !is_ws(s[i]) {
        if is_quote(s[i]) {
            let close = find_char(s, s[i], i + 1);
            lemma_find_char(s, s[i], i + 1);
            if close < s.len() {
                lemma_token_end(s, close + 1);
            }
        } else {
            lemma_token_end(s, i + 1);
        }
    }
}

/// Markup ends after the `<` that starts it and inside the buffer.
pub proof fn lemma_markup(buf: Seq<char>, lt: int)
    requires
        0 <= lt < buf.len(),
    ensures
        markup(buf, lt) matches Ok((_, next)) ==> lt < next <= buf.len(),
        markup(buf, lt) matches Err(e) ==> e != CompileError::UnterminatedStructure,
{
    if comment_opens_at(buf, lt + 1) {
        lemma_comment_close(buf, lt + 4);
    } else {
        lemma_tag_close(buf, lt + 1);
    }
}

/// What holds of every event that the scanner gives: text is not empty and
/// has no whitespace at either end; a tag or fragment has no children yet; a
/// tag that has attributes has at least one, and no name twice.
pub open spec fn scanned_event(event: NodeView) -> bool {
    match event {
        NodeView::String(text) => text.len() > 0 && !is_ws(text.first()) && !is_ws(text.last()),
        NodeView::Tag(tag) => {
            &&& tag.children is None
            &&& tag.props matches Some(props) ==> props.len() > 0 && unique_names(props)
        },
        NodeView::Fragment(fragment) => fragment.children is None,
        _ => true,
    }
}

/// Every event of `events` is one that the scanner can give.
pub open spec fn scanned_events(events: Seq<NodeView>) -> bool {
    forall|i: int| 0 <= i < events.len() ==> scanned_event(#[trigger] events[i])
}

/// The event of a tag is one that the scanner can give, and it is no text and
/// no comment.
pub proof fn lemma_tag_event(interior: Seq<char>)
    ensures
        scanned_event(tag_event(interior)),
        !(tag_event(interior) is String),
        !(tag_event(interior) is Comment),
{
    let single = interior.len() > 1 && interior.last() == '/';
    let content = if single {
        interior.drop_last()
    } else {
        interior
    };
    let name_end = token_end(content, 0);
    if name_end < content.len() {
        lemma_props_last_wins(tokens_from(content, name_end));
    }
}

/// From any start outside markup, the scanner gives only events that satisfy
/// `scanned_event`, and it never reports a structure left open: that is for
/// the tree builder to find.
pub proof fn lemma_scan_from(buf: Seq<char>, start: int)
    requires
        0 <= start <= buf.len(),
    ensures
        scan_from(buf, start) matches Ok(events) ==> scanned_events(events),
        scan_from(buf, start) matches Err(e) ==> e != CompileError::UnterminatedStructure,
    decreases buf.len() - start,
{
    let lt = find_char(buf, '<', start);
    let text = text_events(buf.subrange(start, lt));
    lemma_find_char(buf, '<', start);
    lemma_trimmed(buf.subrange(start, lt));
    assert(scanned_events(text));
    if lt < buf.len() {
        lemma_markup(buf, lt);
        match markup(buf, lt) {
            Ok((event, next)) => {
                if !comment_opens_at(buf, lt + 1) {
                    lemma_tag_event(buf.subrange(lt + 1, tag_close(buf, lt + 1)->Ok_0));
                }
                assert(scanned_event(event));
                lemma_scan_from(buf, next);
                match scan_from(buf, next) {
                    Ok(more) => {
                        let events = text.push(event) + more;
                        assert forall|i: int| 0 <= i < events.len() implies scanned_event(
                            #[trigger] events[i],
                        ) by {
                            if i < text.len() {
                                assert(events[i] == text[i]);
                            } else if i == text.len() {
                                assert(events[i] == event);
                            } else {
                                assert(events[i] == more[i - text.len() - 1]);
                            }
                        }
                    },
                    Err(_) => {},
                }
            },
            Err(_) => {},
        }
    }
}

/// The scanner gives only events that satisfy `scanned_event`: text events
/// are trimmed and never empty, tags and fragments have no children yet, and
/// attributes, where a tag has any, are a map. It never reports a structure
/// left open.
pub proof fn lemma_scan(buf: Seq<char>)
    ensures
        scan(buf) matches Ok(events) ==> scanned_events(events),
        scan(buf) matches Err(e) ==> e != CompileError::UnterminatedStructure,
{
    lemma_scan_from(buf, 0);
}

/// Finds the `>` that closes a tag whose interior starts at `i`.
fn find_tag_close(buf: &[char], i: usize) -> (r: Result<usize, CompileError>)
    requires
        i <= buf@.len(),
    ensures
        r matches Ok(gt) ==> tag_close(buf@, i as int) == Ok::<int, CompileError>(gt as int) && i
            <= gt < buf@.len(),
        r matches Err(e) ==> tag_close(buf@, i as int) == Err::<int, CompileError>(e),
{
    let len: usize = buf.len();
    let mut j: usize = i;
    while j < len
        invariant
            len == buf@.len(),
            i <= j <= len,
            tag_close(buf@, i as int) == tag_close(buf@, j as int),
        decreases len - j,
    {
        let c: char = buf[j];
        if c == '>' {
            return Ok(j);
        }
        if is_quote_mark(c) {
            let close: usize = find_char_from(buf, c, j + 1);
            if close >= len {
                return Err(CompileError::UnterminatedQuote);
            }
            j = close + 1;
        } else {
            j += 1;
        }
    }
    Err(CompileError::UnterminatedTag)
}

/// Finds the first `-->` that starts at or after index `i`; gives `buf.len()`
/// when there is none.
fn find_comment_close(buf: &[char], i: usize) -> (r: usize)
    requires
        i <= buf@.len(),
    ensures
        r == comment_close(buf@, i as int),
        i <= r <= buf@.len(),
        r < buf@.len() ==> r + 3 <= buf@.len(),
{
    let len: usize = buf.len();
    let mut j: usize = i;
    while len - j >= 3
        invariant
            len == buf@.len(),
            i <= j <= len,
            comment_close(buf@, i as int) == comment_close(buf@, j as int),
        decreases len - j,
    {
        if buf[j] == '-' && buf[j + 1] == '-' && buf[j + 2] == '>' {
            return j;
        }
        j += 1;
    }
    len
}

/// Finds the end of the token that starts at `i`.
fn find_token_end(s: &[char], i: usize) -> (r: usize)
    requires
        i <= s@.len(),
    ensures
        r == token_end(s@, i as int),
        i <= r <= s@.len(),
{
    let len: usize = s.len();
    let mut j: usize = i;
    while j < len
        invariant
            len == s@.len(),
            i <= j <= len,
            token_end(s@, i as int) == token_end(s@, j as int),
        decreases len - j,
    {
        let c: char = s[j];
        if is_white_space(c) {
            return j;
        }
        if is_quote_mark(c) {
            let close: usize = find_char_from(s, c, j + 1);
            if close >= len {
                return len;
            }
            j = close + 1;
        } else {
            j += 1;
        }
    }
    len
}

/// Splits `s` from index `from` on into its tokens, each borrowed from `s`.
fn split_tokens<'a>(s: &'a [char], from: usize) -> (r: Vec<&'a [char]>)
    requires
        from <= s@.len(),
    ensures
        tokens_view(r@) == tokens_from(s@, from as int),
{
    let len: usize = s.len();
    let mut tokens: Vec<&'a [char]> = Vec::new();
    let mut i: usize = from;
    assert(tokens_view(tokens@) + tokens_from(s@, i as int) == tokens_from(s@, from as int));
    while i < len
        invariant
            len == s@.len(),
            from <= i <= len,
            tokens_view(tokens@) + tokens_from(s@, i as int) == tokens_from(s@, from as int),
        decreases len - i,
    {
        if is_white_space(s[i]) {
            i += 1;
        } else {
            let end: usize = find_token_end(s, i);
            proof {
                lemma_token_end(s@, i as int);
            }
            let ghost before = tokens_view(tokens@);
            tokens.push(slice_subrange(s, i, end));
            assert(tokens_view(tokens@) == before.push(s@.subrange(i as int, end as int)));
            assert(before.push(s@.subrange(i as int, end as int)) + tokens_from(s@, end as int)
                == before + (seq![s@.subrange(i as int, end as int)] + tokens_from(
                s@,
                end as int,
            )));
            i = end;
        }
    }
    assert(tokens_view(tokens@) + Seq::<Seq<char>>::empty() == tokens_view(tokens@));
    tokens
}

/// Builds the event of a tag from its interior, the text between `<` and `>`.
fn tag_node<'a>(interior: &'a [char]) -> (r: Node<'a>)
    ensures
        r@ == tag_event(interior@),
{
    let full: usize = interior.len();
    let single: bool = full > 1 && interior[full - 1] == '/';
    let content: &'a [char] = if single {
        slice_subrange(interior, 0, full - 1)
    } else {
        interior
    };
    assert(content@ == if single {
        interior@.drop_last()
    } else {
        interior@
    });
    let len: usize = content.len();
    let name_end: usize = find_token_end(content, 0);
    if name_end < len {
        let node_name: &'a [char] = if name_end == 0 {
            content
        } else {
            slice_subrange(content, 0, name_end)
        };
        let props = parse_expression_to_props(split_tokens(content, name_end));
        Node::Tag(Tag { node_name, props, is_single_tag: single, children: None })
    } else if len == 0 {
        Node::Fragment(Fragment { children: None })
    } else if content[0] == '/' {
        if len == 1 {
            Node::FragmentEnd(FragmentEnd {  })
        } else {
            Node::TagEnd(TagEnd { node_name: slice_subrange(content, 1, len) })
        }
    } else {
        Node::Tag(Tag { node_name: content, props: None, is_single_tag: single, children: None })
    }
}

/// Reads the markup that starts with the `<` at index `lt`: gives its event
/// and the index just after it.
fn scan_markup<'a>(buf: &'a [char], lt: usize) -> (r: Result<(Node<'a>, usize), CompileError>)
    requires
        lt < buf@.len(),
    ensures
        r matches Ok((node, next)) ==> markup(buf@, lt as int) == Ok::<
            (NodeView, int),
            CompileError,
        >((node@, next as int)) && lt < next <= buf@.len(),
        r matches Err(e) ==> markup(buf@, lt as int) == Err::<(NodeView, int), CompileError>(e),
{
    let len: usize = buf.len();
    if len - lt >= 4 && buf[lt + 1] == '!' && buf[lt + 2] == '-' && buf[lt + 3] == '-' {
        let close: usize = find_comment_close(buf, lt + 4);
        if close >= len {
            Err(CompileError::UnterminatedComment)
        } else {
            Ok((Node::Comment(Comment { value: slice_subrange(buf, lt + 4, close) }), close + 3))
        }
    } else {
        match find_tag_close(buf, lt + 1) {
            Ok(gt) => Ok((tag_node(slice_subrange(buf, lt + 1, gt)), gt + 1)),
            Err(e) => Err(e),
        }
    }
}

/// Scans a character buffer into its events, in document order. Every piece
/// of text in the result borrows from `xml`.
///
/// Fails on a tag, a quoted run inside a tag, or a comment that the buffer
/// ends before closing.
pub fn parse_to_nodes<'a>(xml: &'a Vec<char>) -> (r: Result<Nodes<'a>, CompileError>)
    ensures
        r matches Ok(nodes) ==> scan(xml@) == Ok::<Seq<NodeView>, CompileError>(
            nodes_view(nodes@),
        ),
        r matches Err(e) ==> scan(xml@) == Err::<Seq<NodeView>, CompileError>(e),
        r matches Ok(nodes) ==> scanned_events(nodes_view(nodes@)),
        r matches Err(e) ==> e != CompileError::UnterminatedStructure,
{
    let buf: &'a [char] = xml.as_slice();
    let len: usize = buf.len();
    let mut nodes: Nodes<'a> = Vec::new();
    let mut start: usize = 0;
    proof {
        lemma_events_then(Seq::empty(), Seq::empty(), scan_from(buf@, 0));
    }
    loop
        invariant
            buf@ == xml@,
            len == buf@.len(),
            start <= len,
            scan(buf@) == events_then(nodes_view(nodes@), scan_from(buf@, start as int)),
        decreases len - start,
    {
        proof {
            lemma_scan(buf@);
        }
        let lt: usize = find_char_from(buf, '<', start);
        let ghost before = nodes_view(nodes@);
        let ghost text = text_events(buf@.subrange(start as int, lt as int));
        if lt > start {
            if let Some(string) = trim_string(slice_subrange(buf, start, lt)) {
                nodes.push(Node::String(string));
            }
        }
        assert(nodes_view(nodes@) == before + text);
        if lt >= len {
            return Ok(nodes);
        }
        match scan_markup(buf, lt) {
            Ok((node, next)) => {
                nodes.push(node);
                assert(nodes_view(nodes@) == before + text.push(node@));
                proof {
                    lemma_events_then(before, text.push(node@), scan_from(buf@, next as int));
                }
                start = next;
            },
            Err(e) => {
                return Err(e);
            },
        }
    }
}

} // verus!
