//! The whole pipeline, from markup text to JSON text.

use vstd::prelude::*;
use crate::chars::{all_ws, find_char, lemma_find_char, lemma_trimmed};
use crate::error::CompileError;
use crate::json::{generate_json, json_nodes};
use crate::scan::{parse_to_nodes, scan, scan_from};
use crate::tree::{build, parse_to_trees};

verus! {

/// The JSON text of a document, or the reason why it has none.
pub open spec fn compile(text: Seq<char>) -> Result<Seq<char>, CompileError> {
    match scan(text) {
        Ok(events) => match build(events) {
            Ok(trees) => Ok(json_nodes(trees)),
            Err(e) => Err(e),
        },
        Err(e) => Err(e),
    }
}

/// Gives the characters of `text`, in order.
fn chars_of(text: &str) -> (r: Vec<char>)
    ensures
        r@ == text@,
{
    let mut chars: Vec<char> = Vec::new();
    for c in iter: text.chars()
        invariant
            chars@ == iter.seq().subrange(0, iter.index() as int),
    {
        chars.push(c);
    }
    chars
}

/// Compiles markup text to the JSON text of its syntax tree.
///
/// The result depends on the characters of `raw_xml` alone: the same text
/// always gives the same output, character for character. A malformed
/// document gives the error that says what was left open, and no output.
pub fn xml_compile(raw_xml: &str) -> (r: Result<String, CompileError>)
    ensures
        r matches Ok(json) ==> compile(raw_xml@) == Ok::<Seq<char>, CompileError>(json@),
        r matches Err(e) ==> compile(raw_xml@) == Err::<Seq<char>, CompileError>(e),
{
    let xml: Vec<char> = chars_of(raw_xml);
    let nodes = match parse_to_nodes(&xml) {
        Ok(nodes) => nodes,
        Err(e) => {
            return Err(e);
        },
    };
    let trees = match parse_to_trees(nodes) {
        Ok(trees) => trees,
        Err(e) => {
            return Err(e);
        },
    };
    let mut json = String::new();
    let ghost expected = json_nodes(crate::model::trees_view(trees@));
    generate_json(trees, &mut json);
    assert(json@ == expected);
    Ok(json)
}

/// A document that holds nothing but whitespace, or nothing at all, compiles
/// to the empty array `[]`.
pub proof fn lemma_whitespace_compiles_to_empty_array(text: Seq<char>)
    requires
        all_ws(text),
    ensures
        compile(text) == Ok::<Seq<char>, CompileError>(seq!['[', ']']),
{
    lemma_find_char(text, '<', 0);
    let lt = find_char(text, '<', 0);
    if lt < text.len() {
        assert(crate::chars::is_ws(text[lt]));
    }
    assert(text.subrange(0, text.len() as int) == text);
    lemma_trimmed(text);
    assert(scan_from(text, 0) == Ok::<Seq<crate::model::NodeView>, CompileError>(Seq::empty()));
    let events = Seq::<crate::model::NodeView>::empty();
    assert(build(events) == Ok::<Seq<crate::model::TreeView>, CompileError>(Seq::empty()));
    let trees = Seq::<crate::model::TreeView>::empty();
    assert(json_nodes(trees) == seq!['[', ']']);
}

} // verus!
