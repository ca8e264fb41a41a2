//! The syntax tree of a Java source, as the parser gives it.

use vstd::prelude::*;
use vstd::utf8::{decode_utf8, encode_utf8, valid_utf8};

verus! {

#[verifier::external_type_specification]
#[verifier::external_body]
pub struct ExTree(tree_sitter::Tree);

#[verifier::external_type_specification]
#[verifier::external_body]
pub struct ExNode<'tree>(tree_sitter::Node<'tree>);

#[verifier::external_type_specification]
#[verifier::external_body]
pub struct ExParser(tree_sitter::Parser);

/// A node of a syntax tree: its kind, the bytes of the source that it
/// spans, and its children in source order.
pub ghost struct Syntax {
    pub kind: Seq<char>,
    pub start: nat,
    pub end: nat,
    pub children: Seq<Syntax>,
}

/// What a node of a parsed tree holds.
pub uninterp spec fn node_shape(node: tree_sitter::Node) -> Syntax;

/// The root of a parsed tree.
pub uninterp spec fn tree_shape(tree: tree_sitter::Tree) -> Syntax;

/// Whether the parser was given the Java grammar.
pub uninterp spec fn reads_java(parser: tree_sitter::Parser) -> bool;

/// The root of the tree that the Java grammar gives for `source`. There is
/// none when the parser library does not take the Java grammar, and none
/// when the parser stops without a tree.
pub uninterp spec fn java_tree(source: Seq<char>) -> Option<Syntax>;

/// The text in `bytes[start..end]`; empty when that is no UTF-8.
pub open spec fn span_text(bytes: Seq<u8>, start: nat, end: nat) -> Seq<char> {
    if start <= end <= bytes.len() && valid_utf8(bytes.subrange(start as int, end as int)) {
        decode_utf8(bytes.subrange(start as int, end as int))
    } else {
        Seq::empty()
    }
}

impl Syntax {
    /// The source text of the node; empty when its span lies outside the
    /// source.
    pub open spec fn text(self, bytes: Seq<u8>) -> Seq<char> {
        span_text(bytes, self.start, self.end)
    }
}

/// Calls `tree_sitter::Parser::new`: a parser that was given no grammar
/// yet.
#[verifier::external_body]
pub(crate) fn new_parser() -> (r: tree_sitter::Parser)
    ensures
        !reads_java(r),
{
    tree_sitter::Parser::new()
}

/// Calls `tree_sitter::Parser::set_language` with the grammar of
/// `tree_sitter_java`, and says whether the parser took it. Whether it does
/// rests on the version of the grammar alone, so a grammar that is refused
/// gives no tree for any source.
#[verifier::external_body]
pub(crate) fn set_java(parser: &mut tree_sitter::Parser) -> (r: bool)
    ensures
        r == reads_java(*final(parser)),
        !r ==> forall|source: Seq<char>| (#[trigger] java_tree(source)) is None,
{
    parser.set_language(&tree_sitter_java::LANGUAGE.into()).is_ok()
}

/// Calls `tree_sitter::Parser::parse` on the whole of `source`, with no
/// earlier tree. With the Java grammar the tree is a function of the
/// source; there is none when the parser stops.
#[verifier::external_body]
pub(crate) fn parse_source(parser: &mut tree_sitter::Parser, source: &str) -> (r: Option<
    tree_sitter::Tree,
>)
    requires
        reads_java(*old(parser)),
    ensures
        reads_java(*final(parser)),
        match r {
            Some(tree) => java_tree(source@) == Some(tree_shape(tree)),
            None => java_tree(source@) is None,
        },
{
    parser.parse(source, None)
}

/// Calls `tree_sitter::Tree::root_node`.
#[verifier::external_body]
pub(crate) fn root_node<'a>(tree: &'a tree_sitter::Tree) -> (r: tree_sitter::Node<'a>)
    ensures
        node_shape(r) == tree_shape(*tree),
{
    tree.root_node()
}

/// Calls `tree_sitter::Node::kind`: the name of the node's type in the
/// grammar.
#[verifier::external_body]
pub(crate) fn node_kind(node: &tree_sitter::Node) -> (r: String)
    ensures
        r@ == node_shape(*node).kind,
{
    node.kind().to_string()
}

/// Calls `tree_sitter::Node::start_byte`.
#[verifier::external_body]
pub(crate) fn node_start(node: &tree_sitter::Node) -> (r: usize)
    ensures
        r == node_shape(*node).start,
{
    node.start_byte()
}

/// Calls `tree_sitter::Node::end_byte`.
#[verifier::external_body]
pub(crate) fn node_end(node: &tree_sitter::Node) -> (r: usize)
    ensures
        r == node_shape(*node).end,
{
    node.end_byte()
}

/// Calls `tree_sitter::Node::child_count`.
#[verifier::external_body]
pub(crate) fn child_count(node: &tree_sitter::Node) -> (r: u32)
    ensures
        r == node_shape(*node).children.len(),
{
    node.child_count()
}

/// Calls `tree_sitter::Node::child`: the child with index `i`, which
/// exists for every index below the child count.
#[verifier::external_body]
pub(crate) fn child_at<'a>(node: &tree_sitter::Node<'a>, i: u32) -> (r: Option<
    tree_sitter::Node<'a>,
>)
    ensures
        i < node_shape(*node).children.len() ==> r is Some && node_shape(r->0) == node_shape(
            *node,
        ).children[i as int],
        i >= node_shape(*node).children.len() ==> r is None,
{
    node.child(i)
}

/// Calls `tree_sitter::Node::utf8_text`: the bytes of the source that the
/// node spans, as text; an error where they are no UTF-8 is turned into
/// the empty text.
#[verifier::external_body]
pub(crate) fn span_of(node: &tree_sitter::Node, source: &[u8]) -> (r: String)
    requires
        node_shape(*node).start <= node_shape(*node).end <= source@.len(),
    ensures
        r@ == node_shape(*node).text(source@),
{
    node.utf8_text(source).unwrap_or("").to_string()
}

/// The source text of `node`; empty when its span lies outside `source`.
pub(crate) fn node_text(node: &tree_sitter::Node, source: &[u8]) -> (r: String)
    ensures
        r@ == node_shape(*node).text(source@),
{
    let start = node_start(node);
    let end = node_end(node);
    if start <= end && end <= source.len() {
        span_of(node, source)
    } else {
        String::new()
    }
}

} // verus!
