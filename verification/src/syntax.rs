//! A Rust syntax tree held as plain values, and the parser that builds it.

use vstd::prelude::*;
use crate::text::str_eq;

verus! {

/// One node of a concrete syntax tree: its grammar kind, the field under
/// which its parent holds it, its byte range and rows, and its children in
/// source order (named and anonymous ones alike).
pub struct SyntaxNode {
    pub kind: String,
    pub field: Option<String>,
    pub named: bool,
    pub start_byte: usize,
    pub end_byte: usize,
    pub start_row: usize,
    pub end_row: usize,
    pub children: Vec<SyntaxNode>,
}

/// The tree that tree-sitter's Rust grammar gives for `src`, if it gives one.
pub uninterp spec fn rust_syntax_tree(src: Seq<char>) -> Option<SyntaxNode>;

#[verifier::external_type_specification]
#[verifier::external_body]
pub struct ExTreeSitterNode<'tree>(tree_sitter::Node<'tree>);

/// Copies a tree-sitter node and, recursively, its children into a
/// `SyntaxNode`, recording for each child the field name that
/// `Node::field_name_for_child` gives. Nothing is claimed of it: it only
/// serves `parse_rust`, whose contract names the whole tree.
#[verifier::external_body]
fn syntax_node_of(node: tree_sitter::Node, field: Option<&str>) -> SyntaxNode {
    let mut cursor = node.walk();
    SyntaxNode {
        kind: node.kind().to_string(),
        field: field.map(|f| f.to_string()),
        named: node.is_named(),
        start_byte: node.start_byte(),
        end_byte: node.end_byte(),
        start_row: node.start_position().row,
        end_row: node.end_position().row,
        children: node.children(&mut cursor).enumerate().map(
            |(i, c)| syntax_node_of(c, node.field_name_for_child(i as u32)),
        ).collect(),
    }
}

/// Parses `src` with `tree_sitter::Parser` set to `tree_sitter_rust::LANGUAGE`
/// and copies the root node. The contract claims only that the result is the
/// named tree of `src` (`None` where the grammar cannot be loaded or the
/// parser gives no tree), which is a function of `src` alone.
#[verifier::external_body]
pub(crate) fn parse_rust(src: &str) -> (r: Option<SyntaxNode>)
    ensures
        r == rust_syntax_tree(src@),
{
    let mut parser = tree_sitter::Parser::new();
    parser.set_language(&tree_sitter_rust::LANGUAGE.into()).ok()?;
    let tree = parser.parse(src, None)?;
    Some(syntax_node_of(tree.root_node(), None))
}

/// The `i`-th child of a node is below it.
pub proof fn lemma_child(n: SyntaxNode, i: int)
    requires
        0 <= i < n.children@.len(),
    ensures
        decreases_to!(n => n.children@[i]),
{
    assert(decreases_to!(n => n.children));
    assert(decreases_to!(n.children => n.children@));
    assert(decreases_to!(n.children@ => n.children@[i]));
}

/// The children of a node are below it.
pub proof fn lemma_children(n: SyntaxNode)
    ensures
        decreases_to!(n => n.children@),
{
    assert(decreases_to!(n => n.children));
    assert(decreases_to!(n.children => n.children@));
}

/// The children of an element of a sequence are below the sequence.
pub proof fn lemma_seq_children(s: Seq<SyntaxNode>, k: int)
    requires
        0 <= k < s.len(),
    ensures
        decreases_to!(s => s[k]),
        decreases_to!(s => s[k].children@),
{
    assert(decreases_to!(s => s[k]));
    lemma_children(s[k]);
}

/// The node's kind is `k`.
pub open spec fn has_kind(n: SyntaxNode, k: &str) -> bool {
    n.kind@ == k@
}

/// Whether the node's kind is `k`.
pub fn kind_is(n: &SyntaxNode, k: &str) -> (r: bool)
    ensures
        r == has_kind(*n, k),
{
    str_eq(n.kind.as_str(), k)
}

/// The node sits under field `f` of its parent.
pub open spec fn has_field(c: SyntaxNode, f: Seq<char>) -> bool {
    c.field matches Some(x) && x@ == f
}

/// The first position at or after `i` whose node sits under field `f`.
pub open spec fn field_index_from(cs: Seq<SyntaxNode>, f: Seq<char>, i: int) -> Option<int>
    decreases cs.len() - i,
{
    if i < 0 || i >= cs.len() {
        None
    } else if has_field(cs[i], f) {
        Some(i)
    } else {
        field_index_from(cs, f, i + 1)
    }
}

/// The position of the first child under field `f`.
pub open spec fn field_index(n: SyntaxNode, f: &str) -> Option<int> {
    field_index_from(n.children@, f@, 0)
}

/// The first child under field `f`, as tree-sitter's `child_by_field_name`.
pub open spec fn field_child(n: SyntaxNode, f: &str) -> Option<SyntaxNode> {
    match field_index(n, f) {
        Some(i) => Some(n.children@[i]),
        None => None,
    }
}

proof fn lemma_field_index_from(cs: Seq<SyntaxNode>, f: Seq<char>, i: int)
    requires
        0 <= i,
    ensures
        field_index_from(cs, f, i) matches Some(j) ==> i <= j < cs.len(),
    decreases cs.len() - i,
{
    if i < cs.len() && !has_field(cs[i], f) {
        lemma_field_index_from(cs, f, i + 1);
    }
}

/// A field's position is a position of a child.
pub proof fn lemma_field_index(n: SyntaxNode, f: &str)
    ensures
        field_index(n, f) matches Some(j) ==> 0 <= j < n.children@.len(),
{
    lemma_field_index_from(n.children@, f@, 0);
}

/// The position of the first child under field `f`.
pub fn field_index_exec(n: &SyntaxNode, f: &str) -> (r: Option<usize>)
    ensures
        r matches Some(i) ==> field_index(*n, f) == Some(i as int),
        r is None ==> field_index(*n, f) is None,
        r matches Some(i) ==> i < n.children@.len(),
{
    let len = n.children.len();
    let mut i: usize = 0;
    while i < len
        invariant
            len == n.children@.len(),
            i <= len,
            field_index(*n, f) == field_index_from(n.children@, f@, i as int),
        decreases len - i,
    {
        let c = &n.children[i];
        let hit = match &c.field {
            Some(x) => str_eq(x.as_str(), f),
            None => false,
        };
        if hit {
            return Some(i);
        }
        i = i + 1;
    }
    None
}

/// The first child under field `f`.
pub fn field_child_exec<'a>(n: &'a SyntaxNode, f: &str) -> (r: Option<&'a SyntaxNode>)
    ensures
        r is Some == field_child(*n, f) is Some,
        r matches Some(c) ==> field_child(*n, f) == Some(*c),
{
    match field_index_exec(n, f) {
        Some(i) => Some(&n.children[i]),
        None => None,
    }
}

} // verus!
