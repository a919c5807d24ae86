//! Where code sits in its file: the items found in a tree do not depend on
//! the lines its nodes occupy, beyond whether a comment shares its line
//! with the code before it.

use vstd::prelude::*;
use crate::blocks::{
    alternative_blocks, arm_blocks, children_blocks, field_blocks, field_node, first_named_block,
    is_item_kind, nested_blocks,
};
use crate::extract::{
    attr_end, container_kind, container_scan, doc_texts, extract_items, free_group, free_path,
    group_comment_kind, group_end, group_texts, inner_doc_texts, item_kind_of, lead_end,
    lemma_block_below, line_number, make_item, recurse_child, recurse_loop, scan_blocks, scan_loop,
    span_end, trailing_group, ScanState,
};
use crate::laws::{
    candidates_same_but_lines, law_lines_do_not_matter_to_a_check, same_but_line,
    scans_same_but_lines,
};
use crate::model::{CommentKind, EntryView, ItemKind, ItemView};
use crate::scope::{
    block_cuts, body_text_of, collapsed_text, comment_node, comment_ranges, comment_ranges_from,
    container_signature, doc_comment_node, doc_text_of, first_of_kind, inner_doc_node, name_of,
    signature_of, signature_parts, span_parts, span_text, strip_node, strip_parts, text_of,
};
use crate::snapshot::{candidates_of, count_change, fresh_ids, new_baseline, Change};
use crate::syntax::{
    field_child, field_index, field_index_from, has_field, has_kind, lemma_child,
    lemma_seq_children, SyntaxNode,
};
use crate::text::{all_ws, join_lines};

verus! {

/// Two nodes that agree in kind, field, naming, bytes and number of
/// children (their rows may differ).
pub open spec fn alike(a: SyntaxNode, b: SyntaxNode) -> bool {
    &&& a.kind@ == b.kind@
    &&& match (a.field, b.field) {
        (Some(x), Some(y)) => x@ == y@,
        (None, None) => true,
        _ => false,
    }
    &&& a.named == b.named
    &&& a.start_byte == b.start_byte
    &&& a.end_byte == b.end_byte
    &&& a.children@.len() == b.children@.len()
}

/// The node at `j` begins on the line where the node before it ends.
pub open spec fn joined(s: Seq<SyntaxNode>, j: int) -> bool {
    s[j - 1].end_row == s[j].start_row
}

/// Two trees that differ at most in the rows of their nodes, and in such a
/// way that, among the children of each node, a child begins on the line
/// where the one before it ends in one tree exactly when it does in the
/// other.
pub open spec fn same_but_rows(a: SyntaxNode, b: SyntaxNode) -> bool
    decreases a, a.children@.len() + 1,
{
    alike(a, b) && children_same_but_rows(a, b, 0)
}

/// The children of `a` and `b` from position `j` on are alike but for
/// their rows, as `same_but_rows` says.
pub open spec fn children_same_but_rows(a: SyntaxNode, b: SyntaxNode, j: int) -> bool
    decreases a, a.children@.len() - j,
{
    if j < 0 || j >= a.children@.len() || a.children@.len() != b.children@.len() {
        true
    } else {
        proof {
            lemma_child(a, j);
        }
        &&& same_but_rows(a.children@[j], b.children@[j])
        &&& (j > 0 ==> (joined(a.children@, j) == joined(b.children@, j)))
        &&& children_same_but_rows(a, b, j + 1)
    }
}

/// Two sequences of nodes, pairwise alike but for their rows.
pub open spec fn pairwise(s: Seq<SyntaxNode>, t: Seq<SyntaxNode>) -> bool {
    &&& s.len() == t.len()
    &&& forall|i: int| 0 <= i < s.len() ==> same_but_rows(#[trigger] s[i], t[i])
}

/// Two sequences of sibling nodes, pairwise alike but for their rows, in
/// which each node shares its line with the one before in the one exactly
/// when it does in the other.
pub open spec fn siblings(s: Seq<SyntaxNode>, t: Seq<SyntaxNode>) -> bool {
    &&& pairwise(s, t)
    &&& forall|i: int| 0 < i < s.len() ==> #[trigger] joined(s, i) == joined(t, i)
}

proof fn lemma_children_from(a: SyntaxNode, b: SyntaxNode, j: int)
    requires
        0 <= j,
        a.children@.len() == b.children@.len(),
        children_same_but_rows(a, b, j),
    ensures
        forall|i: int|
            j <= i < a.children@.len() ==> same_but_rows(
                #[trigger] a.children@[i],
                b.children@[i],
            ),
        forall|i: int|
            j < i < a.children@.len() ==> #[trigger] joined(a.children@, i) == joined(
                b.children@,
                i,
            ),
        j < a.children@.len() && j > 0 ==> joined(a.children@, j) == joined(b.children@, j),
    decreases a.children@.len() - j,
{
    if j < a.children@.len() {
        lemma_children_from(a, b, j + 1);
    }
}

/// The children of two trees alike but for their rows are siblings alike
/// but for their rows.
pub proof fn lemma_children_siblings(a: SyntaxNode, b: SyntaxNode)
    requires
        same_but_rows(a, b),
    ensures
        alike(a, b),
        siblings(a.children@, b.children@),
{
    lemma_children_from(a, b, 0);
}

proof fn lemma_field_index_from(s: Seq<SyntaxNode>, t: Seq<SyntaxNode>, f: Seq<char>, i: int)
    requires
        pairwise(s, t),
    ensures
        field_index_from(s, f, i) == field_index_from(t, f, i),
    decreases s.len() - i,
{
    if 0 <= i < s.len() {
        assert(same_but_rows(s[i], t[i]));
        assert(has_field(s[i], f) == has_field(t[i], f));
        lemma_field_index_from(s, t, f, i + 1);
    }
}

/// Two trees alike but for their rows hold their fields at the same places.
pub proof fn lemma_field_index(a: SyntaxNode, b: SyntaxNode, f: &str)
    requires
        same_but_rows(a, b),
    ensures
        field_index(a, f) == field_index(b, f),
        match field_index(a, f) {
            Some(i) => 0 <= i < a.children@.len() && same_but_rows(a.children@[i], b.children@[i]),
            None => field_child(a, f) is None && field_child(b, f) is None,
        },
{
    lemma_children_siblings(a, b);
    lemma_field_index_from(a.children@, b.children@, f@, 0);
    crate::syntax::lemma_field_index(a, f);
}

/// Two trees alike but for their rows read the same as comments, doc
/// comments and names.
pub proof fn lemma_node_reads(src: Seq<char>, a: SyntaxNode, b: SyntaxNode)
    requires
        same_but_rows(a, b),
    ensures
        comment_node(a) == comment_node(b),
        doc_comment_node(a) == doc_comment_node(b),
        inner_doc_node(a) == inner_doc_node(b),
        text_of(src, a) == text_of(src, b),
        doc_text_of(src, a) == doc_text_of(src, b),
        name_of(src, a) == name_of(src, b),
{
    lemma_children_siblings(a, b);
    lemma_field_index(a, b, "outer");
    lemma_field_index(a, b, "inner");
    lemma_field_index(a, b, "doc");
    lemma_field_index(a, b, "trait");
    lemma_field_index(a, b, "type");
    lemma_field_index(a, b, "name");
    lemma_first_of_kind(a.children@, b.children@, "extern_modifier", 0);
    match first_of_kind(a.children@, "extern_modifier", 0) {
        Some(i) => {
            lemma_first_of_kind_bound(a.children@, "extern_modifier", 0);
            assert(same_but_rows(a.children@[i], b.children@[i]));
        },
        None => {},
    }
}

proof fn lemma_first_of_kind_bound(s: Seq<SyntaxNode>, k: &str, i: int)
    ensures
        first_of_kind(s, k, i) matches Some(j) ==> 0 <= j < s.len(),
    decreases s.len() - i,
{
    if 0 <= i < s.len() {
        lemma_first_of_kind_bound(s, k, i + 1);
    }
}

proof fn lemma_first_of_kind(s: Seq<SyntaxNode>, t: Seq<SyntaxNode>, k: &str, i: int)
    requires
        pairwise(s, t),
    ensures
        first_of_kind(s, k, i) == first_of_kind(t, k, i),
    decreases s.len() - i,
{
    if 0 <= i < s.len() {
        assert(same_but_rows(s[i], t[i]));
        lemma_first_of_kind(s, t, k, i + 1);
    }
}

/// Two trees alike but for their rows hold their comments at the same
/// bytes.
pub proof fn lemma_comment_ranges(a: SyntaxNode, b: SyntaxNode)
    requires
        same_but_rows(a, b),
    ensures
        comment_ranges(a) == comment_ranges(b),
    decreases a, a.children@.len() + 1,
{
    lemma_children_siblings(a, b);
    lemma_comment_ranges_from(a, b, 0);
}

proof fn lemma_comment_ranges_from(a: SyntaxNode, b: SyntaxNode, j: int)
    requires
        alike(a, b),
        siblings(a.children@, b.children@),
    ensures
        comment_ranges_from(a, j) == comment_ranges_from(b, j),
    decreases a, a.children@.len() - j,
{
    if 0 <= j < a.children@.len() {
        lemma_child(a, j);
        assert(same_but_rows(a.children@[j], b.children@[j]));
        lemma_comment_ranges(a.children@[j], b.children@[j]);
        lemma_comment_ranges_from(a, b, j + 1);
    }
}

/// Two trees alike but for their rows read the same once their comments
/// are taken out.
pub proof fn lemma_strip_node(src: Seq<char>, a: SyntaxNode, b: SyntaxNode)
    requires
        same_but_rows(a, b),
    ensures
        strip_node(src, a) == strip_node(src, b),
        signature_of(src, a) == signature_of(src, b),
{
    lemma_children_siblings(a, b);
    lemma_comment_ranges(a, b);
}

proof fn lemma_signature_parts(src: Seq<char>, s: Seq<SyntaxNode>, t: Seq<SyntaxNode>)
    requires
        pairwise(s, t),
    ensures
        signature_parts(src, s) == signature_parts(src, t),
        strip_parts(src, s) == strip_parts(src, t),
    decreases s.len(),
{
    if s.len() > 0 {
        assert(pairwise(s.drop_last(), t.drop_last())) by {
            assert forall|i: int| 0 <= i < s.drop_last().len() implies same_but_rows(
                #[trigger] s.drop_last()[i],
                t.drop_last()[i],
            ) by {
                assert(same_but_rows(s[i], t[i]));
            }
        }
        lemma_signature_parts(src, s.drop_last(), t.drop_last());
        assert(same_but_rows(s[s.len() - 1], t[t.len() - 1]));
        lemma_strip_node(src, s.last(), t.last());
        lemma_node_reads(src, s.last(), t.last());
    }
}

/// Two sequences of nodes alike but for their rows give the same
/// signature.
pub proof fn lemma_container_signature(src: Seq<char>, s: Seq<SyntaxNode>, t: Seq<SyntaxNode>)
    requires
        pairwise(s, t),
    ensures
        container_signature(src, s) == container_signature(src, t),
{
    lemma_signature_parts(src, s, t);
}

/// An item and its attributes read the same in two trees alike but for
/// their rows.
pub proof fn lemma_body_text(
    src: Seq<char>,
    attrs_a: Seq<SyntaxNode>,
    attrs_b: Seq<SyntaxNode>,
    a: SyntaxNode,
    b: SyntaxNode,
)
    requires
        pairwise(attrs_a, attrs_b),
        same_but_rows(a, b),
    ensures
        body_text_of(src, attrs_a, a) == body_text_of(src, attrs_b, b),
{
    lemma_signature_parts(src, attrs_a, attrs_b);
    lemma_strip_node(src, a, b);
    lemma_field_index(a, b, "body");
    match field_index(a, "body") {
        Some(i) => {
            lemma_children_siblings(a.children@[i], b.children@[i]);
            lemma_container_signature(src, a.children@[i].children@, b.children@[i].children@);
        },
        None => {},
    }
}

proof fn lemma_pairwise_concat(
    s1: Seq<SyntaxNode>,
    t1: Seq<SyntaxNode>,
    s2: Seq<SyntaxNode>,
    t2: Seq<SyntaxNode>,
)
    requires
        pairwise(s1, t1),
        pairwise(s2, t2),
    ensures
        pairwise(s1 + s2, t1 + t2),
{
    assert forall|i: int| 0 <= i < (s1 + s2).len() implies same_but_rows(
        #[trigger] (s1 + s2)[i],
        (t1 + t2)[i],
    ) by {
        if i < s1.len() {
            assert(same_but_rows(s1[i], t1[i]));
        } else {
            assert(same_but_rows(s2[i - s1.len()], t2[i - s1.len()]));
        }
    }
}

proof fn lemma_pairwise_one(a: SyntaxNode, b: SyntaxNode)
    requires
        same_but_rows(a, b),
    ensures
        pairwise(seq![a], seq![b]),
{
    assert(seq![a][0] == a);
    assert(seq![b][0] == b);
}

proof fn lemma_first_named_block(s: Seq<SyntaxNode>, t: Seq<SyntaxNode>, i: int)
    requires
        pairwise(s, t),
    ensures
        first_named_block(s, i) == first_named_block(t, i),
        first_named_block(s, i) matches Some(j) ==> 0 <= j < s.len(),
    decreases s.len() - i,
{
    if 0 <= i < s.len() {
        assert(same_but_rows(s[i], t[i]));
        lemma_first_named_block(s, t, i + 1);
    }
}

/// Two trees alike but for their rows hold alike blocks.
pub proof fn lemma_nested_blocks(a: SyntaxNode, b: SyntaxNode)
    requires
        same_but_rows(a, b),
    ensures
        pairwise(nested_blocks(a), nested_blocks(b)),
    decreases a, a.children@.len() + 1,
{
    lemma_children_siblings(a, b);
    let empty = Seq::<SyntaxNode>::empty();
    assert(pairwise(empty, empty));
    if is_item_kind(a.kind@) {
    } else if has_kind(a, "while_expression") || has_kind(a, "for_expression") || has_kind(
        a,
        "loop_expression",
    ) {
        lemma_field_node(a, b, "body");
        lemma_field_blocks(a, b, "condition");
        lemma_field_blocks(a, b, "value");
        lemma_field_blocks(a, b, "pattern");
        lemma_pairwise_concat(
            field_node(a, "body"),
            field_node(b, "body"),
            field_blocks(a, "condition"),
            field_blocks(b, "condition"),
        );
        lemma_pairwise_concat(
            field_node(a, "body") + field_blocks(a, "condition"),
            field_node(b, "body") + field_blocks(b, "condition"),
            field_blocks(a, "value"),
            field_blocks(b, "value"),
        );
        lemma_pairwise_concat(
            field_node(a, "body") + field_blocks(a, "condition") + field_blocks(a, "value"),
            field_node(b, "body") + field_blocks(b, "condition") + field_blocks(b, "value"),
            field_blocks(a, "pattern"),
            field_blocks(b, "pattern"),
        );
    } else if has_kind(a, "if_expression") {
        lemma_field_node(a, b, "consequence");
        lemma_field_blocks(a, b, "condition");
        lemma_pairwise_concat(
            field_node(a, "consequence"),
            field_node(b, "consequence"),
            field_blocks(a, "condition"),
            field_blocks(b, "condition"),
        );
        lemma_field_index(a, b, "alternative");
        match field_index(a, "alternative") {
            Some(i) => {
                lemma_child(a, i);
                lemma_children_siblings(a.children@[i], b.children@[i]);
                lemma_alternative_blocks(a.children@[i], b.children@[i], 0);
                lemma_pairwise_concat(
                    field_node(a, "consequence") + field_blocks(a, "condition"),
                    field_node(b, "consequence") + field_blocks(b, "condition"),
                    alternative_blocks(a.children@[i], 0),
                    alternative_blocks(b.children@[i], 0),
                );
            },
            None => {
                lemma_pairwise_concat(
                    field_node(a, "consequence") + field_blocks(a, "condition"),
                    field_node(b, "consequence") + field_blocks(b, "condition"),
                    empty,
                    empty,
                );
            },
        }
    } else if has_kind(a, "match_expression") {
        lemma_field_blocks(a, b, "value");
        lemma_field_index(a, b, "body");
        match field_index(a, "body") {
            Some(i) => {
                lemma_child(a, i);
                lemma_children_siblings(a.children@[i], b.children@[i]);
                lemma_arm_blocks(a.children@[i], b.children@[i], 0);
                lemma_pairwise_concat(
                    field_blocks(a, "value"),
                    field_blocks(b, "value"),
                    arm_blocks(a.children@[i], 0),
                    arm_blocks(b.children@[i], 0),
                );
            },
            None => {
                lemma_pairwise_concat(field_blocks(a, "value"), field_blocks(b, "value"), empty, empty);
            },
        }
    } else if has_kind(a, "closure_expression") {
        lemma_field_index(a, b, "body");
        match field_index(a, "body") {
            Some(i) => {
                lemma_child(a, i);
                lemma_children_siblings(a.children@[i], b.children@[i]);
                if has_kind(a.children@[i], "block") {
                    lemma_pairwise_one(a.children@[i], b.children@[i]);
                } else {
                    lemma_nested_blocks(a.children@[i], b.children@[i]);
                }
            },
            None => {},
        }
    } else if has_kind(a, "unsafe_block") || has_kind(a, "async_block") {
        lemma_first_named_block(a.children@, b.children@, 0);
        match first_named_block(a.children@, 0) {
            Some(i) => {
                assert(same_but_rows(a.children@[i], b.children@[i]));
                lemma_pairwise_one(a.children@[i], b.children@[i]);
            },
            None => {},
        }
    } else if has_kind(a, "block") {
        lemma_pairwise_one(a, b);
    } else {
        lemma_children_blocks(a, b, 0);
    }
}

proof fn lemma_field_node(a: SyntaxNode, b: SyntaxNode, f: &str)
    requires
        same_but_rows(a, b),
    ensures
        pairwise(field_node(a, f), field_node(b, f)),
{
    lemma_field_index(a, b, f);
    match field_index(a, f) {
        Some(i) => lemma_pairwise_one(a.children@[i], b.children@[i]),
        None => {},
    }
}

proof fn lemma_field_blocks(a: SyntaxNode, b: SyntaxNode, f: &str)
    requires
        same_but_rows(a, b),
    ensures
        pairwise(field_blocks(a, f), field_blocks(b, f)),
    decreases a, 0int,
{
    lemma_field_index(a, b, f);
    match field_index(a, f) {
        Some(i) => {
            lemma_child(a, i);
            lemma_nested_blocks(a.children@[i], b.children@[i]);
        },
        None => {},
    }
}

proof fn lemma_alternative_blocks(a: SyntaxNode, b: SyntaxNode, j: int)
    requires
        alike(a, b),
        siblings(a.children@, b.children@),
    ensures
        pairwise(alternative_blocks(a, j), alternative_blocks(b, j)),
    decreases a, a.children@.len() - j,
{
    let empty = Seq::<SyntaxNode>::empty();
    if 0 <= j < a.children@.len() {
        let c = a.children@[j];
        let d = b.children@[j];
        lemma_child(a, j);
        assert(same_but_rows(c, d));
        lemma_children_siblings(c, d);
        lemma_alternative_blocks(a, b, j + 1);
        let x = if !c.named {
            empty
        } else if has_kind(c, "block") {
            seq![c]
        } else {
            nested_blocks(c)
        };
        let y = if !d.named {
            empty
        } else if has_kind(d, "block") {
            seq![d]
        } else {
            nested_blocks(d)
        };
        if !c.named {
            assert(pairwise(empty, empty));
        } else if has_kind(c, "block") {
            lemma_pairwise_one(c, d);
        } else {
            lemma_nested_blocks(c, d);
        }
        lemma_pairwise_concat(x, y, alternative_blocks(a, j + 1), alternative_blocks(b, j + 1));
    } else {
        assert(pairwise(empty, empty));
    }
}

proof fn lemma_arm_blocks(a: SyntaxNode, b: SyntaxNode, j: int)
    requires
        alike(a, b),
        siblings(a.children@, b.children@),
    ensures
        pairwise(arm_blocks(a, j), arm_blocks(b, j)),
    decreases a, a.children@.len() - j,
{
    let empty = Seq::<SyntaxNode>::empty();
    assert(pairwise(empty, empty));
    if 0 <= j < a.children@.len() {
        let c = a.children@[j];
        let d = b.children@[j];
        lemma_child(a, j);
        assert(same_but_rows(c, d));
        lemma_children_siblings(c, d);
        lemma_arm_blocks(a, b, j + 1);
        lemma_field_index(c, d, "value");
        let x = if !c.named || !has_kind(c, "match_arm") {
            empty
        } else {
            match field_index(c, "value") {
                Some(v) => if has_kind(c.children@[v], "block") {
                    seq![c.children@[v]]
                } else {
                    nested_blocks(c.children@[v])
                },
                None => empty,
            }
        };
        let y = if !d.named || !has_kind(d, "match_arm") {
            empty
        } else {
            match field_index(d, "value") {
                Some(v) => if has_kind(d.children@[v], "block") {
                    seq![d.children@[v]]
                } else {
                    nested_blocks(d.children@[v])
                },
                None => empty,
            }
        };
        if c.named && has_kind(c, "match_arm") {
            match field_index(c, "value") {
                Some(v) => {
                    lemma_child(c, v);
                    lemma_children_siblings(c.children@[v], d.children@[v]);
                    if has_kind(c.children@[v], "block") {
                        lemma_pairwise_one(c.children@[v], d.children@[v]);
                    } else {
                        lemma_nested_blocks(c.children@[v], d.children@[v]);
                    }
                },
                None => {},
            }
        }
        assert(pairwise(x, y));
        lemma_pairwise_concat(x, y, arm_blocks(a, j + 1), arm_blocks(b, j + 1));
    }
}

proof fn lemma_children_blocks(a: SyntaxNode, b: SyntaxNode, j: int)
    requires
        alike(a, b),
        siblings(a.children@, b.children@),
    ensures
        pairwise(children_blocks(a, j), children_blocks(b, j)),
    decreases a, a.children@.len() - j,
{
    let empty = Seq::<SyntaxNode>::empty();
    assert(pairwise(empty, empty));
    if 0 <= j < a.children@.len() {
        let c = a.children@[j];
        let d = b.children@[j];
        lemma_child(a, j);
        assert(same_but_rows(c, d));
        lemma_children_siblings(c, d);
        lemma_children_blocks(a, b, j + 1);
        if c.named {
            lemma_nested_blocks(c, d);
            lemma_pairwise_concat(
                nested_blocks(c),
                nested_blocks(d),
                children_blocks(a, j + 1),
                children_blocks(b, j + 1),
            );
        } else {
            lemma_pairwise_concat(empty, empty, children_blocks(a, j + 1), children_blocks(b, j + 1));
        }
    }
}

proof fn lemma_block_cuts(s: Seq<SyntaxNode>, t: Seq<SyntaxNode>)
    requires
        pairwise(s, t),
    ensures
        block_cuts(s) == block_cuts(t),
    decreases s.len(),
{
    if s.len() > 0 {
        assert(pairwise(s.drop_last(), t.drop_last())) by {
            assert forall|i: int| 0 <= i < s.drop_last().len() implies same_but_rows(
                #[trigger] s.drop_last()[i],
                t.drop_last()[i],
            ) by {
                assert(same_but_rows(s[i], t[i]));
            }
        }
        lemma_block_cuts(s.drop_last(), t.drop_last());
        assert(same_but_rows(s[s.len() - 1], t[t.len() - 1]));
    }
}

/// Two trees alike but for their rows read the same with their comments
/// and nested blocks taken out.
pub proof fn lemma_collapsed_text(src: Seq<char>, a: SyntaxNode, b: SyntaxNode)
    requires
        same_but_rows(a, b),
    ensures
        collapsed_text(src, a) == collapsed_text(src, b),
{
    lemma_children_siblings(a, b);
    lemma_comment_ranges(a, b);
    lemma_nested_blocks(a, b);
    lemma_block_cuts(nested_blocks(a), nested_blocks(b));
}

/// Two sequences of nodes alike but for their rows read the same as a span
/// of code.
pub proof fn lemma_span_text(src: Seq<char>, s: Seq<SyntaxNode>, t: Seq<SyntaxNode>)
    requires
        pairwise(s, t),
    ensures
        span_parts(src, s) == span_parts(src, t),
        span_text(src, s) == span_text(src, t),
    decreases s.len(),
{
    if s.len() > 0 {
        assert(pairwise(s.drop_last(), t.drop_last())) by {
            assert forall|i: int| 0 <= i < s.drop_last().len() implies same_but_rows(
                #[trigger] s.drop_last()[i],
                t.drop_last()[i],
            ) by {
                assert(same_but_rows(s[i], t[i]));
            }
        }
        lemma_span_text(src, s.drop_last(), t.drop_last());
        assert(same_but_rows(s[s.len() - 1], t[t.len() - 1]));
        lemma_collapsed_text(src, s.last(), t.last());
    }
}

/// Two scan states alike but for the lines of the items found so far.
pub open spec fn states_same_but_lines(x: ScanState, y: ScanState) -> bool {
    x.0 == y.0 && scans_same_but_lines(x.1, y.1)
}

proof fn lemma_push_same(x: ScanState, y: ScanState, a: ItemView, b: ItemView)
    requires
        states_same_but_lines(x, y),
        same_but_line(a, b),
    ensures
        states_same_but_lines((x.0, x.1.push(a)), (y.0, y.1.push(b))),
{
    assert forall|i: int| 0 <= i < x.1.push(a).len() implies same_but_line(
        #[trigger] x.1.push(a)[i],
        y.1.push(b)[i],
    ) by {
        if i < x.1.len() {
            assert(same_but_line(x.1[i], y.1[i]));
        }
    }
}

proof fn lemma_ends(s: Seq<SyntaxNode>, t: Seq<SyntaxNode>, i: int)
    requires
        pairwise(s, t),
    ensures
        group_end(s, i) == group_end(t, i),
        span_end(s, i) == span_end(t, i),
        attr_end(s, i) == attr_end(t, i),
        lead_end(s, i) == lead_end(t, i),
    decreases s.len() - i,
{
    if 0 <= i < s.len() {
        assert(same_but_rows(s[i], t[i]));
        lemma_node_reads(Seq::empty(), s[i], t[i]);
        lemma_ends(s, t, i + 1);
    }
}

proof fn lemma_end_bounds(s: Seq<SyntaxNode>, i: int)
    requires
        0 <= i <= s.len(),
    ensures
        i <= group_end(s, i) <= s.len(),
        i <= span_end(s, i) <= s.len(),
        i <= attr_end(s, i) <= s.len(),
        i <= lead_end(s, i) <= s.len(),
        i < s.len() && comment_node(s[i]) ==> i < group_end(s, i),
    decreases s.len() - i,
{
    if i < s.len() {
        lemma_end_bounds(s, i + 1);
    }
}

proof fn lemma_pairwise_subrange(s: Seq<SyntaxNode>, t: Seq<SyntaxNode>, lo: int, hi: int)
    requires
        pairwise(s, t),
        0 <= lo <= hi <= s.len(),
    ensures
        pairwise(s.subrange(lo, hi), t.subrange(lo, hi)),
{
    assert forall|i: int| 0 <= i < hi - lo implies same_but_rows(
        #[trigger] s.subrange(lo, hi)[i],
        t.subrange(lo, hi)[i],
    ) by {
        assert(same_but_rows(s[lo + i], t[lo + i]));
    }
}

proof fn lemma_texts(src: Seq<char>, s: Seq<SyntaxNode>, t: Seq<SyntaxNode>)
    requires
        pairwise(s, t),
    ensures
        group_texts(src, s) == group_texts(src, t),
        inner_doc_texts(src, s) == inner_doc_texts(src, t),
        doc_texts(src, s) == doc_texts(src, t),
    decreases s.len(),
{
    if s.len() > 0 {
        lemma_pairwise_subrange(s, t, 0, s.len() - 1);
        assert(s.drop_last() == s.subrange(0, s.len() - 1));
        assert(t.drop_last() == t.subrange(0, t.len() - 1));
        lemma_texts(src, s.drop_last(), t.drop_last());
        assert(same_but_rows(s[s.len() - 1], t[t.len() - 1]));
        lemma_node_reads(src, s.last(), t.last());
    }
}

proof fn lemma_groups(
    src: Seq<char>,
    file: Seq<char>,
    enclosing: Seq<char>,
    cs: Seq<SyntaxNode>,
    ct: Seq<SyntaxNode>,
    gs: int,
    ge: int,
    x: ScanState,
    y: ScanState,
)
    requires
        pairwise(cs, ct),
        states_same_but_lines(x, y),
        0 <= gs < ge <= cs.len(),
    ensures
        gs > 0 ==> states_same_but_lines(
            trailing_group(src, file, enclosing, cs, gs, ge, x),
            trailing_group(src, file, enclosing, ct, gs, ge, y),
        ),
        states_same_but_lines(
            free_group(src, file, enclosing, cs, gs, ge, x),
            free_group(src, file, enclosing, ct, gs, ge, y),
        ),
{
    lemma_pairwise_subrange(cs, ct, gs, ge);
    lemma_texts(src, cs.subrange(gs, ge), ct.subrange(gs, ge));
    assert(same_but_rows(cs[ge - 1], ct[ge - 1]));
    let text = join_lines(group_texts(src, cs.subrange(gs, ge)));
    if gs > 0 {
        assert(same_but_rows(cs[gs - 1], ct[gs - 1]));
        lemma_strip_node(src, cs[gs - 1], ct[gs - 1]);
        let body = strip_node(src, cs[gs - 1]);
        if !all_ws(body) {
            let (path, dedup) = free_path(enclosing, "trailing"@, text, x.0);
            lemma_push_same(
                x,
                y,
                make_item(
                    file,
                    path,
                    ItemKind::Free,
                    group_comment_kind(cs[ge - 1]),
                    text,
                    body,
                    line_number(cs[gs]),
                ),
                make_item(
                    file,
                    path,
                    ItemKind::Free,
                    group_comment_kind(ct[ge - 1]),
                    text,
                    body,
                    line_number(ct[gs]),
                ),
            );
        }
    }
    lemma_ends(cs, ct, ge);
    lemma_end_bounds(cs, ge);
    let end = span_end(cs, ge);
    if end != ge {
        lemma_pairwise_subrange(cs, ct, ge, end);
        lemma_span_text(src, cs.subrange(ge, end), ct.subrange(ge, end));
        let body = span_text(src, cs.subrange(ge, end));
        if !all_ws(body) {
            let (path, dedup) = free_path(enclosing, "free"@, text, x.0);
            lemma_push_same(
                x,
                y,
                make_item(
                    file,
                    path,
                    ItemKind::Free,
                    group_comment_kind(cs[ge - 1]),
                    text,
                    body,
                    line_number(cs[gs]),
                ),
                make_item(
                    file,
                    path,
                    ItemKind::Free,
                    group_comment_kind(ct[ge - 1]),
                    text,
                    body,
                    line_number(ct[gs]),
                ),
            );
        }
    }
}

proof fn lemma_scan_loop(
    src: Seq<char>,
    file: Seq<char>,
    enclosing: Seq<char>,
    cs: Seq<SyntaxNode>,
    ct: Seq<SyntaxNode>,
    i: int,
    x: ScanState,
    y: ScanState,
)
    requires
        siblings(cs, ct),
        states_same_but_lines(x, y),
    ensures
        states_same_but_lines(
            scan_loop(src, file, enclosing, cs, i, x),
            scan_loop(src, file, enclosing, ct, i, y),
        ),
    decreases cs.len() - i,
{
    if 0 <= i < cs.len() {
        assert(same_but_rows(cs[i], ct[i]));
        lemma_node_reads(src, cs[i], ct[i]);
        if !comment_node(cs[i]) {
            lemma_scan_loop(src, file, enclosing, cs, ct, i + 1, x, y);
        } else {
            lemma_ends(cs, ct, i);
            lemma_end_bounds(cs, i);
            let ge = group_end(cs, i);
            lemma_ends(cs, ct, ge);
            lemma_end_bounds(cs, ge);
            let item_idx = attr_end(cs, ge);
            assert(same_but_rows(cs[ge - 1], ct[ge - 1]));
            lemma_node_reads(src, cs[ge - 1], ct[ge - 1]);
            let last = cs[ge - 1];
            if doc_comment_node(last) && !inner_doc_node(last) && item_idx < cs.len()
                && is_item_kind(cs[item_idx].kind@) {
                let next = cs[item_idx];
                assert(same_but_rows(next, ct[item_idx]));
                lemma_node_reads(src, next, ct[item_idx]);
                lemma_pairwise_subrange(cs, ct, i, ge);
                lemma_texts(src, cs.subrange(i, ge), ct.subrange(i, ge));
                lemma_pairwise_subrange(cs, ct, ge, item_idx);
                lemma_body_text(
                    src,
                    cs.subrange(ge, item_idx),
                    ct.subrange(ge, item_idx),
                    next,
                    ct[item_idx],
                );
                let path = enclosing + "::"@ + name_of(src, next);
                let a = make_item(
                    file,
                    path,
                    item_kind_of(next.kind@),
                    CommentKind::OuterDoc,
                    join_lines(doc_texts(src, cs.subrange(i, ge))),
                    body_text_of(src, cs.subrange(ge, item_idx), next),
                    line_number(cs[i]),
                );
                let b = make_item(
                    file,
                    path,
                    item_kind_of(next.kind@),
                    CommentKind::OuterDoc,
                    join_lines(doc_texts(src, cs.subrange(i, ge))),
                    body_text_of(src, cs.subrange(ge, item_idx), next),
                    line_number(ct[i]),
                );
                lemma_push_same(x, y, a, b);
                lemma_scan_loop(
                    src,
                    file,
                    enclosing,
                    cs,
                    ct,
                    item_idx + 1,
                    (x.0, x.1.push(a)),
                    (y.0, y.1.push(b)),
                );
            } else {
                lemma_groups(src, file, enclosing, cs, ct, i, ge, x, y);
                if i > 0 {
                    assert(joined(cs, i) == joined(ct, i));
                }
                let trailing = i > 0 && cs[i - 1].end_row == cs[i].start_row;
                let x2 = if trailing {
                    trailing_group(src, file, enclosing, cs, i, ge, x)
                } else {
                    free_group(src, file, enclosing, cs, i, ge, x)
                };
                let y2 = if trailing {
                    trailing_group(src, file, enclosing, ct, i, ge, y)
                } else {
                    free_group(src, file, enclosing, ct, i, ge, y)
                };
                lemma_scan_loop(src, file, enclosing, cs, ct, ge, x2, y2);
            }
        }
    }
}

proof fn lemma_container_scan(
    src: Seq<char>,
    file: Seq<char>,
    enclosing: Seq<char>,
    kind: ItemKind,
    cs: Seq<SyntaxNode>,
    ct: Seq<SyntaxNode>,
    x: ScanState,
    y: ScanState,
)
    requires
        siblings(cs, ct),
        states_same_but_lines(x, y),
    ensures
        states_same_but_lines(
            container_scan(src, file, enclosing, kind, cs, x),
            container_scan(src, file, enclosing, kind, ct, y),
        ),
    decreases cs, cs.len() + 1, 0int,
{
    lemma_ends(cs, ct, 0);
    lemma_end_bounds(cs, 0);
    let lead = lead_end(cs, 0);
    let x1 = if lead > 0 {
        (
            x.0,
            x.1.push(
                make_item(
                    file,
                    enclosing,
                    kind,
                    CommentKind::InnerDoc,
                    join_lines(inner_doc_texts(src, cs.take(lead))),
                    container_signature(src, cs.skip(lead)),
                    line_number(cs[0]),
                ),
            ),
        )
    } else {
        x
    };
    let y1 = if lead > 0 {
        (
            y.0,
            y.1.push(
                make_item(
                    file,
                    enclosing,
                    kind,
                    CommentKind::InnerDoc,
                    join_lines(inner_doc_texts(src, ct.take(lead))),
                    container_signature(src, ct.skip(lead)),
                    line_number(ct[0]),
                ),
            ),
        )
    } else {
        y
    };
    if lead > 0 {
        lemma_pairwise_subrange(cs, ct, 0, lead);
        assert(cs.take(lead) == cs.subrange(0, lead));
        assert(ct.take(lead) == ct.subrange(0, lead));
        lemma_texts(src, cs.take(lead), ct.take(lead));
        lemma_pairwise_subrange(cs, ct, lead, cs.len() as int);
        assert(cs.skip(lead) == cs.subrange(lead, cs.len() as int));
        assert(ct.skip(lead) == ct.subrange(lead, ct.len() as int));
        lemma_container_signature(src, cs.skip(lead), ct.skip(lead));
        lemma_push_same(x, y, x1.1.last(), y1.1.last());
        assert(x1.1 == x.1.push(x1.1.last()));
        assert(y1.1 == y.1.push(y1.1.last()));
    }
    lemma_scan_loop(src, file, enclosing, cs, ct, lead, x1, y1);
    lemma_recurse_loop(
        src,
        file,
        enclosing,
        kind,
        cs,
        ct,
        0,
        scan_loop(src, file, enclosing, cs, lead, x1),
        scan_loop(src, file, enclosing, ct, lead, y1),
    );
}

proof fn lemma_recurse_loop(
    src: Seq<char>,
    file: Seq<char>,
    enclosing: Seq<char>,
    kind: ItemKind,
    cs: Seq<SyntaxNode>,
    ct: Seq<SyntaxNode>,
    j: int,
    x: ScanState,
    y: ScanState,
)
    requires
        siblings(cs, ct),
        states_same_but_lines(x, y),
    ensures
        states_same_but_lines(
            recurse_loop(src, file, enclosing, kind, cs, j, x),
            recurse_loop(src, file, enclosing, kind, ct, j, y),
        ),
    decreases cs, cs.len() - j, if 0 <= j < cs.len() {
        nested_blocks(cs[j]).len() + 2
    } else {
        0
    },
{
    if 0 <= j < cs.len() {
        lemma_recurse_child(src, file, enclosing, kind, cs, ct, j, x, y);
        lemma_recurse_loop(
            src,
            file,
            enclosing,
            kind,
            cs,
            ct,
            j + 1,
            recurse_child(src, file, enclosing, kind, cs, j, x),
            recurse_child(src, file, enclosing, kind, ct, j, y),
        );
    }
}

proof fn lemma_recurse_child(
    src: Seq<char>,
    file: Seq<char>,
    enclosing: Seq<char>,
    kind: ItemKind,
    cs: Seq<SyntaxNode>,
    ct: Seq<SyntaxNode>,
    j: int,
    x: ScanState,
    y: ScanState,
)
    requires
        siblings(cs, ct),
        states_same_but_lines(x, y),
    ensures
        states_same_but_lines(
            recurse_child(src, file, enclosing, kind, cs, j, x),
            recurse_child(src, file, enclosing, kind, ct, j, y),
        ),
    decreases cs, cs.len() - j, if 0 <= j < cs.len() {
        nested_blocks(cs[j]).len() + 1
    } else {
        0
    },
{
    if 0 <= j < cs.len() {
        let c = cs[j];
        let d = ct[j];
        assert(same_but_rows(c, d));
        lemma_children_siblings(c, d);
        match container_kind(c.kind@) {
            Some(sub_kind) => {
                lemma_field_index(c, d, "body");
                match field_index(c, "body") {
                    Some(b) => {
                        lemma_seq_children(cs, j);
                        lemma_child(c, b);
                        lemma_seq_children(c.children@, b);
                        let body = c.children@[b];
                        lemma_children_siblings(body, d.children@[b]);
                        lemma_node_reads(src, c, d);
                        lemma_container_scan(
                            src,
                            file,
                            enclosing + "::"@ + name_of(src, c),
                            sub_kind,
                            body.children@,
                            d.children@[b].children@,
                            x,
                            y,
                        );
                    },
                    None => {},
                }
            },
            None => {
                lemma_nested_blocks(c, d);
                lemma_scan_blocks(src, file, enclosing, kind, cs, ct, j, 0, x, y);
            },
        }
    }
}

proof fn lemma_scan_blocks(
    src: Seq<char>,
    file: Seq<char>,
    enclosing: Seq<char>,
    kind: ItemKind,
    cs: Seq<SyntaxNode>,
    ct: Seq<SyntaxNode>,
    j: int,
    k: int,
    x: ScanState,
    y: ScanState,
)
    requires
        siblings(cs, ct),
        states_same_but_lines(x, y),
    ensures
        states_same_but_lines(
            scan_blocks(src, file, enclosing, kind, cs, j, k, x),
            scan_blocks(src, file, enclosing, kind, ct, j, k, y),
        ),
    decreases cs, cs.len() - j, if 0 <= j < cs.len() {
        nested_blocks(cs[j]).len() - k
    } else {
        0
    },
{
    if 0 <= j < cs.len() {
        assert(same_but_rows(cs[j], ct[j]));
        lemma_nested_blocks(cs[j], ct[j]);
        if 0 <= k < nested_blocks(cs[j]).len() {
            let b = nested_blocks(cs[j])[k];
            let e = nested_blocks(ct[j])[k];
            assert(same_but_rows(b, e));
            lemma_children_siblings(b, e);
            lemma_block_below(cs, j, k);
            lemma_container_scan(src, file, enclosing, kind, b.children@, e.children@, x, y);
            lemma_scan_blocks(
                src,
                file,
                enclosing,
                kind,
                cs,
                ct,
                j,
                k + 1,
                container_scan(src, file, enclosing, kind, b.children@, x),
                container_scan(src, file, enclosing, kind, e.children@, y),
            );
        }
    }
}

/// Law: what is found in a file does not depend on the lines its code
/// occupies. Two trees of the same text that differ only in the rows of
/// their nodes, while agreeing on which comments share a line with the code
/// before them, give the same items with the same ids, paths, texts and
/// kinds; only the lines they report may differ.
pub proof fn law_lines_do_not_matter_to_extraction(
    file: Seq<char>,
    src: Seq<char>,
    a: SyntaxNode,
    b: SyntaxNode,
)
    requires
        same_but_rows(a, b),
    ensures
        scans_same_but_lines(extract_items(file, src, a), extract_items(file, src, b)),
{
    lemma_children_siblings(a, b);
    let start: ScanState = (Map::empty(), Seq::empty());
    lemma_container_scan(src, file, "crate"@, ItemKind::Module, a.children@, b.children@, start, start);
}

/// Law: moving code to other lines, as long as every comment that shares a
/// line with the code before it still does, raises no candidate in a check
/// that the unmoved code would not raise, leaves the same baseline and
/// counts the same; the candidates differ at most in the lines they report.
pub proof fn law_moved_code_checks_the_same(
    old: Map<Seq<char>, EntryView>,
    file: Seq<char>,
    src: Seq<char>,
    a: SyntaxNode,
    b: SyntaxNode,
)
    requires
        same_but_rows(a, b),
    ensures
        ({
            let ia = extract_items(file, src, a);
            let ib = extract_items(file, src, b);
            &&& fresh_ids(ia) == fresh_ids(ib)
            &&& new_baseline(old, ia) == new_baseline(old, ib)
            &&& forall|c: Change|
                count_change(old, ia, fresh_ids(ia), c) == #[trigger] count_change(
                    old,
                    ib,
                    fresh_ids(ib),
                    c,
                )
            &&& candidates_same_but_lines(
                candidates_of(old, ia, fresh_ids(ia)),
                candidates_of(old, ib, fresh_ids(ib)),
            )
        }),
{
    law_lines_do_not_matter_to_extraction(file, src, a, b);
    law_lines_do_not_matter_to_a_check(
        old,
        extract_items(file, src, a),
        extract_items(file, src, b),
    );
}

} // verus!
