//! What each comment is attached to: the blocks that are scopes of their
//! own, the code a doc comment or a free comment covers, and the names
//! that make up an item's path.

use vstd::prelude::*;
use crate::blocks::{alternative_blocks, is_item_kind, nested_blocks};
use crate::extract::{
    attr_end, container_kind, container_scan, doc_texts, free_group, group_end, group_texts, id_of,
    inner_doc_texts, item_kind_of, lead_end, lemma_block_below, line_number, make_item,
    recurse_child, recurse_loop, scan_blocks, scan_loop, span_end, trailing_group, ScanState,
};
use crate::model::{CommentKind, ItemKind, ItemView};
use crate::scope::{
    body_text_of, comment_node, container_signature, doc_comment_node, inner_doc_node, name_of,
    signature_parts, span_text, strip_node, strip_parts, text_of,
};
use crate::syntax::{
    field_child, field_index, has_kind, lemma_child, lemma_field_index, lemma_seq_children,
    SyntaxNode,
};
use crate::text::{all_ws, join_lines};

verus! {

proof fn lemma_contains_left<A>(a: Seq<A>, b: Seq<A>, x: A)
    requires
        a.contains(x),
    ensures
        (a + b).contains(x),
{
    let k = choose|k: int| 0 <= k < a.len() && a[k] == x;
    assert((a + b)[k] == x);
}

proof fn lemma_contains_right<A>(a: Seq<A>, b: Seq<A>, x: A)
    requires
        b.contains(x),
    ensures
        (a + b).contains(x),
{
    let k = choose|k: int| 0 <= k < b.len() && b[k] == x;
    assert((a + b)[a.len() + k] == x);
}

proof fn lemma_alternative_holds_block(alt: SyntaxNode, k: int, j: int)
    requires
        0 <= k <= j < alt.children@.len(),
        alt.children@[j].named,
        has_kind(alt.children@[j], "block"),
    ensures
        alternative_blocks(alt, k).contains(alt.children@[j]),
    decreases j - k,
{
    let c = alt.children@[k];
    let head = if !c.named {
        Seq::empty()
    } else if has_kind(c, "block") {
        seq![c]
    } else {
        nested_blocks(c)
    };
    assert(alternative_blocks(alt, k) == head + alternative_blocks(alt, k + 1));
    if k == j {
        assert(head == seq![c]);
        assert(head[0] == c);
        lemma_contains_left(head, alternative_blocks(alt, k + 1), c);
    } else {
        lemma_alternative_holds_block(alt, k + 1, j);
        lemma_contains_right(head, alternative_blocks(alt, k + 1), alt.children@[j]);
    }
}

/// Law: the block of a plain `else` is a scope of its own. When an `if`
/// expression has an `else` clause with a block among its named children,
/// that block is among the nested blocks of the expression, so the
/// comments inside it are extracted.
pub proof fn law_else_block_is_a_scope(n: SyntaxNode, i: int, j: int)
    requires
        has_kind(n, "if_expression"),
        field_index(n, "alternative") == Some(i),
        0 <= i < n.children@.len(),
        0 <= j < n.children@[i].children@.len(),
        n.children@[i].children@[j].named,
        has_kind(n.children@[i].children@[j], "block"),
    ensures
        nested_blocks(n).contains(n.children@[i].children@[j]),
{
    reveal_strlit("if_expression");
    reveal_strlit("while_expression");
    assert("while_expression"@[0] != "if_expression"@[0]);
    reveal_strlit("for_expression");
    assert("for_expression"@[0] != "if_expression"@[0]);
    reveal_strlit("loop_expression");
    assert("loop_expression"@[0] != "if_expression"@[0]);
    reveal_strlit("function_item");
    assert("function_item"@[0] != "if_expression"@[0]);
    reveal_strlit("function_signature_item");
    assert("function_signature_item"@[0] != "if_expression"@[0]);
    reveal_strlit("struct_item");
    assert("struct_item"@[0] != "if_expression"@[0]);
    reveal_strlit("enum_item");
    assert("enum_item"@[0] != "if_expression"@[0]);
    reveal_strlit("union_item");
    assert("union_item"@[0] != "if_expression"@[0]);
    reveal_strlit("trait_item");
    assert("trait_item"@[0] != "if_expression"@[0]);
    reveal_strlit("impl_item");
    assert("impl_item"@[1] != "if_expression"@[1]);
    reveal_strlit("const_item");
    assert("const_item"@[0] != "if_expression"@[0]);
    reveal_strlit("static_item");
    assert("static_item"@[0] != "if_expression"@[0]);
    reveal_strlit("type_item");
    assert("type_item"@[0] != "if_expression"@[0]);
    reveal_strlit("mod_item");
    assert("mod_item"@[0] != "if_expression"@[0]);
    reveal_strlit("field_declaration");
    assert("field_declaration"@[0] != "if_expression"@[0]);
    reveal_strlit("enum_variant");
    assert("enum_variant"@[0] != "if_expression"@[0]);
    reveal_strlit("macro_definition");
    assert("macro_definition"@[0] != "if_expression"@[0]);
    reveal_strlit("associated_type");
    assert("associated_type"@[0] != "if_expression"@[0]);
    reveal_strlit("foreign_mod_item");
    assert("foreign_mod_item"@[0] != "if_expression"@[0]);
    assert(!is_item_kind(n.kind@));
    assert(!has_kind(n, "while_expression"));
    assert(!has_kind(n, "for_expression"));
    assert(!has_kind(n, "loop_expression"));
    lemma_field_index(n, "alternative");
    let alt = n.children@[i];
    lemma_alternative_holds_block(alt, 0, j);
    let pre = crate::blocks::field_node(n, "consequence") + crate::blocks::field_blocks(
        n,
        "condition",
    );
    assert(nested_blocks(n) == pre + alternative_blocks(alt, 0));
    lemma_contains_right(pre, alternative_blocks(alt, 0), alt.children@[j]);
}

/// The recorded code of an item, given the code it tracks of its own.
pub open spec fn with_attributes(src: Seq<char>, attrs: Seq<SyntaxNode>, own: Seq<char>) -> Seq<
    char,
> {
    let a = join_lines(strip_parts(src, attrs));
    if a.len() == 0 {
        own
    } else {
        a + seq!['\n'] + own
    }
}

/// A module, trait or impl.
pub open spec fn is_container_item(n: SyntaxNode) -> bool {
    has_kind(n, "mod_item") || has_kind(n, "trait_item") || has_kind(n, "impl_item")
}

/// Law: the doc comment of a module, trait or impl with a body tracks what
/// is in it rather than how it is implemented: its attributes followed by
/// the shallow signatures of the body's members.
pub proof fn law_container_doc_tracks_member_signatures(
    src: Seq<char>,
    attrs: Seq<SyntaxNode>,
    n: SyntaxNode,
    body: SyntaxNode,
)
    requires
        is_container_item(n),
        field_child(n, "body") == Some(body),
    ensures
        body_text_of(src, attrs, n) == with_attributes(
            src,
            attrs,
            container_signature(src, body.children@),
        ),
{
}

/// Law: two modules, traits or impls whose bodies hold members with the
/// same shallow signatures, under the same attributes, record the same
/// code, however the members are implemented.
pub proof fn law_same_member_signatures_same_code(
    src: Seq<char>,
    attrs: Seq<SyntaxNode>,
    n1: SyntaxNode,
    b1: SyntaxNode,
    n2: SyntaxNode,
    b2: SyntaxNode,
)
    requires
        is_container_item(n1),
        is_container_item(n2),
        field_child(n1, "body") == Some(b1),
        field_child(n2, "body") == Some(b2),
        signature_parts(src, b1.children@) == signature_parts(src, b2.children@),
    ensures
        body_text_of(src, attrs, n1) == body_text_of(src, attrs, n2),
{
}

/// Law: an impl of a trait for a type is named `impl Trait for Type`, after
/// the texts of its trait and type.
pub proof fn law_impl_name_names_trait_and_type(
    src: Seq<char>,
    n: SyntaxNode,
    tr: SyntaxNode,
    ty: SyntaxNode,
)
    requires
        has_kind(n, "impl_item"),
        field_child(n, "trait") == Some(tr),
        field_child(n, "type") == Some(ty),
    ensures
        name_of(src, n) == "impl "@ + text_of(src, tr) + " for "@ + text_of(src, ty),
{
}

/// Law: impls of two different traits for the same type get different
/// names, and so different paths and ids.
pub proof fn law_impls_of_different_traits_differ(
    src: Seq<char>,
    n1: SyntaxNode,
    tr1: SyntaxNode,
    ty1: SyntaxNode,
    n2: SyntaxNode,
    tr2: SyntaxNode,
    ty2: SyntaxNode,
)
    requires
        has_kind(n1, "impl_item"),
        has_kind(n2, "impl_item"),
        field_child(n1, "trait") == Some(tr1),
        field_child(n1, "type") == Some(ty1),
        field_child(n2, "trait") == Some(tr2),
        field_child(n2, "type") == Some(ty2),
        text_of(src, tr1) != text_of(src, tr2),
        text_of(src, ty1) == text_of(src, ty2),
    ensures
        name_of(src, n1) != name_of(src, n2),
{
    reveal_strlit("impl ");
    let t1 = text_of(src, tr1);
    let t2 = text_of(src, tr2);
    let s1 = name_of(src, n1);
    let s2 = name_of(src, n2);
    law_impl_name_names_trait_and_type(src, n1, tr1, ty1);
    law_impl_name_names_trait_and_type(src, n2, tr2, ty2);
    if s1 == s2 {
        let f = " for "@ + text_of(src, ty1);
        assert(s1 =~= "impl "@ + (t1 + f));
        assert(s2 =~= "impl "@ + (t2 + f));
        assert(t1.len() == t2.len());
        assert(t1 =~= s1.subrange(5, 5 + t1.len() as int));
        assert(t2 =~= s2.subrange(5, 5 + t2.len() as int));
    }
}

/// `cs[ge..e)` is the code that follows a comment group ending at `ge`: no
/// comment in it, and the next comment or the end of the siblings right
/// after it.
pub open spec fn code_run(cs: Seq<SyntaxNode>, ge: int, e: int) -> bool {
    &&& 0 <= ge <= e <= cs.len()
    &&& forall|k: int| ge <= k < e ==> !comment_node(#[trigger] cs[k])
    &&& (e == cs.len() || comment_node(cs[e]))
}

proof fn lemma_span_end_run(cs: Seq<SyntaxNode>, ge: int, k: int, e: int)
    requires
        code_run(cs, ge, e),
        ge <= k <= e,
    ensures
        span_end(cs, k) == e,
    decreases e - k,
{
    if k < e {
        assert(!comment_node(cs[k]));
        lemma_span_end_run(cs, ge, k + 1, e);
    }
}

/// `a` is `b` with items added at its end.
pub open spec fn extends(a: Seq<ItemView>, b: Seq<ItemView>) -> bool {
    b.len() <= a.len() && forall|i: int| 0 <= i < b.len() ==> a[i] == #[trigger] b[i]
}

/// Law: a free comment covers all the code that follows it up to the next
/// comment or the end of its block, not just the first statement. Its
/// recorded code is the span of every sibling after the group up to the
/// next comment, and its comment text is the group's comments, one per
/// line; where that code is blank, nothing is recorded.
pub proof fn law_free_comment_covers_code_up_to_next_comment(
    src: Seq<char>,
    file: Seq<char>,
    enclosing: Seq<char>,
    cs: Seq<SyntaxNode>,
    gs: int,
    ge: int,
    e: int,
    st: ScanState,
)
    requires
        0 <= gs < ge,
        code_run(cs, ge, e),
    ensures
        ({
            let r = free_group(src, file, enclosing, cs, gs, ge, st);
            let body = span_text(src, cs.subrange(ge, e));
            if ge < e && !all_ws(body) {
                &&& r.1.len() == st.1.len() + 1
                &&& extends(r.1, st.1)
                &&& r.1.last().body_text == body
                &&& r.1.last().comment_text == join_lines(group_texts(src, cs.subrange(gs, ge)))
                &&& r.1.last().kind == ItemKind::Free
                &&& r.1.last().file == file
            } else {
                r == st
            }
        }),
{
    lemma_span_end_run(cs, ge, ge, e);
}

proof fn lemma_extends_push(a: Seq<ItemView>, b: Seq<ItemView>, x: ItemView)
    requires
        extends(a, b),
    ensures
        extends(a.push(x), b),
{
    assert forall|i: int| 0 <= i < b.len() implies a.push(x)[i] == #[trigger] b[i] by {
        assert(a.push(x)[i] == a[i]);
    }
}

proof fn lemma_extends_trans(a: Seq<ItemView>, b: Seq<ItemView>, c: Seq<ItemView>)
    requires
        extends(a, b),
        extends(b, c),
    ensures
        extends(a, c),
{
    assert forall|i: int| 0 <= i < c.len() implies a[i] == #[trigger] c[i] by {
        assert(a[i] == b[i]);
    }
}

proof fn lemma_groups_extend(
    src: Seq<char>,
    file: Seq<char>,
    enclosing: Seq<char>,
    cs: Seq<SyntaxNode>,
    gs: int,
    ge: int,
    st: ScanState,
)
    ensures
        extends(trailing_group(src, file, enclosing, cs, gs, ge, st).1, st.1),
        extends(free_group(src, file, enclosing, cs, gs, ge, st).1, st.1),
{
    assert(extends(st.1, st.1));
    let t = trailing_group(src, file, enclosing, cs, gs, ge, st);
    let f = free_group(src, file, enclosing, cs, gs, ge, st);
    if t.1 != st.1 {
        lemma_extends_push(st.1, st.1, t.1.last());
        assert(t.1 == st.1.push(t.1.last()));
    }
    if f.1 != st.1 {
        lemma_extends_push(st.1, st.1, f.1.last());
        assert(f.1 == st.1.push(f.1.last()));
    }
}

proof fn lemma_scan_loop_extends(
    src: Seq<char>,
    file: Seq<char>,
    enclosing: Seq<char>,
    cs: Seq<SyntaxNode>,
    i: int,
    st: ScanState,
)
    ensures
        extends(scan_loop(src, file, enclosing, cs, i, st).1, st.1),
    decreases cs.len() - i,
{
    assert(extends(st.1, st.1));
    if 0 <= i < cs.len() {
        if !comment_node(cs[i]) {
            lemma_scan_loop_extends(src, file, enclosing, cs, i + 1, st);
        } else {
            let ge = group_end(cs, i);
            let item_idx = attr_end(cs, ge);
            let last = cs[ge - 1];
            if doc_comment_node(last) && !inner_doc_node(last) && item_idx < cs.len()
                && is_item_kind(cs[item_idx].kind@) {
                let next = cs[item_idx];
                let item = make_item(
                    file,
                    enclosing + "::"@ + name_of(src, next),
                    item_kind_of(next.kind@),
                    CommentKind::OuterDoc,
                    join_lines(doc_texts(src, cs.subrange(i, ge))),
                    body_text_of(src, cs.subrange(ge, item_idx), next),
                    line_number(cs[i]),
                );
                lemma_extends_push(st.1, st.1, item);
                if item_idx + 1 > i {
                    lemma_scan_loop_extends(
                        src,
                        file,
                        enclosing,
                        cs,
                        item_idx + 1,
                        (st.0, st.1.push(item)),
                    );
                    lemma_extends_trans(
                        scan_loop(src, file, enclosing, cs, item_idx + 1, (st.0, st.1.push(item))).1,
                        st.1.push(item),
                        st.1,
                    );
                }
            } else {
                lemma_groups_extend(src, file, enclosing, cs, i, ge, st);
                let trailing = i > 0 && cs[i - 1].end_row == cs[i].start_row;
                let st2 = if trailing {
                    trailing_group(src, file, enclosing, cs, i, ge, st)
                } else {
                    free_group(src, file, enclosing, cs, i, ge, st)
                };
                if i < ge <= cs.len() {
                    lemma_scan_loop_extends(src, file, enclosing, cs, ge, st2);
                    lemma_extends_trans(
                        scan_loop(src, file, enclosing, cs, ge, st2).1,
                        st2.1,
                        st.1,
                    );
                }
            }
        }
    }
}

proof fn lemma_container_scan_extends(
    src: Seq<char>,
    file: Seq<char>,
    enclosing: Seq<char>,
    kind: ItemKind,
    cs: Seq<SyntaxNode>,
    st: ScanState,
)
    ensures
        extends(container_scan(src, file, enclosing, kind, cs, st).1, st.1),
    decreases cs, cs.len() + 1, 0int,
{
    assert(extends(st.1, st.1));
    let lead = lead_end(cs, 0);
    let st1 = if lead > 0 {
        let it = make_item(
            file,
            enclosing,
            kind,
            CommentKind::InnerDoc,
            join_lines(inner_doc_texts(src, cs.take(lead))),
            container_signature(src, cs.skip(lead)),
            line_number(cs[0]),
        );
        lemma_extends_push(st.1, st.1, it);
        (st.0, st.1.push(it))
    } else {
        st
    };
    lemma_scan_loop_extends(src, file, enclosing, cs, lead, st1);
    let st2 = scan_loop(src, file, enclosing, cs, lead, st1);
    lemma_recurse_loop_extends(src, file, enclosing, kind, cs, 0, st2);
    lemma_extends_trans(st2.1, st1.1, st.1);
    lemma_extends_trans(
        recurse_loop(src, file, enclosing, kind, cs, 0, st2).1,
        st2.1,
        st.1,
    );
}

proof fn lemma_recurse_loop_extends(
    src: Seq<char>,
    file: Seq<char>,
    enclosing: Seq<char>,
    kind: ItemKind,
    cs: Seq<SyntaxNode>,
    j: int,
    st: ScanState,
)
    ensures
        extends(recurse_loop(src, file, enclosing, kind, cs, j, st).1, st.1),
    decreases cs, cs.len() - j, if 0 <= j < cs.len() {
        nested_blocks(cs[j]).len() + 2
    } else {
        0
    },
{
    assert(extends(st.1, st.1));
    if 0 <= j < cs.len() {
        let st1 = recurse_child(src, file, enclosing, kind, cs, j, st);
        lemma_recurse_child_extends(src, file, enclosing, kind, cs, j, st);
        lemma_recurse_loop_extends(src, file, enclosing, kind, cs, j + 1, st1);
        lemma_extends_trans(
            recurse_loop(src, file, enclosing, kind, cs, j + 1, st1).1,
            st1.1,
            st.1,
        );
    }
}

proof fn lemma_recurse_child_extends(
    src: Seq<char>,
    file: Seq<char>,
    enclosing: Seq<char>,
    kind: ItemKind,
    cs: Seq<SyntaxNode>,
    j: int,
    st: ScanState,
)
    ensures
        extends(recurse_child(src, file, enclosing, kind, cs, j, st).1, st.1),
    decreases cs, cs.len() - j, if 0 <= j < cs.len() {
        nested_blocks(cs[j]).len() + 1
    } else {
        0
    },
{
    assert(extends(st.1, st.1));
    if 0 <= j < cs.len() {
        let c = cs[j];
        match container_kind(c.kind@) {
            Some(sub_kind) => {
                lemma_field_index(c, "body");
                match field_index(c, "body") {
                    Some(b) => {
                        lemma_seq_children(cs, j);
                        lemma_child(c, b);
                        lemma_seq_children(c.children@, b);
                        let body = c.children@[b];
                        lemma_container_scan_extends(
                            src,
                            file,
                            enclosing + "::"@ + name_of(src, c),
                            sub_kind,
                            body.children@,
                            st,
                        );
                    },
                    None => {},
                }
            },
            None => {
                lemma_scan_blocks_extends(src, file, enclosing, kind, cs, j, 0, st);
            },
        }
    }
}

proof fn lemma_scan_blocks_extends(
    src: Seq<char>,
    file: Seq<char>,
    enclosing: Seq<char>,
    kind: ItemKind,
    cs: Seq<SyntaxNode>,
    j: int,
    k: int,
    st: ScanState,
)
    ensures
        extends(scan_blocks(src, file, enclosing, kind, cs, j, k, st).1, st.1),
    decreases cs, cs.len() - j, if 0 <= j < cs.len() {
        nested_blocks(cs[j]).len() - k
    } else {
        0
    },
{
    assert(extends(st.1, st.1));
    if 0 <= j < cs.len() && 0 <= k < nested_blocks(cs[j]).len() {
        let b = nested_blocks(cs[j])[k];
        lemma_block_below(cs, j, k);
        let st1 = container_scan(src, file, enclosing, kind, b.children@, st);
        lemma_container_scan_extends(src, file, enclosing, kind, b.children@, st);
        lemma_scan_blocks_extends(src, file, enclosing, kind, cs, j, k + 1, st1);
        lemma_extends_trans(
            scan_blocks(src, file, enclosing, kind, cs, j, k + 1, st1).1,
            st1.1,
            st.1,
        );
    }
}

/// The node is an inner doc comment (`//!` or `/*! */`).
pub open spec fn inner_doc_comment(n: SyntaxNode) -> bool {
    comment_node(n) && inner_doc_node(n)
}

proof fn lemma_lead_end_run(cs: Seq<SyntaxNode>, i: int, k: int)
    requires
        0 <= i <= k <= cs.len(),
        forall|m: int| 0 <= m < k ==> inner_doc_comment(#[trigger] cs[m]),
        k == cs.len() || !inner_doc_comment(cs[k]),
    ensures
        lead_end(cs, i) == k,
    decreases k - i,
{
    if i < k {
        assert(inner_doc_comment(cs[i]));
        lemma_lead_end_run(cs, i + 1, k);
    }
}

/// Law: the inner doc comments that open a container document the
/// container itself, all of them together. When its children begin with
/// `k >= 1` inner doc comments, the first item recorded for the container
/// has the container's own path as its id, the marker-free texts of all
/// `k` comments, one per line, as its comment, and the shallow signature of
/// the children after them as its code; the items found before stay as
/// they were.
pub proof fn law_leading_inner_docs_document_the_container(
    src: Seq<char>,
    file: Seq<char>,
    enclosing: Seq<char>,
    kind: ItemKind,
    cs: Seq<SyntaxNode>,
    k: int,
    st: ScanState,
)
    requires
        1 <= k <= cs.len(),
        forall|m: int| 0 <= m < k ==> inner_doc_comment(#[trigger] cs[m]),
        k == cs.len() || !inner_doc_comment(cs[k]),
    ensures
        ({
            let r = container_scan(src, file, enclosing, kind, cs, st).1;
            let it = r[st.1.len() as int];
            &&& r.len() > st.1.len()
            &&& extends(r, st.1)
            &&& it.id == id_of(file, enclosing)
            &&& it.item_path == enclosing
            &&& it.kind == kind
            &&& it.comment_kind == CommentKind::InnerDoc
            &&& it.comment_text == join_lines(inner_doc_texts(src, cs.take(k)))
            &&& it.body_text == container_signature(src, cs.skip(k))
        }),
{
    lemma_lead_end_run(cs, 0, k);
    let it = make_item(
        file,
        enclosing,
        kind,
        CommentKind::InnerDoc,
        join_lines(inner_doc_texts(src, cs.take(k))),
        container_signature(src, cs.skip(k)),
        line_number(cs[0]),
    );
    let st1 = (st.0, st.1.push(it));
    lemma_scan_loop_extends(src, file, enclosing, cs, k, st1);
    let st2 = scan_loop(src, file, enclosing, cs, k, st1);
    lemma_recurse_loop_extends(src, file, enclosing, kind, cs, 0, st2);
    let r = recurse_loop(src, file, enclosing, kind, cs, 0, st2).1;
    lemma_extends_trans(r, st2.1, st1.1);
    assert(r[st.1.len() as int] == st1.1[st.1.len() as int]);
    lemma_extends_push(st.1, st.1, it);
    lemma_extends_trans(r, st1.1, st.1);
}

/// Law: a side comment covers the statement it trails: its recorded code is
/// that statement with its comments taken out, and its comment text is the
/// group's comments, one per line; where that code is blank, nothing is
/// recorded.
pub proof fn law_side_comment_covers_the_statement_it_trails(
    src: Seq<char>,
    file: Seq<char>,
    enclosing: Seq<char>,
    cs: Seq<SyntaxNode>,
    gs: int,
    ge: int,
    st: ScanState,
)
    requires
        0 < gs < ge <= cs.len(),
    ensures
        ({
            let r = trailing_group(src, file, enclosing, cs, gs, ge, st);
            let body = strip_node(src, cs[gs - 1]);
            if !all_ws(body) {
                &&& r.1.len() == st.1.len() + 1
                &&& extends(r.1, st.1)
                &&& r.1.last().body_text == body
                &&& r.1.last().comment_text == join_lines(group_texts(src, cs.subrange(gs, ge)))
                &&& r.1.last().kind == ItemKind::Free
            } else {
                r == st
            }
        }),
{
}

/// Law: an item other than an impl or an extern block is named by the text
/// of its `name` child, and an impl of no trait is named `impl Type`.
pub proof fn law_item_names(src: Seq<char>, n: SyntaxNode)
    ensures
        !has_kind(n, "impl_item") && !has_kind(n, "foreign_mod_item") ==> match field_child(
            n,
            "name",
        ) {
            Some(c) => name_of(src, n) == text_of(src, c),
            None => name_of(src, n) == "<anonymous>"@,
        },
        has_kind(n, "impl_item") && field_child(n, "trait") is None ==> match field_child(
            n,
            "type",
        ) {
            Some(ty) => name_of(src, n) == "impl "@ + text_of(src, ty),
            None => name_of(src, n) == "impl"@,
        },
{
}

/// Law: a bare block is a scope of its own: it is its own only nested
/// block.
pub proof fn law_bare_block_is_a_scope(n: SyntaxNode)
    requires
        has_kind(n, "block"),
    ensures
        nested_blocks(n) == seq![n],
{
    reveal_strlit("block");
    reveal_strlit("function_item");
    assert("function_item"@[0] != "block"@[0]);
    reveal_strlit("function_signature_item");
    assert("function_signature_item"@[0] != "block"@[0]);
    reveal_strlit("struct_item");
    assert("struct_item"@[0] != "block"@[0]);
    reveal_strlit("enum_item");
    assert("enum_item"@[0] != "block"@[0]);
    reveal_strlit("union_item");
    assert("union_item"@[0] != "block"@[0]);
    reveal_strlit("trait_item");
    assert("trait_item"@[0] != "block"@[0]);
    reveal_strlit("impl_item");
    assert("impl_item"@[0] != "block"@[0]);
    reveal_strlit("const_item");
    assert("const_item"@[0] != "block"@[0]);
    reveal_strlit("static_item");
    assert("static_item"@[0] != "block"@[0]);
    reveal_strlit("type_item");
    assert("type_item"@[0] != "block"@[0]);
    reveal_strlit("mod_item");
    assert("mod_item"@[0] != "block"@[0]);
    reveal_strlit("field_declaration");
    assert("field_declaration"@[0] != "block"@[0]);
    reveal_strlit("enum_variant");
    assert("enum_variant"@[0] != "block"@[0]);
    reveal_strlit("macro_definition");
    assert("macro_definition"@[0] != "block"@[0]);
    reveal_strlit("associated_type");
    assert("associated_type"@[0] != "block"@[0]);
    reveal_strlit("foreign_mod_item");
    assert("foreign_mod_item"@[0] != "block"@[0]);
    reveal_strlit("while_expression");
    assert("while_expression"@[0] != "block"@[0]);
    reveal_strlit("for_expression");
    assert("for_expression"@[0] != "block"@[0]);
    reveal_strlit("loop_expression");
    assert("loop_expression"@[0] != "block"@[0]);
    reveal_strlit("if_expression");
    assert("if_expression"@[0] != "block"@[0]);
    reveal_strlit("match_expression");
    assert("match_expression"@[0] != "block"@[0]);
    reveal_strlit("closure_expression");
    assert("closure_expression"@[0] != "block"@[0]);
    reveal_strlit("unsafe_block");
    assert("unsafe_block"@[0] != "block"@[0]);
    reveal_strlit("async_block");
    assert("async_block"@[0] != "block"@[0]);
}

/// Law: the body of a `while`, `for` or `loop` is a scope of its own: it
/// comes first among the nested blocks of the loop.
pub proof fn law_loop_body_is_a_scope(n: SyntaxNode, i: int)
    requires
        has_kind(n, "while_expression") || has_kind(n, "for_expression") || has_kind(
            n,
            "loop_expression",
        ),
        field_index(n, "body") == Some(i),
        0 <= i < n.children@.len(),
    ensures
        nested_blocks(n).len() > 0,
        nested_blocks(n)[0] == n.children@[i],
{
    reveal_strlit("while_expression");
    reveal_strlit("for_expression");
    reveal_strlit("loop_expression");
    reveal_strlit("function_item");
    assert("function_item"@[0] != "while_expression"@[0]);
    reveal_strlit("function_signature_item");
    assert("function_signature_item"@[0] != "while_expression"@[0]);
    reveal_strlit("struct_item");
    assert("struct_item"@[0] != "while_expression"@[0]);
    reveal_strlit("enum_item");
    assert("enum_item"@[0] != "while_expression"@[0]);
    reveal_strlit("union_item");
    assert("union_item"@[0] != "while_expression"@[0]);
    reveal_strlit("trait_item");
    assert("trait_item"@[0] != "while_expression"@[0]);
    reveal_strlit("impl_item");
    assert("impl_item"@[0] != "while_expression"@[0]);
    reveal_strlit("const_item");
    assert("const_item"@[0] != "while_expression"@[0]);
    reveal_strlit("static_item");
    assert("static_item"@[0] != "while_expression"@[0]);
    reveal_strlit("type_item");
    assert("type_item"@[0] != "while_expression"@[0]);
    reveal_strlit("mod_item");
    assert("mod_item"@[0] != "while_expression"@[0]);
    reveal_strlit("field_declaration");
    assert("field_declaration"@[0] != "while_expression"@[0]);
    reveal_strlit("enum_variant");
    assert("enum_variant"@[0] != "while_expression"@[0]);
    reveal_strlit("macro_definition");
    assert("macro_definition"@[0] != "while_expression"@[0]);
    reveal_strlit("associated_type");
    assert("associated_type"@[0] != "while_expression"@[0]);
    reveal_strlit("foreign_mod_item");
    assert("foreign_mod_item"@[0] != "while_expression"@[0]);
    reveal_strlit("if_expression");
    assert("if_expression"@[0] != "while_expression"@[0]);
    reveal_strlit("match_expression");
    assert("match_expression"@[0] != "while_expression"@[0]);
    reveal_strlit("closure_expression");
    assert("closure_expression"@[0] != "while_expression"@[0]);
    reveal_strlit("unsafe_block");
    assert("unsafe_block"@[0] != "while_expression"@[0]);
    reveal_strlit("async_block");
    assert("async_block"@[0] != "while_expression"@[0]);
    reveal_strlit("block");
    assert("block"@[0] != "while_expression"@[0]);
    assert("function_item"@[1] != "for_expression"@[1]);
    assert("function_signature_item"@[1] != "for_expression"@[1]);
    assert("struct_item"@[0] != "for_expression"@[0]);
    assert("enum_item"@[0] != "for_expression"@[0]);
    assert("union_item"@[0] != "for_expression"@[0]);
    assert("trait_item"@[0] != "for_expression"@[0]);
    assert("impl_item"@[0] != "for_expression"@[0]);
    assert("const_item"@[0] != "for_expression"@[0]);
    assert("static_item"@[0] != "for_expression"@[0]);
    assert("type_item"@[0] != "for_expression"@[0]);
    assert("mod_item"@[0] != "for_expression"@[0]);
    assert("field_declaration"@[1] != "for_expression"@[1]);
    assert("enum_variant"@[0] != "for_expression"@[0]);
    assert("macro_definition"@[0] != "for_expression"@[0]);
    assert("associated_type"@[0] != "for_expression"@[0]);
    assert("foreign_mod_item"@[3] != "for_expression"@[3]);
    assert("if_expression"@[0] != "for_expression"@[0]);
    assert("match_expression"@[0] != "for_expression"@[0]);
    assert("closure_expression"@[0] != "for_expression"@[0]);
    assert("unsafe_block"@[0] != "for_expression"@[0]);
    assert("async_block"@[0] != "for_expression"@[0]);
    assert("block"@[0] != "for_expression"@[0]);
    assert("function_item"@[0] != "loop_expression"@[0]);
    assert("function_signature_item"@[0] != "loop_expression"@[0]);
    assert("struct_item"@[0] != "loop_expression"@[0]);
    assert("enum_item"@[0] != "loop_expression"@[0]);
    assert("union_item"@[0] != "loop_expression"@[0]);
    assert("trait_item"@[0] != "loop_expression"@[0]);
    assert("impl_item"@[0] != "loop_expression"@[0]);
    assert("const_item"@[0] != "loop_expression"@[0]);
    assert("static_item"@[0] != "loop_expression"@[0]);
    assert("type_item"@[0] != "loop_expression"@[0]);
    assert("mod_item"@[0] != "loop_expression"@[0]);
    assert("field_declaration"@[0] != "loop_expression"@[0]);
    assert("enum_variant"@[0] != "loop_expression"@[0]);
    assert("macro_definition"@[0] != "loop_expression"@[0]);
    assert("associated_type"@[0] != "loop_expression"@[0]);
    assert("foreign_mod_item"@[0] != "loop_expression"@[0]);
    assert("if_expression"@[0] != "loop_expression"@[0]);
    assert("match_expression"@[0] != "loop_expression"@[0]);
    assert("closure_expression"@[0] != "loop_expression"@[0]);
    assert("unsafe_block"@[0] != "loop_expression"@[0]);
    assert("async_block"@[0] != "loop_expression"@[0]);
    assert("block"@[0] != "loop_expression"@[0]);
    let rest = crate::blocks::field_blocks(n, "condition") + crate::blocks::field_blocks(n, "value")
        + crate::blocks::field_blocks(n, "pattern");
    assert(crate::blocks::field_node(n, "body") == seq![n.children@[i]]);
    assert(nested_blocks(n) =~= seq![n.children@[i]] + rest);
}

proof fn lemma_group_end_run(cs: Seq<SyntaxNode>, k: int, ge: int)
    requires
        0 <= k <= ge < cs.len(),
        forall|m: int| k <= m < ge ==> comment_node(#[trigger] cs[m]),
        !comment_node(cs[ge]),
    ensures
        group_end(cs, k) == ge,
    decreases ge - k,
{
    if k < ge {
        assert(comment_node(cs[k]));
        lemma_group_end_run(cs, k + 1, ge);
    }
}

proof fn lemma_attr_end_run(cs: Seq<SyntaxNode>, k: int, idx: int)
    requires
        0 <= k <= idx < cs.len(),
        forall|m: int| k <= m < idx ==> has_kind(#[trigger] cs[m], "attribute_item"),
        !has_kind(cs[idx], "attribute_item"),
    ensures
        attr_end(cs, k) == idx,
    decreases idx - k,
{
    if k < idx {
        assert(has_kind(cs[k], "attribute_item"));
        lemma_attr_end_run(cs, k + 1, idx);
    }
}

/// Law: an outer doc comment documents the item it precedes, past any
/// attributes. When the comments `cs[i..ge)` end with an outer doc comment
/// and are followed by the attributes `cs[ge..idx)` and then an item
/// `cs[idx]`, the next item recorded has the item's path under the
/// enclosing one, the doc comments' marker-free texts, one per line, as its
/// comment, and the attributes and the item's own code as its code.
pub proof fn law_doc_comment_documents_the_next_item(
    src: Seq<char>,
    file: Seq<char>,
    enclosing: Seq<char>,
    cs: Seq<SyntaxNode>,
    i: int,
    ge: int,
    idx: int,
    st: ScanState,
)
    requires
        0 <= i < ge <= idx < cs.len(),
        forall|m: int| i <= m < ge ==> comment_node(#[trigger] cs[m]),
        !comment_node(cs[ge]),
        forall|m: int| ge <= m < idx ==> has_kind(#[trigger] cs[m], "attribute_item"),
        !has_kind(cs[idx], "attribute_item"),
        doc_comment_node(cs[ge - 1]),
        !inner_doc_node(cs[ge - 1]),
        is_item_kind(cs[idx].kind@),
    ensures
        ({
            let r = scan_loop(src, file, enclosing, cs, i, st).1;
            let it = r[st.1.len() as int];
            &&& r.len() > st.1.len()
            &&& extends(r, st.1)
            &&& it.item_path == enclosing + "::"@ + name_of(src, cs[idx])
            &&& it.id == id_of(file, it.item_path)
            &&& it.kind == item_kind_of(cs[idx].kind@)
            &&& it.comment_kind == CommentKind::OuterDoc
            &&& it.comment_text == join_lines(doc_texts(src, cs.subrange(i, ge)))
            &&& it.body_text == body_text_of(src, cs.subrange(ge, idx), cs[idx])
        }),
{
    lemma_group_end_run(cs, i, ge);
    lemma_attr_end_run(cs, ge, idx);
    assert(comment_node(cs[i]));
    let next = cs[idx];
    let item = make_item(
        file,
        enclosing + "::"@ + name_of(src, next),
        item_kind_of(next.kind@),
        CommentKind::OuterDoc,
        join_lines(doc_texts(src, cs.subrange(i, ge))),
        body_text_of(src, cs.subrange(ge, idx), next),
        line_number(cs[i]),
    );
    let st1 = (st.0, st.1.push(item));
    lemma_scan_loop_extends(src, file, enclosing, cs, idx + 1, st1);
    let r = scan_loop(src, file, enclosing, cs, idx + 1, st1).1;
    assert(r[st.1.len() as int] == st1.1[st.1.len() as int]);
    lemma_extends_push(st.1, st.1, item);
    lemma_extends_trans(r, st1.1, st.1);
}

} // verus!
