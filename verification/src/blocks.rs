//! The blocks nested inside a statement: loop, `if`, `match`, closure,
//! `unsafe`/`async` and bare blocks, each of which is a scope of its own.

use vstd::prelude::*;
use crate::syntax::{
    field_index, field_index_exec, has_kind, kind_is, lemma_child, lemma_field_index, SyntaxNode,
};

verus! {

/// The grammar kinds that a doc comment attaches to.
pub open spec fn is_item_kind(k: Seq<char>) -> bool {
    ||| k == "function_item"@
    ||| k == "function_signature_item"@
    ||| k == "struct_item"@
    ||| k == "enum_item"@
    ||| k == "union_item"@
    ||| k == "trait_item"@
    ||| k == "impl_item"@
    ||| k == "const_item"@
    ||| k == "static_item"@
    ||| k == "type_item"@
    ||| k == "mod_item"@
    ||| k == "field_declaration"@
    ||| k == "enum_variant"@
    ||| k == "macro_definition"@
    ||| k == "associated_type"@
    ||| k == "foreign_mod_item"@
}

/// Whether a doc comment can attach to a node of kind `k`.
pub fn is_target_kind(n: &SyntaxNode) -> (r: bool)
    ensures
        r == is_item_kind(n.kind@),
{
    kind_is(n, "function_item") || kind_is(n, "function_signature_item") || kind_is(n, "struct_item")
        || kind_is(n, "enum_item") || kind_is(n, "union_item") || kind_is(n, "trait_item")
        || kind_is(n, "impl_item") || kind_is(n, "const_item") || kind_is(n, "static_item")
        || kind_is(n, "type_item") || kind_is(n, "mod_item") || kind_is(n, "field_declaration")
        || kind_is(n, "enum_variant") || kind_is(n, "macro_definition") || kind_is(
        n,
        "associated_type",
    ) || kind_is(n, "foreign_mod_item")
}

/// The first named child of kind `block`, at or after position `i`.
pub open spec fn first_named_block(cs: Seq<SyntaxNode>, i: int) -> Option<int>
    decreases cs.len() - i,
{
    if i < 0 || i >= cs.len() {
        None
    } else if cs[i].named && has_kind(cs[i], "block") {
        Some(i)
    } else {
        first_named_block(cs, i + 1)
    }
}

/// Every block-introducing construct under `n`, outermost first: the body
/// block of each loop, `if` branch, braced `match` arm, closure, `unsafe`,
/// `async` or bare block, without looking inside items or inside the blocks
/// found.
pub open spec fn nested_blocks(n: SyntaxNode) -> Seq<SyntaxNode>
    decreases n, n.children@.len() + 1,
{
    if is_item_kind(n.kind@) {
        Seq::empty()
    } else if has_kind(n, "while_expression") || has_kind(n, "for_expression") || has_kind(
        n,
        "loop_expression",
    ) {
        field_node(n, "body") + field_blocks(n, "condition") + field_blocks(n, "value")
            + field_blocks(n, "pattern")
    } else if has_kind(n, "if_expression") {
        field_node(n, "consequence") + field_blocks(n, "condition") + match field_index(
            n,
            "alternative",
        ) {
            Some(i) => {
                proof {
                    lemma_field_index(n, "alternative");
                    lemma_child(n, i);
                }
                alternative_blocks(n.children@[i], 0)
            },
            None => Seq::empty(),
        }
    } else if has_kind(n, "match_expression") {
        field_blocks(n, "value") + match field_index(n, "body") {
            Some(i) => {
                proof {
                    lemma_field_index(n, "body");
                    lemma_child(n, i);
                }
                arm_blocks(n.children@[i], 0)
            },
            None => Seq::empty(),
        }
    } else if has_kind(n, "closure_expression") {
        match field_index(n, "body") {
            Some(i) => {
                proof {
                    lemma_field_index(n, "body");
                    lemma_child(n, i);
                }
                if has_kind(n.children@[i], "block") {
                    seq![n.children@[i]]
                } else {
                    nested_blocks(n.children@[i])
                }
            },
            None => Seq::empty(),
        }
    } else if has_kind(n, "unsafe_block") || has_kind(n, "async_block") {
        match first_named_block(n.children@, 0) {
            Some(i) => seq![n.children@[i]],
            None => Seq::empty(),
        }
    } else if has_kind(n, "block") {
        seq![n]
    } else {
        children_blocks(n, 0)
    }
}

/// The child under field `f`, as a sequence of at most one node.
pub open spec fn field_node(n: SyntaxNode, f: &str) -> Seq<SyntaxNode> {
    match field_index(n, f) {
        Some(i) => seq![n.children@[i]],
        None => Seq::empty(),
    }
}

/// The nested blocks of the child under field `f`.
pub open spec fn field_blocks(n: SyntaxNode, f: &str) -> Seq<SyntaxNode>
    decreases n, 0int,
{
    match field_index(n, f) {
        Some(i) => {
            proof {
                lemma_field_index(n, f);
                lemma_child(n, i);
            }
            nested_blocks(n.children@[i])
        },
        None => Seq::empty(),
    }
}

/// The named children of an `else` clause from position `j` on: a block is
/// taken whole, anything else (a chained `else if`) is searched.
pub open spec fn alternative_blocks(alt: SyntaxNode, j: int) -> Seq<SyntaxNode>
    decreases alt, alt.children@.len() - j,
{
    if j < 0 || j >= alt.children@.len() {
        Seq::empty()
    } else {
        let c = alt.children@[j];
        proof {
            lemma_child(alt, j);
        }
        (if !c.named {
            Seq::empty()
        } else if has_kind(c, "block") {
            seq![c]
        } else {
            nested_blocks(c)
        }) + alternative_blocks(alt, j + 1)
    }
}

/// The arms of a match body from position `j` on: a block arm value is
/// taken whole, any other value is searched.
pub open spec fn arm_blocks(body: SyntaxNode, j: int) -> Seq<SyntaxNode>
    decreases body, body.children@.len() - j,
{
    if j < 0 || j >= body.children@.len() {
        Seq::empty()
    } else {
        let arm = body.children@[j];
        proof {
            lemma_child(body, j);
        }
        (if !arm.named || !has_kind(arm, "match_arm") {
            Seq::empty()
        } else {
            match field_index(arm, "value") {
                Some(v) => {
                    proof {
                        lemma_field_index(arm, "value");
                        lemma_child(arm, v);
                    }
                    if has_kind(arm.children@[v], "block") {
                        seq![arm.children@[v]]
                    } else {
                        nested_blocks(arm.children@[v])
                    }
                },
                None => Seq::empty(),
            }
        }) + arm_blocks(body, j + 1)
    }
}

/// The nested blocks of the named children from position `j` on.
pub open spec fn children_blocks(n: SyntaxNode, j: int) -> Seq<SyntaxNode>
    decreases n, n.children@.len() - j,
{
    if j < 0 || j >= n.children@.len() {
        Seq::empty()
    } else {
        proof {
            lemma_child(n, j);
        }
        (if n.children@[j].named {
            nested_blocks(n.children@[j])
        } else {
            Seq::empty()
        }) + children_blocks(n, j + 1)
    }
}

/// `x` is `n` or lies below it.
pub open spec fn at_or_below(x: SyntaxNode, n: SyntaxNode) -> bool {
    x == n || decreases_to!(n => x)
}

proof fn lemma_below_trans(n: SyntaxNode, c: SyntaxNode, x: SyntaxNode)
    requires
        decreases_to!(n => c),
        at_or_below(x, c),
    ensures
        decreases_to!(n => x),
{
    if x != c {
        assert(decreases_to!(c => x));
    }
}

proof fn lemma_concat_contains<A>(a: Seq<A>, b: Seq<A>, x: A)
    requires
        (a + b).contains(x),
    ensures
        a.contains(x) || b.contains(x),
{
    let k = choose|k: int| 0 <= k < (a + b).len() && (a + b)[k] == x;
    if k < a.len() {
        assert(a[k] == x);
    } else {
        assert(b[k - a.len()] == x);
    }
}

/// Every nested block of `n` is `n` itself or lies below it.
pub proof fn lemma_nested_blocks_below(n: SyntaxNode)
    ensures
        forall|x: SyntaxNode| nested_blocks(n).contains(x) ==> at_or_below(x, n),
    decreases n, n.children@.len() + 1,
{
    let nb = nested_blocks(n);
    if is_item_kind(n.kind@) {
    } else if has_kind(n, "while_expression") || has_kind(n, "for_expression") || has_kind(
        n,
        "loop_expression",
    ) {
        let a = field_node(n, "body");
        let b = field_blocks(n, "condition");
        let c = field_blocks(n, "value");
        let d = field_blocks(n, "pattern");
        assert(nb == a + b + c + d);
        lemma_field_node_below(n, "body");
        lemma_field_blocks_below(n, "condition");
        lemma_field_blocks_below(n, "value");
        lemma_field_blocks_below(n, "pattern");
        assert forall|x: SyntaxNode| nb.contains(x) implies at_or_below(x, n) by {
            lemma_concat_contains(a + b + c, d, x);
            if (a + b + c).contains(x) {
                lemma_concat_contains(a + b, c, x);
                if (a + b).contains(x) {
                    lemma_concat_contains(a, b, x);
                }
            }
        }
    } else if has_kind(n, "if_expression") {
        let a = field_node(n, "consequence");
        let b = field_blocks(n, "condition");
        lemma_field_node_below(n, "consequence");
        lemma_field_blocks_below(n, "condition");
        lemma_field_index(n, "alternative");
        match field_index(n, "alternative") {
            Some(i) => {
                let alt = n.children@[i];
                let c = alternative_blocks(alt, 0);
                assert(nb == a + b + c);
                lemma_child(n, i);
                lemma_alternative_blocks_below(alt, 0);
                assert forall|x: SyntaxNode| nb.contains(x) implies at_or_below(x, n) by {
                    lemma_concat_contains(a + b, c, x);
                    if (a + b).contains(x) {
                        lemma_concat_contains(a, b, x);
                    } else {
                        assert(decreases_to!(alt => x));
                    }
                }
            },
            None => {
                assert(nb =~= a + b);
                assert forall|x: SyntaxNode| nb.contains(x) implies at_or_below(x, n) by {
                    lemma_concat_contains(a, b, x);
                }
            },
        }
    } else if has_kind(n, "match_expression") {
        let a = field_blocks(n, "value");
        lemma_field_blocks_below(n, "value");
        lemma_field_index(n, "body");
        match field_index(n, "body") {
            Some(i) => {
                let body = n.children@[i];
                let c = arm_blocks(body, 0);
                assert(nb == a + c);
                lemma_child(n, i);
                lemma_arm_blocks_below(body, 0);
                assert forall|x: SyntaxNode| nb.contains(x) implies at_or_below(x, n) by {
                    lemma_concat_contains(a, c, x);
                    if c.contains(x) {
                        assert(decreases_to!(body => x));
                    }
                }
            },
            None => {
                assert(nb =~= a);
            },
        }
    } else if has_kind(n, "closure_expression") {
        lemma_field_index(n, "body");
        match field_index(n, "body") {
            Some(i) => {
                let b = n.children@[i];
                lemma_child(n, i);
                if has_kind(b, "block") {
                    assert(nb == seq![b]);
                    assert forall|x: SyntaxNode| nb.contains(x) implies at_or_below(x, n) by {
                        assert(nb[0] == x);
                    }
                } else {
                    assert(nb == nested_blocks(b));
                    lemma_nested_blocks_below(b);
                    assert forall|x: SyntaxNode| nb.contains(x) implies at_or_below(x, n) by {
                        lemma_below_trans(n, b, x);
                    }
                }
            },
            None => {},
        }
    } else if has_kind(n, "unsafe_block") || has_kind(n, "async_block") {
        lemma_first_named_block(n.children@, 0);
        match first_named_block(n.children@, 0) {
            Some(i) => {
                lemma_child(n, i);
                assert(nb == seq![n.children@[i]]);
                assert forall|x: SyntaxNode| nb.contains(x) implies at_or_below(x, n) by {
                    assert(nb[0] == x);
                }
            },
            None => {},
        }
    } else if has_kind(n, "block") {
        assert(nb == seq![n]);
        assert forall|x: SyntaxNode| nb.contains(x) implies at_or_below(x, n) by {
            assert(nb[0] == x);
        }
    } else {
        assert(nb == children_blocks(n, 0));
        lemma_children_blocks_below(n, 0);
    }
}

proof fn lemma_first_named_block(cs: Seq<SyntaxNode>, i: int)
    requires
        0 <= i,
    ensures
        first_named_block(cs, i) matches Some(j) ==> i <= j < cs.len(),
    decreases cs.len() - i,
{
    if i < cs.len() && !(cs[i].named && has_kind(cs[i], "block")) {
        lemma_first_named_block(cs, i + 1);
    }
}

proof fn lemma_field_node_below(n: SyntaxNode, f: &str)
    ensures
        forall|x: SyntaxNode| field_node(n, f).contains(x) ==> decreases_to!(n => x),
{
    lemma_field_index(n, f);
    if let Some(i) = field_index(n, f) {
        lemma_child(n, i);
        assert forall|x: SyntaxNode| field_node(n, f).contains(x) implies decreases_to!(n => x) by {
            assert(field_node(n, f)[0] == x);
        }
    }
}

proof fn lemma_field_blocks_below(n: SyntaxNode, f: &str)
    ensures
        forall|x: SyntaxNode| field_blocks(n, f).contains(x) ==> decreases_to!(n => x),
    decreases n, 0int,
{
    lemma_field_index(n, f);
    if let Some(i) = field_index(n, f) {
        let c = n.children@[i];
        lemma_child(n, i);
        lemma_nested_blocks_below(c);
        assert forall|x: SyntaxNode| field_blocks(n, f).contains(x) implies decreases_to!(n => x) by {
            assert(field_blocks(n, f) == nested_blocks(c));
            assert(nested_blocks(c).contains(x));
            assert(at_or_below(x, c));
            if x == c {
            } else {
                assert(decreases_to!(c => x));
                assert(decreases_to!(n => c));
            }
        }
    }
}

proof fn lemma_alternative_blocks_below(alt: SyntaxNode, j: int)
    ensures
        forall|x: SyntaxNode| alternative_blocks(alt, j).contains(x) ==> decreases_to!(alt => x),
    decreases alt, alt.children@.len() - j,
{
    if 0 <= j < alt.children@.len() {
        let c = alt.children@[j];
        lemma_child(alt, j);
        lemma_alternative_blocks_below(alt, j + 1);
        let head = if !c.named {
            Seq::empty()
        } else if has_kind(c, "block") {
            seq![c]
        } else {
            nested_blocks(c)
        };
        if c.named && !has_kind(c, "block") {
            lemma_nested_blocks_below(c);
        }
        assert forall|x: SyntaxNode| alternative_blocks(alt, j).contains(x) implies decreases_to!(
            alt => x) by {
            lemma_concat_contains(head, alternative_blocks(alt, j + 1), x);
            if head.contains(x) {
                if has_kind(c, "block") {
                    assert(head[0] == x);
                } else {
                    assert(nested_blocks(c).contains(x));
                    lemma_below_trans(alt, c, x);
                }
            }
        }
    }
}

proof fn lemma_arm_blocks_below(body: SyntaxNode, j: int)
    ensures
        forall|x: SyntaxNode| arm_blocks(body, j).contains(x) ==> decreases_to!(body => x),
    decreases body, body.children@.len() - j,
{
    if 0 <= j < body.children@.len() {
        let arm = body.children@[j];
        lemma_child(body, j);
        lemma_arm_blocks_below(body, j + 1);
        lemma_field_index(arm, "value");
        let head = if !arm.named || !has_kind(arm, "match_arm") {
            Seq::empty()
        } else {
            match field_index(arm, "value") {
                Some(v) => if has_kind(arm.children@[v], "block") {
                    seq![arm.children@[v]]
                } else {
                    nested_blocks(arm.children@[v])
                },
                None => Seq::empty(),
            }
        };
        if let Some(v) = field_index(arm, "value") {
            lemma_child(arm, v);
            if !has_kind(arm.children@[v], "block") {
                lemma_nested_blocks_below(arm.children@[v]);
            }
        }
        assert forall|x: SyntaxNode| arm_blocks(body, j).contains(x) implies decreases_to!(
            body => x) by {
            lemma_concat_contains(head, arm_blocks(body, j + 1), x);
            if head.contains(x) {
                let v = field_index(arm, "value")->0;
                let vn = arm.children@[v];
                assert(decreases_to!(body => vn));
                if has_kind(vn, "block") {
                    assert(head[0] == x);
                } else {
                    assert(nested_blocks(vn).contains(x));
                    lemma_below_trans(body, vn, x);
                }
            }
        }
    }
}

proof fn lemma_children_blocks_below(n: SyntaxNode, j: int)
    ensures
        forall|x: SyntaxNode| children_blocks(n, j).contains(x) ==> decreases_to!(n => x),
    decreases n, n.children@.len() - j,
{
    if 0 <= j < n.children@.len() {
        lemma_child(n, j);
        lemma_children_blocks_below(n, j + 1);
        let c = n.children@[j];
        let head = if c.named {
            nested_blocks(c)
        } else {
            Seq::empty()
        };
        if c.named {
            lemma_nested_blocks_below(c);
        }
        assert forall|x: SyntaxNode| children_blocks(n, j).contains(x) implies decreases_to!(
            n => x) by {
            lemma_concat_contains(head, children_blocks(n, j + 1), x);
            if head.contains(x) {
                assert(nested_blocks(c).contains(x));
                lemma_below_trans(n, c, x);
            }
        }
    }
}

/// The nodes that a sequence of references points at.
pub open spec fn deref_seq(s: Seq<&SyntaxNode>) -> Seq<SyntaxNode> {
    s.map_values(|r: &SyntaxNode| *r)
}

proof fn lemma_deref_push(s: Seq<&SyntaxNode>, r: &SyntaxNode)
    ensures
        deref_seq(s.push(r)) == deref_seq(s) + seq![*r],
{
    assert(deref_seq(s.push(r)) =~= deref_seq(s) + seq![*r]);
}

fn push_node<'a>(out: &mut Vec<&'a SyntaxNode>, r: &'a SyntaxNode)
    ensures
        deref_seq(final(out)@) == deref_seq(old(out)@) + seq![*r],
{
    proof {
        lemma_deref_push(out@, r);
    }
    out.push(r);
}

/// Appends the nested blocks of `n` to `out`.
pub fn find_nested_blocks<'a>(n: &'a SyntaxNode, out: &mut Vec<&'a SyntaxNode>)
    ensures
        deref_seq(final(out)@) == deref_seq(old(out)@) + nested_blocks(*n),
    decreases n, n.children@.len() + 1,
{
    let ghost start = deref_seq(out@);
    if is_target_kind(n) {
        assert(deref_seq(out@) =~= start + nested_blocks(*n));
        return ;
    }
    if kind_is(n, "while_expression") || kind_is(n, "for_expression") || kind_is(
        n,
        "loop_expression",
    ) {
        if let Some(i) = field_index_exec(n, "body") {
            push_node(out, &n.children[i]);
        }
        assert(deref_seq(out@) =~= start + field_node(*n, "body"));
        field_blocks_exec(n, "condition", out);
        field_blocks_exec(n, "value", out);
        field_blocks_exec(n, "pattern", out);
        assert(deref_seq(out@) =~= start + nested_blocks(*n));
    } else if kind_is(n, "if_expression") {
        if let Some(i) = field_index_exec(n, "consequence") {
            push_node(out, &n.children[i]);
        }
        assert(deref_seq(out@) =~= start + field_node(*n, "consequence"));
        field_blocks_exec(n, "condition", out);
        let ghost mid = deref_seq(out@);
        if let Some(i) = field_index_exec(n, "alternative") {
            proof {
                lemma_child(*n, i as int);
            }
            alternative_blocks_exec(&n.children[i], 0, out);
        }
        assert(deref_seq(out@) =~= start + nested_blocks(*n));
    } else if kind_is(n, "match_expression") {
        field_blocks_exec(n, "value", out);
        if let Some(i) = field_index_exec(n, "body") {
            proof {
                lemma_child(*n, i as int);
            }
            arm_blocks_exec(&n.children[i], 0, out);
        }
        assert(deref_seq(out@) =~= start + nested_blocks(*n));
    } else if kind_is(n, "closure_expression") {
        if let Some(i) = field_index_exec(n, "body") {
            proof {
                lemma_child(*n, i as int);
            }
            let b = &n.children[i];
            if kind_is(b, "block") {
                push_node(out, b);
            } else {
                find_nested_blocks(b, out);
            }
        }
        assert(deref_seq(out@) =~= start + nested_blocks(*n));
    } else if kind_is(n, "unsafe_block") || kind_is(n, "async_block") {
        let len = n.children.len();
        let mut i: usize = 0;
        assert(nested_blocks(*n) == match first_named_block(n.children@, 0) {
            Some(i) => seq![n.children@[i]],
            None => Seq::<SyntaxNode>::empty(),
        });
        while i < len
            invariant
                len == n.children@.len(),
                nested_blocks(*n) == match first_named_block(n.children@, 0) {
                    Some(i) => seq![n.children@[i]],
                    None => Seq::<SyntaxNode>::empty(),
                },
                i <= len,
                first_named_block(n.children@, 0) == first_named_block(n.children@, i as int),
                deref_seq(out@) == start,
                start == deref_seq(old(out)@),
            decreases len - i,
        {
            if n.children[i].named && kind_is(&n.children[i], "block") {
                push_node(out, &n.children[i]);
                assert(first_named_block(n.children@, 0) == Some(i as int));
                assert(nested_blocks(*n) == seq![n.children@[i as int]]);
                assert(deref_seq(out@) == start + seq![n.children@[i as int]]);
                return ;
            }
            i = i + 1;
        }
        assert(deref_seq(out@) =~= start + nested_blocks(*n));
    } else if kind_is(n, "block") {
        push_node(out, n);
    } else {
        children_blocks_exec(n, 0, out);
        assert(deref_seq(out@) =~= start + nested_blocks(*n));
    }
}

fn field_blocks_exec<'a>(n: &'a SyntaxNode, f: &str, out: &mut Vec<&'a SyntaxNode>)
    ensures
        deref_seq(final(out)@) == deref_seq(old(out)@) + field_blocks(*n, f),
    decreases n, 0int,
{
    let ghost start = deref_seq(out@);
    if let Some(i) = field_index_exec(n, f) {
        proof {
            lemma_child(*n, i as int);
        }
        find_nested_blocks(&n.children[i], out);
    } else {
        assert(deref_seq(out@) =~= start + field_blocks(*n, f));
    }
}

fn alternative_blocks_exec<'a>(alt: &'a SyntaxNode, j: usize, out: &mut Vec<&'a SyntaxNode>)
    ensures
        deref_seq(final(out)@) == deref_seq(old(out)@) + alternative_blocks(*alt, j as int),
    decreases alt, alt.children@.len() - j,
{
    let ghost start = deref_seq(out@);
    if j >= alt.children.len() {
        assert(deref_seq(out@) =~= start + alternative_blocks(*alt, j as int));
        return ;
    }
    proof {
        lemma_child(*alt, j as int);
    }
    let c = &alt.children[j];
    if !c.named {
    } else if kind_is(c, "block") {
        push_node(out, c);
    } else {
        find_nested_blocks(c, out);
    }
    let ghost mid = deref_seq(out@);
    alternative_blocks_exec(alt, j + 1, out);
    assert(deref_seq(out@) =~= start + alternative_blocks(*alt, j as int));
}

fn arm_blocks_exec<'a>(body: &'a SyntaxNode, j: usize, out: &mut Vec<&'a SyntaxNode>)
    ensures
        deref_seq(final(out)@) == deref_seq(old(out)@) + arm_blocks(*body, j as int),
    decreases body, body.children@.len() - j,
{
    let ghost start = deref_seq(out@);
    if j >= body.children.len() {
        assert(deref_seq(out@) =~= start + arm_blocks(*body, j as int));
        return ;
    }
    proof {
        lemma_child(*body, j as int);
    }
    let arm = &body.children[j];
    if arm.named && kind_is(arm, "match_arm") {
        if let Some(v) = field_index_exec(arm, "value") {
            proof {
                lemma_child(*arm, v as int);
            }
            let value = &arm.children[v];
            if kind_is(value, "block") {
                push_node(out, value);
            } else {
                find_nested_blocks(value, out);
            }
        }
    }
    arm_blocks_exec(body, j + 1, out);
    assert(deref_seq(out@) =~= start + arm_blocks(*body, j as int));
}

fn children_blocks_exec<'a>(n: &'a SyntaxNode, j: usize, out: &mut Vec<&'a SyntaxNode>)
    ensures
        deref_seq(final(out)@) == deref_seq(old(out)@) + children_blocks(*n, j as int),
    decreases n, n.children@.len() - j,
{
    let ghost start = deref_seq(out@);
    if j >= n.children.len() {
        assert(deref_seq(out@) =~= start + children_blocks(*n, j as int));
        return ;
    }
    proof {
        lemma_child(*n, j as int);
    }
    if n.children[j].named {
        find_nested_blocks(&n.children[j], out);
    }
    children_blocks_exec(n, j + 1, out);
    assert(deref_seq(out@) =~= start + children_blocks(*n, j as int));
}

} // verus!
