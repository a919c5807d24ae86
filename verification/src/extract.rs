//! Finds every comment of a Rust source file and the scope it documents.
//!
//! A doc comment (`///`, `//!`, `/** */`, `/*! */`) owns whatever item it
//! immediately precedes (or, for `//!`, the enclosing container itself). A
//! regular comment (`//`, `/* */`) never owns an item: its scope is the
//! code it comments on, the single preceding statement if it trails on the
//! same line, or the code that follows.

use vstd::prelude::*;
use crate::blocks::{
    at_or_below, deref_seq, is_item_kind, is_target_kind, lemma_nested_blocks_below,
    nested_blocks, find_nested_blocks,
};
use crate::hashing::{anchor_of, normalize, normalize_for_hash, short_anchor};
use crate::idmap::IdMap;
use crate::model::{CommentKind, ItemKind, ItemView, ScopedItem};
use crate::scope::{
    doc_text_of, doc_text, span_text, free_span_text, comment_node, is_comment,
    doc_comment_node, is_doc_comment, inner_doc_node, is_inner_doc, body_text_of,
    item_body_text, name_of, item_name, part_views, container_signature,
    shallow_container_signature, strip_node, strip_comments_node, text_of, text_of_exec,
};
use crate::source::SourceText;
use crate::syntax::{
    field_index, field_index_exec, has_kind, kind_is, lemma_child, lemma_field_index,
    lemma_seq_children, parse_rust, rust_syntax_tree, SyntaxNode,
};
use crate::text::{
    all_ws, append_chars, append_decimal, append_str, chars_of, decimal, is_blank, join_lines,
    join_lines_exec, string_from_chars,
};

verus! {

/// The ids already handed out to free comments, with how many times each
/// base id was used, and the items found so far.
pub type ScanState = (Map<Seq<char>, usize>, Seq<ItemView>);

/// The kind of item that a node of grammar kind `k` is.
pub open spec fn item_kind_of(k: Seq<char>) -> ItemKind {
    if k == "function_item"@ || k == "function_signature_item"@ {
        ItemKind::Function
    } else if k == "struct_item"@ {
        ItemKind::Struct
    } else if k == "enum_item"@ {
        ItemKind::Enum
    } else if k == "union_item"@ {
        ItemKind::Union
    } else if k == "trait_item"@ {
        ItemKind::Trait
    } else if k == "impl_item"@ {
        ItemKind::Impl
    } else if k == "const_item"@ {
        ItemKind::Const
    } else if k == "static_item"@ {
        ItemKind::Static
    } else if k == "type_item"@ {
        ItemKind::TypeAlias
    } else if k == "mod_item"@ {
        ItemKind::Module
    } else if k == "field_declaration"@ {
        ItemKind::Field
    } else if k == "enum_variant"@ {
        ItemKind::Variant
    } else if k == "macro_definition"@ {
        ItemKind::Macro
    } else if k == "associated_type"@ {
        ItemKind::TypeAlias
    } else if k == "foreign_mod_item"@ {
        ItemKind::Extern
    } else {
        ItemKind::Free
    }
}

/// The kind of item that node `n` is.
pub fn kind_of(n: &SyntaxNode) -> (r: ItemKind)
    ensures
        r == item_kind_of(n.kind@),
{
    if kind_is(n, "function_item") || kind_is(n, "function_signature_item") {
        ItemKind::Function
    } else if kind_is(n, "struct_item") {
        ItemKind::Struct
    } else if kind_is(n, "enum_item") {
        ItemKind::Enum
    } else if kind_is(n, "union_item") {
        ItemKind::Union
    } else if kind_is(n, "trait_item") {
        ItemKind::Trait
    } else if kind_is(n, "impl_item") {
        ItemKind::Impl
    } else if kind_is(n, "const_item") {
        ItemKind::Const
    } else if kind_is(n, "static_item") {
        ItemKind::Static
    } else if kind_is(n, "type_item") {
        ItemKind::TypeAlias
    } else if kind_is(n, "mod_item") {
        ItemKind::Module
    } else if kind_is(n, "field_declaration") {
        ItemKind::Field
    } else if kind_is(n, "enum_variant") {
        ItemKind::Variant
    } else if kind_is(n, "macro_definition") {
        ItemKind::Macro
    } else if kind_is(n, "associated_type") {
        ItemKind::TypeAlias
    } else if kind_is(n, "foreign_mod_item") {
        ItemKind::Extern
    } else {
        ItemKind::Free
    }
}

/// Every entry's id is qualified by file, on top of its human-readable
/// item path: `file|item_path`.
pub open spec fn id_of(file: Seq<char>, item_path: Seq<char>) -> Seq<char> {
    file + "|"@ + item_path
}

/// Builds the id `file|item_path`.
pub fn enjoin(file: &str, item_path: &Vec<char>) -> (r: Vec<char>)
    ensures
        r@ == id_of(file@, item_path@),
{
    let mut r = chars_of(file);
    append_str(&mut r, "|");
    append_chars(&mut r, item_path);
    r
}

/// The one-based line of a node.
pub open spec fn line_number(n: SyntaxNode) -> int {
    if n.start_row < usize::MAX {
        n.start_row + 1
    } else {
        n.start_row as int
    }
}

fn line_of(n: &SyntaxNode) -> (r: usize)
    ensures
        r == line_number(*n),
{
    if n.start_row < usize::MAX {
        n.start_row + 1
    } else {
        n.start_row
    }
}

/// An item found in file `file` at path `path`.
pub open spec fn make_item(
    file: Seq<char>,
    path: Seq<char>,
    kind: ItemKind,
    comment_kind: CommentKind,
    comment_text: Seq<char>,
    body_text: Seq<char>,
    line: int,
) -> ItemView {
    ItemView {
        id: id_of(file, path),
        kind,
        file,
        item_path: path,
        comment_kind,
        comment_text,
        body_text,
        line,
    }
}

fn make_item_exec(
    file: &str,
    path: &Vec<char>,
    kind: ItemKind,
    comment_kind: CommentKind,
    comment_text: &Vec<char>,
    body_text: &Vec<char>,
    line: usize,
) -> (r: ScopedItem)
    ensures
        r@ == make_item(
            file@,
            path@,
            kind,
            comment_kind,
            comment_text@,
            body_text@,
            line as int,
        ),
{
    let id = enjoin(file, path);
    ScopedItem {
        id: string_from_chars(&id),
        kind,
        file: string_from_chars(&chars_of(file)),
        item_path: string_from_chars(path),
        comment_kind,
        comment_text: string_from_chars(comment_text),
        body_text: string_from_chars(body_text),
        line,
    }
}

/// The path of a free comment: `enclosing#tag:anchor`, where the anchor is
/// taken from the comment text, followed by `:n` for the `n`-th repeat of
/// the same base within the file; and the updated repeat counts.
pub open spec fn free_path(
    enclosing: Seq<char>,
    tag: Seq<char>,
    text: Seq<char>,
    dedup: Map<Seq<char>, usize>,
) -> (Seq<char>, Map<Seq<char>, usize>) {
    let base = enclosing + "#"@ + tag + ":"@ + anchor_of(normalize(text));
    let n: usize = if dedup.contains_key(base) {
        dedup[base]
    } else {
        0
    };
    let next: usize = if n < usize::MAX {
        (n + 1) as usize
    } else {
        n
    };
    (
        if n == 0 {
            base
        } else {
            base + ":"@ + decimal(n as nat)
        },
        dedup.insert(base, next),
    )
}

/// Builds the path of a free comment and counts its base.
fn free_item_path(
    enclosing: &Vec<char>,
    tag: &str,
    comment_text: &Vec<char>,
    dedup: &mut IdMap<usize>,
) -> (r: Vec<char>)
    requires
        old(dedup).wf(),
    ensures
        final(dedup).wf(),
        (r@, final(dedup)@) == free_path(enclosing@, tag@, comment_text@, old(dedup)@),
{
    let text = string_from_chars(comment_text);
    let norm = normalize_for_hash(text.as_str());
    let anchor = short_anchor(norm.as_str());
    let mut base: Vec<char> = Vec::new();
    append_chars(&mut base, enclosing);
    append_str(&mut base, "#");
    append_str(&mut base, tag);
    append_str(&mut base, ":");
    append_str(&mut base, anchor.as_str());
    let key = string_from_chars(&base);
    let n: usize = match dedup.get(key.as_str()) {
        Some(v) => *v,
        None => 0,
    };
    let next = if n < usize::MAX {
        n + 1
    } else {
        n
    };
    dedup.insert(key, next);
    if n == 0 {
        base
    } else {
        let mut r = base;
        append_str(&mut r, ":");
        append_decimal(&mut r, n);
        r
    }
}

/// The texts of comment nodes, one per node.
pub open spec fn group_texts(src: Seq<char>, nodes: Seq<SyntaxNode>) -> Seq<Seq<char>>
    decreases nodes.len(),
{
    if nodes.len() == 0 {
        Seq::empty()
    } else {
        group_texts(src, nodes.drop_last()).push(text_of(src, nodes.last()))
    }
}

/// The marker-free texts of comment nodes, one per node.
pub open spec fn inner_doc_texts(src: Seq<char>, nodes: Seq<SyntaxNode>) -> Seq<Seq<char>>
    decreases nodes.len(),
{
    if nodes.len() == 0 {
        Seq::empty()
    } else {
        inner_doc_texts(src, nodes.drop_last()).push(doc_text_of(src, nodes.last()))
    }
}

/// The marker-free texts of the doc comments among `nodes`.
pub open spec fn doc_texts(src: Seq<char>, nodes: Seq<SyntaxNode>) -> Seq<Seq<char>>
    decreases nodes.len(),
{
    if nodes.len() == 0 {
        Seq::empty()
    } else if doc_comment_node(nodes.last()) {
        doc_texts(src, nodes.drop_last()).push(doc_text_of(src, nodes.last()))
    } else {
        doc_texts(src, nodes.drop_last())
    }
}

/// Which texts of a comment group are taken.
pub enum TextChoice {
    /// The whole text of every comment.
    Whole,
    /// The marker-free text of every comment.
    Inner,
    /// The marker-free text of the doc comments only.
    DocOnly,
}

/// The texts of `nodes` that `how` takes.
pub open spec fn choose_texts(src: Seq<char>, nodes: Seq<SyntaxNode>, how: TextChoice) -> Seq<
    Seq<char>,
> {
    match how {
        TextChoice::Whole => group_texts(src, nodes),
        TextChoice::Inner => inner_doc_texts(src, nodes),
        TextChoice::DocOnly => doc_texts(src, nodes),
    }
}

/// The texts of `children[lo..hi]` that `how` takes, one per line.
fn group_text_exec(
    src: &SourceText,
    children: &Vec<SyntaxNode>,
    lo: usize,
    hi: usize,
    how: TextChoice,
) -> (r: Vec<char>)
    requires
        src.wf(),
        lo <= hi <= children@.len(),
    ensures
        r@ == join_lines(choose_texts(src.text(), children@.subrange(lo as int, hi as int), how)),
{
    let mut parts: Vec<Vec<char>> = Vec::new();
    let mut i = lo;
    assert(part_views(parts@) =~= Seq::<Seq<char>>::empty());
    while i < hi
        invariant
            src.wf(),
            lo <= i <= hi <= children@.len(),
            part_views(parts@) == choose_texts(
                src.text(),
                children@.subrange(lo as int, i as int),
                how,
            ),
        decreases hi - i,
    {
        let c = &children[i];
        let ghost sub = children@.subrange(lo as int, i + 1);
        assert(sub.drop_last() =~= children@.subrange(lo as int, i as int));
        assert(sub.last() == children@[i as int]);
        let ghost before = parts@;
        match how {
            TextChoice::Whole => {
                let t = text_of_exec(src, c);
                parts.push(t);
            },
            TextChoice::Inner => {
                let t = doc_text(src, c);
                parts.push(t);
            },
            TextChoice::DocOnly => {
                if is_doc_comment(c) {
                    let t = doc_text(src, c);
                    parts.push(t);
                }
            },
        }
        assert(part_views(parts@) =~= choose_texts(src.text(), sub, how));
        i = i + 1;
    }
    join_lines_exec(&parts)
}

/// The kind of a comment group, judged by its last comment.
pub open spec fn group_comment_kind(last: SyntaxNode) -> CommentKind {
    if has_kind(last, "block_comment") {
        CommentKind::Block
    } else {
        CommentKind::Line
    }
}

/// The first position at or after `i` that is not a comment.
pub open spec fn group_end(cs: Seq<SyntaxNode>, i: int) -> int
    decreases cs.len() - i,
{
    if i < 0 || i >= cs.len() || !comment_node(cs[i]) {
        i
    } else {
        group_end(cs, i + 1)
    }
}

/// The first position at or after `i` that is a comment.
pub open spec fn span_end(cs: Seq<SyntaxNode>, i: int) -> int
    decreases cs.len() - i,
{
    if i < 0 || i >= cs.len() || comment_node(cs[i]) {
        i
    } else {
        span_end(cs, i + 1)
    }
}

/// The first position at or after `i` that is not an attribute.
pub open spec fn attr_end(cs: Seq<SyntaxNode>, i: int) -> int
    decreases cs.len() - i,
{
    if i < 0 || i >= cs.len() || !has_kind(cs[i], "attribute_item") {
        i
    } else {
        attr_end(cs, i + 1)
    }
}

/// The first position at or after `i` that is not an inner doc comment.
pub open spec fn lead_end(cs: Seq<SyntaxNode>, i: int) -> int
    decreases cs.len() - i,
{
    if i < 0 || i >= cs.len() || !(comment_node(cs[i]) && inner_doc_node(cs[i])) {
        i
    } else {
        lead_end(cs, i + 1)
    }
}

/// Records a side comment (`stmt(); // like this`) over `cs[gs..ge]`: its
/// scope is the preceding statement, when that has any code.
pub open spec fn trailing_group(
    src: Seq<char>,
    file: Seq<char>,
    enclosing: Seq<char>,
    cs: Seq<SyntaxNode>,
    gs: int,
    ge: int,
    st: ScanState,
) -> ScanState {
    let text = join_lines(group_texts(src, cs.subrange(gs, ge)));
    let body = strip_node(src, cs[gs - 1]);
    if all_ws(body) {
        st
    } else {
        let (path, dedup) = free_path(enclosing, "trailing"@, text, st.0);
        (
            dedup,
            st.1.push(
                make_item(
                    file,
                    path,
                    ItemKind::Free,
                    group_comment_kind(cs[ge - 1]),
                    text,
                    body,
                    line_number(cs[gs]),
                ),
            ),
        )
    }
}

/// Records a free comment over `cs[gs..ge]`: its scope is the code that
/// follows up to the next comment or the end of the container, when there
/// is any.
pub open spec fn free_group(
    src: Seq<char>,
    file: Seq<char>,
    enclosing: Seq<char>,
    cs: Seq<SyntaxNode>,
    gs: int,
    ge: int,
    st: ScanState,
) -> ScanState {
    let text = join_lines(group_texts(src, cs.subrange(gs, ge)));
    let end = span_end(cs, ge);
    if end == ge {
        st
    } else {
        let body = span_text(src, cs.subrange(ge, end));
        if all_ws(body) {
            st
        } else {
            let (path, dedup) = free_path(enclosing, "free"@, text, st.0);
            (
                dedup,
                st.1.push(
                    make_item(
                        file,
                        path,
                        ItemKind::Free,
                        group_comment_kind(cs[ge - 1]),
                        text,
                        body,
                        line_number(cs[gs]),
                    ),
                ),
            )
        }
    }
}

/// Reads the comment groups of a container from position `i` on: a doc
/// comment group followed (past any attributes) by an item documents that
/// item; any other group is a side comment or a free comment.
pub open spec fn scan_loop(
    src: Seq<char>,
    file: Seq<char>,
    enclosing: Seq<char>,
    cs: Seq<SyntaxNode>,
    i: int,
    st: ScanState,
) -> ScanState
    decreases cs.len() - i,
{
    if i < 0 || i >= cs.len() {
        st
    } else if !comment_node(cs[i]) {
        scan_loop(src, file, enclosing, cs, i + 1, st)
    } else {
        let ge = group_end(cs, i);
        let item_idx = attr_end(cs, ge);
        let last = cs[ge - 1];
        if doc_comment_node(last) && !inner_doc_node(last) && item_idx < cs.len() && is_item_kind(
            cs[item_idx].kind@,
        ) {
            let next = cs[item_idx];
            let path = enclosing + "::"@ + name_of(src, next);
            let item = make_item(
                file,
                path,
                item_kind_of(next.kind@),
                CommentKind::OuterDoc,
                join_lines(doc_texts(src, cs.subrange(i, ge))),
                body_text_of(src, cs.subrange(ge, item_idx), next),
                line_number(cs[i]),
            );
            if item_idx + 1 > i {
                scan_loop(src, file, enclosing, cs, item_idx + 1, (st.0, st.1.push(item)))
            } else {
                st
            }
        } else {
            let trailing = i > 0 && cs[i - 1].end_row == cs[i].start_row;
            let st2 = if trailing {
                trailing_group(src, file, enclosing, cs, i, ge, st)
            } else {
                free_group(src, file, enclosing, cs, i, ge, st)
            };
            if i < ge <= cs.len() {
                scan_loop(src, file, enclosing, cs, ge, st2)
            } else {
                st2
            }
        }
    }
}

/// The kind of container whose body is scanned as its own scope.
pub open spec fn container_kind(k: Seq<char>) -> Option<ItemKind> {
    if k == "mod_item"@ {
        Some(ItemKind::Module)
    } else if k == "struct_item"@ {
        Some(ItemKind::Struct)
    } else if k == "union_item"@ {
        Some(ItemKind::Union)
    } else if k == "enum_item"@ {
        Some(ItemKind::Enum)
    } else if k == "trait_item"@ {
        Some(ItemKind::Trait)
    } else if k == "impl_item"@ {
        Some(ItemKind::Impl)
    } else if k == "function_item"@ {
        Some(ItemKind::Function)
    } else if k == "enum_variant"@ {
        Some(ItemKind::Variant)
    } else if k == "foreign_mod_item"@ {
        Some(ItemKind::Extern)
    } else {
        None
    }
}

/// Scans the children `cs` of a container at path `enclosing`: first the
/// leading inner doc comments, which document the container itself, then
/// the comment groups, then every nested container and block.
pub open spec fn container_scan(
    src: Seq<char>,
    file: Seq<char>,
    enclosing: Seq<char>,
    kind: ItemKind,
    cs: Seq<SyntaxNode>,
    st: ScanState,
) -> ScanState
    decreases cs, cs.len() + 1, 0int,
{
    let lead = lead_end(cs, 0);
    let st1 = if lead > 0 {
        (
            st.0,
            st.1.push(
                make_item(
                    file,
                    enclosing,
                    kind,
                    CommentKind::InnerDoc,
                    join_lines(inner_doc_texts(src, cs.take(lead))),
                    container_signature(src, cs.skip(lead)),
                    line_number(cs[0]),
                ),
            ),
        )
    } else {
        st
    };
    let st2 = scan_loop(src, file, enclosing, cs, lead, st1);
    recurse_loop(src, file, enclosing, kind, cs, 0, st2)
}

/// Scans the nested containers and blocks of `cs[j..]`.
pub open spec fn recurse_loop(
    src: Seq<char>,
    file: Seq<char>,
    enclosing: Seq<char>,
    kind: ItemKind,
    cs: Seq<SyntaxNode>,
    j: int,
    st: ScanState,
) -> ScanState
    decreases cs, cs.len() - j, if 0 <= j < cs.len() {
        nested_blocks(cs[j]).len() + 2
    } else {
        0
    },
{
    if j < 0 || j >= cs.len() {
        st
    } else {
        recurse_loop(
            src,
            file,
            enclosing,
            kind,
            cs,
            j + 1,
            recurse_child(src, file, enclosing, kind, cs, j, st),
        )
    }
}

/// Scans what is nested in `cs[j]`: the body of a named container (not of a
/// tuple struct, union or variant) under its own path, or else every block
/// found in the statement under the enclosing path.
pub open spec fn recurse_child(
    src: Seq<char>,
    file: Seq<char>,
    enclosing: Seq<char>,
    kind: ItemKind,
    cs: Seq<SyntaxNode>,
    j: int,
    st: ScanState,
) -> ScanState
    decreases cs, cs.len() - j, if 0 <= j < cs.len() {
        nested_blocks(cs[j]).len() + 1
    } else {
        0
    },
{
    if j < 0 || j >= cs.len() {
        st
    } else {
        let c = cs[j];
        match container_kind(c.kind@) {
            Some(sub_kind) => match field_index(c, "body") {
                Some(b) => {
                    proof {
                        lemma_field_index(c, "body");
                        lemma_seq_children(cs, j);
                        lemma_child(c, b);
                        lemma_seq_children(c.children@, b);
                    }
                    let body = c.children@[b];
                    if (has_kind(c, "struct_item") || has_kind(c, "union_item") || has_kind(
                        c,
                        "enum_variant",
                    )) && !has_kind(body, "field_declaration_list") {
                        st
                    } else {
                        container_scan(
                            src,
                            file,
                            enclosing + "::"@ + name_of(src, c),
                            sub_kind,
                            body.children@,
                            st,
                        )
                    }
                },
                None => st,
            },
            None => scan_blocks(src, file, enclosing, kind, cs, j, 0, st),
        }
    }
}

/// Scans the nested blocks of `cs[j]` from the `k`-th on, each as a
/// container under the enclosing path.
pub open spec fn scan_blocks(
    src: Seq<char>,
    file: Seq<char>,
    enclosing: Seq<char>,
    kind: ItemKind,
    cs: Seq<SyntaxNode>,
    j: int,
    k: int,
    st: ScanState,
) -> ScanState
    decreases cs, cs.len() - j, if 0 <= j < cs.len() {
        nested_blocks(cs[j]).len() - k
    } else {
        0
    },
{
    if j < 0 || j >= cs.len() || k < 0 || k >= nested_blocks(cs[j]).len() {
        st
    } else {
        let b = nested_blocks(cs[j])[k];
        proof {
            lemma_block_below(cs, j, k);
        }
        scan_blocks(
            src,
            file,
            enclosing,
            kind,
            cs,
            j,
            k + 1,
            container_scan(src, file, enclosing, kind, b.children@, st),
        )
    }
}

/// The children of a nested block of `cs[j]` lie below `cs`.
pub proof fn lemma_block_below(cs: Seq<SyntaxNode>, j: int, k: int)
    requires
        0 <= j < cs.len(),
        0 <= k < nested_blocks(cs[j]).len(),
    ensures
        decreases_to!(cs => nested_blocks(cs[j])[k].children@),
{
    let c = cs[j];
    let b = nested_blocks(c)[k];
    lemma_nested_blocks_below(c);
    assert(nested_blocks(c).contains(b));
    assert(at_or_below(b, c));
    lemma_seq_children(cs, j);
    assert(decreases_to!(b => b.children@)) by {
        crate::syntax::lemma_children(b);
    }
    if b != c {
        assert(decreases_to!(c => b));
    }
}

/// The items of a Rust file whose tree is `root`, in the order found.
pub open spec fn extract_items(file: Seq<char>, src: Seq<char>, root: SyntaxNode) -> Seq<ItemView> {
    container_scan(
        src,
        file,
        "crate"@,
        ItemKind::Module,
        root.children@,
        (Map::empty(), Seq::empty()),
    ).1
}

/// The views of the items found so far.
pub open spec fn items_view(items: Seq<ScopedItem>) -> Seq<ItemView> {
    items.map_values(|it: ScopedItem| it@)
}

pub proof fn lemma_items_view_push(items: Seq<ScopedItem>, it: ScopedItem)
    ensures
        items_view(items.push(it)) == items_view(items).push(it@),
{
    assert(items_view(items.push(it)) =~= items_view(items).push(it@));
}

fn push_item(out: &mut Vec<ScopedItem>, it: ScopedItem)
    ensures
        items_view(final(out)@) == items_view(old(out)@).push(it@),
{
    proof {
        lemma_items_view_push(out@, it);
    }
    out.push(it);
}

fn handle_trailing_group(
    src: &SourceText,
    file: &str,
    enclosing: &Vec<char>,
    cs: &Vec<SyntaxNode>,
    gs: usize,
    ge: usize,
    dedup: &mut IdMap<usize>,
    out: &mut Vec<ScopedItem>,
)
    requires
        src.wf(),
        old(dedup).wf(),
        0 < gs < ge <= cs@.len(),
    ensures
        final(dedup).wf(),
        (final(dedup)@, items_view(final(out)@)) == trailing_group(
            src.text(),
            file@,
            enclosing@,
            cs@,
            gs as int,
            ge as int,
            (old(dedup)@, items_view(old(out)@)),
        ),
{
    let text = group_text_exec(src, cs, gs, ge, TextChoice::Whole);
    let body = strip_comments_node(src, &cs[gs - 1]);
    if is_blank(&body) {
        return ;
    }
    let path = free_item_path(enclosing, "trailing", &text, dedup);
    let ck = if kind_is(&cs[ge - 1], "block_comment") {
        CommentKind::Block
    } else {
        CommentKind::Line
    };
    let item = make_item_exec(file, &path, ItemKind::Free, ck, &text, &body, line_of(&cs[gs]));
    push_item(out, item);
}

fn handle_free_group(
    src: &SourceText,
    file: &str,
    enclosing: &Vec<char>,
    cs: &Vec<SyntaxNode>,
    gs: usize,
    ge: usize,
    dedup: &mut IdMap<usize>,
    out: &mut Vec<ScopedItem>,
)
    requires
        src.wf(),
        old(dedup).wf(),
        0 <= gs < ge <= cs@.len(),
    ensures
        final(dedup).wf(),
        (final(dedup)@, items_view(final(out)@)) == free_group(
            src.text(),
            file@,
            enclosing@,
            cs@,
            gs as int,
            ge as int,
            (old(dedup)@, items_view(old(out)@)),
        ),
{
    let text = group_text_exec(src, cs, gs, ge, TextChoice::Whole);
    let n = cs.len();
    let mut end = ge;
    while end < n && !is_comment(&cs[end])
        invariant
            ge <= end <= n == cs@.len(),
            span_end(cs@, ge as int) == span_end(cs@, end as int),
        decreases n - end,
    {
        end = end + 1;
    }
    if end == ge {
        return ;
    }
    let body = free_span_text(src, cs, ge, end);
    if is_blank(&body) {
        return ;
    }
    let path = free_item_path(enclosing, "free", &text, dedup);
    let ck = if kind_is(&cs[ge - 1], "block_comment") {
        CommentKind::Block
    } else {
        CommentKind::Line
    };
    let item = make_item_exec(file, &path, ItemKind::Free, ck, &text, &body, line_of(&cs[gs]));
    push_item(out, item);
}

fn scan_loop_exec(
    src: &SourceText,
    file: &str,
    enclosing: &Vec<char>,
    cs: &Vec<SyntaxNode>,
    start: usize,
    dedup: &mut IdMap<usize>,
    out: &mut Vec<ScopedItem>,
)
    requires
        src.wf(),
        old(dedup).wf(),
    ensures
        final(dedup).wf(),
        (final(dedup)@, items_view(final(out)@)) == scan_loop(
            src.text(),
            file@,
            enclosing@,
            cs@,
            start as int,
            (old(dedup)@, items_view(old(out)@)),
        ),
{
    let ghost target = scan_loop(
        src.text(),
        file@,
        enclosing@,
        cs@,
        start as int,
        (dedup@, items_view(out@)),
    );
    let n = cs.len();
    let mut i = start;
    while i < n
        invariant
            src.wf(),
            dedup.wf(),
            n == cs@.len(),
            target == scan_loop(
                src.text(),
                file@,
                enclosing@,
                cs@,
                i as int,
                (dedup@, items_view(out@)),
            ),
        decreases n - i,
    {
        if !is_comment(&cs[i]) {
            i = i + 1;
            continue;
        }
        let gs = i;
        while i < n && is_comment(&cs[i])
            invariant
                gs <= i <= n == cs@.len(),
                comment_node(cs@[gs as int]),
                group_end(cs@, gs as int) == group_end(cs@, i as int),
            decreases n - i,
        {
            i = i + 1;
        }
        let ge = i;
        let mut item_idx = i;
        while item_idx < n && kind_is(&cs[item_idx], "attribute_item")
            invariant
                ge <= item_idx <= n == cs@.len(),
                attr_end(cs@, ge as int) == attr_end(cs@, item_idx as int),
            decreases n - item_idx,
        {
            item_idx = item_idx + 1;
        }
        let last = &cs[ge - 1];
        if is_doc_comment(last) && !is_inner_doc(last) && item_idx < n
            && is_target_kind(&cs[item_idx]) {
            let next = &cs[item_idx];
            let mut path: Vec<char> = Vec::new();
            append_chars(&mut path, enclosing);
            append_str(&mut path, "::");
            append_chars(&mut path, &item_name(src, next));
            let text = group_text_exec(src, cs, gs, ge, TextChoice::DocOnly);
            let body = item_body_text(src, cs, ge, item_idx, next);
            let item = make_item_exec(
                file,
                &path,
                kind_of(next),
                CommentKind::OuterDoc,
                &text,
                &body,
                line_of(&cs[gs]),
            );
            push_item(out, item);
            i = item_idx + 1;
            continue;
        }
        let trailing = gs > 0 && cs[gs - 1].end_row == cs[gs].start_row;
        if trailing {
            handle_trailing_group(src, file, enclosing, cs, gs, ge, dedup, out);
        } else {
            handle_free_group(src, file, enclosing, cs, gs, ge, dedup, out);
        }
    }
}

/// Scans the children `cs` of a container at path `enclosing`.
fn scan_container(
    src: &SourceText,
    file: &str,
    enclosing: &Vec<char>,
    kind: ItemKind,
    cs: &Vec<SyntaxNode>,
    dedup: &mut IdMap<usize>,
    out: &mut Vec<ScopedItem>,
)
    requires
        src.wf(),
        old(dedup).wf(),
    ensures
        final(dedup).wf(),
        (final(dedup)@, items_view(final(out)@)) == container_scan(
            src.text(),
            file@,
            enclosing@,
            kind,
            cs@,
            (old(dedup)@, items_view(old(out)@)),
        ),
    decreases cs@, cs@.len() + 1, 0int,
{
    let n = cs.len();
    let mut lead: usize = 0;
    while lead < n && is_comment(&cs[lead]) && is_inner_doc(&cs[lead])
        invariant
            lead <= n == cs@.len(),
            lead_end(cs@, 0) == lead_end(cs@, lead as int),
        decreases n - lead,
    {
        lead = lead + 1;
    }
    if lead > 0 {
        let text = group_text_exec(src, cs, 0, lead, TextChoice::Inner);
        let body = shallow_container_signature(src, cs, lead, n);
        let item = make_item_exec(
            file,
            enclosing,
            kind,
            CommentKind::InnerDoc,
            &text,
            &body,
            line_of(&cs[0]),
        );
        assert(cs@.subrange(0, lead as int) =~= cs@.take(lead as int));
        assert(cs@.subrange(lead as int, n as int) =~= cs@.skip(lead as int));
        push_item(out, item);
    }
    scan_loop_exec(src, file, enclosing, cs, lead, dedup, out);
    let ghost target = recurse_loop(
        src.text(),
        file@,
        enclosing@,
        kind,
        cs@,
        0,
        (dedup@, items_view(out@)),
    );
    let mut j: usize = 0;
    while j < n
        invariant
            src.wf(),
            dedup.wf(),
            n == cs@.len(),
            j <= n,
            target == recurse_loop(
                src.text(),
                file@,
                enclosing@,
                kind,
                cs@,
                j as int,
                (dedup@, items_view(out@)),
            ),
        decreases n - j,
    {
        recurse_child_exec(src, file, enclosing, kind, cs, j, dedup, out);
        j = j + 1;
    }
}

/// Whether the body of a container of kind `c` is scanned as a scope.
fn container_kind_exec(c: &SyntaxNode) -> (r: Option<ItemKind>)
    ensures
        r == container_kind(c.kind@),
{
    if kind_is(c, "mod_item") {
        Some(ItemKind::Module)
    } else if kind_is(c, "struct_item") {
        Some(ItemKind::Struct)
    } else if kind_is(c, "union_item") {
        Some(ItemKind::Union)
    } else if kind_is(c, "enum_item") {
        Some(ItemKind::Enum)
    } else if kind_is(c, "trait_item") {
        Some(ItemKind::Trait)
    } else if kind_is(c, "impl_item") {
        Some(ItemKind::Impl)
    } else if kind_is(c, "function_item") {
        Some(ItemKind::Function)
    } else if kind_is(c, "enum_variant") {
        Some(ItemKind::Variant)
    } else if kind_is(c, "foreign_mod_item") {
        Some(ItemKind::Extern)
    } else {
        None
    }
}

fn recurse_child_exec(
    src: &SourceText,
    file: &str,
    enclosing: &Vec<char>,
    kind: ItemKind,
    cs: &Vec<SyntaxNode>,
    j: usize,
    dedup: &mut IdMap<usize>,
    out: &mut Vec<ScopedItem>,
)
    requires
        src.wf(),
        old(dedup).wf(),
        j < cs@.len(),
    ensures
        final(dedup).wf(),
        (final(dedup)@, items_view(final(out)@)) == recurse_child(
            src.text(),
            file@,
            enclosing@,
            kind,
            cs@,
            j as int,
            (old(dedup)@, items_view(old(out)@)),
        ),
    decreases cs@, cs@.len() - j, nested_blocks(cs@[j as int]).len() + 1,
{
    let c = &cs[j];
    match container_kind_exec(c) {
        Some(sub_kind) => {
            if let Some(b) = field_index_exec(c, "body") {
                let body = &c.children[b];
                if (kind_is(c, "struct_item") || kind_is(c, "union_item") || kind_is(
                    c,
                    "enum_variant",
                )) && !kind_is(body, "field_declaration_list") {
                    return ;
                }
                let mut path: Vec<char> = Vec::new();
                append_chars(&mut path, enclosing);
                append_str(&mut path, "::");
                append_chars(&mut path, &item_name(src, c));
                proof {
                    lemma_seq_children(cs@, j as int);
                    lemma_child(*c, b as int);
                    lemma_seq_children(c.children@, b as int);
                }
                scan_container(src, file, &path, sub_kind, &body.children, dedup, out);
            }
        },
        None => {
            let mut blocks: Vec<&SyntaxNode> = Vec::new();
            find_nested_blocks(c, &mut blocks);
            assert(deref_seq(blocks@) =~= nested_blocks(*c));
            let ghost bs = nested_blocks(*c);
            let ghost target = scan_blocks(
                src.text(),
                file@,
                enclosing@,
                kind,
                cs@,
                j as int,
                0,
                (dedup@, items_view(out@)),
            );
            let mut k: usize = 0;
            while k < blocks.len()
                invariant
                    src.wf(),
                    dedup.wf(),
                    j < cs@.len(),
                    bs == nested_blocks(cs@[j as int]),
                    deref_seq(blocks@) == bs,
                    k <= blocks@.len(),
                    target == scan_blocks(
                        src.text(),
                        file@,
                        enclosing@,
                        kind,
                        cs@,
                        j as int,
                        k as int,
                        (dedup@, items_view(out@)),
                    ),
                decreases blocks@.len() - k,
            {
                let b = blocks[k];
                assert(bs[k as int] == *b);
                proof {
                    lemma_block_below(cs@, j as int, k as int);
                }
                scan_container(src, file, enclosing, kind, &b.children, dedup, out);
                k = k + 1;
            }
        },
    }
}

/// The items of file `file_rel`, whose source is `src` and whose syntax
/// tree is `root`, in the order found.
pub fn extract_from_tree(file_rel: &str, src: &str, root: &SyntaxNode) -> (r: Vec<ScopedItem>)
    ensures
        items_view(r@) == extract_items(file_rel@, src@, *root),
{
    let text = SourceText::new(src);
    let mut dedup: IdMap<usize> = IdMap::new();
    let mut out: Vec<ScopedItem> = Vec::new();
    let mut crate_path: Vec<char> = Vec::new();
    append_str(&mut crate_path, "crate");
    assert(items_view(out@) =~= Seq::<ItemView>::empty());
    scan_container(
        &text,
        file_rel,
        &crate_path,
        ItemKind::Module,
        &root.children,
        &mut dedup,
        &mut out,
    );
    out
}

/// Why a file could not be read as Rust.
#[derive(Debug, Clone, Copy, PartialEq, Eq, Structural)]
pub enum ExtractError {
    /// tree-sitter produced no syntax tree for the file.
    NoParseTree,
}

/// Parses one Rust source file and extracts every doc comment and regular
/// comment with the scope it documents.
pub fn extract_file(file_rel: &str, src: &str) -> (r: Result<Vec<ScopedItem>, ExtractError>)
    ensures
        match rust_syntax_tree(src@) {
            Some(root) => r matches Ok(items) && items_view(items@) == extract_items(
                file_rel@,
                src@,
                root,
            ),
            None => r == Err::<Vec<ScopedItem>, ExtractError>(ExtractError::NoParseTree),
        },
{
    match parse_rust(src) {
        Some(root) => Ok(extract_from_tree(file_rel, src, &root)),
        None => Err(ExtractError::NoParseTree),
    }
}

} // verus!
