//! The texts that a comment scope records: comment text, the code with the
//! comments cut out, shallow signatures and collapsed statement spans.

use vstd::prelude::*;
use crate::blocks::{deref_seq, nested_blocks, find_nested_blocks};
use crate::source::{byte_slice, SourceText};
use crate::syntax::{
    field_child, field_child_exec, field_index, field_index_exec, has_kind, kind_is, lemma_child,
    SyntaxNode,
};
use crate::text::{
    all_ws, append_chars, append_str, is_blank, join_lines, join_lines_exec, trim, trim_chars,
};

verus! {

/// A byte range `[start, end)` to cut out of a text.
pub type Cut = (usize, usize);

/// A line or block comment.
pub open spec fn comment_node(n: SyntaxNode) -> bool {
    has_kind(n, "line_comment") || has_kind(n, "block_comment")
}

/// Whether `n` is a comment.
pub fn is_comment(n: &SyntaxNode) -> (r: bool)
    ensures
        r == comment_node(*n),
{
    kind_is(n, "line_comment") || kind_is(n, "block_comment")
}

/// A doc comment: one with an outer (`///`) or inner (`//!`) marker.
pub open spec fn doc_comment_node(n: SyntaxNode) -> bool {
    field_index(n, "outer") is Some || field_index(n, "inner") is Some
}

/// An inner doc comment (`//!` or `/*! */`).
pub open spec fn inner_doc_node(n: SyntaxNode) -> bool {
    field_index(n, "inner") is Some
}

/// Whether `n` is a doc comment.
pub fn is_doc_comment(n: &SyntaxNode) -> (r: bool)
    ensures
        r == doc_comment_node(*n),
{
    field_index_exec(n, "outer").is_some() || field_index_exec(n, "inner").is_some()
}

/// Whether `n` is an inner doc comment.
pub fn is_inner_doc(n: &SyntaxNode) -> (r: bool)
    ensures
        r == inner_doc_node(*n),
{
    field_index_exec(n, "inner").is_some()
}

/// The source text of a node.
pub open spec fn text_of(src: Seq<char>, n: SyntaxNode) -> Seq<char> {
    byte_slice(src, n.start_byte as int, n.end_byte as int)
}

/// The source text of a node.
pub fn text_of_exec(src: &SourceText, n: &SyntaxNode) -> (r: Vec<char>)
    requires
        src.wf(),
    ensures
        r@ == text_of(src.text(), *n),
{
    src.slice(n.start_byte, n.end_byte)
}

/// The text of a doc comment without its marker (its `doc` child), or the
/// whole comment when it has none.
pub open spec fn doc_text_of(src: Seq<char>, n: SyntaxNode) -> Seq<char> {
    match field_child(n, "doc") {
        Some(d) => text_of(src, d),
        None => text_of(src, n),
    }
}

/// The text of a doc comment without its marker.
pub fn doc_text(src: &SourceText, n: &SyntaxNode) -> (r: Vec<char>)
    requires
        src.wf(),
    ensures
        r@ == doc_text_of(src.text(), *n),
{
    match field_child_exec(n, "doc") {
        Some(d) => text_of_exec(src, d),
        None => text_of_exec(src, n),
    }
}

/// The byte ranges of every comment at or below `n`, in tree order.
pub open spec fn comment_ranges(n: SyntaxNode) -> Seq<Cut>
    decreases n, n.children@.len() + 1,
{
    if comment_node(n) {
        seq![(n.start_byte, n.end_byte)]
    } else {
        comment_ranges_from(n, 0)
    }
}

/// The comment ranges of the children from position `j` on.
pub open spec fn comment_ranges_from(n: SyntaxNode, j: int) -> Seq<Cut>
    decreases n, n.children@.len() - j,
{
    if j < 0 || j >= n.children@.len() {
        Seq::empty()
    } else {
        proof {
            lemma_child(n, j);
        }
        comment_ranges(n.children@[j]) + comment_ranges_from(n, j + 1)
    }
}

/// Appends the byte ranges of every comment at or below `n` to `out`.
pub fn collect_comment_ranges(n: &SyntaxNode, out: &mut Vec<Cut>)
    ensures
        final(out)@ == old(out)@ + comment_ranges(*n),
    decreases n, n.children@.len() + 1,
{
    if is_comment(n) {
        out.push((n.start_byte, n.end_byte));
    } else {
        comment_ranges_from_exec(n, 0, out);
    }
}

fn comment_ranges_from_exec(n: &SyntaxNode, j: usize, out: &mut Vec<Cut>)
    ensures
        final(out)@ == old(out)@ + comment_ranges_from(*n, j as int),
    decreases n, n.children@.len() - j,
{
    if j >= n.children.len() {
        assert(out@ =~= old(out)@ + comment_ranges_from(*n, j as int));
        return ;
    }
    proof {
        lemma_child(*n, j as int);
    }
    collect_comment_ranges(&n.children[j], out);
    comment_ranges_from_exec(n, j + 1, out);
    assert(out@ =~= old(out)@ + comment_ranges_from(*n, j as int));
}

/// `x` inserted after the last range of `s` that starts no later than it.
pub open spec fn insert_by_start(s: Seq<Cut>, x: Cut) -> Seq<Cut>
    decreases s.len(),
{
    if s.len() == 0 || s.last().0 <= x.0 {
        s.push(x)
    } else {
        insert_by_start(s.drop_last(), x).push(s.last())
    }
}

/// `s` sorted by start offset, keeping the order of equal starts (a stable
/// sort by key).
pub open spec fn sort_by_start(s: Seq<Cut>) -> Seq<Cut>
    decreases s.len(),
{
    if s.len() == 0 {
        s
    } else {
        insert_by_start(sort_by_start(s.drop_last()), s.last())
    }
}

fn insert_by_start_exec(v: &mut Vec<Cut>, x: Cut)
    ensures
        final(v)@ == insert_by_start(old(v)@, x),
{
    let ghost v0 = v@;
    let mut p = v.len();
    assert(v0.take(p as int) =~= v0);
    assert(v0.skip(p as int) =~= Seq::<Cut>::empty());
    while p > 0 && v[p - 1].0 > x.0
        invariant
            v@ == v0,
            p <= v0.len(),
            insert_by_start(v0, x) == insert_by_start(v0.take(p as int), x) + v0.skip(p as int),
        decreases p,
    {
        let ghost t = v0.take(p as int);
        assert(t.drop_last() =~= v0.take(p - 1));
        assert(t.last() == v0[p - 1]);
        assert(v0.skip(p - 1) =~= seq![v0[p - 1]] + v0.skip(p as int));
        assert(insert_by_start(t, x) == insert_by_start(v0.take(p - 1), x).push(v0[p - 1]));
        assert(insert_by_start(v0.take(p - 1), x).push(v0[p - 1]) + v0.skip(p as int)
            =~= insert_by_start(v0.take(p - 1), x) + v0.skip(p - 1));
        p = p - 1;
    }
    v.insert(p, x);
    assert(v@ =~= insert_by_start(v0, x));
}

/// The ranges of `s`, stably sorted by start offset.
pub fn sort_by_start_exec(s: &Vec<Cut>) -> (r: Vec<Cut>)
    ensures
        r@ == sort_by_start(s@),
{
    let mut r: Vec<Cut> = Vec::new();
    let mut i: usize = 0;
    while i < s.len()
        invariant
            i <= s@.len(),
            r@ == sort_by_start(s@.take(i as int)),
        decreases s@.len() - i,
    {
        assert(s@.take(i + 1).drop_last() =~= s@.take(i as int));
        insert_by_start_exec(&mut r, s[i]);
        i = i + 1;
    }
    assert(s@.take(s@.len() as int) =~= s@);
    r
}

/// The text between `pos` and `end` with the given (start-sorted) ranges
/// cut out: each range keeps what lies before it that was not cut already.
pub open spec fn merge_cuts(src: Seq<char>, pos: int, cuts: Seq<Cut>, end: int) -> Seq<char>
    decreases cuts.len(),
{
    if cuts.len() == 0 {
        if pos < end {
            byte_slice(src, pos, end)
        } else {
            Seq::empty()
        }
    } else {
        let s = cuts[0].0 as int;
        let e = cuts[0].1 as int;
        (if s > pos {
            byte_slice(src, pos, s)
        } else {
            Seq::empty()
        }) + merge_cuts(src, if pos >= e { pos } else { e }, cuts.drop_first(), end)
    }
}

fn merge_cuts_exec(src: &SourceText, start: usize, cuts: &Vec<Cut>, end: usize) -> (r: Vec<char>)
    requires
        src.wf(),
    ensures
        r@ == merge_cuts(src.text(), start as int, cuts@, end as int),
{
    let ghost total = merge_cuts(src.text(), start as int, cuts@, end as int);
    let mut r: Vec<char> = Vec::new();
    let mut pos = start;
    let mut i: usize = 0;
    assert(cuts@.skip(0) =~= cuts@);
    while i < cuts.len()
        invariant
            src.wf(),
            i <= cuts@.len(),
            total == r@ + merge_cuts(src.text(), pos as int, cuts@.skip(i as int), end as int),
        decreases cuts@.len() - i,
    {
        let (s, e) = cuts[i];
        let ghost rest = cuts@.skip(i as int);
        assert(rest[0] == cuts@[i as int]);
        assert(rest.drop_first() =~= cuts@.skip(i + 1));
        let ghost old_r = r@;
        if s > pos {
            let piece = src.slice(pos, s);
            append_chars(&mut r, &piece);
        }
        if e > pos {
            pos = e;
        }
        i = i + 1;
        assert(total == r@ + merge_cuts(src.text(), pos as int, cuts@.skip(i as int), end as int));
    }
    if pos < end {
        let piece = src.slice(pos, end);
        append_chars(&mut r, &piece);
    }
    assert(r@ =~= total);
    r
}

/// The text of `n` with every comment inside it cut out, so that editing an
/// inner comment never changes the text.
pub open spec fn strip_node(src: Seq<char>, n: SyntaxNode) -> Seq<char> {
    merge_cuts(src, n.start_byte as int, sort_by_start(comment_ranges(n)), n.end_byte as int)
}

/// The text of `n` with every comment inside it cut out.
pub fn strip_comments_node(src: &SourceText, n: &SyntaxNode) -> (r: Vec<char>)
    requires
        src.wf(),
    ensures
        r@ == strip_node(src.text(), *n),
{
    let mut ranges: Vec<Cut> = Vec::new();
    collect_comment_ranges(n, &mut ranges);
    assert(ranges@ =~= comment_ranges(*n));
    let sorted = sort_by_start_exec(&ranges);
    merge_cuts_exec(src, n.start_byte, &sorted, n.end_byte)
}

/// The position of the first `{`, `;` or newline at or after `i`, or the
/// length of `s`.
pub open spec fn stop_index(s: Seq<char>, i: int) -> int
    decreases s.len() - i,
{
    if i < 0 || i >= s.len() {
        s.len() as int
    } else if s[i] == '{' || s[i] == ';' || s[i] == '\n' {
        i
    } else {
        stop_index(s, i + 1)
    }
}

/// The first line of an item's comment-free text, up to `{`, `;` or a
/// newline, trimmed.
pub open spec fn signature_of(src: Seq<char>, n: SyntaxNode) -> Seq<char> {
    let full = strip_node(src, n);
    trim(full.take(stop_index(full, 0)))
}

/// The shallow signature of `n`.
pub fn shallow_signature(src: &SourceText, n: &SyntaxNode) -> (r: Vec<char>)
    requires
        src.wf(),
    ensures
        r@ == signature_of(src.text(), *n),
{
    let full = strip_comments_node(src, n);
    let mut i: usize = 0;
    while i < full.len() && full[i] != '{' && full[i] != ';' && full[i] != '\n'
        invariant
            i <= full@.len(),
            stop_index(full@, 0) == stop_index(full@, i as int),
        decreases full@.len() - i,
    {
        i = i + 1;
    }
    let mut head: Vec<char> = Vec::new();
    let mut k: usize = 0;
    while k < i
        invariant
            k <= i <= full@.len(),
            head@ == full@.take(k as int),
        decreases i - k,
    {
        head.push(full[k]);
        k = k + 1;
        assert(head@ =~= full@.take(k as int));
    }
    trim_chars(&head)
}

/// The non-empty shallow signatures of the non-comment nodes of `nodes`.
pub open spec fn signature_parts(src: Seq<char>, nodes: Seq<SyntaxNode>) -> Seq<Seq<char>>
    decreases nodes.len(),
{
    if nodes.len() == 0 {
        Seq::empty()
    } else {
        let rest = signature_parts(src, nodes.drop_last());
        let n = nodes.last();
        if comment_node(n) || signature_of(src, n).len() == 0 {
            rest
        } else {
            rest.push(signature_of(src, n))
        }
    }
}

/// The shallow signatures of the members of a container, one per line.
pub open spec fn container_signature(src: Seq<char>, nodes: Seq<SyntaxNode>) -> Seq<char> {
    join_lines(signature_parts(src, nodes))
}

/// The lines of `parts`, as plain sequences.
pub open spec fn part_views(parts: Seq<Vec<char>>) -> Seq<Seq<char>> {
    parts.map_values(|p: Vec<char>| p@)
}

proof fn lemma_part_views_push(parts: Seq<Vec<char>>, p: Vec<char>)
    ensures
        part_views(parts.push(p)) == part_views(parts).push(p@),
{
    assert(part_views(parts.push(p)) =~= part_views(parts).push(p@));
}

/// The shallow signatures of `children[lo..hi]`, one per line.
pub fn shallow_container_signature(
    src: &SourceText,
    children: &Vec<SyntaxNode>,
    lo: usize,
    hi: usize,
) -> (r: Vec<char>)
    requires
        src.wf(),
        lo <= hi <= children@.len(),
    ensures
        r@ == container_signature(src.text(), children@.subrange(lo as int, hi as int)),
{
    let mut parts: Vec<Vec<char>> = Vec::new();
    let mut i = lo;
    assert(part_views(parts@) =~= Seq::<Seq<char>>::empty());
    while i < hi
        invariant
            src.wf(),
            lo <= i <= hi <= children@.len(),
            part_views(parts@) == signature_parts(
                src.text(),
                children@.subrange(lo as int, i as int),
            ),
        decreases hi - i,
    {
        let n = &children[i];
        assert(children@.subrange(lo as int, i + 1).drop_last() =~= children@.subrange(
            lo as int,
            i as int,
        ));
        assert(children@.subrange(lo as int, i + 1).last() == children@[i as int]);
        if !is_comment(n) {
            let sig = shallow_signature(src, n);
            if sig.len() > 0 {
                proof {
                    lemma_part_views_push(parts@, sig);
                }
                parts.push(sig);
            }
        }
        i = i + 1;
    }
    join_lines_exec(&parts)
}

/// The inside of every nested block that spans more than its braces, as a
/// range that keeps the braces.
pub open spec fn block_cuts(bs: Seq<SyntaxNode>) -> Seq<Cut>
    decreases bs.len(),
{
    if bs.len() == 0 {
        Seq::empty()
    } else {
        let b = bs.last();
        block_cuts(bs.drop_last()) + if b.end_byte > b.start_byte + 2 {
            seq![((b.start_byte + 1) as usize, (b.end_byte - 1) as usize)]
        } else {
            Seq::empty()
        }
    }
}

/// A statement's text with its comments and the inside of every nested
/// block cut out.
pub open spec fn collapsed_text(src: Seq<char>, n: SyntaxNode) -> Seq<char> {
    merge_cuts(
        src,
        n.start_byte as int,
        sort_by_start(comment_ranges(n) + block_cuts(nested_blocks(n))),
        n.end_byte as int,
    )
}

/// A statement's text with nested blocks collapsed.
pub fn collapse_nested_blocks(src: &SourceText, n: &SyntaxNode) -> (r: Vec<char>)
    requires
        src.wf(),
    ensures
        r@ == collapsed_text(src.text(), *n),
{
    let mut cuts: Vec<Cut> = Vec::new();
    collect_comment_ranges(n, &mut cuts);
    assert(cuts@ =~= comment_ranges(*n));
    let mut blocks: Vec<&SyntaxNode> = Vec::new();
    find_nested_blocks(n, &mut blocks);
    assert(deref_seq(blocks@) =~= nested_blocks(*n));
    let ghost bs = nested_blocks(*n);
    let mut i: usize = 0;
    while i < blocks.len()
        invariant
            i <= blocks@.len(),
            deref_seq(blocks@) == bs,
            cuts@ == comment_ranges(*n) + block_cuts(bs.take(i as int)),
        decreases blocks@.len() - i,
    {
        let b = blocks[i];
        assert(bs[i as int] == *b);
        assert(bs.take(i + 1).drop_last() =~= bs.take(i as int));
        let ghost before = cuts@;
        if b.end_byte > b.start_byte && b.end_byte - b.start_byte > 2 {
            cuts.push((b.start_byte + 1, b.end_byte - 1));
        }
        i = i + 1;
        assert(cuts@ =~= comment_ranges(*n) + block_cuts(bs.take(i as int)));
    }
    assert(bs.take(blocks@.len() as int) =~= bs);
    let sorted = sort_by_start_exec(&cuts);
    merge_cuts_exec(src, n.start_byte, &sorted, n.end_byte)
}

/// The collapsed texts of the statements of a span that are not blank.
pub open spec fn span_parts(src: Seq<char>, nodes: Seq<SyntaxNode>) -> Seq<Seq<char>>
    decreases nodes.len(),
{
    if nodes.len() == 0 {
        Seq::empty()
    } else {
        let rest = span_parts(src, nodes.drop_last());
        let t = collapsed_text(src, nodes.last());
        if all_ws(t) {
            rest
        } else {
            rest.push(t)
        }
    }
}

/// A free comment's forward-scoped body: each statement's own text with
/// any nested block collapsed away, one per line.
pub open spec fn span_text(src: Seq<char>, nodes: Seq<SyntaxNode>) -> Seq<char> {
    join_lines(span_parts(src, nodes))
}

/// The body of a free comment over `children[lo..hi]`.
pub fn free_span_text(src: &SourceText, children: &Vec<SyntaxNode>, lo: usize, hi: usize) -> (r:
    Vec<char>)
    requires
        src.wf(),
        lo <= hi <= children@.len(),
    ensures
        r@ == span_text(src.text(), children@.subrange(lo as int, hi as int)),
{
    let mut parts: Vec<Vec<char>> = Vec::new();
    let mut i = lo;
    assert(part_views(parts@) =~= Seq::<Seq<char>>::empty());
    while i < hi
        invariant
            src.wf(),
            lo <= i <= hi <= children@.len(),
            part_views(parts@) == span_parts(src.text(), children@.subrange(lo as int, i as int)),
        decreases hi - i,
    {
        assert(children@.subrange(lo as int, i + 1).drop_last() =~= children@.subrange(
            lo as int,
            i as int,
        ));
        assert(children@.subrange(lo as int, i + 1).last() == children@[i as int]);
        let t = collapse_nested_blocks(src, &children[i]);
        if !is_blank(&t) {
            proof {
                lemma_part_views_push(parts@, t);
            }
            parts.push(t);
        }
        i = i + 1;
    }
    join_lines_exec(&parts)
}

/// The comment-free texts of the attributes in `nodes`.
pub open spec fn strip_parts(src: Seq<char>, nodes: Seq<SyntaxNode>) -> Seq<Seq<char>>
    decreases nodes.len(),
{
    if nodes.len() == 0 {
        Seq::empty()
    } else {
        strip_parts(src, nodes.drop_last()).push(strip_node(src, nodes.last()))
    }
}

/// What a doc comment's hash tracks for item `n` with attributes `attrs`:
/// the attributes, then for a module, trait or impl the shallow signatures
/// of its members, and for anything else its whole comment-free text.
pub open spec fn body_text_of(src: Seq<char>, attrs: Seq<SyntaxNode>, n: SyntaxNode) -> Seq<char> {
    let attrs_text = join_lines(strip_parts(src, attrs));
    let own = if has_kind(n, "mod_item") || has_kind(n, "trait_item") || has_kind(n, "impl_item") {
        match field_child(n, "body") {
            Some(body) => container_signature(src, body.children@),
            None => strip_node(src, n),
        }
    } else {
        strip_node(src, n)
    };
    if attrs_text.len() == 0 {
        own
    } else {
        attrs_text + seq!['\n'] + own
    }
}

/// The tracked body of item `n`, with attributes `children[lo..hi]`.
pub fn item_body_text(
    src: &SourceText,
    children: &Vec<SyntaxNode>,
    lo: usize,
    hi: usize,
    n: &SyntaxNode,
) -> (r: Vec<char>)
    requires
        src.wf(),
        lo <= hi <= children@.len(),
    ensures
        r@ == body_text_of(src.text(), children@.subrange(lo as int, hi as int), *n),
{
    let mut parts: Vec<Vec<char>> = Vec::new();
    let mut i = lo;
    assert(part_views(parts@) =~= Seq::<Seq<char>>::empty());
    while i < hi
        invariant
            src.wf(),
            lo <= i <= hi <= children@.len(),
            part_views(parts@) == strip_parts(src.text(), children@.subrange(lo as int, i as int)),
        decreases hi - i,
    {
        assert(children@.subrange(lo as int, i + 1).drop_last() =~= children@.subrange(
            lo as int,
            i as int,
        ));
        assert(children@.subrange(lo as int, i + 1).last() == children@[i as int]);
        let t = strip_comments_node(src, &children[i]);
        proof {
            lemma_part_views_push(parts@, t);
        }
        parts.push(t);
        i = i + 1;
    }
    let attrs_text = join_lines_exec(&parts);
    let own = if kind_is(n, "mod_item") || kind_is(n, "trait_item") || kind_is(n, "impl_item") {
        match field_child_exec(n, "body") {
            Some(body) => shallow_container_signature(src, &body.children, 0, body.children.len()),
            None => strip_comments_node(src, n),
        }
    } else {
        strip_comments_node(src, n)
    };
    proof {
        if let Some(body) = field_child(*n, "body") {
            assert(body.children@.subrange(0, body.children@.len() as int) =~= body.children@);
        }
    }
    if attrs_text.len() == 0 {
        own
    } else {
        let mut r = attrs_text;
        r.push('\n');
        append_chars(&mut r, &own);
        r
    }
}

/// The first child (named or not) of kind `k`.
pub open spec fn first_of_kind(cs: Seq<SyntaxNode>, k: &str, i: int) -> Option<int>
    decreases cs.len() - i,
{
    if i < 0 || i >= cs.len() {
        None
    } else if has_kind(cs[i], k) {
        Some(i)
    } else {
        first_of_kind(cs, k, i + 1)
    }
}

/// The name under which an item appears in a path: `impl Trait for Type`
/// or `impl Type` for an impl block, the ABI (`extern "C"`) for an extern
/// block, the `name` child otherwise, or `<anonymous>`.
pub open spec fn name_of(src: Seq<char>, n: SyntaxNode) -> Seq<char> {
    if has_kind(n, "impl_item") {
        match (field_child(n, "trait"), field_child(n, "type")) {
            (Some(tr), Some(ty)) => "impl "@ + text_of(src, tr) + " for "@ + text_of(src, ty),
            (None, Some(ty)) => "impl "@ + text_of(src, ty),
            _ => "impl"@,
        }
    } else if has_kind(n, "foreign_mod_item") {
        match first_of_kind(n.children@, "extern_modifier", 0) {
            Some(i) => text_of(src, n.children@[i]),
            None => "extern"@,
        }
    } else {
        match field_child(n, "name") {
            Some(c) => text_of(src, c),
            None => "<anonymous>"@,
        }
    }
}

/// The name of item `n`.
pub fn item_name(src: &SourceText, n: &SyntaxNode) -> (r: Vec<char>)
    requires
        src.wf(),
    ensures
        r@ == name_of(src.text(), *n),
{
    let mut r: Vec<char> = Vec::new();
    if kind_is(n, "impl_item") {
        let ty = field_child_exec(n, "type");
        let tr = field_child_exec(n, "trait");
        match (tr, ty) {
            (Some(tr), Some(ty)) => {
                append_str(&mut r, "impl ");
                append_chars(&mut r, &text_of_exec(src, tr));
                append_str(&mut r, " for ");
                append_chars(&mut r, &text_of_exec(src, ty));
            },
            (None, Some(ty)) => {
                append_str(&mut r, "impl ");
                append_chars(&mut r, &text_of_exec(src, ty));
            },
            _ => {
                append_str(&mut r, "impl");
            },
        }
    } else if kind_is(n, "foreign_mod_item") {
        let len = n.children.len();
        let mut i: usize = 0;
        while i < len
            invariant
                src.wf(),
                !has_kind(*n, "impl_item"),
                has_kind(*n, "foreign_mod_item"),
                len == n.children@.len(),
                i <= len,
                first_of_kind(n.children@, "extern_modifier", 0) == first_of_kind(
                    n.children@,
                    "extern_modifier",
                    i as int,
                ),
            decreases len - i,
        {
            if kind_is(&n.children[i], "extern_modifier") {
                return text_of_exec(src, &n.children[i]);
            }
            i = i + 1;
        }
        append_str(&mut r, "extern");
    } else {
        match field_child_exec(n, "name") {
            Some(c) => {
                return text_of_exec(src, c);
            },
            None => {
                append_str(&mut r, "<anonymous>");
            },
        }
    }
    r
}

/// Cuts in increasing order of their starts.
pub open spec fn sorted_by_start(s: Seq<Cut>) -> bool {
    forall|i: int, j: int| 0 <= i < j < s.len() ==> (#[trigger] s[i]).0 <= (#[trigger] s[j]).0
}

proof fn lemma_insert_by_start(s: Seq<Cut>, x: Cut)
    requires
        sorted_by_start(s),
    ensures
        sorted_by_start(insert_by_start(s, x)),
        forall|y: Cut| #[trigger] insert_by_start(s, x).contains(y) <==> (s.contains(y) || y == x),
    decreases s.len(),
{
    let r = insert_by_start(s, x);
    if s.len() == 0 || s.last().0 <= x.0 {
        assert forall|y: Cut| #[trigger] r.contains(y) <==> (s.contains(y) || y == x) by {
            if r.contains(y) {
                let k = choose|k: int| 0 <= k < r.len() && r[k] == y;
                if k < s.len() {
                    assert(s[k] == y);
                }
            }
            if s.contains(y) {
                let k = choose|k: int| 0 <= k < s.len() && s[k] == y;
                assert(r[k] == y);
            }
            if y == x {
                assert(r[r.len() - 1] == x);
            }
        }
        assert forall|i: int, j: int| 0 <= i < j < r.len() implies (#[trigger] r[i]).0 <= (
        #[trigger] r[j]).0 by {
            if j == r.len() - 1 && s.len() > 0 {
                assert(s[i].0 <= s[s.len() - 1].0 || i == s.len() - 1);
            }
        }
    } else {
        let d = s.drop_last();
        let l = s.last();
        assert(sorted_by_start(d)) by {
            assert forall|i: int, j: int| 0 <= i < j < d.len() implies (#[trigger] d[i]).0 <= (
            #[trigger] d[j]).0 by {
                assert(d[i] == s[i] && d[j] == s[j]);
            }
        }
        lemma_insert_by_start(d, x);
        let q = insert_by_start(d, x);
        assert(r == q.push(l));
        assert forall|y: Cut| #[trigger] r.contains(y) <==> (s.contains(y) || y == x) by {
            if r.contains(y) {
                let k = choose|k: int| 0 <= k < r.len() && r[k] == y;
                if k < q.len() {
                    assert(q[k] == y);
                    assert(q.contains(y));
                    if d.contains(y) {
                        let m = choose|m: int| 0 <= m < d.len() && d[m] == y;
                        assert(s[m] == y);
                    }
                } else {
                    assert(s[s.len() - 1] == y);
                }
            }
            if s.contains(y) {
                let k = choose|k: int| 0 <= k < s.len() && s[k] == y;
                if k < s.len() - 1 {
                    assert(d[k] == y);
                    assert(d.contains(y));
                    assert(q.contains(y));
                    let m = choose|m: int| 0 <= m < q.len() && q[m] == y;
                    assert(r[m] == y);
                } else {
                    assert(r[r.len() - 1] == y);
                }
            }
            if y == x {
                assert(q.contains(x));
                let m = choose|m: int| 0 <= m < q.len() && q[m] == x;
                assert(r[m] == x);
            }
        }
        assert forall|i: int, j: int| 0 <= i < j < r.len() implies (#[trigger] r[i]).0 <= (
        #[trigger] r[j]).0 by {
            if j == r.len() - 1 {
                assert(r[i] == q[i]);
                assert(q.contains(q[i]));
                if d.contains(q[i]) {
                    let m = choose|m: int| 0 <= m < d.len() && d[m] == q[i];
                    assert(s[m] == q[i]);
                }
            } else {
                assert(r[i] == q[i] && r[j] == q[j]);
            }
        }
    }
}

proof fn lemma_sort_by_start(s: Seq<Cut>)
    ensures
        sorted_by_start(sort_by_start(s)),
        forall|y: Cut| #[trigger] sort_by_start(s).contains(y) <==> s.contains(y),
    decreases s.len(),
{
    if s.len() > 0 {
        let d = s.drop_last();
        lemma_sort_by_start(d);
        lemma_insert_by_start(sort_by_start(d), s.last());
        assert forall|y: Cut| #[trigger] sort_by_start(s).contains(y) <==> s.contains(y) by {
            if s.contains(y) {
                let k = choose|k: int| 0 <= k < s.len() && s[k] == y;
                if k < d.len() {
                    assert(d[k] == y);
                    assert(d.contains(y));
                }
            }
            if d.contains(y) {
                let k = choose|k: int| 0 <= k < d.len() && d[k] == y;
                assert(s[k] == y);
            }
        }
    }
}

/// The byte range `[a, b)` meets none of the ranges `rs`.
pub open spec fn clear_of(a: int, b: int, rs: Seq<Cut>) -> bool {
    forall|r: Cut| #[trigger] rs.contains(r) ==> b <= r.0 || r.1 <= a
}

proof fn lemma_merge_cuts_clear(
    src1: Seq<char>,
    src2: Seq<char>,
    rs: Seq<Cut>,
    pos: int,
    cuts: Seq<Cut>,
    end: int,
)
    requires
        sorted_by_start(cuts),
        forall|r: Cut| #[trigger] rs.contains(r) ==> cuts.contains(r) || r.1 <= pos,
        forall|a: int, b: int|
            clear_of(a, b, rs) ==> #[trigger] byte_slice(src1, a, b) == byte_slice(src2, a, b),
    ensures
        merge_cuts(src1, pos, cuts, end) == merge_cuts(src2, pos, cuts, end),
    decreases cuts.len(),
{
    if cuts.len() == 0 {
        assert(clear_of(pos, end, rs));
        assert(byte_slice(src1, pos, end) == byte_slice(src2, pos, end));
    } else {
        let s0 = cuts[0].0 as int;
        let e0 = cuts[0].1 as int;
        let next = if pos >= e0 { pos } else { e0 };
        let rest = cuts.drop_first();
        assert(clear_of(pos, s0, rs)) by {
            assert forall|r: Cut| #[trigger] rs.contains(r) implies s0 <= r.0 || r.1 <= pos by {
                if cuts.contains(r) {
                    let k = choose|k: int| 0 <= k < cuts.len() && cuts[k] == r;
                    if k > 0 {
                        assert(cuts[0].0 <= cuts[k].0);
                    }
                }
            }
        }
        assert(byte_slice(src1, pos, s0) == byte_slice(src2, pos, s0));
        assert(sorted_by_start(rest)) by {
            assert forall|i: int, j: int| 0 <= i < j < rest.len() implies (#[trigger] rest[i]).0
                <= (#[trigger] rest[j]).0 by {
                assert(rest[i] == cuts[i + 1] && rest[j] == cuts[j + 1]);
            }
        }
        assert forall|r: Cut| #[trigger] rs.contains(r) implies rest.contains(r) || r.1 <= next by {
            if cuts.contains(r) {
                let k = choose|k: int| 0 <= k < cuts.len() && cuts[k] == r;
                if k > 0 {
                    assert(rest[k - 1] == r);
                }
            }
        }
        lemma_merge_cuts_clear(src1, src2, rs, next, rest, end);
    }
}

/// Law: the code of a node with its comments cut out never depends on what
/// those comments say. Two texts that agree everywhere outside the node's
/// comments give it the same stripped text, so an edit inside a nested
/// comment never changes the text, nor the hash, of the code around it.
pub proof fn law_comments_do_not_reach_the_stripped_text(
    src1: Seq<char>,
    src2: Seq<char>,
    n: SyntaxNode,
)
    requires
        forall|a: int, b: int|
            clear_of(a, b, comment_ranges(n)) ==> #[trigger] byte_slice(src1, a, b) == byte_slice(
                src2,
                a,
                b,
            ),
    ensures
        strip_node(src1, n) == strip_node(src2, n),
        crate::hashing::hash_of(strip_node(src1, n)) == crate::hashing::hash_of(
            strip_node(src2, n),
        ),
{
    let rs = comment_ranges(n);
    lemma_sort_by_start(rs);
    lemma_merge_cuts_clear(
        src1,
        src2,
        rs,
        n.start_byte as int,
        sort_by_start(rs),
        n.end_byte as int,
    );
}

} // verus!
