//! Whitespace-insensitive content hashes.

use vstd::prelude::*;
use crate::text::{all_ws, chars_of, is_whitespace, is_ws, string_from_chars};

verus! {

/// The state after reading `rest` from (`out`, `last_space`): whitespace runs
/// become one space, and a run is dropped when the previous output was a
/// space (or nothing yet).
pub open spec fn collapse(out: Seq<char>, last_space: bool, rest: Seq<char>) -> (Seq<char>, bool)
    decreases rest.len(),
{
    if rest.len() == 0 {
        (out, last_space)
    } else if is_ws(rest[0]) {
        if last_space {
            collapse(out, true, rest.drop_first())
        } else {
            collapse(out.push(' '), true, rest.drop_first())
        }
    } else {
        collapse(out.push(rest[0]), false, rest.drop_first())
    }
}

/// `s` with every whitespace run collapsed to one space and both ends trimmed.
pub open spec fn normalize(s: Seq<char>) -> Seq<char> {
    let c = collapse(Seq::empty(), true, s).0;
    if c.len() > 0 && c.last() == ' ' {
        c.drop_last()
    } else {
        c
    }
}

/// Collapses all whitespace runs to a single space and trims the ends, so
/// pure reformatting/reindentation never changes a hash.
pub fn normalize_for_hash(s: &str) -> (r: String)
    ensures
        r@ == normalize(s@),
{
    let cs = chars_of(s);
    let mut out: Vec<char> = Vec::new();
    let mut last_was_space = true;
    let mut i: usize = 0;
    assert(cs@.skip(0) =~= cs@);
    while i < cs.len()
        invariant
            i <= cs@.len(),
            cs@ == s@,
            collapse(Seq::empty(), true, s@) == collapse(out@, last_was_space, cs@.skip(i as int)),
        decreases cs@.len() - i,
    {
        let c = cs[i];
        assert(cs@.skip(i as int).drop_first() =~= cs@.skip(i + 1));
        if is_whitespace(c) {
            if !last_was_space {
                out.push(' ');
                last_was_space = true;
            }
        } else {
            out.push(c);
            last_was_space = false;
        }
        i = i + 1;
    }
    assert(cs@.skip(i as int) =~= Seq::<char>::empty());
    let n = out.len();
    if n > 0 && out[n - 1] == ' ' {
        out.pop();
    }
    string_from_chars(&out)
}

/// What `blake3` gives for the UTF-8 bytes of `text`, written as lowercase hex.
pub uninterp spec fn blake3_hex(text: Seq<char>) -> Seq<char>;

/// A lowercase hexadecimal digit.
pub open spec fn is_lower_hex(c: char) -> bool {
    ('0' <= c && c <= '9') || ('a' <= c && c <= 'f')
}

/// Every character of `s` is a lowercase hexadecimal digit.
pub open spec fn lower_hex(s: Seq<char>) -> bool {
    forall|i: int| 0 <= i < s.len() ==> is_lower_hex(#[trigger] s[i])
}

/// Calls `blake3::hash` on the UTF-8 bytes of `text` and turns the digest into
/// a string with `Hash::to_hex`. The contract claims that the result is the
/// named digest of `text`, that it has 64 characters (two hex digits for
/// each of the 32 bytes of the digest), and that each is a lowercase hex
/// digit, as `to_hex` writes them.
#[verifier::external_body]
fn blake3_hex_of(text: &str) -> (r: String)
    ensures
        r@ == blake3_hex(text@),
        r@.len() == 64,
        lower_hex(r@),
{
    blake3::hash(text.as_bytes()).to_hex().to_string()
}

/// The hash of a text: the digest of its whitespace-normalised form.
pub open spec fn hash_of(s: Seq<char>) -> Seq<char> {
    blake3_hex(normalize(s))
}

/// Hashes `s` after normalising its whitespace.
pub fn hash_str(s: &str) -> (r: String)
    ensures
        r@ == hash_of(s@),
        r@.len() == 64,
        lower_hex(r@),
{
    let n = normalize_for_hash(s);
    blake3_hex_of(n.as_str())
}

/// The first twelve characters of the hash of `s`.
pub open spec fn anchor_of(s: Seq<char>) -> Seq<char> {
    hash_of(s).take(12)
}

/// Short, stable anchor from content for free comments
pub fn short_anchor(s: &str) -> (r: String)
    ensures
        r@ == anchor_of(s@),
{
    let h = hash_str(s);
    let cs = chars_of(h.as_str());
    let mut out: Vec<char> = Vec::new();
    let mut i: usize = 0;
    while i < 12
        invariant
            i <= 12,
            cs@.len() == 64,
            out@ == cs@.take(i as int),
        decreases 12 - i,
    {
        out.push(cs[i]);
        i = i + 1;
        assert(out@ =~= cs@.take(i as int));
    }
    string_from_chars(&out)
}

/// Reading `x` then `y` is reading `x + y`.
pub proof fn lemma_collapse_concat(out: Seq<char>, b: bool, x: Seq<char>, y: Seq<char>)
    ensures
        collapse(out, b, x + y) == {
            let st = collapse(out, b, x);
            collapse(st.0, st.1, y)
        },
    decreases x.len(),
{
    if x.len() == 0 {
        assert(x + y =~= y);
    } else {
        assert((x + y).drop_first() =~= x.drop_first() + y);
        if is_ws(x[0]) {
            if b {
                lemma_collapse_concat(out, true, x.drop_first(), y);
            } else {
                lemma_collapse_concat(out.push(' '), true, x.drop_first(), y);
            }
        } else {
            lemma_collapse_concat(out.push(x[0]), false, x.drop_first(), y);
        }
    }
}

/// A non-empty whitespace run leaves one space behind, or none after a space.
pub proof fn lemma_collapse_ws_run(out: Seq<char>, b: bool, r: Seq<char>)
    requires
        r.len() > 0,
        all_ws(r),
    ensures
        collapse(out, b, r) == (if b { out } else { out.push(' ') }, true),
    decreases r.len(),
{
    assert(is_ws(r[0]));
    if r.len() > 1 {
        assert forall|i: int| 0 <= i < r.drop_first().len() implies is_ws(
            #[trigger] r.drop_first()[i],
        ) by {
            assert(r.drop_first()[i] == r[i + 1]);
        }
        if b {
            lemma_collapse_ws_run(out, true, r.drop_first());
        } else {
            lemma_collapse_ws_run(out.push(' '), true, r.drop_first());
        }
    } else {
        let e = Seq::<char>::empty();
        assert(r.drop_first() =~= e);
        assert(collapse(out, true, e) == (out, true));
        assert(collapse(out.push(' '), true, e) == (out.push(' '), true));
    }
}

/// After any input, the flag says whether the output is empty or ends in a
/// space.
pub proof fn lemma_collapse_shape(out: Seq<char>, b: bool, rest: Seq<char>)
    requires
        b ==> (out.len() == 0 || out.last() == ' '),
        !b ==> (out.len() > 0 && !is_ws(out.last())),
    ensures
        ({
            let st = collapse(out, b, rest);
            &&& st.1 ==> (st.0.len() == 0 || st.0.last() == ' ')
            &&& !st.1 ==> (st.0.len() > 0 && !is_ws(st.0.last()))
        }),
    decreases rest.len(),
{
    if rest.len() > 0 {
        if is_ws(rest[0]) {
            if b {
                lemma_collapse_shape(out, true, rest.drop_first());
            } else {
                lemma_collapse_shape(out.push(' '), true, rest.drop_first());
            }
        } else {
            lemma_collapse_shape(out.push(rest[0]), false, rest.drop_first());
        }
    }
}

/// Law: replacing one non-empty run of whitespace by another never changes
/// the normalised text, and so never changes the hash.
pub proof fn law_whitespace_run_replacement(a: Seq<char>, r1: Seq<char>, r2: Seq<char>, c: Seq<char>)
    requires
        r1.len() > 0,
        r2.len() > 0,
        all_ws(r1),
        all_ws(r2),
    ensures
        normalize(a + r1 + c) == normalize(a + r2 + c),
        hash_of(a + r1 + c) == hash_of(a + r2 + c),
{
    let e = Seq::<char>::empty();
    lemma_collapse_concat(e, true, a + r1, c);
    lemma_collapse_concat(e, true, a + r2, c);
    lemma_collapse_concat(e, true, a, r1);
    lemma_collapse_concat(e, true, a, r2);
    let st = collapse(e, true, a);
    lemma_collapse_ws_run(st.0, st.1, r1);
    lemma_collapse_ws_run(st.0, st.1, r2);
}

/// Law: whitespace before or after a text never changes its normalised form,
/// and so never changes its hash.
pub proof fn law_surrounding_whitespace(s: Seq<char>, r: Seq<char>)
    requires
        all_ws(r),
    ensures
        normalize(r + s) == normalize(s),
        normalize(s + r) == normalize(s),
        hash_of(r + s) == hash_of(s),
        hash_of(s + r) == hash_of(s),
{
    let e = Seq::<char>::empty();
    if r.len() == 0 {
        assert(r + s =~= s);
        assert(s + r =~= s);
    } else {
        lemma_collapse_concat(e, true, r, s);
        lemma_collapse_ws_run(e, true, r);
        lemma_collapse_concat(e, true, s, r);
        let st = collapse(e, true, s);
        lemma_collapse_shape(e, true, s);
        lemma_collapse_ws_run(st.0, st.1, r);
        if !st.1 {
            assert(st.0.push(' ').drop_last() =~= st.0);
        }
    }
}

/// The words of `s`: its maximal runs of characters other than whitespace,
/// in order.
pub open spec fn words(s: Seq<char>) -> Seq<Seq<char>>
    decreases s.len(),
{
    if s.len() == 0 {
        Seq::empty()
    } else {
        let w = words(s.drop_last());
        let c = s.last();
        if is_ws(c) {
            w
        } else if s.len() >= 2 && !is_ws(s[s.len() - 2]) {
            w.drop_last().push(w.last().push(c))
        } else {
            w.push(seq![c])
        }
    }
}

/// Words joined with one space between each two.
pub open spec fn join_words(ws: Seq<Seq<char>>) -> Seq<char>
    decreases ws.len(),
{
    if ws.len() == 0 {
        Seq::empty()
    } else if ws.len() == 1 {
        ws[0]
    } else {
        join_words(ws.drop_last()) + seq![' '] + ws.last()
    }
}

/// A word: non-empty, with no whitespace in it.
pub open spec fn is_word(w: Seq<char>) -> bool {
    w.len() > 0 && forall|i: int| 0 <= i < w.len() ==> !is_ws(#[trigger] w[i])
}

/// Every element of `ws` is a word.
pub open spec fn all_words(ws: Seq<Seq<char>>) -> bool {
    forall|i: int| 0 <= i < ws.len() ==> is_word(#[trigger] ws[i])
}

proof fn lemma_collapse_one(out: Seq<char>, b: bool, x: char)
    ensures
        collapse(out, b, seq![x]) == if is_ws(x) {
            (if b { out } else { out.push(' ') }, true)
        } else {
            (out.push(x), false)
        },
{
    let e = Seq::<char>::empty();
    assert(seq![x].drop_first() =~= e);
    assert(seq![x][0] == x);
    assert(collapse(out, true, e) == (out, true));
    assert(collapse(out.push(' '), true, e) == (out.push(' '), true));
    assert(collapse(out.push(x), false, e) == (out.push(x), false));
}

/// Collapsing whitespace reads `s` as its words: the output so far is the
/// words joined by single spaces, followed by one space where `s` ends in
/// whitespace after a word.
proof fn lemma_collapse_words(s: Seq<char>)
    ensures
        ({
            let (c, b) = collapse(Seq::empty(), true, s);
            &&& all_words(words(s))
            &&& b == (s.len() == 0 || is_ws(s.last()))
            &&& !b ==> words(s).len() > 0 && c == join_words(words(s))
            &&& b ==> c == if words(s).len() == 0 {
                Seq::<char>::empty()
            } else {
                join_words(words(s)).push(' ')
            }
        }),
    decreases s.len(),
{
    let e = Seq::<char>::empty();
    if s.len() > 0 {
        let p = s.drop_last();
        let x = s.last();
        lemma_collapse_words(p);
        assert(s =~= p + seq![x]);
        lemma_collapse_concat(e, true, p, seq![x]);
        let (cp, bp) = collapse(e, true, p);
        lemma_collapse_one(cp, bp, x);
        let w = words(p);
        if p.len() > 0 {
            assert(p.last() == s[s.len() - 2]);
        }
        if !is_ws(x) {
            if s.len() >= 2 && !is_ws(s[s.len() - 2]) {
                let last = w.last().push(x);
                let nw = w.drop_last().push(last);
                assert(is_word(last)) by {
                    assert(is_word(w[w.len() - 1]));
                    assert forall|i: int| 0 <= i < last.len() implies !is_ws(#[trigger] last[i]) by {
                        if i < w.last().len() {
                            assert(last[i] == w[w.len() - 1][i]);
                        }
                    }
                }
                assert(all_words(nw)) by {
                    assert forall|i: int| 0 <= i < nw.len() implies is_word(#[trigger] nw[i]) by {
                        if i < nw.len() - 1 {
                            assert(nw[i] == w[i]);
                        }
                    }
                }
                if w.len() == 1 {
                    assert(nw.len() == 1);
                    assert(join_words(nw) == nw[0]);
                } else {
                    assert(nw.drop_last() =~= w.drop_last());
                    assert(join_words(nw) =~= join_words(w).push(x));
                }
            } else {
                let nw = w.push(seq![x]);
                assert(is_word(seq![x])) by {
                    assert forall|i: int| 0 <= i < seq![x].len() implies !is_ws(
                        #[trigger] seq![x][i],
                    ) by {
                        assert(seq![x][i] == x);
                    }
                }
                assert(all_words(nw)) by {
                    assert forall|i: int| 0 <= i < nw.len() implies is_word(#[trigger] nw[i]) by {
                        if i < w.len() {
                            assert(nw[i] == w[i]);
                        }
                    }
                }
                assert(nw.drop_last() =~= w);
                if w.len() == 0 {
                    assert(join_words(nw) == nw[0]);
                    assert(cp.push(x) =~= seq![x]);
                } else {
                    assert(join_words(nw) =~= join_words(w).push(' ').push(x));
                }
            }
        }
    }
}

/// Law: normalising a text splits it into its words and joins them with
/// single spaces.
pub proof fn law_normalize_joins_words(s: Seq<char>)
    ensures
        normalize(s) == join_words(words(s)),
        all_words(words(s)),
{
    lemma_collapse_words(s);
    let (c, b) = collapse(Seq::<char>::empty(), true, s);
    if b && words(s).len() > 0 {
        assert(c.drop_last() =~= join_words(words(s)));
    }
    if !b {
        lemma_join_words_ends(words(s));
    }
}

proof fn lemma_join_words_ends(ws: Seq<Seq<char>>)
    requires
        all_words(ws),
        ws.len() > 0,
    ensures
        join_words(ws).len() > 0,
        !is_ws(join_words(ws).last()),
        !is_ws(join_words(ws)[0]),
    decreases ws.len(),
{
    assert(is_word(ws[ws.len() - 1]));
    assert(is_word(ws[0]));
    let w = ws.last();
    assert(!is_ws(w[w.len() - 1]));
    if ws.len() > 1 {
        assert(all_words(ws.drop_last())) by {
            assert forall|i: int| 0 <= i < ws.drop_last().len() implies is_word(
                #[trigger] ws.drop_last()[i],
            ) by {
                assert(ws.drop_last()[i] == ws[i]);
            }
        }
        lemma_join_words_ends(ws.drop_last());
        assert(ws.drop_last()[0] == ws[0]);
    }
}

/// Appending a word to a text that is empty or ends in whitespace adds
/// that word to its words.
proof fn lemma_words_append(t: Seq<char>, w: Seq<char>)
    requires
        is_word(w),
        t.len() == 0 || is_ws(t.last()),
    ensures
        words(t + w) == words(t).push(w),
    decreases w.len(),
{
    let s = t + w;
    assert(s.drop_last() =~= t + w.drop_last());
    assert(s.last() == w.last());
    assert(!is_ws(w[w.len() - 1]));
    if w.len() == 1 {
        assert(s.drop_last() =~= t);
        if s.len() >= 2 {
            assert(s[s.len() - 2] == t.last());
        }
        assert(seq![w.last()] =~= w);
    } else {
        let w1 = w.drop_last();
        assert(is_word(w1)) by {
            assert forall|i: int| 0 <= i < w1.len() implies !is_ws(#[trigger] w1[i]) by {
                assert(w1[i] == w[i]);
            }
        }
        lemma_words_append(t, w1);
        assert(s[s.len() - 2] == w[w.len() - 2]);
        assert(w1.push(w.last()) =~= w);
    }
}

/// The words of words joined by single spaces are those words.
proof fn lemma_words_of_join(ws: Seq<Seq<char>>)
    requires
        all_words(ws),
    ensures
        words(join_words(ws)) == ws,
    decreases ws.len(),
{
    let e = Seq::<char>::empty();
    if ws.len() == 1 {
        assert(is_word(ws[0]));
        lemma_words_append(e, ws[0]);
        assert(e + ws[0] =~= ws[0]);
        assert(words(e).push(ws[0]) =~= ws);
    } else if ws.len() > 1 {
        let rest = ws.drop_last();
        assert(all_words(rest)) by {
            assert forall|i: int| 0 <= i < rest.len() implies is_word(#[trigger] rest[i]) by {
                assert(rest[i] == ws[i]);
            }
        }
        lemma_words_of_join(rest);
        let t = join_words(rest).push(' ');
        assert(words(t) == words(join_words(rest))) by {
            assert(t.drop_last() =~= join_words(rest));
        }
        assert(is_word(ws[ws.len() - 1]));
        lemma_words_append(t, ws.last());
        assert(join_words(ws) =~= t + ws.last());
        assert(rest.push(ws.last()) =~= ws);
    }
}

/// Law: normalising a normalised text changes nothing, and so its hash is
/// the hash of the text.
pub proof fn law_normalize_is_idempotent(s: Seq<char>)
    ensures
        normalize(normalize(s)) == normalize(s),
        hash_of(normalize(s)) == hash_of(s),
{
    law_normalize_joins_words(s);
    lemma_words_of_join(words(s));
    law_normalize_joins_words(normalize(s));
}

} // verus!
