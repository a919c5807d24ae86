//! What changed between the old and the new code of a comment's scope,
//! line by line, as shown to the user before a verdict.

use vstd::prelude::*;
use crate::text::{append_str, string_from_chars};

verus! {

/// Whether a line was taken out, put in, or kept.
#[derive(Debug, Clone, Copy, PartialEq, Eq, Structural)]
pub enum LineTag {
    Delete,
    Insert,
    Equal,
}

/// The changes of a line diff of `old` against `new`, in order, as
/// `similar::TextDiff::from_lines` gives them: each line's tag and its text,
/// ending in a newline.
pub uninterp spec fn line_changes(old: Seq<char>, new: Seq<char>) -> Seq<(LineTag, Seq<char>)>;

/// Tagged lines as plain values.
pub open spec fn changes_view(s: Seq<(LineTag, String)>) -> Seq<(LineTag, Seq<char>)> {
    s.map_values(|p: (LineTag, String)| (p.0, p.1@))
}

/// The sign that marks a line of each tag.
pub open spec fn sign_of(t: LineTag) -> char {
    match t {
        LineTag::Delete => '-',
        LineTag::Insert => '+',
        LineTag::Equal => ' ',
    }
}

/// Each line with its sign in front.
pub open spec fn signed(s: Seq<(LineTag, Seq<char>)>) -> Seq<(LineTag, Seq<char>)> {
    s.map_values(|p: (LineTag, Seq<char>)| (p.0, seq![sign_of(p.0)] + p.1))
}

/// Diffs `old` against `new` line by line with `similar::TextDiff::from_lines`
/// (whose default configuration sets no deadline, so the result depends on
/// the two texts alone) and hands out each change's tag and its text as
/// `Change`'s `Display` writes it. The contract claims only that the result
/// is the named diff of the two texts.
#[verifier::external_body]
fn diff_by_lines(old: &str, new: &str) -> (r: Vec<(LineTag, String)>)
    ensures
        changes_view(r@) == line_changes(old@, new@),
{
    let mut r = Vec::new();
    for c in similar::TextDiff::from_lines(old, new).iter_all_changes() {
        let tag = match c.tag() {
            similar::ChangeTag::Delete => LineTag::Delete,
            similar::ChangeTag::Insert => LineTag::Insert,
            similar::ChangeTag::Equal => LineTag::Equal,
        };
        r.push((tag, c.to_string()));
    }
    r
}

/// Each line of `changes` with its sign in front: `-` for a line taken out,
/// `+` for a line put in, a space for a line kept.
pub fn signed_lines(changes: &[(LineTag, String)]) -> (r: Vec<(LineTag, String)>)
    ensures
        changes_view(r@) == signed(changes_view(changes@)),
{
    let mut r: Vec<(LineTag, String)> = Vec::new();
    let mut i: usize = 0;
    while i < changes.len()
        invariant
            i <= changes@.len(),
            changes_view(r@) == signed(changes_view(changes@)).take(i as int),
        decreases changes@.len() - i,
    {
        let (tag, text) = &changes[i];
        let sign = match tag {
            LineTag::Delete => '-',
            LineTag::Insert => '+',
            LineTag::Equal => ' ',
        };
        let mut v: Vec<char> = Vec::new();
        v.push(sign);
        append_str(&mut v, text.as_str());
        assert(v@ =~= seq![sign] + text@);
        let line = string_from_chars(&v);
        proof {
            assert(changes_view(r@.push((*tag, line))) =~= changes_view(r@).push((*tag, line@)));
            assert(signed(changes_view(changes@)).take(i + 1) =~= signed(
                changes_view(changes@),
            ).take(i as int).push((*tag, seq![sign_of(*tag)] + text@)));
        }
        r.push((*tag, line));
        i = i + 1;
    }
    assert(signed(changes_view(changes@)).take(changes@.len() as int) =~= signed(
        changes_view(changes@),
    ));
    r
}

/// The lines of a diff of the code `old` against the code `new`, each with
/// its tag and its sign in front.
pub fn diff_lines(old: &str, new: &str) -> (r: Vec<(LineTag, String)>)
    ensures
        changes_view(r@) == signed(line_changes(old@, new@)),
{
    let changes = diff_by_lines(old, new);
    signed_lines(&changes)
}

} // verus!
