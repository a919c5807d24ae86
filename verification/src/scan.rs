//! Extracting the comment scopes of a set of source files.

use vstd::prelude::*;
use crate::extract::{extract_file, extract_items, items_view};
use crate::idmap::{sorted_ids, IdMap};
use crate::model::{ItemView, ScopedItem};
use crate::syntax::rust_syntax_tree;
use crate::text::{chars_of, string_from_chars};

verus! {

/// Why a file could not be scanned.
#[derive(Debug, Clone, Copy, PartialEq, Eq, Structural)]
pub enum ScanFailure {
    /// The file could not be read as text.
    Unreadable,
    /// The file could not be parsed.
    Unparsable,
}

/// A file that could not be scanned, and why.
#[derive(Debug)]
pub struct ScanError {
    pub failure: ScanFailure,
    pub file: String,
}

/// A source file: its path relative to the project root and its text, or
/// `None` where it could not be read.
pub type SourceFile = (String, Option<String>);

/// The path and text of each file, as plain values.
pub open spec fn files_view(files: Seq<SourceFile>) -> Seq<(Seq<char>, Option<Seq<char>>)> {
    files.map_values(
        |f: SourceFile|
            (
                f.0@,
                match f.1 {
                    Some(s) => Some(s@),
                    None => None,
                },
            ),
    )
}

/// The items of the files in order, or the first file that fails. With
/// `skip_unreadable`, unreadable files are passed over instead.
pub open spec fn scan_all(
    files: Seq<(Seq<char>, Option<Seq<char>>)>,
    skip_unreadable: bool,
) -> Result<Seq<ItemView>, (ScanFailure, Seq<char>)>
    decreases files.len(),
{
    if files.len() == 0 {
        Ok(Seq::empty())
    } else {
        match scan_all(files.drop_last(), skip_unreadable) {
            Err(e) => Err(e),
            Ok(items) => {
                let (name, text) = files.last();
                match text {
                    None => if skip_unreadable {
                        Ok(items)
                    } else {
                        Err((ScanFailure::Unreadable, name))
                    },
                    Some(src) => match rust_syntax_tree(src) {
                        None => Err((ScanFailure::Unparsable, name)),
                        Some(root) => Ok(items + extract_items(name, src, root)),
                    },
                }
            },
        }
    }
}

/// The outcome of a scan, as plain values.
pub open spec fn scan_view(r: Result<Vec<ScopedItem>, ScanError>) -> Result<
    Seq<ItemView>,
    (ScanFailure, Seq<char>),
> {
    match r {
        Ok(items) => Ok(items_view(items@)),
        Err(e) => Err((e.failure, e.file@)),
    }
}

fn scan_files(files: &[SourceFile], skip_unreadable: bool) -> (r: Result<Vec<ScopedItem>, ScanError>)
    ensures
        scan_view(r) == scan_all(files_view(files@), skip_unreadable),
{
    let ghost fs = files_view(files@);
    let mut out: Vec<ScopedItem> = Vec::new();
    let mut i: usize = 0;
    assert(fs.take(0) =~= Seq::<(Seq<char>, Option<Seq<char>>)>::empty());
    assert(items_view(out@) =~= Seq::<ItemView>::empty());
    while i < files.len()
        invariant
            fs == files_view(files@),
            i <= files@.len(),
            scan_all(fs.take(i as int), skip_unreadable) == Ok::<
                Seq<ItemView>,
                (ScanFailure, Seq<char>),
            >(items_view(out@)),
        decreases files@.len() - i,
    {
        let (name, text) = &files[i];
        let ghost t = fs.take(i + 1);
        assert(t.drop_last() =~= fs.take(i as int));
        assert(t.last() == fs[i as int]);
        match text {
            None => {
                if !skip_unreadable {
                    let r = Err(ScanError { failure: ScanFailure::Unreadable, file: name.clone() });
                    assert(scan_all(fs, skip_unreadable) == scan_view(r)) by {
                        lemma_scan_all_err(fs, skip_unreadable, i + 1);
                    }
                    return r;
                }
            },
            Some(src) => {
                match extract_file(name.as_str(), src.as_str()) {
                    Ok(items) => {
                        let ghost before = items_view(out@);
                        let mut k: usize = 0;
                        while k < items.len()
                            invariant
                                k <= items@.len(),
                                items_view(out@) == before + items_view(items@).take(k as int),
                            decreases items@.len() - k,
                        {
                            let it = items[k].clone();
                            assert(it == items@[k as int]);
                            proof {
                                crate::extract::lemma_items_view_push(out@, it);
                                assert(items_view(items@).take(k + 1) =~= items_view(items@).take(
                                    k as int,
                                ).push(it@));
                            }
                            out.push(it);
                            k = k + 1;
                            assert(items_view(out@) =~= before + items_view(items@).take(
                                k as int,
                            ));
                        }
                        assert(items_view(items@).take(items@.len() as int) =~= items_view(
                            items@,
                        ));
                    },
                    Err(_) => {
                        let r = Err(ScanError { failure: ScanFailure::Unparsable, file: name.clone() });
                        assert(scan_all(fs, skip_unreadable) == scan_view(r)) by {
                            lemma_scan_all_err(fs, skip_unreadable, i + 1);
                        }
                        return r;
                    },
                }
            },
        }
        i = i + 1;
    }
    assert(fs.take(files@.len() as int) =~= fs);
    Ok(out)
}

proof fn lemma_scan_all_err(
    fs: Seq<(Seq<char>, Option<Seq<char>>)>,
    skip_unreadable: bool,
    i: int,
)
    requires
        0 <= i <= fs.len(),
        scan_all(fs.take(i), skip_unreadable) is Err,
    ensures
        scan_all(fs, skip_unreadable) == scan_all(fs.take(i), skip_unreadable),
    decreases fs.len() - i,
{
    if i < fs.len() {
        let t = fs.take(i + 1);
        assert(t.drop_last() =~= fs.take(i));
        lemma_scan_all_err(fs, skip_unreadable, i + 1);
    } else {
        assert(fs.take(i) =~= fs);
    }
}

/// Extracts every comment scope of `files`, in order; fails on the first
/// file that cannot be read or parsed.
pub fn scan_sources(files: &[SourceFile]) -> (r: Result<Vec<ScopedItem>, ScanError>)
    ensures
        scan_view(r) == scan_all(files_view(files@), false),
{
    scan_files(files, false)
}

/// Extracts the comment scopes of `files`, in order, passing over the files
/// that could not be read (gone or renamed since their ids were issued).
pub fn scan_readable_sources(files: &[SourceFile]) -> (r: Result<Vec<ScopedItem>, ScanError>)
    ensures
        scan_view(r) == scan_all(files_view(files@), true),
{
    scan_files(files, true)
}

/// The file part of an id (`file|item_path`): what precedes its first `|`.
pub open spec fn file_part(id: Seq<char>) -> Option<Seq<char>> {
    if id.contains('|') {
        Some(id.take(id.index_of_first('|')->0))
    } else {
        None
    }
}

/// The files named by a sequence of ids.
pub open spec fn id_files(ids: Seq<Seq<char>>) -> Set<Seq<char>> {
    Set::new(|f: Seq<char>| exists|i: int| 0 <= i < ids.len() && file_part(ids[i]) == Some(f))
}

/// The file part of one id, if it has one.
fn file_part_exec(id: &String) -> (r: Option<Vec<char>>)
    ensures
        match r {
            Some(v) => file_part(id@) == Some(v@),
            None => file_part(id@) is None,
        },
{
    let cs = chars_of(id.as_str());
    let mut i: usize = 0;
    while i < cs.len() && cs[i] != '|'
        invariant
            cs@ == id@,
            i <= cs@.len(),
            forall|j: int| 0 <= j < i ==> cs@[j] != '|',
        decreases cs@.len() - i,
    {
        i = i + 1;
    }
    if i == cs.len() {
        assert(!id@.contains('|'));
        return None;
    }
    proof {
        assert(id@.contains('|')) by {
            assert(id@[i as int] == '|');
        }
        let f = id@.index_of_first('|');
        id@.index_of_first_ensures('|');
        assert(f == Some(i as int));
    }
    let mut v: Vec<char> = Vec::new();
    let mut k: usize = 0;
    while k < i
        invariant
            cs@ == id@,
            k <= i < cs@.len(),
            v@ == cs@.take(k as int),
        decreases i - k,
    {
        v.push(cs[k]);
        k = k + 1;
        assert(v@ =~= cs@.take(k as int));
    }
    Some(v)
}

/// The files that the ids refer to, each once, in increasing order.
pub fn files_for_ids(ids: &[String]) -> (r: Vec<String>)
    ensures
        r@.map_values(|s: String| s@) == sorted_ids(id_files(ids@.map_values(|s: String| s@))),
{
    let ghost idv = ids@.map_values(|s: String| s@);
    let mut set: IdMap<bool> = IdMap::new();
    let mut i: usize = 0;
    while i < ids.len()
        invariant
            idv == ids@.map_values(|s: String| s@),
            i <= ids@.len(),
            set.wf(),
            set@.dom() == id_files(idv.take(i as int)),
        decreases ids@.len() - i,
    {
        let ghost before = set@.dom();
        match file_part_exec(&ids[i]) {
            Some(f) => {
                set.insert(string_from_chars(&f), true);
            },
            None => {},
        }
        proof {
            let t = idv.take(i + 1);
            assert(t[i as int] == ids@[i as int]@);
            assert(set@.dom() =~= id_files(t)) by {
                assert forall|f: Seq<char>| #[trigger] id_files(t).contains(f) implies set@.dom().contains(f) by {
                    let j = choose|j: int| 0 <= j < t.len() && file_part(t[j]) == Some(f);
                    if j < i {
                        assert(idv.take(i as int)[j] == t[j]);
                        assert(id_files(idv.take(i as int)).contains(f));
                    }
                }
                assert forall|f: Seq<char>| set@.dom().contains(f) implies #[trigger] id_files(t).contains(f) by {
                    if before.contains(f) {
                        let j = choose|j: int| 0 <= j < i && file_part(idv.take(i as int)[j]) == Some(f);
                        assert(t[j] == idv.take(i as int)[j]);
                    }
                }
            }
        }
        i = i + 1;
    }
    assert(idv.take(ids@.len() as int) =~= idv);
    proof {
        set.lemma_dom();
    }
    let n = set.len();
    let mut r: Vec<String> = Vec::new();
    let mut k: usize = 0;
    while k < n
        invariant
            set.wf(),
            n == set.key_seq().len(),
            k <= n,
            r@.map_values(|s: String| s@) == set.key_seq().take(k as int),
        decreases n - k,
    {
        let key = set.key_at(k).clone();
        proof {
            assert(r@.push(key).map_values(|s: String| s@) =~= r@.map_values(|s: String| s@).push(
                key@,
            ));
            assert(set.key_seq().take(k + 1) =~= set.key_seq().take(k as int).push(key@));
        }
        r.push(key);
        k = k + 1;
    }
    assert(set.key_seq().take(n as int) =~= set.key_seq());
    r
}

/// The given paths, each once, in increasing order.
pub fn sort_paths(paths: &[String]) -> (r: Vec<String>)
    ensures
        r@.map_values(|s: String| s@) == sorted_ids(paths@.map_values(|s: String| s@).to_set()),
{
    let ghost pv = paths@.map_values(|s: String| s@);
    let mut set: IdMap<bool> = IdMap::new();
    let mut i: usize = 0;
    while i < paths.len()
        invariant
            pv == paths@.map_values(|s: String| s@),
            i <= paths@.len(),
            set.wf(),
            set@.dom() == pv.take(i as int).to_set(),
        decreases paths@.len() - i,
    {
        set.insert(paths[i].clone(), true);
        proof {
            let t = pv.take(i + 1);
            assert(t =~= pv.take(i as int).push(pv[i as int]));
            assert(set@.dom() =~= t.to_set()) by {
                assert forall|f: Seq<char>| #[trigger] t.to_set().contains(f) implies set@.dom().contains(f) by {
                    let j = choose|j: int| 0 <= j < t.len() && t[j] == f;
                    if j < i {
                        assert(pv.take(i as int)[j] == f);
                        assert(pv.take(i as int).to_set().contains(f));
                    }
                }
                assert forall|f: Seq<char>| set@.dom().contains(f) implies #[trigger] t.to_set().contains(f) by {
                    if f != pv[i as int] {
                        let j = choose|j: int| 0 <= j < i && pv.take(i as int)[j] == f;
                        assert(t[j] == f);
                    } else {
                        assert(t[i as int] == f);
                    }
                }
            }
        }
        i = i + 1;
    }
    assert(pv.take(paths@.len() as int) =~= pv);
    proof {
        set.lemma_dom();
    }
    let n = set.len();
    let mut r: Vec<String> = Vec::new();
    let mut k: usize = 0;
    while k < n
        invariant
            set.wf(),
            n == set.key_seq().len(),
            k <= n,
            r@.map_values(|s: String| s@) == set.key_seq().take(k as int),
        decreases n - k,
    {
        let key = set.key_at(k).clone();
        proof {
            assert(r@.push(key).map_values(|s: String| s@) =~= r@.map_values(|s: String| s@).push(
                key@,
            ));
            assert(set.key_seq().take(k + 1) =~= set.key_seq().take(k as int).push(key@));
        }
        r.push(key);
        k = k + 1;
    }
    assert(set.key_seq().take(n as int) =~= set.key_seq());
    r
}

} // verus!
