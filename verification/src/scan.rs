//! Finding the translation files under the locale directory.

use vstd::prelude::*;
use crate::chars::names;

verus! {

/// An entry of a directory listing, as read from the file system.
pub enum FsEntry {
    /// A directory: its file stem, and its readable entries in the order read.
    Dir(String, Vec<FsEntry>),
    /// Any other entry: its path, and its extension if it has one.
    File(String, Option<String>),
}

/// `(module path, file path)` pairs as character sequences.
pub open spec fn found_view(v: Seq<(Vec<String>, String)>) -> Seq<(Seq<Seq<char>>, Seq<char>)> {
    Seq::new(v.len(), |i: int| (names(v[i].0@), v[i].1@))
}

/// Each module path of `v` with `dir` put in front.
pub open spec fn under(dir: Seq<char>, v: Seq<(Seq<Seq<char>>, Seq<char>)>) -> Seq<
    (Seq<Seq<char>>, Seq<char>),
> {
    Seq::new(v.len(), |i: int| (seq![dir] + v[i].0, v[i].1))
}

/// The `.toml` files at or below one entry, with the directories leading to them.
pub open spec fn toml_files_of(e: FsEntry) -> Seq<(Seq<Seq<char>>, Seq<char>)>
    decreases e,
{
    match e {
        FsEntry::Dir(stem, children) => under(stem@, toml_files_in(children@, children@.len() as int)),
        FsEntry::File(path, ext) => match ext {
            Some(x) => if x@ == "toml"@ {
                seq![(Seq::empty(), path@)]
            } else {
                Seq::empty()
            },
            None => Seq::empty(),
        },
    }
}

/// The `.toml` files at or below the first `n` entries of a listing, in order.
pub open spec fn toml_files_in(l: Seq<FsEntry>, n: int) -> Seq<(Seq<Seq<char>>, Seq<char>)>
    decreases l, n,
{
    if n <= 0 || n > l.len() {
        Seq::empty()
    } else {
        toml_files_in(l, n - 1) + toml_files_of(l[n - 1])
    }
}

} // verus!

verus! {

/// Whether an optional extension is `toml`.
fn is_toml(ext: &Option<String>) -> (r: bool)
    ensures
        r == (ext matches Some(x) && x@ == "toml"@),
{
    match ext {
        Some(x) => x.eq(&"toml".to_owned()),
        None => false,
    }
}

/// Collects the `.toml` files of a directory listing, recursively, each with
/// the directory stems that lead to it from the listed directory.
pub fn scan_toml_files(entries: &Vec<FsEntry>) -> (r: Vec<(Vec<String>, String)>)
    ensures
        found_view(r@) == toml_files_in(entries@, entries@.len() as int),
    decreases entries@,
{
    let mut files: Vec<(Vec<String>, String)> = Vec::new();
    let mut i: usize = 0;
    while i < entries.len()
        invariant
            i <= entries.len(),
            found_view(files@) == toml_files_in(entries@, i as int),
        decreases entries.len() - i,
    {
        let ghost before = found_view(files@);
        match &entries[i] {
            FsEntry::Dir(stem, children) => {
                assert(decreases_to!(entries@ => entries@[i as int]));
                let sub = scan_toml_files(children);
                let ghost subv = found_view(sub@);
                let mut j: usize = 0;
                while j < sub.len()
                    invariant
                        j <= sub.len(),
                        subv == found_view(sub@),
                        found_view(files@) == before + under(stem@, subv.subrange(0, j as int)),
                    decreases sub.len() - j,
                {
                    let mut mp = copy_prefix_all(&sub[j].0);
                    mp.insert(0, stem.clone());
                    let ghost prev = found_view(files@);
                    files.push((mp, sub[j].1.clone()));
                    assert(names(mp@) =~= seq![stem@] + names(sub@[j as int].0@));
                    assert(found_view(files@) =~= prev.push((names(mp@), sub@[j as int].1@)));
                    assert(under(stem@, subv.subrange(0, j + 1)) =~= under(stem@, subv.subrange(0, j as int)).push((seq![stem@] + subv[j as int].0, subv[j as int].1)));
                    j += 1;
                }
                assert(subv.subrange(0, sub.len() as int) =~= subv);
                assert(toml_files_of(entries@[i as int]) == under(stem@, subv));
            },
            FsEntry::File(path, ext) => {
                if is_toml(ext) {
                    let none: Vec<String> = Vec::new();
                    assert(names(none@) =~= Seq::<Seq<char>>::empty());
                    files.push((none, path.clone()));
                    assert(found_view(files@) =~= before + seq![(Seq::<Seq<char>>::empty(), path@)]);
                } else {
                    assert(before + Seq::<(Seq<Seq<char>>, Seq<char>)>::empty() =~= before);
                }
            },
        }
        assert(toml_files_in(entries@, i + 1) == toml_files_in(entries@, i as int) + toml_files_of(
            entries@[i as int],
        ));
        i += 1;
    }
    files
}

/// A copy of a list of strings.
fn copy_prefix_all(v: &Vec<String>) -> (r: Vec<String>)
    ensures
        names(r@) == names(v@),
{
    let r = crate::chars::copy_prefix(v, v.len());
    assert(names(v@).subrange(0, v.len() as int) =~= names(v@));
    r
}

} // verus!
