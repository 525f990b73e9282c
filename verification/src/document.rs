//! Translation files: the TOML document of one file, read into translation
//! entries with their parameters.

use vstd::prelude::*;
use crate::chars::{contains_string, copy_prefix, names};
use crate::naming::{filename_to_struct_name, pascal_case};
use crate::order::{insert_sorted, strictly_sorted};
use crate::text::{extract_params, params_of};

verus! {

/// A TOML document read down to two levels: each top-level key with, when its
/// value is a table, that table's keys, each with its text when the value is a string.
pub type Sections = Vec<(String, Option<Vec<(String, Option<String>)>>)>;

/// [`Sections`] as character sequences.
pub type SectionsView = Seq<(Seq<char>, Option<Seq<(Seq<char>, Option<Seq<char>>)>>)>;

/// What the `toml` crate reads from a document: the table reached from the
/// top-level table through the keys of `path` in turn, read down to two
/// levels as [`SectionsView`]; `None` when the text is not a valid TOML
/// document or the path does not lead to a table.
pub uninterp spec fn toml_tables(content: Seq<char>, path: Seq<Seq<char>>) -> Option<SectionsView>;

/// The top-level table of a document, read down to two levels.
pub open spec fn toml_sections(content: Seq<char>) -> Option<SectionsView> {
    toml_tables(content, Seq::empty())
}

/// One table of a document as character sequences.
pub open spec fn table_view(t: Seq<(String, Option<String>)>) -> Seq<(Seq<char>, Option<Seq<char>>)> {
    Seq::new(
        t.len(),
        |i: int|
            (
                t[i].0@,
                match t[i].1 {
                    Some(s) => Some(s@),
                    None => None,
                },
            ),
    )
}

/// A document as character sequences.
pub open spec fn sections_view(v: Seq<(String, Option<Vec<(String, Option<String>)>>)>) -> SectionsView {
    Seq::new(
        v.len(),
        |i: int|
            (
                v[i].0@,
                match v[i].1 {
                    Some(t) => Some(table_view(t@)),
                    None => None,
                },
            ),
    )
}

/// Parses a document with the `toml` crate (`str::parse::<toml::Value>`),
/// follows `path` with `Value::get`, and reads the table found there down to
/// two levels. The result is the named function of the text and the path;
/// nothing more is claimed of it.
#[verifier::external_body]
pub(crate) fn read_toml_tables(content: &str, path: &Vec<String>) -> (r: Option<Sections>)
    ensures
        match r {
            Some(v) => toml_tables(content@, names(path@)) == Some(sections_view(v@)),
            None => toml_tables(content@, names(path@)) is None,
        },
{
    let value: toml::Value = content.parse().ok()?;
    let node = path.iter().try_fold(&value, |v, k| v.get(k.as_str()))?;
    Some(node.as_table()?.iter().map(|(k, v)| (k.clone(), v.as_table().map(|t| t.iter().map(|(k2, v2)|
        (k2.clone(), v2.as_str().map(|s| s.to_string()))).collect()))).collect())
}

/// A translation entry.
pub struct TranslationEntry {
    /// The key.
    pub key: String,
    /// `(language, text)` for each language that translates the key, in
    /// language order.
    pub values: Vec<(String, String)>,
    /// Whether parameters exist, which shapes the function signature.
    pub has_params: bool,
    /// Canonical parameter names, in the order of the first language (in
    /// language order) whose text has parameters; empty on a conflict.
    pub params: Vec<String>,
    /// Whether the languages disagree on the set of parameter names.
    pub params_conflict: bool,
}

/// The result of reading one TOML file.
pub struct TomlFile {
    /// The directories between the locale root and the file, outermost first.
    pub mod_path: Vec<String>,
    pub struct_name: String,
    pub entries: Vec<TranslationEntry>,
    /// All section names of the file, in order.
    pub all_languages: Vec<String>,
}

/// `(language, text)` pairs as character sequences.
pub open spec fn pairs_of(v: Seq<(String, String)>) -> Seq<(Seq<char>, Seq<char>)> {
    Seq::new(v.len(), |i: int| (v[i].0@, v[i].1@))
}

/// The document has a section named `l`.
pub open spec fn has_section(doc: SectionsView, l: Seq<char>) -> bool {
    exists|i: int| 0 <= i < doc.len() && #[trigger] doc[i].0 == l
}

/// Some table section of the document has the key `k`.
pub open spec fn has_key(doc: SectionsView, k: Seq<char>) -> bool {
    exists|i: int, j: int|
        0 <= i < doc.len() && #[trigger] doc[i].1 is Some && 0 <= j < doc[i].1->0.len() && (
        #[trigger] doc[i].1->0[j]).0 == k
}

/// The text of key `k` in the first table, from index `j` on.
pub open spec fn text_in(t: Seq<(Seq<char>, Option<Seq<char>>)>, k: Seq<char>, j: int) -> Option<
    Seq<char>,
>
    decreases t.len() - j,
{
    if j < 0 || j >= t.len() {
        None
    } else if t[j].0 == k {
        t[j].1
    } else {
        text_in(t, k, j + 1)
    }
}

/// The text of key `k` in section `l` (the first section of that name, from
/// index `i` on), when that section is a table and the value a string.
pub open spec fn text_of(doc: SectionsView, l: Seq<char>, k: Seq<char>, i: int) -> Option<Seq<char>>
    decreases doc.len() - i,
{
    if i < 0 || i >= doc.len() {
        None
    } else if doc[i].0 == l {
        match doc[i].1 {
            Some(t) => text_in(t, k, 0),
            None => None,
        }
    } else {
        text_of(doc, l, k, i + 1)
    }
}

/// The translations of key `k`: `(language, text)` for each language of
/// `langs`, in that order, whose section gives the key a text.
pub open spec fn values_of(doc: SectionsView, langs: Seq<Seq<char>>, k: Seq<char>) -> Seq<
    (Seq<char>, Seq<char>),
>
    decreases langs.len(),
{
    if langs.len() == 0 {
        Seq::empty()
    } else {
        let rest = values_of(doc, langs.drop_last(), k);
        match text_of(doc, langs.last(), k, 0) {
            Some(v) => rest.push((langs.last(), v)),
            None => rest,
        }
    }
}

/// Some text's parameter names differ, as a set, from those of the first text.
pub open spec fn params_disagree(texts: Seq<Seq<char>>) -> bool {
    exists|i: int|
        0 < i < texts.len() && #[trigger] params_of(texts[i]).to_set() != params_of(
            texts[0],
        ).to_set()
}

/// The parameters of the first text, from index `i` on, that has any.
pub open spec fn first_params_from(texts: Seq<Seq<char>>, i: int) -> Seq<Seq<char>>
    decreases texts.len() - i,
{
    if i < 0 || i >= texts.len() {
        Seq::empty()
    } else if params_of(texts[i]).len() > 0 {
        params_of(texts[i])
    } else {
        first_params_from(texts, i + 1)
    }
}

/// The texts of a list of `(language, text)` pairs.
pub open spec fn texts(v: Seq<(Seq<char>, Seq<char>)>) -> Seq<Seq<char>> {
    Seq::new(v.len(), |i: int| v[i].1)
}

/// The entry of key `k` as `parse_toml_file` builds it from the document.
pub open spec fn entry_matches(
    e: TranslationEntry,
    doc: SectionsView,
    langs: Seq<Seq<char>>,
    k: Seq<char>,
) -> bool {
    let vals = values_of(doc, langs, k);
    let conflict = params_disagree(texts(vals));
    let canonical = first_params_from(texts(vals), 0);
    &&& e.key@ == k
    &&& pairs_of(e.values@) == vals
    &&& e.params_conflict == conflict
    &&& names(e.params@) == if conflict {
        Seq::empty()
    } else {
        canonical
    }
    &&& e.has_params == (!conflict && canonical.len() > 0)
}

/// Whether two lists hold the same names, as sets.
pub fn same_name_set(a: &Vec<String>, b: &Vec<String>) -> (r: bool)
    ensures
        r == (names(a@).to_set() == names(b@).to_set()),
{
    let mut i: usize = 0;
    while i < a.len()
        invariant
            i <= a.len(),
            forall|j: int| 0 <= j < i ==> names(b@).contains(#[trigger] names(a@)[j]),
        decreases a.len() - i,
    {
        if !contains_string(b, &a[i]) {
            proof {
                assert(names(a@).to_set().contains(names(a@)[i as int]));
                assert(!names(b@).to_set().contains(names(a@)[i as int]));
            }
            return false;
        }
        i += 1;
    }
    let mut i: usize = 0;
    while i < b.len()
        invariant
            i <= b.len(),
            forall|j: int| 0 <= j < a.len() ==> names(b@).contains(#[trigger] names(a@)[j]),
            forall|j: int| 0 <= j < i ==> names(a@).contains(#[trigger] names(b@)[j]),
        decreases b.len() - i,
    {
        if !contains_string(a, &b[i]) {
            proof {
                assert(names(b@).to_set().contains(names(b@)[i as int]));
                assert(!names(a@).to_set().contains(names(b@)[i as int]));
            }
            return false;
        }
        i += 1;
    }
    assert(names(a@).to_set() =~= names(b@).to_set()) by {
        assert forall|x: Seq<char>| names(a@).to_set().contains(x) implies names(b@).to_set().contains(x) by {
            let j = choose|j: int| 0 <= j < names(a@).len() && names(a@)[j] == x;
        }
        assert forall|x: Seq<char>| names(b@).to_set().contains(x) implies names(a@).to_set().contains(x) by {
            let j = choose|j: int| 0 <= j < names(b@).len() && names(b@)[j] == x;
        }
    }
    true
}

} // verus!

verus! {

/// The section names of a document, sorted, each once.
fn section_langs(doc: &Sections) -> (r: Vec<String>)
    ensures
        strictly_sorted(names(r@)),
        forall|x: Seq<char>| #[trigger]
            names(r@).contains(x) <==> has_section(sections_view(doc@), x),
{
    let ghost dv = sections_view(doc@);
    let mut r: Vec<String> = Vec::new();
    let mut i: usize = 0;
    while i < doc.len()
        invariant
            i <= doc.len(),
            dv == sections_view(doc@),
            strictly_sorted(names(r@)),
            forall|x: Seq<char>| #[trigger]
                names(r@).contains(x) <==> exists|j: int| 0 <= j < i && #[trigger] dv[j].0 == x,
        decreases doc.len() - i,
    {
        let ghost before = names(r@);
        insert_sorted(&mut r, doc[i].0.clone());
        assert forall|x: Seq<char>| #[trigger]
            names(r@).contains(x) <==> exists|j: int| 0 <= j < i + 1 && #[trigger] dv[j].0 == x by {
            if x == dv[i as int].0 {
                assert(names(r@).contains(x));
            }
            if names(r@).contains(x) && x != dv[i as int].0 {
                assert(before.contains(x));
            }
        }
        i += 1;
    }
    r
}

/// The keys of all table sections of a document, sorted, each once.
fn section_keys(doc: &Sections) -> (r: Vec<String>)
    ensures
        strictly_sorted(names(r@)),
        forall|x: Seq<char>| #[trigger] names(r@).contains(x) <==> has_key(sections_view(doc@), x),
{
    let ghost dv = sections_view(doc@);
    let mut r: Vec<String> = Vec::new();
    let mut i: usize = 0;
    while i < doc.len()
        invariant
            i <= doc.len(),
            dv == sections_view(doc@),
            strictly_sorted(names(r@)),
            forall|x: Seq<char>| #[trigger]
                names(r@).contains(x) <==> exists|a: int, b: int|
                    0 <= a < i && #[trigger] dv[a].1 is Some && 0 <= b < dv[a].1->0.len() && (
                    #[trigger] dv[a].1->0[b]).0 == x,
        decreases doc.len() - i,
    {
        match &doc[i].1 {
            Some(t) => {
                assert(dv[i as int].1->0 == table_view(t@));
                let mut j: usize = 0;
                while j < t.len()
                    invariant
                        i < doc.len(),
                        j <= t.len(),
                        dv == sections_view(doc@),
                        dv[i as int].1 is Some,
                        dv[i as int].1->0 == table_view(t@),
                        strictly_sorted(names(r@)),
                        forall|x: Seq<char>| #[trigger]
                            names(r@).contains(x) <==> (exists|a: int, b: int|
                                0 <= a < i && #[trigger] dv[a].1 is Some && 0 <= b < dv[a].1->0.len()
                                    && (#[trigger] dv[a].1->0[b]).0 == x) || (exists|b: int|
                                0 <= b < j && (#[trigger] dv[i as int].1->0[b]).0 == x),
                    decreases t.len() - j,
                {
                    let ghost before = names(r@);
                    insert_sorted(&mut r, t[j].0.clone());
                    assert forall|x: Seq<char>| #[trigger]
                        names(r@).contains(x) <==> (exists|a: int, b: int|
                            0 <= a < i && #[trigger] dv[a].1 is Some && 0 <= b < dv[a].1->0.len()
                                && (#[trigger] dv[a].1->0[b]).0 == x) || (exists|b: int|
                            0 <= b < j + 1 && (#[trigger] dv[i as int].1->0[b]).0 == x) by {
                        if x == t@[j as int].0@ {
                            assert(dv[i as int].1->0[j as int].0 == x);
                            assert(names(r@).contains(x));
                        }
                        if names(r@).contains(x) && x != t@[j as int].0@ {
                            assert(before.contains(x));
                        }
                    }
                    j += 1;
                }
                assert forall|x: Seq<char>| #[trigger]
                    names(r@).contains(x) <==> exists|a: int, b: int|
                        0 <= a < i + 1 && #[trigger] dv[a].1 is Some && 0 <= b < dv[a].1->0.len() && (
                        #[trigger] dv[a].1->0[b]).0 == x by {
                    if exists|a: int, b: int|
                        0 <= a < i + 1 && #[trigger] dv[a].1 is Some && 0 <= b < dv[a].1->0.len()
                            && (#[trigger] dv[a].1->0[b]).0 == x {
                        let (a, b) = choose|a: int, b: int|
                            0 <= a < i + 1 && #[trigger] dv[a].1 is Some && 0 <= b
                                < dv[a].1->0.len() && (#[trigger] dv[a].1->0[b]).0 == x;
                        if a == i {
                            assert((dv[i as int].1->0[b]).0 == x);
                        }
                    }
                }
            },
            None => {
                assert forall|x: Seq<char>| #[trigger]
                    names(r@).contains(x) <==> exists|a: int, b: int|
                        0 <= a < i + 1 && #[trigger] dv[a].1 is Some && 0 <= b < dv[a].1->0.len() && (
                        #[trigger] dv[a].1->0[b]).0 == x by {
                    if exists|a: int, b: int|
                        0 <= a < i + 1 && #[trigger] dv[a].1 is Some && 0 <= b < dv[a].1->0.len()
                            && (#[trigger] dv[a].1->0[b]).0 == x {
                        let (a, b) = choose|a: int, b: int|
                            0 <= a < i + 1 && #[trigger] dv[a].1 is Some && 0 <= b
                                < dv[a].1->0.len() && (#[trigger] dv[a].1->0[b]).0 == x;
                        assert(a != i);
                    }
                }
            },
        }
        i += 1;
    }
    r
}

} // verus!

verus! {

/// The text of key `k` in section `l` of the document, as [`text_of`] says.
fn find_text(doc: &Sections, l: &String, k: &String) -> (r: Option<String>)
    ensures
        match r {
            Some(v) => text_of(sections_view(doc@), l@, k@, 0) == Some(v@),
            None => text_of(sections_view(doc@), l@, k@, 0) is None,
        },
{
    let ghost dv = sections_view(doc@);
    let mut i: usize = 0;
    while i < doc.len()
        invariant
            i <= doc.len(),
            dv == sections_view(doc@),
            text_of(dv, l@, k@, 0) == text_of(dv, l@, k@, i as int),
        decreases doc.len() - i,
    {
        if doc[i].0.eq(l) {
            match &doc[i].1 {
                Some(t) => {
                    let ghost tv = table_view(t@);
                    assert(dv[i as int].1 == Some(tv));
                    assert(text_of(dv, l@, k@, 0) == text_in(tv, k@, 0));
                    let mut j: usize = 0;
                    while j < t.len()
                        invariant
                            j <= t.len(),
                            tv == table_view(t@),
                            dv == sections_view(doc@),
                            text_of(dv, l@, k@, 0) == text_in(tv, k@, 0),
                            text_in(tv, k@, 0) == text_in(tv, k@, j as int),
                        decreases t.len() - j,
                    {
                        if t[j].0.eq(k) {
                            assert(tv[j as int].0 == k@);
                            assert(text_in(tv, k@, j as int) == tv[j as int].1);
                            return match &t[j].1 {
                                Some(s) => {
                                    assert(tv[j as int].1 == Some(s@));
                                    Some(s.clone())
                                },
                                None => None,
                            };
                        }
                        j += 1;
                    }
                    return None;
                },
                None => {
                    return None;
                },
            }
        }
        i += 1;
    }
    None
}

/// The translations of key `k`, for the languages of `langs` in order.
fn entry_values(doc: &Sections, langs: &Vec<String>, k: &String) -> (r: Vec<(String, String)>)
    ensures
        pairs_of(r@) == values_of(sections_view(doc@), names(langs@), k@),
{
    let ghost dv = sections_view(doc@);
    let mut r: Vec<(String, String)> = Vec::new();
    let mut i: usize = 0;
    while i < langs.len()
        invariant
            i <= langs.len(),
            dv == sections_view(doc@),
            pairs_of(r@) == values_of(dv, names(langs@).subrange(0, i as int), k@),
        decreases langs.len() - i,
    {
        let ghost p = names(langs@).subrange(0, i + 1);
        assert(p.drop_last() =~= names(langs@).subrange(0, i as int));
        assert(p.last() == langs@[i as int]@);
        let ghost before = r@;
        match find_text(doc, &langs[i], k) {
            Some(v) => {
                let ghost vv = v@;
                r.push((langs[i].clone(), v));
                assert(pairs_of(r@) =~= pairs_of(before).push((langs@[i as int]@, vv)));
            },
            None => {},
        }
        i += 1;
    }
    assert(names(langs@).subrange(0, langs.len() as int) =~= names(langs@));
    r
}

} // verus!

verus! {

/// Builds the entry of key `k`: its translations in language order, whether
/// the languages disagree on the parameter names, and the canonical
/// parameters (those of the first translation that has any).
fn build_entry(doc: &Sections, langs: &Vec<String>, k: &String) -> (e: TranslationEntry)
    ensures
        entry_matches(e, sections_view(doc@), names(langs@), k@),
{
    let values = entry_values(doc, langs, k);
    let ghost tx = texts(pairs_of(values@));
    let mut lang_params: Vec<Vec<String>> = Vec::new();
    let mut i: usize = 0;
    while i < values.len()
        invariant
            i <= values.len(),
            tx == texts(pairs_of(values@)),
            lang_params.len() == i,
            forall|j: int| 0 <= j < i ==> names((#[trigger] lang_params@[j])@) == params_of(tx[j]),
        decreases values.len() - i,
    {
        lang_params.push(extract_params(values[i].1.as_str()));
        i += 1;
    }
    let mut conflict = false;
    if values.len() > 0 {
        let mut i: usize = 1;
        while i < values.len() && !conflict
            invariant
                1 <= i <= values.len(),
                lang_params.len() == values.len(),
                tx.len() == values.len(),
                forall|j: int| 0 <= j < values.len() ==> names((#[trigger] lang_params@[j])@) == params_of(tx[j]),
                !conflict ==> forall|j: int| 0 < j < i ==> #[trigger] params_of(tx[j]).to_set() == params_of(tx[0]).to_set(),
                conflict ==> params_disagree(tx),
            decreases values.len() - i,
        {
            if !same_name_set(&lang_params[i], &lang_params[0]) {
                conflict = true;
                assert(params_of(tx[i as int]).to_set() != params_of(tx[0]).to_set());
            }
            i += 1;
        }
    }
    assert(conflict == params_disagree(tx));
    let mut params: Vec<String> = Vec::new();
    if !conflict {
        let mut i: usize = 0;
        while i < lang_params.len() && params.len() == 0
            invariant
                i <= lang_params.len(),
                lang_params.len() == tx.len(),
                forall|j: int| 0 <= j < tx.len() ==> names((#[trigger] lang_params@[j])@) == params_of(tx[j]),
                params.len() == 0 ==> first_params_from(tx, 0) == first_params_from(tx, i as int),
                params.len() > 0 ==> names(params@) == first_params_from(tx, 0),
            decreases lang_params.len() - i,
        {
            if lang_params[i].len() > 0 {
                params = copy_prefix(&lang_params[i], lang_params[i].len());
                assert(names(lang_params@[i as int]@).subrange(0, lang_params@[i as int].len() as int)
                    =~= names(lang_params@[i as int]@));
            }
            i += 1;
        }
        assert(names(params@) == first_params_from(tx, 0)) by {
            if params.len() == 0 {
                assert(names(params@) =~= Seq::<Seq<char>>::empty());
            }
        }
    } else {
        assert(names(params@) =~= Seq::<Seq<char>>::empty());
    }
    let has_params = params.len() > 0;
    TranslationEntry { key: k.clone(), values, has_params, params, params_conflict: conflict }
}

/// The keys of a list of entries.
pub open spec fn keys_of(entries: Seq<TranslationEntry>) -> Seq<Seq<char>> {
    Seq::new(entries.len(), |i: int| entries[i].key@)
}

/// `f` is what a file named `stem` holds when its document is `doc`: each
/// top-level table a language, each key of those tables an entry, in key
/// order.
pub open spec fn file_from(f: TomlFile, stem: Seq<char>, doc: SectionsView) -> bool {
    &&& f.mod_path.len() == 0
    &&& f.struct_name@ == pascal_case(stem)
    &&& strictly_sorted(names(f.all_languages@))
    &&& forall|x: Seq<char>| #[trigger] names(f.all_languages@).contains(x) <==> has_section(doc, x)
    &&& strictly_sorted(keys_of(f.entries@))
    &&& forall|x: Seq<char>| #[trigger] keys_of(f.entries@).contains(x) <==> has_key(doc, x)
    &&& forall|i: int|
        0 <= i < f.entries.len() ==> entry_matches(
            #[trigger] f.entries@[i],
            doc,
            names(f.all_languages@),
            f.entries@[i].key@,
        )
}

/// Reads the translation entries of a document already parsed: `file_stem`
/// is the file's name without extension and `doc` its top-level table read
/// down to two levels.
pub fn entries_from_sections(file_stem: &str, doc: &Sections) -> (r: TomlFile)
    ensures
        file_from(r, file_stem@, sections_view(doc@)),
{
    let all_languages = section_langs(doc);
    let keys = section_keys(doc);
    let mut entries: Vec<TranslationEntry> = Vec::new();
    let mut i: usize = 0;
    while i < keys.len()
        invariant
            i <= keys.len(),
            entries.len() == i,
            forall|j: int| 0 <= j < i ==> (#[trigger] entries@[j]).key@ == names(keys@)[j],
            forall|j: int|
                0 <= j < i ==> entry_matches(
                    #[trigger] entries@[j],
                    sections_view(doc@),
                    names(all_languages@),
                    entries@[j].key@,
                ),
        decreases keys.len() - i,
    {
        entries.push(build_entry(doc, &all_languages, &keys[i]));
        i += 1;
    }
    assert(keys_of(entries@) =~= names(keys@));
    let struct_name = filename_to_struct_name(file_stem);
    TomlFile { mod_path: Vec::new(), struct_name, entries, all_languages }
}

/// Reads a translation file: `file_stem` is its name without extension and
/// `content` its text. Each top-level table is a language; each key of those
/// tables becomes an entry, in key order. `None` when the text is not a TOML
/// document.
pub fn parse_toml_file(file_stem: &str, content: &str) -> (r: Option<TomlFile>)
    ensures
        r is None <==> toml_sections(content@) is None,
        r matches Some(f) ==> file_from(f, file_stem@, toml_sections(content@)->0),
{
    let top: Vec<String> = Vec::new();
    assert(names(top@) =~= Seq::<Seq<char>>::empty());
    let doc = match read_toml_tables(content, &top) {
        Some(d) => d,
        None => {
            return None;
        },
    };
    Some(entries_from_sections(file_stem, &doc))
}

} // verus!
