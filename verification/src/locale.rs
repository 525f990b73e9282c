//! The `locale!` pipeline between reading the files and generating the
//! module: which files count, which languages the enum gets, and which
//! fallback rules apply.

use vstd::prelude::*;
use crate::chars::names;
use crate::document::{TomlFile, parse_toml_file, toml_sections};
use crate::input::ShakehandInput;
use crate::order::{insert_sorted, strictly_sorted};
use crate::plan::{ModulePlan, generate_module};

verus! {

/// The fallback rules of a package: `fallback.<lang> = "<lang>"` entries and
/// the optional `fallback.other`.
pub struct FallbackConfig {
    pub chain: Vec<(String, String)>,
    pub other: Option<String>,
}

/// A translation file found under the locale root: its directories, its file
/// stem, and its text when it could be read.
pub struct FoundFile {
    pub mod_path: Vec<String>,
    pub stem: String,
    pub content: Option<String>,
}

/// The file was read and holds a TOML document.
pub open spec fn readable(f: FoundFile) -> bool {
    f.content matches Some(c) && toml_sections(c@) is Some
}

/// The positions of the readable files, in order.
pub open spec fn readable_indices(v: Seq<FoundFile>) -> Seq<int>
    decreases v.len(),
{
    if v.len() == 0 {
        Seq::empty()
    } else {
        let r = readable_indices(v.drop_last());
        if readable(v.last()) {
            r.push(v.len() - 1)
        } else {
            r
        }
    }
}

/// Reads every found file that parses, keeping its directories; files that
/// could not be read or parsed are left out.
pub fn parse_locale_files(found: &Vec<FoundFile>) -> (r: Vec<TomlFile>)
    ensures
        r.len() == readable_indices(found@).len(),
        forall|k: int|
            0 <= k < r.len() ==> {
                let f = found@[readable_indices(found@)[k]];
                &&& names((#[trigger] r@[k]).mod_path@) == names(f.mod_path@)
                &&& Some(r@[k]) matches Some(t) && parse_result(f, t)
            },
{
    let mut r: Vec<TomlFile> = Vec::new();
    let mut i: usize = 0;
    while i < found.len()
        invariant
            i <= found.len(),
            r.len() == readable_indices(found@.subrange(0, i as int)).len(),
            forall|k: int|
                0 <= k < r.len() ==> {
                    let f = found@.subrange(0, i as int)[readable_indices(found@.subrange(0, i as int))[k]];
                    &&& names((#[trigger] r@[k]).mod_path@) == names(f.mod_path@)
                    &&& Some(r@[k]) matches Some(t) && parse_result(f, t)
                },
        decreases found.len() - i,
    {
        let ghost p = found@.subrange(0, i as int);
        let ghost q = found@.subrange(0, i + 1);
        assert(q.drop_last() =~= p);
        proof {
            lemma_readable_bounds(p);
        }
        match &found[i].content {
            Some(c) => match parse_toml_file(found[i].stem.as_str(), c.as_str()) {
                Some(t) => {
                    assert(parsed_as(found@[i as int].stem@, c@, t));
                    let TomlFile { mod_path: _, struct_name, entries, all_languages } = t;
                    let mp = crate::chars::copy_prefix(&found[i].mod_path, found[i].mod_path.len());
                    assert(names(found@[i as int].mod_path@).subrange(0, found@[i as int].mod_path.len() as int)
                        =~= names(found@[i as int].mod_path@));
                    let ghost before = r@;
                    let nt = TomlFile { mod_path: mp, struct_name, entries, all_languages };
                    assert(parsed_as(found@[i as int].stem@, c@, nt));
                    r.push(nt);
                    assert(readable_indices(q) == readable_indices(p).push(i as int));
                    assert forall|k: int|
                        0 <= k < r.len() implies {
                            let f = q[readable_indices(q)[k]];
                            &&& names((#[trigger] r@[k]).mod_path@) == names(f.mod_path@)
                            &&& Some(r@[k]) matches Some(t) && parse_result(f, t)
                        } by {
                        if k < before.len() {
                            assert(r@[k] == before[k]);
                            assert(q[readable_indices(p)[k]] == p[readable_indices(p)[k]]);
                        }
                    }
                },
                None => {
                    assert(readable_indices(q) == readable_indices(p));
                    assert forall|k: int|
                        0 <= k < r.len() implies {
                            let f = q[readable_indices(q)[k]];
                            &&& names((#[trigger] r@[k]).mod_path@) == names(f.mod_path@)
                            &&& Some(r@[k]) matches Some(t) && parse_result(f, t)
                        } by {
                        assert(q[readable_indices(p)[k]] == p[readable_indices(p)[k]]);
                    }
                },
            },
            None => {
                assert(readable_indices(q) == readable_indices(p));
                assert forall|k: int|
                    0 <= k < r.len() implies {
                        let f = q[readable_indices(q)[k]];
                        &&& names((#[trigger] r@[k]).mod_path@) == names(f.mod_path@)
                        &&& Some(r@[k]) matches Some(t) && parse_result(f, t)
                    } by {
                    assert(q[readable_indices(p)[k]] == p[readable_indices(p)[k]]);
                }
            },
        }
        i += 1;
    }
    assert(found@.subrange(0, found.len() as int) =~= found@);
    r
}

/// `t` has the name, languages and entries [`parse_toml_file`] reads from file `f`.
pub open spec fn parse_result(f: FoundFile, t: TomlFile) -> bool {
    f.content matches Some(c) && parsed_as(f.stem@, c@, t)
}

/// `u` has the name, languages and entries [`parse_toml_file`] reads from
/// this file.
pub open spec fn parsed_as(stem: Seq<char>, content: Seq<char>, u: TomlFile) -> bool {
    &&& toml_sections(content) is Some
    &&& u.struct_name@ == crate::naming::pascal_case(stem)
    &&& strictly_sorted(names(u.all_languages@))
    &&& forall|x: Seq<char>| #[trigger]
        names(u.all_languages@).contains(x) <==> crate::document::has_section(
            toml_sections(content)->0,
            x,
        )
    &&& strictly_sorted(crate::document::keys_of(u.entries@))
    &&& forall|x: Seq<char>| #[trigger]
        crate::document::keys_of(u.entries@).contains(x) <==> crate::document::has_key(
            toml_sections(content)->0,
            x,
        )
    &&& forall|i: int|
        0 <= i < u.entries.len() ==> crate::document::entry_matches(
            #[trigger] u.entries@[i],
            toml_sections(content)->0,
            names(u.all_languages@),
            u.entries@[i].key@,
        )
}

proof fn lemma_readable_bounds(v: Seq<FoundFile>)
    ensures
        forall|k: int|
            0 <= k < readable_indices(v).len() ==> 0 <= #[trigger] readable_indices(v)[k] < v.len(),
    decreases v.len(),
{
    if v.len() > 0 {
        lemma_readable_bounds(v.drop_last());
        let r = readable_indices(v.drop_last());
        assert forall|k: int|
            0 <= k < readable_indices(v).len() implies 0 <= #[trigger] readable_indices(v)[k]
            < v.len() by {
            if k < r.len() {
                assert(readable_indices(v)[k] == r[k]);
            }
        }
    }
}

} // verus!

verus! {

/// The languages of the generated enum include `x`: a file has a section
/// `x`, a fallback rule names `x` on either side, or `x` is the default fallback.
pub open spec fn names_language(
    files: Seq<TomlFile>,
    chain: Seq<(String, String)>,
    default_fallback: Seq<char>,
    x: Seq<char>,
) -> bool {
    ||| exists|i: int| 0 <= i < files.len() && names((#[trigger] files[i]).all_languages@).contains(x)
    ||| exists|j: int| 0 <= j < chain.len() && ((#[trigger] chain[j]).0@ == x || chain[j].1@ == x)
    ||| x == default_fallback
}

/// All languages of the module, sorted, each once: those of the files, those
/// the fallback rules name, and the default fallback.
pub fn collect_languages(files: &Vec<TomlFile>, chain: &Vec<(String, String)>, default_fallback: &String) -> (r:
    Vec<String>)
    ensures
        strictly_sorted(names(r@)),
        forall|x: Seq<char>| #[trigger]
            names(r@).contains(x) <==> names_language(files@, chain@, default_fallback@, x),
{
    let mut r: Vec<String> = Vec::new();
    insert_sorted(&mut r, default_fallback.clone());
    let mut i: usize = 0;
    while i < files.len()
        invariant
            i <= files.len(),
            strictly_sorted(names(r@)),
            forall|x: Seq<char>| #[trigger]
                names(r@).contains(x) <==> (x == default_fallback@ || exists|a: int|
                    0 <= a < i && names((#[trigger] files@[a]).all_languages@).contains(x)),
        decreases files.len() - i,
    {
        let langs = &files[i].all_languages;
        let mut k: usize = 0;
        while k < langs.len()
            invariant
                i < files.len(),
                langs == files@[i as int].all_languages,
                k <= langs.len(),
                strictly_sorted(names(r@)),
                forall|x: Seq<char>| #[trigger]
                    names(r@).contains(x) <==> (x == default_fallback@ || (exists|a: int|
                        0 <= a < i && names((#[trigger] files@[a]).all_languages@).contains(x))
                        || names(langs@).subrange(0, k as int).contains(x)),
            decreases langs.len() - k,
        {
            insert_sorted(&mut r, langs[k].clone());
            assert forall|x: Seq<char>| #[trigger]
                names(r@).contains(x) <==> (x == default_fallback@ || (exists|a: int|
                    0 <= a < i && names((#[trigger] files@[a]).all_languages@).contains(x))
                    || names(langs@).subrange(0, k + 1).contains(x)) by {
                let s1 = names(langs@).subrange(0, k + 1);
                let s0 = names(langs@).subrange(0, k as int);
                if s1.contains(x) {
                    let j = choose|j: int| 0 <= j < s1.len() && s1[j] == x;
                    if j < k {
                        assert(s0[j] == x);
                    }
                }
                if s0.contains(x) {
                    let j = choose|j: int| 0 <= j < s0.len() && s0[j] == x;
                    assert(s1[j] == x);
                }
                assert(s1[k as int] == langs@[k as int]@);
            }
            k += 1;
        }
        assert(names(langs@).subrange(0, langs.len() as int) =~= names(langs@));
        assert forall|x: Seq<char>| #[trigger]
            names(r@).contains(x) <==> (x == default_fallback@ || exists|a: int|
                0 <= a < i + 1 && names((#[trigger] files@[a]).all_languages@).contains(x)) by {
            if exists|a: int| 0 <= a < i + 1 && names((#[trigger] files@[a]).all_languages@).contains(x) {
                let a = choose|a: int| 0 <= a < i + 1 && names((#[trigger] files@[a]).all_languages@).contains(x);
                if a == i {
                    assert(names(langs@).contains(x));
                }
            }
        }
        i += 1;
    }
    let mut j: usize = 0;
    while j < chain.len()
        invariant
            j <= chain.len(),
            strictly_sorted(names(r@)),
            forall|x: Seq<char>| #[trigger]
                names(r@).contains(x) <==> (x == default_fallback@ || (exists|a: int|
                    0 <= a < files.len() && names((#[trigger] files@[a]).all_languages@).contains(x))
                    || exists|b: int| 0 <= b < j && ((#[trigger] chain@[b]).0@ == x || chain@[b].1@ == x)),
        decreases chain.len() - j,
    {
        insert_sorted(&mut r, chain[j].0.clone());
        insert_sorted(&mut r, chain[j].1.clone());
        assert forall|x: Seq<char>| #[trigger]
            names(r@).contains(x) <==> (x == default_fallback@ || (exists|a: int|
                0 <= a < files.len() && names((#[trigger] files@[a]).all_languages@).contains(x))
                || exists|b: int| 0 <= b < j + 1 && ((#[trigger] chain@[b]).0@ == x || chain@[b].1@ == x)) by {
            if exists|b: int| 0 <= b < j + 1 && ((#[trigger] chain@[b]).0@ == x || chain@[b].1@ == x) {
                let b = choose|b: int| 0 <= b < j + 1 && ((#[trigger] chain@[b]).0@ == x || chain@[b].1@ == x);
                if b < j {
                    assert(exists|b: int| 0 <= b < j && ((#[trigger] chain@[b]).0@ == x || chain@[b].1@ == x));
                }
            }
        }
        j += 1;
    }
    r
}

/// The default fallback: `fallback.other`, else the macro's `fallback`.
pub open spec fn default_of(config: FallbackConfig, input: ShakehandInput) -> Seq<char> {
    match config.other {
        Some(o) => o@,
        None => input.fallback@,
    }
}

/// Plans the module for the files read: all languages (returned too), the
/// macro's fallback as the enum default, and the package's fallback rules
/// with their default.
pub fn locale_plan(files: &Vec<TomlFile>, input: &ShakehandInput, config: &FallbackConfig) -> (r: (
    Vec<String>,
    ModulePlan,
))
    ensures
        strictly_sorted(names(r.0@)),
        forall|x: Seq<char>| #[trigger]
            names(r.0@).contains(x) <==> names_language(
                files@,
                config.chain@,
                default_of(*config, *input),
                x,
            ),
        crate::plan::languages_plan_of(r.1.languages, r.0@, input.fallback@, input.path@),
        crate::fallback::solver_plan_of(
            r.1.solver,
            r.0@,
            config.chain@,
            default_of(*config, *input),
        ),
        crate::plan::structs_match(r.1.root@, files@, None, r.0@, input.path@),
        forall|k: int|
            0 <= k < r.1.modules.len() ==> (#[trigger] r.1.modules@[k]).ident@
                == crate::naming::snake_case(r.1.modules@[k].dir@) && crate::plan::structs_match(
                r.1.modules@[k].structs@,
                files@,
                Some(r.1.modules@[k].dir@),
                r.0@,
                input.path@,
            ),
        crate::order::strictly_sorted(Seq::new(r.1.modules.len() as nat, |k: int| r.1.modules@[k].dir@)),
        forall|d: Seq<char>|
            crate::plan::has_first_dir(files@, d) <==> exists|k: int|
                0 <= k < r.1.modules.len() && #[trigger] r.1.modules@[k].dir@ == d,
{
    let default_fallback = match &config.other {
        Some(o) => o.clone(),
        None => input.fallback.clone(),
    };
    let langs = collect_languages(files, &config.chain, &default_fallback);
    assert(names(langs@).contains(default_fallback@));
    let plan = generate_module(
        files,
        &langs,
        &input.fallback,
        &config.chain,
        &default_fallback,
        input.path.as_str(),
    );
    (langs, plan)
}

} // verus!

verus! {

use crate::document::{SectionsView, read_toml_tables, toml_tables};
use crate::fallback::pairs_view;

/// The keys that lead from the top of a package manifest to its `shakehand`
/// settings.
pub open spec fn settings_keys() -> Seq<Seq<char>> {
    seq!["package"@, "metadata"@, "shakehand"@]
}

/// The table under the first key `key`, from entry `i` on; `None` when that
/// entry is not a table or there is none.
pub open spec fn table_in(v: SectionsView, key: Seq<char>, i: int) -> Option<
    Seq<(Seq<char>, Option<Seq<char>>)>,
>
    decreases v.len() - i,
{
    if i < 0 || i >= v.len() {
        None
    } else if v[i].0 == key {
        v[i].1
    } else {
        table_in(v, key, i + 1)
    }
}

/// The fallback rules of a `fallback` table: each text entry other than
/// `other`, in order.
pub open spec fn rules_of(t: Seq<(Seq<char>, Option<Seq<char>>)>) -> Seq<(Seq<char>, Seq<char>)>
    decreases t.len(),
{
    if t.len() == 0 {
        Seq::empty()
    } else {
        let r = rules_of(t.drop_last());
        match t.last().1 {
            Some(v) => if t.last().0 != "other"@ {
                r.push((t.last().0, v))
            } else {
                r
            },
            None => r,
        }
    }
}

/// The text of the first `other` entry of a `fallback` table, from entry `i` on.
pub open spec fn other_of(t: Seq<(Seq<char>, Option<Seq<char>>)>, i: int) -> Option<Seq<char>>
    decreases t.len() - i,
{
    if i < 0 || i >= t.len() {
        None
    } else if t[i].0 == "other"@ {
        t[i].1
    } else {
        other_of(t, i + 1)
    }
}

/// An optional string as an optional character sequence.
pub open spec fn text_view(o: Option<String>) -> Option<Seq<char>> {
    match o {
        Some(s) => Some(s@),
        None => None,
    }
}

/// The position of the first entry keyed `key`; `None` when there is none.
fn find_section(v: &crate::document::Sections, key: &String) -> (r: Option<usize>)
    ensures
        match r {
            Some(i) => i < v.len() && table_in(crate::document::sections_view(v@), key@, 0)
                == table_in(crate::document::sections_view(v@), key@, i as int)
                && v@[i as int].0@ == key@,
            None => table_in(crate::document::sections_view(v@), key@, 0) is None,
        },
{
    let ghost sv = crate::document::sections_view(v@);
    let mut i: usize = 0;
    while i < v.len()
        invariant
            i <= v.len(),
            sv == crate::document::sections_view(v@),
            table_in(sv, key@, 0) == table_in(sv, key@, i as int),
        decreases v.len() - i,
    {
        if v[i].0.eq(key) {
            return Some(i);
        }
        i += 1;
    }
    None
}

/// The keys of [`settings_keys`], as strings.
fn settings_path() -> (r: Vec<String>)
    ensures
        names(r@) == settings_keys(),
{
    let mut r: Vec<String> = Vec::new();
    r.push("package".to_owned());
    r.push("metadata".to_owned());
    r.push("shakehand".to_owned());
    assert(names(r@) =~= settings_keys());
    r
}

/// The fallback rules of a package, read from the text of its manifest:
/// under `[package.metadata.shakehand]`, `fallback.other` gives the default
/// and every other `fallback.<lang> = "<lang>"` a rule. No rules when there
/// is no such table or the text is not TOML.
pub fn read_fallback_config(manifest: &str) -> (r: FallbackConfig)
    ensures
        match toml_tables(manifest@, settings_keys()) {
            Some(s) => match table_in(s, "fallback"@, 0) {
                Some(t) => pairs_view(r.chain@) == rules_of(t) && text_view(r.other) == other_of(t, 0),
                None => r.chain.len() == 0 && r.other is None,
            },
            None => r.chain.len() == 0 && r.other is None,
        },
{
    let path = settings_path();
    match read_toml_tables(manifest, &path) {
        Some(s) => fallback_config_from(&s),
        None => FallbackConfig { chain: Vec::new(), other: None },
    }
}

/// The fallback rules in the package's `shakehand` settings, already read
/// from the manifest down to two levels: `fallback.other` gives the default
/// and every other `fallback.<lang> = "<lang>"` a rule. No rules when there
/// is no `fallback` table.
pub fn fallback_config_from(settings: &crate::document::Sections) -> (r: FallbackConfig)
    ensures
        match table_in(crate::document::sections_view(settings@), "fallback"@, 0) {
            Some(t) => pairs_view(r.chain@) == rules_of(t) && text_view(r.other) == other_of(t, 0),
            None => r.chain.len() == 0 && r.other is None,
        },
{
    let ghost sv = crate::document::sections_view(settings@);
    let i = match find_section(settings, &"fallback".to_owned()) {
        Some(i) => i,
        None => {
            return FallbackConfig { chain: Vec::new(), other: None };
        },
    };
    let table = match &settings[i].1 {
        Some(t) => t,
        None => {
            return FallbackConfig { chain: Vec::new(), other: None };
        },
    };
    let ghost tv = crate::document::table_view(table@);
    assert(table_in(sv, "fallback"@, 0) == Some(tv));
    let mut chain: Vec<(String, String)> = Vec::new();
    let mut other: Option<String> = None;
    let mut found_other = false;
    let mut j: usize = 0;
    while j < table.len()
        invariant
            j <= table.len(),
            tv == crate::document::table_view(table@),
            pairs_view(chain@) == rules_of(tv.subrange(0, j as int)),
            found_other ==> text_view(other) == other_of(tv, 0),
            !found_other ==> other is None && other_of(tv, 0) == other_of(tv, j as int),
        decreases table.len() - j,
    {
        let ghost before = chain@;
        assert(tv.subrange(0, j + 1).drop_last() =~= tv.subrange(0, j as int));
        let is_other = table[j].0.eq(&"other".to_owned());
        match &table[j].1 {
            Some(v) => {
                if !is_other {
                    chain.push((table[j].0.clone(), v.clone()));
                    assert(pairs_view(chain@) =~= pairs_view(before).push((tv[j as int].0, v@)));
                }
            },
            None => {},
        }
        if is_other && !found_other {
            other = table[j].1.clone();
            found_other = true;
        }
        j += 1;
    }
    assert(tv.subrange(0, table.len() as int) =~= tv);
    FallbackConfig { chain, other }
}

/// A character of a plain path part: not a separator, not a drive mark, and
/// not one of those that path normalisation strips.
pub open spec fn part_char(c: char) -> bool {
    c != '/' && c != ':' && !stripped_from_paths(c)
}

/// An empty part is at `i`: a `/` at the start or the end, or right after another.
pub open spec fn empty_part_at(p: Seq<char>, i: int) -> bool {
    p[i] == '/' && (i == 0 || i + 1 == p.len() || p[i + 1] == '/')
}

/// A `.` or `..` part starts at `i`.
pub open spec fn dot_part_at(p: Seq<char>, i: int) -> bool {
    &&& i == 0 || p[i - 1] == '/'
    &&& p[i] == '.'
    &&& i + 1 == p.len() || p[i + 1] == '/' || (p[i + 1] == '.' && (i + 2 == p.len() || p[i + 2] == '/'))
}

/// `p` is a relative path of plain parts separated by single `/`: no empty
/// part, no `.` or `..` part, and only characters of [`part_char`].
pub open spec fn plain_relative(p: Seq<char>) -> bool {
    &&& p.len() > 0
    &&& forall|i: int|
        #![trigger p[i]]
        0 <= i < p.len() ==> (p[i] == '/' || part_char(p[i])) && !empty_part_at(p, i) && !dot_part_at(p, i)
}

/// `b` is `/` followed by a plain relative path.
pub open spec fn plain_absolute(b: Seq<char>) -> bool {
    b.len() >= 2 && b[0] == '/' && plain_relative(b.drop_first())
}

/// `s` is `b`, one separator (`/` or `\`), then `p`.
pub open spec fn joined_as(s: Seq<char>, b: Seq<char>, p: Seq<char>) -> bool {
    &&& s.len() == b.len() + 1 + p.len()
    &&& s.subrange(0, b.len() as int) == b
    &&& s[b.len() as int] == '/' || s[b.len() as int] == '\\'
    &&& s.subrange((b.len() + 1) as int, s.len() as int) == p
}

/// A path that is a plain absolute path `b`, a separator and a plain
/// relative path `q` comes out as `b`, `/` and `q`.
pub open spec fn keeps_plain_join(s: Seq<char>, out: Option<Seq<char>>) -> bool {
    forall|b: Seq<char>, q: Seq<char>|
        #[trigger] joined_as(s, b, q) && plain_absolute(b) && plain_relative(q) ==> out == Some(
            b + seq!['/'] + q,
        )
}

/// `Path::join` of std on two paths given as text, read back as text. When
/// the base is `/` followed by plain parts and the path is made of plain
/// parts, the path is relative on every platform and is adjoined after one
/// separator (`/`, or `\` on Windows), as `PathBuf::push` documents for a
/// relative path. What it gives otherwise depends on the platform's path
/// syntax and is not stated.
#[verifier::external_body]
fn join_path(base: &str, path: &str) -> (r: String)
    ensures
        plain_absolute(base@) && plain_relative(path@) ==> joined_as(r@, base@, path@),
{
    std::path::Path::new(base).join(path).to_string_lossy().to_string()
}

/// A character that a normalised path never holds: one of those that
/// `just_fmt` strips (`*`, `?`, `"`, `<`, `>`, `|`), or a backslash, which
/// it turns into `/`.
pub open spec fn stripped_from_paths(c: char) -> bool {
    c == '*' || c == '?' || c == '"' || c == '<' || c == '>' || c == '|' || c == '\\'
}

/// `just_fmt::fmt_path::fmt_path` on a path given as text, read back as
/// text. Its only error comes from the crate's `strip-ansi` feature, which
/// this package does not enable, so a text always comes back. That text
/// holds none of the characters the crate strips and no backslash: the
/// crate removes those before reading the path into components and turns
/// the backslashes of the result into `/`. Which components it keeps
/// follows the platform's path syntax in general; a path that is a plain
/// absolute path, a separator and a plain relative path comes back with `/`
/// as that separator and nothing else changed, since it holds no character
/// to strip, no doubled separator, no `.` or `..` part and no prefix.
#[verifier::external_body]
fn fmt_path_text(path: &str) -> (r: Option<String>)
    ensures
        r matches Some(p) && forall|i: int| 0 <= i < p@.len() ==> !stripped_from_paths(#[trigger] p@[i]),
        keeps_plain_join(path@, text_view(r)),
{
    just_fmt::fmt_path::fmt_path(path).ok().map(|p| p.to_string_lossy().to_string())
}

/// The locale directory of a package: the macro's path under the manifest
/// directory, normalised by `just_fmt`, so that its separators are `/` and
/// the characters the crate strips are gone.
pub fn locale_root(manifest_dir: &str, path: &str) -> (r: String)
    ensures
        forall|i: int| 0 <= i < r@.len() ==> !stripped_from_paths(#[trigger] r@[i]),
        plain_absolute(manifest_dir@) && plain_relative(path@) ==> r@ == manifest_dir@ + seq!['/'] + path@,
{
    let joined = join_path(manifest_dir, path);
    match fmt_path_text(joined.as_str()) {
        Some(p) => p,
        None => joined,
    }
}

} // verus!
