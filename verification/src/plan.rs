//! The decisions behind the generated module: the `Languages` enum, one
//! function per translation key, one struct per file, and the module itself.

use vstd::prelude::*;
use crate::chars::names;
use crate::document::{TomlFile, TranslationEntry, pairs_of};
use crate::fallback::{FallbackSolver, generate_fallback_solver, joined, join_strings};
use crate::naming::{ident_of_key, key_to_ident, path_to_mod_name, snake_case, to_snake_case};
use crate::text::{extract_params, format_text_from, lang_to_variant, params_of, replace_params_with_format, variant_of};
use crate::trie::{TrieNode, entries_view, first_named, gen_trie_match, node_lookup};

verus! {

/// The decisions behind the `Languages` enum and its conversions.
pub struct LanguagesPlan {
    /// The enum's doc line.
    pub enum_doc: String,
    /// `(variant, language)` for each language, in order.
    pub variants: Vec<(String, String)>,
    /// The default variant (the current language at start): the position of
    /// the fallback language, or 0 when it is not a language.
    pub fallback_idx: usize,
    /// The trie of `From<&str>`, over the snake_case language names.
    pub trie: TrieNode,
    /// The snake_case language names joined by `, `, for the unknown-language panic.
    pub available: String,
}

/// `(snake_case(language), position)` for each language.
pub open spec fn snake_entries(langs: Seq<Seq<char>>) -> Seq<(Seq<char>, usize)> {
    Seq::new(langs.len(), |i: int| (snake_case(langs[i]), i as usize))
}

/// The first position of `x` in `s`, if any.
pub open spec fn position_of(s: Seq<Seq<char>>, x: Seq<char>, i: int) -> Option<int>
    decreases s.len() - i,
{
    if i < 0 || i >= s.len() {
        None
    } else if s[i] == x {
        Some(i)
    } else {
        position_of(s, x, i + 1)
    }
}

/// The first position of a string equal to `x` in `v`, searched from 0.
pub fn position(v: &Vec<String>, x: &String) -> (r: Option<usize>)
    ensures
        match r {
            Some(i) => position_of(names(v@), x@, 0) == Some(i as int),
            None => position_of(names(v@), x@, 0) is None,
        },
{
    let mut i: usize = 0;
    while i < v.len()
        invariant
            i <= v.len(),
            position_of(names(v@), x@, 0) == position_of(names(v@), x@, i as int),
        decreases v.len() - i,
    {
        if v[i].eq(x) {
            return Some(i);
        }
        i += 1;
    }
    None
}

/// `r` is the plan [`generate_languages_enum`] decides.
pub open spec fn languages_plan_of(
    r: LanguagesPlan,
    langs: Seq<String>,
    fallback: Seq<char>,
    locale_path: Seq<char>,
) -> bool {
    &&& r.enum_doc@ == "All language files present under \""@ + locale_path + "\""@
    &&& r.variants.len() == langs.len()
    &&& forall|i: int|
        0 <= i < langs.len() ==> (#[trigger] r.variants@[i]).0@ == variant_of(langs[i]@)
            && r.variants@[i].1@ == langs[i]@
    &&& r.fallback_idx as int == match position_of(names(langs), fallback, 0) {
        Some(i) => i,
        None => 0,
    }
    &&& forall|s: Seq<char>| #[trigger]
        node_lookup(r.trie, s, 0) == first_named(snake_entries(names(langs)), s)
    &&& r.available@ == joined(Seq::new(langs.len() as nat, |i: int| snake_case(langs[i]@)), ", "@)
}

/// Decides the `Languages` enum: one variant per language, the fallback
/// language as default, and the trie over the snake_case names.
pub fn generate_languages_enum(langs: &Vec<String>, fallback: &String, locale_path: &str) -> (r:
    LanguagesPlan)
    ensures
        languages_plan_of(r, langs@, fallback@, locale_path@),
{
    let mut enum_doc = "All language files present under \"".to_owned();
    enum_doc.append(locale_path);
    enum_doc.append("\"");
    let mut variants: Vec<(String, String)> = Vec::new();
    let mut snakes: Vec<String> = Vec::new();
    let mut trie_data: Vec<(String, usize)> = Vec::new();
    let mut i: usize = 0;
    while i < langs.len()
        invariant
            i <= langs.len(),
            variants.len() == i,
            snakes.len() == i,
            trie_data.len() == i,
            forall|j: int|
                0 <= j < i ==> (#[trigger] variants@[j]).0@ == variant_of(langs@[j]@)
                    && variants@[j].1@ == langs@[j]@,
            forall|j: int| 0 <= j < i ==> (#[trigger] snakes@[j])@ == snake_case(langs@[j]@),
            entries_view(trie_data@) == snake_entries(names(langs@)).subrange(0, i as int),
        decreases langs.len() - i,
    {
        let snake = to_snake_case(langs[i].as_str());
        variants.push((lang_to_variant(langs[i].as_str()), langs[i].clone()));
        trie_data.push((snake.clone(), i));
        snakes.push(snake);
        assert(entries_view(trie_data@) =~= snake_entries(names(langs@)).subrange(0, i + 1));
        i += 1;
    }
    assert(entries_view(trie_data@) =~= snake_entries(names(langs@)));
    let fallback_idx = match position(langs, fallback) {
        Some(p) => p,
        None => 0,
    };
    let trie = gen_trie_match(&trie_data, 0);
    let available = join_strings(&snakes, ", ");
    assert(names(snakes@) =~= Seq::new(langs.len() as nat, |i: int| snake_case(langs@[i]@)));
    LanguagesPlan { enum_doc, variants, fallback_idx, trie, available }
}

} // verus!

verus! {

/// The text of `lang` among `(language, text)` pairs: the first pair for it.
pub open spec fn value_for(pairs: Seq<(Seq<char>, Seq<char>)>, lang: Seq<char>, i: int) -> Option<
    Seq<char>,
>
    decreases pairs.len() - i,
{
    if i < 0 || i >= pairs.len() {
        None
    } else if pairs[i].0 == lang {
        Some(pairs[i].1)
    } else {
        value_for(pairs, lang, i + 1)
    }
}

/// The text of `lang` in the entry's values.
fn find_value(values: &Vec<(String, String)>, lang: &String) -> (r: Option<String>)
    ensures
        match r {
            Some(v) => value_for(pairs_of(values@), lang@, 0) == Some(v@),
            None => value_for(pairs_of(values@), lang@, 0) is None,
        },
{
    let ghost pv = pairs_of(values@);
    let mut i: usize = 0;
    while i < values.len()
        invariant
            i <= values.len(),
            pv == pairs_of(values@),
            value_for(pv, lang@, 0) == value_for(pv, lang@, i as int),
        decreases values.len() - i,
    {
        if values[i].0.eq(lang) {
            return Some(values[i].1.clone());
        }
        i += 1;
    }
    None
}

/// What the arm of one language returns.
pub enum ArmValue {
    /// The text itself, as a `&'static str`.
    Text(String),
    /// `format!(text, args…)`: the format string and the parameter
    /// variables, in order of first occurrence in the text.
    Format(String, Vec<String>),
}

/// The body of a translation function.
pub enum EntryBody {
    /// The languages disagree on the parameters: a compile error, and a
    /// deprecated function that panics.
    Conflict { error: String, panic_message: String },
    /// No language translates the key: the function panics.
    Untranslated { panic_message: String },
    /// `(variant, value)` for each language that translates the key; the
    /// other languages fall back.
    Arms(Vec<(String, ArmValue)>),
}

/// The decisions behind one translation function.
pub struct EntryPlan {
    /// The function name.
    pub method: String,
    /// The first doc line.
    pub key_doc: String,
    /// One doc table row per language.
    pub rows: Vec<String>,
    /// Whether the function takes parameters and returns a `String`.
    pub has_params: bool,
    /// The parameter variables, in canonical order.
    pub params: Vec<String>,
    /// One doc line per parameter.
    pub param_docs: Vec<String>,
    pub body: EntryBody,
}

/// The snake_case form of each name.
pub open spec fn snake_all(v: Seq<Seq<char>>) -> Seq<Seq<char>> {
    Seq::new(v.len(), |i: int| snake_case(v[i]))
}

/// The arm value for text `v`.
pub open spec fn arm_matches(a: ArmValue, v: Seq<char>, has_params: bool) -> bool {
    if has_params {
        a matches ArmValue::Format(f, args) && f@ == format_text_from(v, 0) && names(args@)
            == snake_all(params_of(v))
    } else {
        a matches ArmValue::Text(t) && t@ == v
    }
}

/// The doc row of one language: its text, or `(NO TRANSLATION)`.
pub open spec fn doc_row(lang: Seq<char>, val: Option<Seq<char>>) -> Seq<char> {
    "|**"@ + lang + "**|*\""@ + match val {
        Some(v) => v,
        None => "(NO TRANSLATION)"@,
    } + "\"*|"@
}

/// The body of the function of entry `e`.
pub open spec fn body_matches(b: EntryBody, e: TranslationEntry) -> bool {
    if e.params_conflict {
        match b {
            EntryBody::Conflict { error, panic_message } => {
                &&& error@ == "shakehand: key `"@ + e.key@
                    + "` has inconsistent parameter names across languages"@
                &&& panic_message@ == "shakehand: key `"@ + e.key@
                    + "` has inconsistent parameter names across languages, fix the .toml file"@
            },
            _ => false,
        }
    } else if e.values.len() == 0 {
        match b {
            EntryBody::Untranslated { panic_message } => panic_message@ == "shakehand: key `"@
                + e.key@ + "` has no translation in any language"@,
            _ => false,
        }
    } else {
        match b {
            EntryBody::Arms(arms) => {
                &&& arms.len() == e.values.len()
                &&& forall|i: int|
                    0 <= i < arms.len() ==> (#[trigger] arms@[i]).0@ == variant_of(e.values@[i].0@)
                        && arm_matches(arms@[i].1, e.values@[i].1@, e.has_params)
            },
            _ => false,
        }
    }
}

/// The snake_case form of each name of a list.
fn snake_each(v: &Vec<String>) -> (r: Vec<String>)
    ensures
        names(r@) == snake_all(names(v@)),
{
    let mut r: Vec<String> = Vec::new();
    let mut i: usize = 0;
    while i < v.len()
        invariant
            i <= v.len(),
            names(r@) == snake_all(names(v@)).subrange(0, i as int),
        decreases v.len() - i,
    {
        let ghost before = names(r@);
        r.push(to_snake_case(v[i].as_str()));
        assert(names(r@) =~= before.push(snake_case(v@[i as int]@)));
        i += 1;
        assert(names(r@) =~= snake_all(names(v@)).subrange(0, i as int));
    }
    assert(snake_all(names(v@)).subrange(0, v.len() as int) =~= snake_all(names(v@)));
    r
}

/// `prefix + s + suffix` as a new string.
fn wrap(prefix: &str, s: &str, suffix: &str) -> (r: String)
    ensures
        r@ == prefix@ + s@ + suffix@,
{
    let mut r = prefix.to_owned();
    r.append(s);
    r.append(suffix);
    r
}

/// Decides the function of one translation entry: its name, doc lines,
/// parameters and body.
pub fn generate_entry_method(entry: &TranslationEntry, langs: &Vec<String>) -> (r: EntryPlan)
    ensures
        r.method@ == ident_of_key(entry.key@),
        r.key_doc@ == "Key \""@ + entry.key@ + "\""@,
        r.rows.len() == langs.len(),
        forall|i: int|
            0 <= i < langs.len() ==> (#[trigger] r.rows@[i])@ == doc_row(
                langs@[i]@,
                value_for(pairs_of(entry.values@), langs@[i]@, 0),
            ),
        r.has_params == entry.has_params,
        names(r.params@) == snake_all(names(entry.params@)),
        r.param_docs.len() == entry.params.len(),
        forall|i: int|
            0 <= i < entry.params.len() ==> (#[trigger] r.param_docs@[i])@ == "- `"@
                + entry.params@[i]@ + "`"@,
        body_matches(r.body, *entry),
{
    let method = key_to_ident(entry.key.as_str());
    let key_doc = wrap("Key \"", entry.key.as_str(), "\"");
    let mut rows: Vec<String> = Vec::new();
    let mut i: usize = 0;
    while i < langs.len()
        invariant
            i <= langs.len(),
            rows.len() == i,
            forall|j: int|
                0 <= j < i ==> (#[trigger] rows@[j])@ == doc_row(
                    langs@[j]@,
                    value_for(pairs_of(entry.values@), langs@[j]@, 0),
                ),
        decreases langs.len() - i,
    {
        let val = match find_value(&entry.values, &langs[i]) {
            Some(v) => v,
            None => "(NO TRANSLATION)".to_owned(),
        };
        let mut row = wrap("|**", langs[i].as_str(), "**|*\"");
        row.append(val.as_str());
        row.append("\"*|");
        rows.push(row);
        i += 1;
    }
    let params = snake_each(&entry.params);
    let mut param_docs: Vec<String> = Vec::new();
    let mut i: usize = 0;
    while i < entry.params.len()
        invariant
            i <= entry.params.len(),
            param_docs.len() == i,
            forall|j: int|
                0 <= j < i ==> (#[trigger] param_docs@[j])@ == "- `"@ + entry.params@[j]@ + "`"@,
        decreases entry.params.len() - i,
    {
        param_docs.push(wrap("- `", entry.params[i].as_str(), "`"));
        i += 1;
    }
    let body = if entry.params_conflict {
        EntryBody::Conflict {
            error: wrap(
                "shakehand: key `",
                entry.key.as_str(),
                "` has inconsistent parameter names across languages",
            ),
            panic_message: wrap(
                "shakehand: key `",
                entry.key.as_str(),
                "` has inconsistent parameter names across languages, fix the .toml file",
            ),
        }
    } else if entry.values.len() == 0 {
        EntryBody::Untranslated {
            panic_message: wrap(
                "shakehand: key `",
                entry.key.as_str(),
                "` has no translation in any language",
            ),
        }
    } else {
        let mut arms: Vec<(String, ArmValue)> = Vec::new();
        let mut i: usize = 0;
        while i < entry.values.len()
            invariant
                i <= entry.values.len(),
                arms.len() == i,
                forall|j: int|
                    0 <= j < i ==> (#[trigger] arms@[j]).0@ == variant_of(entry.values@[j].0@)
                        && arm_matches(arms@[j].1, entry.values@[j].1@, entry.has_params),
            decreases entry.values.len() - i,
        {
            let v = &entry.values[i].1;
            let value = if entry.has_params {
                let fmt = replace_params_with_format(v.as_str());
                let ps = extract_params(v.as_str());
                ArmValue::Format(fmt, snake_each(&ps))
            } else {
                ArmValue::Text(v.clone())
            };
            arms.push((lang_to_variant(entry.values[i].0.as_str()), value));
            i += 1;
        }
        EntryBody::Arms(arms)
    };
    EntryPlan { method, key_doc, rows, has_params: entry.has_params, params, param_docs, body }
}

} // verus!

verus! {

/// How many entries translate `lang`.
pub open spec fn count_with(entries: Seq<TranslationEntry>, lang: Seq<char>) -> nat
    decreases entries.len(),
{
    if entries.len() == 0 {
        0
    } else {
        count_with(entries.drop_last(), lang) + if value_for(
            pairs_of(entries.last().values@),
            lang,
            0,
        ) is Some {
            1nat
        } else {
            0nat
        }
    }
}

/// `(position, count)` `a` comes before `b`: more translations first, and
/// among equal counts the earlier language first.
pub open spec fn count_before(a: (usize, usize), b: (usize, usize)) -> bool {
    a.1 > b.1 || (a.1 == b.1 && a.0 < b.0)
}

/// `v` lists each of the positions `0..n` once with its count, ordered by
/// [`count_before`].
pub open spec fn count_table(v: Seq<(usize, usize)>, counts: Seq<nat>, n: int) -> bool {
    &&& v.len() == n
    &&& forall|k: int| 0 <= k < v.len() ==> (#[trigger] v[k]).0 < n && v[k].1 == counts[v[k].0 as int]
    &&& forall|a: int, b: int| 0 <= a < b < v.len() ==> count_before(#[trigger] v[a], #[trigger] v[b])
    &&& forall|i: int| 0 <= i < n ==> #[trigger] listed(v, i)
}

/// Position `i` appears in `v`.
pub open spec fn listed(v: Seq<(usize, usize)>, i: int) -> bool {
    exists|k: int| 0 <= k < v.len() && #[trigger] v[k].0 == i
}

/// How many entries translate `lang`.
fn count_entries(entries: &Vec<TranslationEntry>, lang: &String) -> (r: usize)
    ensures
        r == count_with(entries@, lang@),
{
    let mut c: usize = 0;
    let mut i: usize = 0;
    while i < entries.len()
        invariant
            i <= entries.len(),
            c == count_with(entries@.subrange(0, i as int), lang@),
            c <= i,
        decreases entries.len() - i,
    {
        assert(entries@.subrange(0, i + 1).drop_last() =~= entries@.subrange(0, i as int));
        if find_value(&entries[i].values, lang).is_some() {
            c += 1;
        }
        i += 1;
    }
    assert(entries@.subrange(0, entries.len() as int) =~= entries@);
    c
}

/// Orders languages by their number of translations, most first; equal
/// counts keep the language order (a stable sort).
fn sort_counts(counts: &Vec<usize>) -> (r: Vec<(usize, usize)>)
    ensures
        count_table(r@, Seq::new(counts.len() as nat, |i: int| counts@[i] as nat), counts.len() as int),
{
    let ghost cs = Seq::new(counts.len() as nat, |i: int| counts@[i] as nat);
    let mut r: Vec<(usize, usize)> = Vec::new();
    let mut i: usize = 0;
    while i < counts.len()
        invariant
            i <= counts.len(),
            cs == Seq::new(counts.len() as nat, |i: int| counts@[i] as nat),
            count_table(r@, cs, i as int),
        decreases counts.len() - i,
    {
        let c = counts[i];
        let mut p: usize = 0;
        while p < r.len() && r[p].1 >= c
            invariant
                p <= r.len(),
                forall|j: int| 0 <= j < p ==> r@[j].1 >= c,
            decreases r.len() - p,
        {
            p += 1;
        }
        let ghost old_r = r@;
        r.insert(p, (i, c));
        assert forall|a: int, b: int| 0 <= a < b < r.len() implies count_before(
            #[trigger] r@[a],
            #[trigger] r@[b],
        ) by {
            if b < p {
                assert(r@[a] == old_r[a] && r@[b] == old_r[b]);
            } else if b == p {
                assert(r@[a] == old_r[a]);
            } else if a < p {
                assert(r@[a] == old_r[a] && r@[b] == old_r[b - 1]);
            } else if a == p {
                assert(r@[b] == old_r[b - 1]);
                assert(old_r[p as int].1 < c);
                if b - 1 > p {
                    assert(count_before(old_r[p as int], old_r[b - 1]));
                }
            } else {
                assert(r@[a] == old_r[a - 1] && r@[b] == old_r[b - 1]);
            }
        }
        assert forall|k: int| 0 <= k < r.len() implies (#[trigger] r@[k]).0 < i + 1 && r@[k].1
            == cs[r@[k].0 as int] by {
            if k < p {
                assert(r@[k] == old_r[k]);
            } else if k > p {
                assert(r@[k] == old_r[k - 1]);
            }
        }
        assert forall|x: int| 0 <= x < i + 1 implies #[trigger] listed(r@, x) by {
            if x == i {
                assert(r@[p as int].0 == x);
            } else {
                assert(listed(old_r, x));
                let k = choose|k: int| 0 <= k < old_r.len() && #[trigger] old_r[k].0 == x;
                if k < p {
                    assert(r@[k].0 == x);
                } else {
                    assert(r@[k + 1].0 == x);
                }
            }
        }
        i += 1;
    }
    r
}

/// The decisions behind the struct of one translation file.
pub struct StructPlan {
    /// The struct name.
    pub name: String,
    /// The doc line naming the file.
    pub file_doc: String,
    /// `(language position, number of keys it translates)`, most first.
    pub lang_counts: Vec<(usize, usize)>,
    /// One function per entry, in entry order.
    pub methods: Vec<EntryPlan>,
}

/// `r` is the plan [`generate_struct`] decides for file `f`.
pub open spec fn struct_plan_of(r: StructPlan, f: TomlFile, langs: Seq<String>, path: Seq<char>) -> bool {
    &&& r.name@ == f.struct_name@
    &&& r.file_doc@ == "Language information from file `"@ + path + "/"@ + f.struct_name@ + ".toml`"@
    &&& count_table(
        r.lang_counts@,
        Seq::new(langs.len() as nat, |i: int| count_with(f.entries@, langs[i]@)),
        langs.len() as int,
    )
    &&& r.methods.len() == f.entries.len()
    &&& forall|i: int|
        0 <= i < f.entries.len() ==> entry_plan_of(#[trigger] r.methods@[i], f.entries@[i], langs)
}

/// Decides the struct of one file: its doc table of counts and one function per entry.
pub fn generate_struct(file: &TomlFile, langs: &Vec<String>, locale_path: &str) -> (r: StructPlan)
    ensures
        struct_plan_of(r, *file, langs@, locale_path@),
{
    let mut methods: Vec<EntryPlan> = Vec::new();
    let mut i: usize = 0;
    while i < file.entries.len()
        invariant
            i <= file.entries.len(),
            methods.len() == i,
            forall|j: int| 0 <= j < i ==> entry_plan_of(#[trigger] methods@[j], file.entries@[j], langs@),
        decreases file.entries.len() - i,
    {
        methods.push(generate_entry_method(&file.entries[i], langs));
        i += 1;
    }
    let mut counts: Vec<usize> = Vec::new();
    let mut i: usize = 0;
    while i < langs.len()
        invariant
            i <= langs.len(),
            counts.len() == i,
            forall|j: int| 0 <= j < i ==> counts@[j] == count_with(file.entries@, langs@[j]@),
        decreases langs.len() - i,
    {
        counts.push(count_entries(&file.entries, &langs[i]));
        i += 1;
    }
    let lang_counts = sort_counts(&counts);
    assert(Seq::new(counts.len() as nat, |i: int| counts@[i] as nat) =~= Seq::new(
        langs.len() as nat,
        |i: int| count_with(file.entries@, langs@[i]@),
    ));
    let mut file_doc = wrap("Language information from file `", locale_path, "/");
    file_doc.append(file.struct_name.as_str());
    file_doc.append(".toml`");
    StructPlan { name: file.struct_name.clone(), file_doc, lang_counts, methods }
}

/// `p` is the function [`generate_entry_method`] decides for entry `e`.
pub open spec fn entry_plan_of(p: EntryPlan, e: TranslationEntry, langs: Seq<String>) -> bool {
    &&& p.method@ == ident_of_key(e.key@)
    &&& p.key_doc@ == "Key \""@ + e.key@ + "\""@
    &&& p.rows.len() == langs.len()
    &&& forall|i: int|
        0 <= i < langs.len() ==> (#[trigger] p.rows@[i])@ == doc_row(
            langs[i]@,
            value_for(pairs_of(e.values@), langs[i]@, 0),
        )
    &&& p.has_params == e.has_params
    &&& names(p.params@) == snake_all(names(e.params@))
    &&& p.param_docs.len() == e.params.len()
    &&& forall|i: int|
        0 <= i < e.params.len() ==> (#[trigger] p.param_docs@[i])@ == "- `"@ + e.params@[i]@ + "`"@
    &&& body_matches(p.body, e)
}

} // verus!

verus! {

/// File `f` lies in directory `dir` of the locale root (`None`: in the root itself).
pub open spec fn in_dir(f: TomlFile, dir: Option<Seq<char>>) -> bool {
    match dir {
        None => f.mod_path.len() == 0,
        Some(d) => f.mod_path.len() > 0 && f.mod_path@[0]@ == d,
    }
}

/// The positions of the files that lie in `dir`, in order.
pub open spec fn indices_in(files: Seq<TomlFile>, dir: Option<Seq<char>>) -> Seq<int>
    decreases files.len(),
{
    if files.len() == 0 {
        Seq::empty()
    } else {
        let r = indices_in(files.drop_last(), dir);
        if in_dir(files.last(), dir) {
            r.push(files.len() - 1)
        } else {
            r
        }
    }
}

/// The positions are positions of `files`.
proof fn lemma_indices_bounds(files: Seq<TomlFile>, dir: Option<Seq<char>>)
    ensures
        forall|k: int|
            0 <= k < indices_in(files, dir).len() ==> 0 <= #[trigger] indices_in(files, dir)[k]
                < files.len(),
    decreases files.len(),
{
    if files.len() > 0 {
        lemma_indices_bounds(files.drop_last(), dir);
        let r = indices_in(files.drop_last(), dir);
        assert forall|k: int|
            0 <= k < indices_in(files, dir).len() implies 0 <= #[trigger] indices_in(files, dir)[k]
            < files.len() by {
            if k < r.len() {
                assert(indices_in(files, dir)[k] == r[k]);
            }
        }
    }
}

/// The structs of the files that lie in `dir`, in file order.
pub open spec fn structs_match(
    v: Seq<StructPlan>,
    files: Seq<TomlFile>,
    dir: Option<Seq<char>>,
    langs: Seq<String>,
    path: Seq<char>,
) -> bool {
    let idx = indices_in(files, dir);
    &&& v.len() == idx.len()
    &&& forall|k: int|
        0 <= k < v.len() ==> struct_plan_of(#[trigger] v[k], files[idx[k]], langs, path)
}

/// One submodule: the directory it comes from, its name, its structs.
pub struct SubModule {
    pub dir: String,
    pub ident: String,
    pub structs: Vec<StructPlan>,
}

/// The decisions behind the whole generated module.
pub struct ModulePlan {
    pub languages: LanguagesPlan,
    pub solver: FallbackSolver,
    /// The structs of the files in the locale root.
    pub root: Vec<StructPlan>,
    /// One submodule per first directory, in directory order.
    pub modules: Vec<SubModule>,
}

/// Generates the structs of the files that lie in `dir`.
fn structs_in(files: &Vec<TomlFile>, dir: Option<&String>, langs: &Vec<String>, locale_path: &str) -> (r:
    Vec<StructPlan>)
    ensures
        structs_match(
            r@,
            files@,
            match dir {
                Some(d) => Some(d@),
                None => None,
            },
            langs@,
            locale_path@,
        ),
{
    let ghost dv = match dir {
        Some(d) => Some(d@),
        None => None,
    };
    let mut r: Vec<StructPlan> = Vec::new();
    let mut i: usize = 0;
    while i < files.len()
        invariant
            i <= files.len(),
            dv == match dir {
                Some(d) => Some(d@),
                None => None::<Seq<char>>,
            },
            structs_match(r@, files@.subrange(0, i as int), dv, langs@, locale_path@),
        decreases files.len() - i,
    {
        let ghost p = files@.subrange(0, i + 1);
        assert(p.drop_last() =~= files@.subrange(0, i as int));
        let f = &files[i];
        let inside = match dir {
            None => f.mod_path.len() == 0,
            Some(d) => f.mod_path.len() > 0 && f.mod_path[0].eq(d),
        };
        assert(inside == in_dir(p.last(), dv));
        proof {
            lemma_indices_bounds(files@.subrange(0, i as int), dv);
        }
        let ghost q = files@.subrange(0, i as int);
        if inside {
            let ghost before = r@;
            r.push(generate_struct(f, langs, locale_path));
            assert(indices_in(p, dv) == indices_in(q, dv).push(i as int));
            assert forall|k: int| 0 <= k < r.len() implies struct_plan_of(
                #[trigger] r@[k],
                p[indices_in(p, dv)[k]],
                langs@,
                locale_path@,
            ) by {
                if k < before.len() {
                    assert(r@[k] == before[k]);
                    assert(indices_in(p, dv)[k] == indices_in(q, dv)[k]);
                    assert(p[indices_in(q, dv)[k]] == q[indices_in(q, dv)[k]]);
                } else {
                    assert(p[i as int] == files@[i as int]);
                }
            }
        } else {
            assert(indices_in(p, dv) == indices_in(q, dv));
            assert forall|k: int| 0 <= k < r.len() implies struct_plan_of(
                #[trigger] r@[k],
                p[indices_in(p, dv)[k]],
                langs@,
                locale_path@,
            ) by {
                assert(p[indices_in(q, dv)[k]] == q[indices_in(q, dv)[k]]);
            }
        }
        i += 1;
    }
    assert(files@.subrange(0, files.len() as int) =~= files@);
    r
}

/// The first directory of every file below the root.
pub open spec fn has_first_dir(files: Seq<TomlFile>, d: Seq<char>) -> bool {
    exists|i: int| 0 <= i < files.len() && in_dir(#[trigger] files[i], Some(d))
}

/// Generates the whole module: the `Languages` enum, the fallback solver, a
/// struct per file of the root, and a submodule per first directory, in
/// directory order, holding the structs of the files below it.
pub fn generate_module(
    files: &Vec<TomlFile>,
    all_languages: &Vec<String>,
    fallback: &String,
    fallback_map: &Vec<(String, String)>,
    default_fallback: &String,
    locale_path: &str,
) -> (r: ModulePlan)
    requires
        all_languages.len() > 0,
    ensures
        languages_plan_of(r.languages, all_languages@, fallback@, locale_path@),
        crate::fallback::solver_plan_of(r.solver, all_languages@, fallback_map@, default_fallback@),
        structs_match(r.root@, files@, None, all_languages@, locale_path@),
        crate::order::strictly_sorted(Seq::new(r.modules.len() as nat, |k: int| r.modules@[k].dir@)),
        forall|d: Seq<char>|
            has_first_dir(files@, d) <==> exists|k: int|
                0 <= k < r.modules.len() && #[trigger] r.modules@[k].dir@ == d,
        forall|k: int|
            0 <= k < r.modules.len() ==> (#[trigger] r.modules@[k]).ident@ == snake_case(
                r.modules@[k].dir@,
            ) && structs_match(
                r.modules@[k].structs@,
                files@,
                Some(r.modules@[k].dir@),
                all_languages@,
                locale_path@,
            ),
{
    let languages = generate_languages_enum(all_languages, fallback, locale_path);
    let solver = generate_fallback_solver(all_languages, fallback_map, default_fallback);
    let root = structs_in(files, None, all_languages, locale_path);
    let mut dirs: Vec<String> = Vec::new();
    let mut i: usize = 0;
    while i < files.len()
        invariant
            i <= files.len(),
            crate::order::strictly_sorted(names(dirs@)),
            forall|d: Seq<char>| #[trigger]
                names(dirs@).contains(d) <==> exists|j: int|
                    0 <= j < i && in_dir(#[trigger] files@[j], Some(d)),
        decreases files.len() - i,
    {
        if files[i].mod_path.len() > 0 {
            let ghost before = names(dirs@);
            let ghost d0 = files@[i as int].mod_path@[0]@;
            crate::order::insert_sorted(&mut dirs, files[i].mod_path[0].clone());
            assert forall|d: Seq<char>| #[trigger]
                names(dirs@).contains(d) <==> exists|j: int|
                    0 <= j < i + 1 && in_dir(#[trigger] files@[j], Some(d)) by {
                if d == d0 {
                    assert(in_dir(files@[i as int], Some(d)));
                }
                if names(dirs@).contains(d) && d != d0 {
                    assert(before.contains(d));
                }
            }
        } else {
            assert forall|d: Seq<char>| #[trigger]
                names(dirs@).contains(d) <==> exists|j: int|
                    0 <= j < i + 1 && in_dir(#[trigger] files@[j], Some(d)) by {
                if exists|j: int| 0 <= j < i + 1 && in_dir(#[trigger] files@[j], Some(d)) {
                    let j = choose|j: int| 0 <= j < i + 1 && in_dir(#[trigger] files@[j], Some(d));
                    assert(j != i);
                }
            }
        }
        i += 1;
    }
    let mut modules: Vec<SubModule> = Vec::new();
    let mut k: usize = 0;
    while k < dirs.len()
        invariant
            k <= dirs.len(),
            modules.len() == k,
            forall|j: int|
                0 <= j < k ==> (#[trigger] modules@[j]).dir@ == dirs@[j]@ && modules@[j].ident@
                    == snake_case(dirs@[j]@) && structs_match(
                    modules@[j].structs@,
                    files@,
                    Some(dirs@[j]@),
                    all_languages@,
                    locale_path@,
                ),
        decreases dirs.len() - k,
    {
        let structs = structs_in(files, Some(&dirs[k]), all_languages, locale_path);
        modules.push(
            SubModule { dir: dirs[k].clone(), ident: path_to_mod_name(dirs[k].as_str()), structs },
        );
        k += 1;
    }
    assert(Seq::new(modules.len() as nat, |j: int| modules@[j].dir@) =~= names(dirs@));
    assert forall|d: Seq<char>|
        has_first_dir(files@, d) <==> exists|j: int|
            0 <= j < modules.len() && #[trigger] modules@[j].dir@ == d by {
        if has_first_dir(files@, d) {
            assert(names(dirs@).contains(d));
            let j = choose|j: int| 0 <= j < names(dirs@).len() && names(dirs@)[j] == d;
            assert(modules@[j].dir@ == d);
        }
        if exists|j: int| 0 <= j < modules.len() && #[trigger] modules@[j].dir@ == d {
            let j = choose|j: int| 0 <= j < modules.len() && #[trigger] modules@[j].dir@ == d;
            assert(names(dirs@)[j] == d);
            assert(names(dirs@).contains(d));
        }
    }
    ModulePlan { languages, solver, root, modules }
}

} // verus!

verus! {

/// A position found is a position of the list.
pub proof fn lemma_position_bound(s: Seq<Seq<char>>, x: Seq<char>, i: int)
    ensures
        position_of(s, x, i) matches Some(p) ==> i <= p < s.len() && s[p] == x,
    decreases s.len() - i,
{
    if 0 <= i < s.len() && s[i] != x {
        lemma_position_bound(s, x, i + 1);
    }
}

} // verus!
