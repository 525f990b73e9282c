use shakehand::chars::chars_of;
use shakehand::document::{entries_from_sections, parse_toml_file};
use shakehand::fallback::{fallback_issues, generate_fallback_solver, join_strings, FallbackIssue, FallbackSolver};
use shakehand::input::MacroToken::{Ident, Literal, Other, Punct};
use shakehand::input::{InputError, MacroToken, ShakehandInput};
use shakehand::locale::{
    fallback_config_from, locale_plan, locale_root, parse_locale_files, read_fallback_config, FallbackConfig, FoundFile,
};
use shakehand::naming::{filename_to_struct_name, key_to_ident, path_to_mod_name};
use shakehand::order::{insert_sorted, str_lt};
use shakehand::plan::{generate_entry_method, generate_languages_enum, ArmValue, EntryBody, ModulePlan};
use shakehand::render::{format_arity, render_format};
use shakehand::runtime::{normalize_lang, trie_lookup, CallError, CompileError, Locale};
use shakehand::scan::{scan_toml_files, FsEntry};
use shakehand::text::{extract_params, lang_to_variant, replace_params_with_format};
use shakehand::trie::gen_trie_match;

fn s(x: &str) -> String {
    x.to_string()
}

fn strings(v: &[&str]) -> Vec<String> {
    v.iter().map(|x| x.to_string()).collect()
}

fn pair(a: &str, b: &str) -> (String, String) {
    (s(a), s(b))
}

fn input(fallback: &str) -> ShakehandInput {
    ShakehandInput { path: s("./locale"), fallback: s(fallback) }
}

fn no_rules() -> FallbackConfig {
    FallbackConfig { chain: vec![], other: None }
}

fn plan_of(content: &str, config: &FallbackConfig) -> (Vec<String>, ModulePlan) {
    let file = parse_toml_file("global", content).expect("the text is TOML");
    locale_plan(&vec![file], &input("en"), config)
}

fn messages(issues: &[FallbackIssue]) -> Vec<String> {
    issues.iter().map(|i| i.message()).collect()
}

// ---- text ----

#[test]
fn params_in_order_of_first_occurrence() {
    assert_eq!(extract_params("Hi %{a} and %{b}, %{a} again"), strings(&["a", "b"]));
}

#[test]
fn empty_placeholder_is_no_param() {
    assert_eq!(extract_params("%{} and %{x}"), strings(&["x"]));
    assert_eq!(extract_params("100% sure {x}"), Vec::<String>::new());
}

#[test]
fn unterminated_placeholder_runs_to_the_end() {
    assert_eq!(extract_params("x %{abc"), strings(&["abc"]));
    assert_eq!(replace_params_with_format("a %{b"), "a {}");
}

#[test]
fn placeholders_become_format_holes() {
    assert_eq!(replace_params_with_format("Hello, %{name}! %{x}"), "Hello, {}! {}");
    assert_eq!(replace_params_with_format("100% sure"), "100% sure");
    assert_eq!(replace_params_with_format("%%{x}"), "%{}");
    assert_eq!(replace_params_with_format(""), "");
}

#[test]
fn variant_names_of_languages() {
    assert_eq!(lang_to_variant("en-US"), "en_US");
    assert_eq!(lang_to_variant("zh_CN"), "zh_CN");
    assert_eq!(lang_to_variant("1x-y"), "_1x_y");
    assert_eq!(lang_to_variant(""), "");
}

// ---- naming ----

#[test]
fn method_names_of_keys() {
    assert_eq!(key_to_ident("hello_world"), "hello_world");
    assert_eq!(key_to_ident("HelloWorld"), "hello_world");
    assert_eq!(key_to_ident("1abc"), "a1abc");
    assert_eq!(key_to_ident("fn"), "a_fn");
}

#[test]
fn struct_and_module_names() {
    assert_eq!(filename_to_struct_name("global"), "Global");
    assert_eq!(filename_to_struct_name("my_file"), "MyFile");
    assert_eq!(path_to_mod_name("SubDir"), "sub_dir");
}

// ---- fallback ----

#[test]
fn settled_chains_give_no_issue() {
    let langs = strings(&["en", "zh_CN", "zh_HK"]);
    let m = vec![pair("zh_HK", "zh_CN"), pair("en", "en")];
    assert!(fallback_issues(&langs, &m, &s("en")).is_empty());
}

#[test]
fn cycle_is_reported_once_with_its_path() {
    let langs = strings(&["a", "b", "c"]);
    let m = vec![pair("a", "b"), pair("b", "a"), pair("c", "a")];
    let issues = fallback_issues(&langs, &m, &s("en"));
    assert_eq!(
        messages(&issues),
        strings(&["shakehand: fallback chain cycle detected: a → b → a"])
    );
}

#[test]
fn self_loop_outside_the_default_is_reported() {
    let langs = strings(&["a", "b"]);
    let m = vec![pair("a", "b"), pair("b", "b")];
    let issues = fallback_issues(&langs, &m, &s("en"));
    assert_eq!(issues.len(), 1);
    assert_eq!(
        issues[0].message(),
        "shakehand: `fallback.b` points to itself, which is only allowed for the default fallback"
    );
    assert!(matches!(&issues[0], FallbackIssue::SelfLoop(y) if y == "b"));
}

#[test]
fn cycle_through_the_default_is_rejected() {
    let langs = strings(&["en", "fr"]);
    let m = vec![pair("en", "fr")];
    match generate_fallback_solver(&langs, &m, &s("en")) {
        FallbackSolver::Rejected { issues, default_variant } => {
            assert_eq!(messages(&issues), strings(&["shakehand: fallback chain cycle detected: en → fr → en"]));
            assert_eq!(default_variant, "en");
        }
        FallbackSolver::Table { .. } => panic!("en and fr fall back to each other"),
    }
}

#[test]
fn language_pointing_to_itself_is_rejected() {
    let langs = strings(&["en", "fr"]);
    let m = vec![pair("fr", "fr")];
    match generate_fallback_solver(&langs, &m, &s("en")) {
        FallbackSolver::Rejected { issues, .. } => assert_eq!(
            messages(&issues),
            strings(&["shakehand: `fallback.fr` points to itself, which is only allowed for the default fallback"])
        ),
        FallbackSolver::Table { .. } => panic!("fr points to itself"),
    }
    let ok = generate_fallback_solver(&langs, &vec![pair("en", "en")], &s("en"));
    assert!(matches!(ok, FallbackSolver::Table { .. }));
}

#[test]
fn each_cycle_is_reported_once() {
    let langs = strings(&["de", "en", "fr"]);
    let m = vec![pair("de", "fr"), pair("fr", "de")];
    match generate_fallback_solver(&langs, &m, &s("en")) {
        FallbackSolver::Rejected { issues, default_variant } => {
            assert_eq!(messages(&issues), strings(&["shakehand: fallback chain cycle detected: de → fr → de"]));
            assert_eq!(default_variant, "en");
        }
        FallbackSolver::Table { .. } => panic!("de and fr fall back to each other"),
    }
    let langs = strings(&["de", "en", "fr", "it"]);
    let m = vec![pair("de", "fr"), pair("fr", "de"), pair("it", "de")];
    assert_eq!(
        messages(&fallback_issues(&langs, &m, &s("en"))),
        strings(&["shakehand: fallback chain cycle detected: de → fr → de"])
    );
}

#[test]
fn rejected_solver_sends_to_the_default() {
    let langs = strings(&["a", "b"]);
    let m = vec![pair("a", "b"), pair("b", "a")];
    match generate_fallback_solver(&langs, &m, &s("en-GB")) {
        FallbackSolver::Rejected { issues, default_variant } => {
            assert_eq!(issues.len(), 1);
            assert_eq!(default_variant, "en_GB");
        }
        FallbackSolver::Table { .. } => panic!("a cycle must be rejected"),
    }
}

#[test]
fn solver_table_arms() {
    let langs = strings(&["en", "zh_CN", "zh-HK"]);
    let m = vec![pair("zh-HK", "zh_CN")];
    match generate_fallback_solver(&langs, &m, &s("en")) {
        FallbackSolver::Table { arms, default_variant } => {
            assert_eq!(arms, vec![pair("en", "en"), pair("zh_CN", "en"), pair("zh_HK", "zh_CN")]);
            assert_eq!(default_variant, "en");
        }
        FallbackSolver::Rejected { .. } => panic!("every chain ends"),
    }
    match generate_fallback_solver(&strings(&["fr"]), &vec![], &s("en")) {
        FallbackSolver::Table { arms, default_variant } => {
            assert_eq!(arms, vec![pair("fr", "en")]);
            assert_eq!(default_variant, "fr");
        }
        FallbackSolver::Rejected { .. } => panic!("every chain ends"),
    }
}

#[test]
fn joining_strings() {
    assert_eq!(join_strings(&strings(&["a", "b", "c"]), ", "), "a, b, c");
    assert_eq!(join_strings(&strings(&["a"]), ", "), "a");
    assert_eq!(join_strings(&vec![], ", "), "");
}

// ---- documents ----

const DOC: &str = r#"
[fr]
b = "Salut %{y} %{x}"
a = "A fr"
d = "%{q}"

[en]
b = "Hi %{x} %{y}"
a = "A en"
c = 3
d = "%{p}"
"#;

#[test]
fn document_entries_in_key_order() {
    let f = parse_toml_file("my_file", DOC).expect("the text is TOML");
    assert_eq!(f.struct_name, "MyFile");
    assert!(f.mod_path.is_empty());
    assert_eq!(f.all_languages, strings(&["en", "fr"]));
    let keys: Vec<String> = f.entries.iter().map(|e| e.key.clone()).collect();
    assert_eq!(keys, strings(&["a", "b", "c", "d"]));

    let a = &f.entries[0];
    assert_eq!(a.values, vec![pair("en", "A en"), pair("fr", "A fr")]);
    assert!(!a.has_params && !a.params_conflict && a.params.is_empty());

    let b = &f.entries[1];
    assert!(b.has_params && !b.params_conflict);
    assert_eq!(b.params, strings(&["x", "y"]));

    let c = &f.entries[2];
    assert!(c.values.is_empty() && !c.has_params && !c.params_conflict);

    let d = &f.entries[3];
    assert!(d.params_conflict && !d.has_params && d.params.is_empty());
}

#[test]
fn params_in_one_language_only_conflict() {
    let f = parse_toml_file("x", "[en]\nk = \"%{n}\"\n[fr]\nk = \"plain\"\n").unwrap();
    assert!(f.entries[0].params_conflict);
}

#[test]
fn text_that_is_not_toml_is_refused() {
    assert!(parse_toml_file("x", "[en").is_none());
    assert!(parse_toml_file("x", "k = ").is_none());
}

#[test]
fn top_level_values_are_languages_without_keys() {
    let f = parse_toml_file("x", "v = 1\n").unwrap();
    assert_eq!(f.all_languages, strings(&["v"]));
    assert!(f.entries.is_empty());
}

#[test]
fn unreadable_files_are_left_out() {
    let found = vec![
        FoundFile { mod_path: vec![], stem: s("good"), content: Some(s("[en]\nk = \"v\"\n")) },
        FoundFile { mod_path: vec![], stem: s("bad"), content: Some(s("[en")) },
        FoundFile { mod_path: strings(&["sub"]), stem: s("missing"), content: None },
        FoundFile { mod_path: strings(&["sub"]), stem: s("other"), content: Some(s("")) },
    ];
    let files = parse_locale_files(&found);
    assert_eq!(files.len(), 2);
    assert_eq!(files[0].struct_name, "Good");
    assert_eq!(files[1].struct_name, "Other");
    assert_eq!(files[1].mod_path, strings(&["sub"]));
}

const MANIFEST: &str = r#"
[package]
name = "app"

[package.metadata.shakehand]
fallback.other = "en"
fallback.zh_HK = "zh_CN"
fallback.it = "fr"
fallback.bad = 3
"#;

#[test]
fn package_fallback_rules() {
    let c = read_fallback_config(MANIFEST);
    assert_eq!(c.chain, vec![pair("it", "fr"), pair("zh_HK", "zh_CN")]);
    assert_eq!(c.other, Some(s("en")));
    let plain = read_fallback_config("[package]\nname = \"x\"\n");
    assert!(plain.chain.is_empty() && plain.other.is_none());
    let broken = read_fallback_config("[package");
    assert!(broken.chain.is_empty() && broken.other.is_none());
    let not_a_table = read_fallback_config("[package.metadata.shakehand]\nfallback = \"en\"\n");
    assert!(not_a_table.chain.is_empty() && not_a_table.other.is_none());
}

#[test]
fn locale_directory_under_the_manifest() {
    assert_eq!(locale_root("/home/p", "./locale"), "/home/p/locale");
    assert_eq!(locale_root("/home/p", "../other//locale/"), "/home/other/locale/");
    assert_eq!(locale_root("/home/p", "lo*ca?le\\sub"), "/home/p/locale/sub");
    assert_eq!(locale_root("/home/p", "i18n/sub"), "/home/p/i18n/sub");
}

// ---- format strings ----

#[test]
fn rendering_format_strings() {
    assert_eq!(render_format("a {} b {}", &strings(&["1", "2"])), Some(s("a 1 b 2")));
    assert_eq!(render_format("{{x}}", &vec![]), Some(s("{x}")));
    assert_eq!(render_format("{x}", &vec![]), None);
    assert_eq!(render_format("{}", &vec![]), None);
    assert_eq!(render_format("x", &strings(&["1"])), None);
    assert_eq!(render_format("}", &vec![]), None);
}

#[test]
fn format_arities() {
    assert_eq!(format_arity("{}{}"), Some(2));
    assert_eq!(format_arity("}}{{"), Some(0));
    assert_eq!(format_arity("{"), None);
    assert_eq!(format_arity("{0}"), None);
}

// ---- macro input ----

/// A string literal token, by its source text.
fn lit(value: &str) -> MacroToken {
    Literal(format!("\"{}\"", value))
}

fn parsed(tokens: Vec<MacroToken>) -> Result<(String, String), InputError> {
    ShakehandInput::parse(&tokens).map(|i| (i.path, i.fallback))
}

#[test]
fn macro_input_forms() {
    assert_eq!(parsed(vec![lit("./l")]), Ok((s("./l"), s("en"))));
    assert_eq!(
        parsed(vec![lit("./l"), Punct(','), Ident(s("fallback")), Punct('='), lit("fr")]),
        Ok((s("./l"), s("fr")))
    );
    assert_eq!(parsed(vec![lit("./l"), Punct(',')]), Ok((s("./l"), s("en"))));
    assert_eq!(parsed(vec![lit("./l"), Punct(','), Ident(s("other"))]), Ok((s("./l"), s("en"))));
    assert_eq!(parsed(vec![Literal(s("r\"./raw\"")), Punct(',')]), Ok((s("./raw"), s("en"))));
    assert_eq!(parsed(vec![Literal(s("\"a\\tb\""))]), Ok((s("a\tb"), s("en"))));
}

#[test]
fn macro_input_errors() {
    assert_eq!(parsed(vec![]), Err(InputError::ExpectedString));
    assert_eq!(parsed(vec![Ident(s("x"))]), Err(InputError::ExpectedString));
    assert_eq!(parsed(vec![lit("./l"), Punct(';')]), Err(InputError::UnexpectedToken));
    assert_eq!(
        parsed(vec![lit("./l"), Punct(','), Ident(s("fallback")), lit("fr")]),
        Err(InputError::ExpectedEquals)
    );
    assert_eq!(
        parsed(vec![lit("./l"), Punct(','), Ident(s("fallback")), Punct('='), Ident(s("fr"))]),
        Err(InputError::ExpectedString)
    );
    assert_eq!(
        parsed(vec![lit("./l"), Punct(','), Ident(s("fallback")), Punct('='), lit("fr"), Punct(',')]),
        Err(InputError::UnexpectedToken)
    );
    assert_eq!(parsed(vec![lit("./l"), Punct(','), Other]), Err(InputError::UnexpectedToken));
    assert_eq!(parsed(vec![Literal(s("42"))]), Err(InputError::ExpectedString));
    assert_eq!(parsed(vec![lit("./l"), Punct(','), Ident(s("fn"))]), Err(InputError::UnexpectedToken));
    assert_eq!(
        parsed(vec![lit("./l"), Punct(','), Ident(s("other")), lit("x")]),
        Err(InputError::UnexpectedToken)
    );
}

// ---- scanning ----

#[test]
fn toml_files_with_their_directories() {
    let entries = vec![
        FsEntry::File(s("a.toml"), Some(s("toml"))),
        FsEntry::File(s("b.txt"), Some(s("txt"))),
        FsEntry::Dir(
            s("sub"),
            vec![
                FsEntry::File(s("sub/c.toml"), Some(s("toml"))),
                FsEntry::Dir(s("deep"), vec![FsEntry::File(s("sub/deep/d.toml"), Some(s("toml")))]),
            ],
        ),
        FsEntry::File(s("noext"), None),
    ];
    assert_eq!(
        scan_toml_files(&entries),
        vec![
            (vec![], s("a.toml")),
            (strings(&["sub"]), s("sub/c.toml")),
            (strings(&["sub", "deep"]), s("sub/deep/d.toml")),
        ]
    );
    assert!(scan_toml_files(&vec![]).is_empty());
}

// ---- language names ----

#[test]
fn trie_finds_the_first_language_of_a_name() {
    let data = vec![(s("en"), 0), (s("es"), 1), (s("zh_cn"), 2), (s("en"), 3), (s("e"), 4)];
    let t = gen_trie_match(&data, 0);
    let look = |x: &str| {
        let x = s(x);
        trie_lookup(&t, &x, &chars_of(x.as_str()), 0)
    };
    assert_eq!(look("en"), Some(0));
    assert_eq!(look("es"), Some(1));
    assert_eq!(look("zh_cn"), Some(2));
    assert_eq!(look("e"), Some(4));
    assert_eq!(look("enx"), None);
    assert_eq!(look(""), None);
    assert_eq!(look("zh"), None);
}

#[test]
fn language_names_are_normalised() {
    assert_eq!(normalize_lang("  Zh-CN\t"), "zh_cn");
    assert_eq!(normalize_lang("\u{3000}EN\u{a0}"), "en");
    assert_eq!(normalize_lang("pt.BR é"), "pt_br__");
    assert_eq!(normalize_lang("   "), "");
}

#[test]
fn languages_enum_plan() {
    let langs = strings(&["en", "zh_CN", "pt-BR"]);
    let p = generate_languages_enum(&langs, &s("zh_CN"), "./locale");
    assert_eq!(p.enum_doc, "All language files present under \"./locale\"");
    assert_eq!(p.variants, vec![pair("en", "en"), pair("zh_CN", "zh_CN"), pair("pt_BR", "pt-BR")]);
    assert_eq!(p.fallback_idx, 1);
    assert_eq!(p.available, "en, zh_cn, pt_br");
    assert_eq!(generate_languages_enum(&langs, &s("xx"), ".").fallback_idx, 0);
}

#[test]
fn string_order() {
    assert!(str_lt("a", "b"));
    assert!(str_lt("ab", "abc"));
    assert!(!str_lt("abc", "ab"));
    assert!(!str_lt("a", "a"));
    assert!(str_lt("Z", "a"));
    let mut v = strings(&["b", "d"]);
    insert_sorted(&mut v, s("c"));
    insert_sorted(&mut v, s("a"));
    insert_sorted(&mut v, s("c"));
    assert_eq!(v, strings(&["a", "b", "c", "d"]));
}

// ---- functions and structs ----

#[test]
fn entry_method_with_params() {
    let f = parse_toml_file("x", "[en]\nHelloThere = \"Hi %{Who}\"\n[fr]\nHelloThere = \"Salut %{Who}\"\n").unwrap();
    let p = generate_entry_method(&f.entries[0], &strings(&["de", "en", "fr"]));
    assert_eq!(p.method, "hello_there");
    assert_eq!(p.key_doc, "Key \"HelloThere\"");
    assert_eq!(
        p.rows,
        strings(&[
            "|**de**|*\"(NO TRANSLATION)\"*|",
            "|**en**|*\"Hi %{Who}\"*|",
            "|**fr**|*\"Salut %{Who}\"*|",
        ])
    );
    assert!(p.has_params);
    assert_eq!(p.params, strings(&["who"]));
    match &p.body {
        EntryBody::Arms(arms) => {
            assert_eq!(arms.len(), 2);
            assert_eq!(arms[0].0, "en");
            assert!(matches!(&arms[0].1, ArmValue::Format(f, a) if f == "Hi {}" && *a == strings(&["who"])));
        }
        _ => panic!("the key is translated"),
    }
}

#[test]
fn entry_method_bodies_for_conflicts_and_gaps() {
    let f = parse_toml_file("x", DOC).unwrap();
    let langs = strings(&["en", "fr"]);
    match generate_entry_method(&f.entries[3], &langs).body {
        EntryBody::Conflict { error, panic_message } => {
            assert_eq!(error, "shakehand: key `d` has inconsistent parameter names across languages");
            assert_eq!(
                panic_message,
                "shakehand: key `d` has inconsistent parameter names across languages, fix the .toml file"
            );
        }
        _ => panic!("the key conflicts"),
    }
    match generate_entry_method(&f.entries[2], &langs).body {
        EntryBody::Untranslated { panic_message } => {
            assert_eq!(panic_message, "shakehand: key `c` has no translation in any language");
        }
        _ => panic!("the key has no text"),
    }
    match generate_entry_method(&f.entries[0], &langs).body {
        EntryBody::Arms(arms) => {
            assert!(matches!(&arms[1].1, ArmValue::Text(t) if t == "A fr"));
        }
        _ => panic!("the key is translated"),
    }
}

#[test]
fn language_counts_most_first_in_stable_order() {
    let content = "[de]\na = \"1\"\nb = \"2\"\n[en]\na = \"1\"\nb = \"2\"\n[fr]\na = \"1\"\n";
    let (langs, plan) = plan_of(content, &no_rules());
    assert_eq!(langs, strings(&["de", "en", "fr"]));
    assert_eq!(plan.root.len(), 1);
    assert_eq!(plan.root[0].name, "Global");
    assert_eq!(plan.root[0].file_doc, "Language information from file `./locale/Global.toml`");
    assert_eq!(plan.root[0].lang_counts, vec![(0, 2), (1, 2), (2, 1)]);
}

#[test]
fn languages_come_from_files_rules_and_default() {
    let config = FallbackConfig { chain: vec![pair("it", "fr")], other: Some(s("ja")) };
    let (langs, _) = plan_of("[fr]\nk = \"v\"\n", &config);
    assert_eq!(langs, strings(&["fr", "it", "ja"]));
}

#[test]
fn submodules_by_first_directory() {
    let found = vec![
        FoundFile { mod_path: strings(&["Zeta"]), stem: s("b"), content: Some(s("[en]\nk = \"v\"\n")) },
        FoundFile { mod_path: vec![], stem: s("root"), content: Some(s("[en]\nk = \"v\"\n")) },
        FoundFile { mod_path: strings(&["Alpha"]), stem: s("a"), content: Some(s("[en]\nk = \"v\"\n")) },
    ];
    let files = parse_locale_files(&found);
    let (_, plan) = locale_plan(&files, &input("en"), &no_rules());
    assert_eq!(plan.root.len(), 1);
    assert_eq!(plan.root[0].name, "Root");
    let dirs: Vec<(String, String)> = plan.modules.iter().map(|m| (m.dir.clone(), m.ident.clone())).collect();
    assert_eq!(dirs, vec![pair("Alpha", "alpha"), pair("Zeta", "zeta")]);
    assert_eq!(plan.modules[0].structs[0].name, "A");
}

// ---- the running module ----

const SMALL: &str = r#"
[en]
hi = "Hi %{who}!"
only_en = "english"
none = 3

[fr]
hi = "Salut %{who} !"
only_fr = "français"
"#;

fn small() -> Locale {
    let (_, plan) = plan_of(SMALL, &no_rules());
    Locale::new(plan).expect("the module compiles")
}

fn call(m: &Locale, method: &str, args: &[&str]) -> Result<String, CallError> {
    m.translate(None, "Global", method, &strings(args))
}

#[test]
fn parameters_are_bound_by_name() {
    let mut m = small();
    assert_eq!(call(&m, "hi", &["Ann"]), Ok(s("Hi Ann!")));
    m.set_lang_str("fr").unwrap();
    assert_eq!(call(&m, "hi", &["Ann"]), Ok(s("Salut Ann !")));
}

#[test]
fn repeated_parameter_does_not_compile() {
    let (_, plan) = plan_of("[en]\nhi = \"Hi %{who}, %{who}!\"\n", &no_rules());
    assert!(matches!(Locale::new(plan), Err(CompileError::InvalidFormat(f)) if f == "hi"));
}

#[test]
fn call_errors() {
    let m = small();
    assert_eq!(call(&m, "nope", &[]), Err(CallError::NoSuchFunction));
    assert_eq!(m.translate(None, "Other", "hi", &strings(&["a"])), Err(CallError::NoSuchFunction));
    assert_eq!(m.translate(Some("sub"), "Global", "hi", &strings(&["a"])), Err(CallError::NoSuchFunction));
    assert_eq!(call(&m, "hi", &[]), Err(CallError::WrongArgumentCount));
    assert_eq!(call(&m, "none", &[]), Err(CallError::Untranslated));
    assert_eq!(call(&m, "only_fr", &[]), Err(CallError::Unreachable));
}

#[test]
fn other_languages_fall_back_to_the_default() {
    let mut m = small();
    m.set_lang_str("fr").unwrap();
    assert_eq!(call(&m, "only_en", &[]), Ok(s("english")));
    assert_eq!(call(&m, "only_fr", &[]), Ok(s("français")));
    let fr = m.variant("fr").unwrap();
    let en = m.variant("en").unwrap();
    assert_eq!(m.fallback_once(fr), en);
    assert_eq!(m.fallback_once(en), en);
    assert_eq!(m.lang(), fr);
}

#[test]
fn unknown_language_message() {
    let mut m = small();
    let before = m.lang();
    assert_eq!(
        m.set_lang_str(" Klingon "),
        Err(s("shakehand: unknown language 'klingon', available languages: [en, fr]"))
    );
    assert_eq!(m.lang(), before);
}

#[test]
fn default_language_is_the_macro_fallback() {
    let (_, plan) = plan_of(SMALL, &no_rules());
    let file = parse_toml_file("global", SMALL).unwrap();
    let (_, plan_fr) = locale_plan(&vec![file], &input("fr"), &no_rules());
    let m = Locale::new(plan).unwrap();
    let m_fr = Locale::new(plan_fr).unwrap();
    assert_eq!(m.lang(), m.variant("en").unwrap());
    assert_eq!(m_fr.lang(), m_fr.variant("fr").unwrap());
}

#[test]
fn compile_errors() {
    let conflict = plan_of("[en]\nk = \"%{a}\"\n[fr]\nk = \"%{b}\"\n", &no_rules()).1;
    assert!(matches!(Locale::new(conflict), Err(CompileError::ParamConflict(_))));

    let cycle = FallbackConfig { chain: vec![pair("a", "b"), pair("b", "a")], other: None };
    let cyclic = plan_of("[a]\nk = \"v\"\n", &cycle).1;
    assert!(matches!(Locale::new(cyclic), Err(CompileError::FallbackChain)));

    let twins = plan_of("[en-US]\nk = \"v\"\n[en_US]\nk = \"w\"\n", &no_rules()).1;
    assert!(matches!(Locale::new(twins), Err(CompileError::DuplicateVariant(v)) if v == "en_US"));

    let mut stray = plan_of("[en]\nk = \"v\"\n", &no_rules()).1;
    stray.solver = FallbackSolver::Table { arms: vec![pair("en", "xx")], default_variant: s("en") };
    assert!(matches!(Locale::new(stray), Err(CompileError::UnknownVariant(v)) if v == "xx"));
}

#[test]
fn duplicate_names_do_not_compile() {
    let twin_keys = plan_of("[en]\nHelloWorld = \"a\"\nhello_world = \"b\"\n", &no_rules()).1;
    assert!(matches!(Locale::new(twin_keys), Err(CompileError::DuplicateName(n)) if n == "hello_world"));

    let text = s("[en]\nk = \"v\"\n");
    let twin_files = parse_locale_files(&vec![
        FoundFile { mod_path: vec![], stem: s("my_file"), content: Some(text.clone()) },
        FoundFile { mod_path: vec![], stem: s("MyFile"), content: Some(text.clone()) },
    ]);
    let plan = locale_plan(&twin_files, &input("en"), &no_rules()).1;
    assert!(matches!(Locale::new(plan), Err(CompileError::DuplicateName(n)) if n == "MyFile"));

    let twin_dirs = parse_locale_files(&vec![
        FoundFile { mod_path: strings(&["Sub"]), stem: s("a"), content: Some(text.clone()) },
        FoundFile { mod_path: strings(&["sub"]), stem: s("b"), content: Some(text) },
    ]);
    let plan = locale_plan(&twin_dirs, &input("en"), &no_rules()).1;
    assert!(matches!(Locale::new(plan), Err(CompileError::DuplicateName(n)) if n == "sub"));
}

#[test]
fn names_that_are_not_identifiers_do_not_compile() {
    let dotted = plan_of("[\"zh.CN\"]\nk = \"v\"\n", &no_rules()).1;
    assert!(matches!(Locale::new(dotted), Err(CompileError::InvalidName(n)) if n == "zh.CN"));

    let keyword = plan_of("[type]\nk = \"v\"\n", &no_rules()).1;
    assert!(matches!(Locale::new(keyword), Err(CompileError::InvalidName(n)) if n == "type"));

    let files = parse_locale_files(&vec![FoundFile {
        mod_path: vec![],
        stem: s("___"),
        content: Some(s("[en]\nk = \"v\"\n")),
    }]);
    let nameless = locale_plan(&files, &input("en"), &no_rules()).1;
    assert!(matches!(Locale::new(nameless), Err(CompileError::InvalidName(n)) if n.is_empty()));
}

#[test]
fn entries_from_a_parsed_document() {
    let doc = vec![
        (s("fr"), Some(vec![(s("k"), Some(s("%{a} fr"))), (s("n"), None)])),
        (s("en"), Some(vec![(s("k"), Some(s("%{a} en")))])),
        (s("x"), None),
    ];
    let f = entries_from_sections("my_file", &doc);
    assert_eq!(f.struct_name, "MyFile");
    assert_eq!(f.all_languages, strings(&["en", "fr", "x"]));
    let keys: Vec<String> = f.entries.iter().map(|e| e.key.clone()).collect();
    assert_eq!(keys, strings(&["k", "n"]));
    assert_eq!(f.entries[0].values, vec![pair("en", "%{a} en"), pair("fr", "%{a} fr")]);
    assert_eq!(f.entries[0].params, strings(&["a"]));
    assert!(f.entries[1].values.is_empty());
}

#[test]
fn fallback_rules_from_parsed_settings() {
    let settings = vec![
        (s("name"), None),
        (s("fallback"), Some(vec![(s("other"), Some(s("en"))), (s("it"), Some(s("fr"))), (s("x"), None)])),
    ];
    let c = fallback_config_from(&settings);
    assert_eq!(c.chain, vec![pair("it", "fr")]);
    assert_eq!(c.other, Some(s("en")));
    let none = fallback_config_from(&vec![(s("fallback"), None)]);
    assert!(none.chain.is_empty() && none.other.is_none());
}

#[test]
fn parameters_with_the_same_name_do_not_compile() {
    let plan = plan_of("[en]\nk = \"%{userName} %{user_name}\"\n", &no_rules()).1;
    assert!(matches!(Locale::new(plan), Err(CompileError::DuplicateName(n)) if n == "user_name"));
}

#[test]
fn empty_name_list_gives_an_empty_trie() {
    let t = gen_trie_match(&vec![], 0);
    assert!(t.exact.is_empty() && t.arms.is_empty());
}

