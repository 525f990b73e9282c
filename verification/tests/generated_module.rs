use shakehand::document::parse_toml_file;
use shakehand::input::ShakehandInput;
use shakehand::locale::{locale_plan, FallbackConfig};
use shakehand::runtime::Locale;

const GLOBAL: &str = r#"
[en]
world = "world"
greeting = "Hello, %{someone}!"
farewell = "Goodbye, %{someone}!"
thanks = "Thank you!"

[zh_CN]
world = "世界"
greeting = "你好，%{someone}！"
farewell = "再见，%{someone}！"
thanks = "谢谢！"

[ja]
world = "世界"
greeting = "こんにちは、%{someone}！"
farewell = "さようなら、%{someone}！"
thanks = "ありがとうございます！"

[ko]
world = "세계"
greeting = "안녕하세요, %{someone}님！"
farewell = "안녕히 가세요, %{someone}님！"
thanks = "감사합니다！"

[fr]
world = "monde"
greeting = "Bonjour, %{someone} !"
farewell = "Au revoir, %{someone} !"
thanks = "Merci !"

[de]
world = "Welt"
greeting = "Hallo, %{someone}!"
farewell = "Auf Wiedersehen, %{someone}!"
thanks = "Danke!"

[es]
world = "mundo"
greeting = "¡Hola, %{someone}!"
farewell = "¡Adiós, %{someone}!"
thanks = "¡Gracias!"

[ru]
world = "мир"
greeting = "Привет, %{someone}!"
farewell = "До свидания, %{someone}!"
thanks = "Спасибо!"

[ar]
world = "عالم"
greeting = "مرحبًا، %{someone}!"
farewell = "وداعًا، %{someone}!"
thanks = "شكرًا!"

[pt]
world = "mundo"
greeting = "Olá, %{someone}!"
farewell = "Tchau, %{someone}!"
thanks = "Obrigado!"
"#;

fn rule(from: &str, to: &str) -> (String, String) {
    (from.to_string(), to.to_string())
}

/// The module `locale!("./locale")` generates for the test locale, with the
/// package's fallback rules.
fn module() -> Locale {
    let file = parse_toml_file("global", GLOBAL).expect("the locale file parses");
    let input = ShakehandInput { path: "./locale".to_string(), fallback: "en".to_string() };
    let config = FallbackConfig {
        chain: vec![
            rule("zh_HK", "zh_CN"),
            rule("zh_TW", "zh_CN"),
            rule("vi", "zh_CN"),
            rule("ms", "id"),
            rule("id", "en"),
            rule("it", "fr"),
            rule("pt", "es"),
            rule("tr", "ar"),
        ],
        other: None,
    };
    let (_, plan) = locale_plan(&vec![file], &input, &config);
    Locale::new(plan).expect("the module compiles")
}

fn set_lang(m: &mut Locale, variant: &str) {
    let lang = m.variant(variant).expect("a variant of Languages");
    m.set_lang(lang);
}

fn call(m: &Locale, method: &str, args: &[&str]) -> String {
    let args: Vec<String> = args.iter().map(|a| a.to_string()).collect();
    m.translate(None, "Global", method, &args).expect("the translation returns")
}

fn world(m: &Locale) -> String {
    call(m, "world", &[])
}

fn greeting(m: &Locale, who: &str) -> String {
    call(m, "greeting", &[who])
}

fn farewell(m: &Locale, who: &str) -> String {
    call(m, "farewell", &[who])
}

fn thanks(m: &Locale) -> String {
    call(m, "thanks", &[])
}

#[test]
fn test_english() {
    let mut m = module();
    set_lang(&mut m, "en");
    assert_eq!(world(&m), "world");
    assert_eq!(greeting(&m, "Alice"), "Hello, Alice!");
    assert_eq!(farewell(&m, "Bob"), "Goodbye, Bob!");
    assert_eq!(thanks(&m), "Thank you!");
}

#[test]
fn test_chinese() {
    let mut m = module();
    set_lang(&mut m, "zh_CN");
    assert_eq!(world(&m), "世界");
    assert_eq!(greeting(&m, "小明"), "你好，小明！");
    assert_eq!(farewell(&m, "小红"), "再见，小红！");
    assert_eq!(thanks(&m), "谢谢！");
}

#[test]
fn test_japanese() {
    let mut m = module();
    set_lang(&mut m, "ja");
    assert_eq!(world(&m), "世界");
    assert_eq!(greeting(&m, "田中"), "こんにちは、田中！");
    assert_eq!(farewell(&m, "佐藤"), "さようなら、佐藤！");
    assert_eq!(thanks(&m), "ありがとうございます！");
}

#[test]
fn test_korean() {
    let mut m = module();
    set_lang(&mut m, "ko");
    assert_eq!(world(&m), "세계");
    assert_eq!(greeting(&m, "철수"), "안녕하세요, 철수님！");
    assert_eq!(farewell(&m, "영희"), "안녕히 가세요, 영희님！");
    assert_eq!(thanks(&m), "감사합니다！");
}

#[test]
fn test_french() {
    let mut m = module();
    set_lang(&mut m, "fr");
    assert_eq!(world(&m), "monde");
    assert_eq!(greeting(&m, "Marie"), "Bonjour, Marie !");
    assert_eq!(farewell(&m, "Pierre"), "Au revoir, Pierre !");
    assert_eq!(thanks(&m), "Merci !");
}

#[test]
fn test_german() {
    let mut m = module();
    set_lang(&mut m, "de");
    assert_eq!(world(&m), "Welt");
    assert_eq!(greeting(&m, "Hans"), "Hallo, Hans!");
    assert_eq!(farewell(&m, "Greta"), "Auf Wiedersehen, Greta!");
    assert_eq!(thanks(&m), "Danke!");
}

#[test]
fn test_spanish() {
    let mut m = module();
    set_lang(&mut m, "es");
    assert_eq!(world(&m), "mundo");
    assert_eq!(greeting(&m, "Carlos"), "¡Hola, Carlos!");
    assert_eq!(farewell(&m, "Lucía"), "¡Adiós, Lucía!");
    assert_eq!(thanks(&m), "¡Gracias!");
}

#[test]
fn test_russian() {
    let mut m = module();
    set_lang(&mut m, "ru");
    assert_eq!(world(&m), "мир");
    assert_eq!(greeting(&m, "Анна"), "Привет, Анна!");
    assert_eq!(farewell(&m, "Иван"), "До свидания, Иван!");
    assert_eq!(thanks(&m), "Спасибо!");
}

#[test]
fn test_arabic() {
    let mut m = module();
    set_lang(&mut m, "ar");
    assert_eq!(world(&m), "عالم");
    assert_eq!(greeting(&m, "أحمد"), "مرحبًا، أحمد!");
    assert_eq!(farewell(&m, "فاطمة"), "وداعًا، فاطمة!");
    assert_eq!(thanks(&m), "شكرًا!");
}

#[test]
fn test_portuguese() {
    let mut m = module();
    set_lang(&mut m, "pt");
    assert_eq!(world(&m), "mundo");
    assert_eq!(greeting(&m, "João"), "Olá, João!");
    assert_eq!(farewell(&m, "Maria"), "Tchau, Maria!");
    assert_eq!(thanks(&m), "Obrigado!");
}

#[test]
fn test_fallback_zh_hk_to_zh_cn() {
    let mut m = module();
    set_lang(&mut m, "zh_HK");
    assert_eq!(world(&m), "世界");
    assert_eq!(greeting(&m, "小明"), "你好，小明！");
    assert_eq!(farewell(&m, "小红"), "再见，小红！");
    assert_eq!(thanks(&m), "谢谢！");
}

#[test]
fn test_fallback_zh_tw_to_zh_cn() {
    let mut m = module();
    set_lang(&mut m, "zh_TW");
    assert_eq!(world(&m), "世界");
    assert_eq!(greeting(&m, "小明"), "你好，小明！");
}

#[test]
fn test_fallback_vi_to_zh_cn() {
    let mut m = module();
    set_lang(&mut m, "vi");
    assert_eq!(world(&m), "世界");
    assert_eq!(greeting(&m, "小明"), "你好，小明！");
}

#[test]
fn test_fallback_ms_to_id_to_en() {
    let mut m = module();
    set_lang(&mut m, "ms");
    assert_eq!(world(&m), "world");
    assert_eq!(greeting(&m, "Alice"), "Hello, Alice!");
}

#[test]
fn test_fallback_it_to_fr() {
    let mut m = module();
    set_lang(&mut m, "it");
    assert_eq!(world(&m), "monde");
    assert_eq!(greeting(&m, "Marie"), "Bonjour, Marie !");
}

#[test]
fn test_fallback_pt_to_es() {
    let mut m = module();
    // pt has direct translations, so fallback should not be triggered
    set_lang(&mut m, "pt");
    assert_eq!(world(&m), "mundo");
    assert_eq!(greeting(&m, "João"), "Olá, João!");
}

#[test]
fn test_fallback_tr_to_ar() {
    let mut m = module();
    set_lang(&mut m, "tr");
    assert_eq!(world(&m), "عالم");
    assert_eq!(greeting(&m, "أحمد"), "مرحبًا، أحمد!");
}

#[test]
fn test_fallback_parameterless_translation_as_param() {
    let mut m = module();
    set_lang(&mut m, "en");
    let w = world(&m);
    let greeting = greeting(&m, &w);
    assert_eq!(greeting, "Hello, world!");
}

#[test]
fn test_set_lang_from_str() {
    let mut m = module();
    m.set_lang_str("en").unwrap();
    assert_eq!(world(&m), "world");

    m.set_lang_str("zh_CN").unwrap();
    assert_eq!(world(&m), "世界");

    m.set_lang_str("zh-CN").unwrap();
    assert_eq!(world(&m), "世界");

    m.set_lang_str("  en  ").unwrap();
    assert_eq!(world(&m), "world");
}

#[test]
fn test_set_lang_from_string() {
    let mut m = module();
    m.set_lang_str(String::from("fr").as_str()).unwrap();
    assert_eq!(world(&m), "monde");

    m.set_lang_str(String::from("zh_TW").as_str()).unwrap();
    assert_eq!(world(&m), "世界");
}

#[test]
fn test_languages_display() {
    let m = module();
    let en = m.variant("en").unwrap();
    let zh_cn = m.variant("zh_CN").unwrap();
    let fr = m.variant("fr").unwrap();
    let ja = m.variant("ja").unwrap();
    assert_eq!(m.display(en), "en");
    assert_eq!(m.display(zh_cn), "zh_CN");
    assert_eq!(m.display(fr), "fr");
    assert_eq!(format!("{}", m.display(ja)), "ja");
}

#[test]
fn test_from_str_cases() {
    let m = module();
    assert_eq!(m.language_from_str("en"), m.variant("en"));
    assert_eq!(m.language_from_str("zh_CN"), m.variant("zh_CN"));
    assert_eq!(m.language_from_str("zh-CN"), m.variant("zh_CN"));
    assert_eq!(m.language_from_str("ZH_CN"), m.variant("zh_CN"));
    assert_eq!(m.language_from_str("zh-cn"), m.variant("zh_CN"));
}

#[test]
#[should_panic(expected = "unknown language")]
fn test_from_str_unknown() {
    let mut m = module();
    if let Err(message) = m.set_lang_str("klingon") {
        panic!("{}", message);
    }
}
