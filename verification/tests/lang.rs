use kodecks_client::lang::{find_language, id_matches, languages, same_lang, LangId};
use kodecks_client::translator::shown_text;

fn lang(text: &str) -> LangId {
    LangId::parse(text).unwrap()
}

#[test]
fn test_parse_language_identifiers() {
    let id = lang("en-US");
    assert_eq!(id.language.as_deref(), Some("en"));
    assert_eq!(id.region.as_deref(), Some("US"));
    assert_eq!(id.script, None);
    let id = lang("zh-hant-tw");
    assert_eq!(id.language.as_deref(), Some("zh"));
    assert_eq!(id.script.as_deref(), Some("Hant"));
    assert_eq!(id.region.as_deref(), Some("TW"));
    assert_eq!(lang("und").language, None);
    assert!(LangId::parse("not a language!").is_none());
}

#[test]
fn test_languages() {
    let l = languages();
    assert_eq!(l.len(), 2);
    assert_eq!(l[0].name, "English");
    assert_eq!(l[1].name, "Japanese");
    assert!(same_lang(&l[0].id, &lang("en-US")));
    assert!(same_lang(&l[1].aliases[0], &lang("ja")));
}

#[test]
fn test_find_language_exact_and_alias() {
    assert_eq!(find_language(&lang("ja-JP")).name, "Japanese");
    assert_eq!(find_language(&lang("ja")).name, "Japanese");
    assert_eq!(find_language(&lang("en")).name, "English");
}

#[test]
fn test_find_language_by_range() {
    assert_eq!(find_language(&lang("ja-Jpan")).name, "Japanese");
    assert_eq!(find_language(&lang("en-GB")).name, "English");
    assert_eq!(find_language(&lang("und")).name, "English");
}

#[test]
fn test_find_language_falls_back_to_english() {
    assert_eq!(find_language(&lang("fr-FR")).name, "English");
    assert_eq!(find_language(&lang("de")).name, "English");
}

#[test]
fn test_matches() {
    assert!(id_matches(&lang("en"), &lang("en-US"), true, false));
    assert!(!id_matches(&lang("en"), &lang("en-US"), false, false));
    assert!(id_matches(&lang("en-US"), &lang("en"), false, true));
    assert!(!id_matches(&lang("en-US"), &lang("en-GB"), true, true));
    assert!(id_matches(&lang("ca-ES-valencia"), &lang("ca-ES"), true, true));
    assert!(!id_matches(&lang("ca-ES-valencia"), &lang("ca-ES"), false, false));
}

#[test]
fn test_shown_text() {
    assert_eq!(shown_text(Some("Hello \u{2068}you\u{2069}!"), "greeting", false), "Hello you!");
    assert_eq!(shown_text(None, "greeting", false), "greeting");
    assert_eq!(shown_text(None, "greeting", true), "");
    assert_eq!(shown_text(Some(""), "greeting", true), "");
}

#[test]
fn find_language_names() {
    assert_eq!(find_language(&LangId::parse("ja").unwrap()).name, "Japanese");
    assert_eq!(find_language(&LangId::parse("de-DE").unwrap()).name, "English");
    assert_eq!(find_language(&LangId::parse("en-GB").unwrap()).name, "English");
}
