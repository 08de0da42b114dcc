use flwing::locale::{get_current_language, get_string, language_for_locale, set_language, Language, Locale};

#[test]
fn korean_and_english_texts() {
    let mut locale = Locale::new(Language::Korean);
    assert_eq!(get_string(&locale, "file"), "파일");
    assert_eq!(get_string(&locale, "app_title"), "Flwing — 자유롭게 날개를 펼쳐라");
    assert_eq!(get_string(&locale, "kerning"), "커닝");
    set_language(&mut locale, Language::English);
    assert_eq!(get_current_language(&locale), Language::English);
    assert_eq!(get_string(&locale, "file"), "File");
    assert_eq!(get_string(&locale, "outline_text"), "Create Outlines");
    assert_eq!(get_string(&locale, "kerning"), "Kerning");
}

#[test]
fn unknown_key_reads_as_itself() {
    let locale = Locale::new(Language::English);
    assert_eq!(get_string(&locale, "no_such_key"), "no_such_key");
    assert_eq!(get_string(&locale, ""), "");
    let ko = Locale::new(Language::Korean);
    assert_eq!(get_string(&ko, "Undo"), "Undo");
}

#[test]
fn every_key_has_both_languages() {
    let keys = [
        "app_title", "file", "edit", "view", "help", "new", "open", "save", "save_as", "exit",
        "tools", "properties", "layers", "select", "pen", "text", "rect", "ellipse",
        "image_trace", "color", "fill", "stroke", "width", "opacity", "outline_text", "font",
        "size", "tracking", "kerning",
    ];
    let ko = Locale::new(Language::Korean);
    let en = Locale::new(Language::English);
    for k in keys {
        assert_ne!(get_string(&ko, k), k);
        assert_ne!(get_string(&en, k), k);
    }
}

#[test]
fn locale_tags_select_language() {
    assert_eq!(language_for_locale(Some("ko-KR".to_string())), Language::Korean);
    assert_eq!(language_for_locale(Some("ko".to_string())), Language::Korean);
    assert_eq!(language_for_locale(Some("en-US".to_string())), Language::English);
    assert_eq!(language_for_locale(Some("k".to_string())), Language::English);
    assert_eq!(language_for_locale(Some("KO".to_string())), Language::English);
    assert_eq!(language_for_locale(None), Language::English);
    let sys = Locale::from_system();
    assert!(sys.language == Language::Korean || sys.language == Language::English);
}
