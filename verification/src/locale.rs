//! Interface languages and the texts shown in each.
use vstd::prelude::*;
use crate::text::{str_eq, string_of, starts_with, is_prefix};

verus! {

/// A language the interface can be shown in.
#[derive(Clone, Copy, Debug, PartialEq, Eq, Hash, Structural)]
pub enum Language {
    Korean,
    English,
}

/// The Korean texts, keyed by text key.
pub open spec fn korean_texts() -> Seq<(Seq<char>, Seq<char>)> {
    seq![
        ("app_title"@, "Flwing — 자유롭게 날개를 펼쳐라"@),
        ("file"@, "파일"@),
        ("edit"@, "편집"@),
        ("view"@, "보기"@),
        ("help"@, "도움말"@),
        ("new"@, "새로 만들기"@),
        ("open"@, "열기"@),
        ("save"@, "저장"@),
        ("save_as"@, "다른 이름으로 저장"@),
        ("exit"@, "종료"@),
        ("tools"@, "도구"@),
        ("properties"@, "속성"@),
        ("layers"@, "레이어"@),
        ("select"@, "선택"@),
        ("pen"@, "펜"@),
        ("text"@, "텍스트"@),
        ("rect"@, "사각형"@),
        ("ellipse"@, "타원"@),
        ("image_trace"@, "이미지 트레이스"@),
        ("color"@, "색상"@),
        ("fill"@, "채우기"@),
        ("stroke"@, "선"@),
        ("width"@, "두께"@),
        ("opacity"@, "불투명도"@),
        ("outline_text"@, "텍스트 윤곽선 만들기"@),
        ("font"@, "글꼴"@),
        ("size"@, "크기"@),
        ("tracking"@, "자간"@),
        ("kerning"@, "커닝"@),
    ]
}

/// The English texts, keyed by text key.
pub open spec fn english_texts() -> Seq<(Seq<char>, Seq<char>)> {
    seq![
        ("app_title"@, "Flwing — Spread your wings freely"@),
        ("file"@, "File"@),
        ("edit"@, "Edit"@),
        ("view"@, "View"@),
        ("help"@, "Help"@),
        ("new"@, "New"@),
        ("open"@, "Open"@),
        ("save"@, "Save"@),
        ("save_as"@, "Save As"@),
        ("exit"@, "Exit"@),
        ("tools"@, "Tools"@),
        ("properties"@, "Properties"@),
        ("layers"@, "Layers"@),
        ("select"@, "Select"@),
        ("pen"@, "Pen"@),
        ("text"@, "Text"@),
        ("rect"@, "Rectangle"@),
        ("ellipse"@, "Ellipse"@),
        ("image_trace"@, "Image Trace"@),
        ("color"@, "Color"@),
        ("fill"@, "Fill"@),
        ("stroke"@, "Stroke"@),
        ("width"@, "Width"@),
        ("opacity"@, "Opacity"@),
        ("outline_text"@, "Create Outlines"@),
        ("font"@, "Font"@),
        ("size"@, "Size"@),
        ("tracking"@, "Tracking"@),
        ("kerning"@, "Kerning"@),
    ]
}

/// The texts of a language, keyed by text key.
pub open spec fn texts(lang: Language) -> Seq<(Seq<char>, Seq<char>)> {
    match lang {
        Language::Korean => korean_texts(),
        Language::English => english_texts(),
    }
}

/// The text stored under `key` in `entries`, taking the first entry with
/// that key.
pub open spec fn lookup(entries: Seq<(Seq<char>, Seq<char>)>, key: Seq<char>) -> Option<Seq<char>>
    decreases entries.len(),
{
    if entries.len() == 0 {
        None
    } else if entries[0].0 == key {
        Some(entries[0].1)
    } else {
        lookup(entries.drop_first(), key)
    }
}

/// What the interface shows for `key` in `lang`: its text, or the key itself
/// when the language has no text for it.
pub open spec fn translate(lang: Language, key: Seq<char>) -> Seq<char> {
    match lookup(texts(lang), key) {
        Some(t) => t,
        None => key,
    }
}

/// The language a system locale tag selects: Korean for tags that start with
/// `ko`, English for every other tag and when there is none.
pub open spec fn language_of_locale(tag: Option<Seq<char>>) -> Language {
    match tag {
        Some(t) => if is_prefix("ko"@, t) { Language::Korean } else { Language::English },
        None => Language::English,
    }
}

/// The views of a table of string pairs.
pub open spec fn table_view(t: Seq<(&str, &str)>) -> Seq<(Seq<char>, Seq<char>)> {
    t.map_values(|e: (&str, &str)| (e.0@, e.1@))
}

fn korean_table() -> (t: Vec<(&'static str, &'static str)>)
    ensures
        table_view(t@) == korean_texts(),
{
    let t = vec![
        ("app_title", "Flwing — 자유롭게 날개를 펼쳐라"),
        ("file", "파일"),
        ("edit", "편집"),
        ("view", "보기"),
        ("help", "도움말"),
        ("new", "새로 만들기"),
        ("open", "열기"),
        ("save", "저장"),
        ("save_as", "다른 이름으로 저장"),
        ("exit", "종료"),
        ("tools", "도구"),
        ("properties", "속성"),
        ("layers", "레이어"),
        ("select", "선택"),
        ("pen", "펜"),
        ("text", "텍스트"),
        ("rect", "사각형"),
        ("ellipse", "타원"),
        ("image_trace", "이미지 트레이스"),
        ("color", "색상"),
        ("fill", "채우기"),
        ("stroke", "선"),
        ("width", "두께"),
        ("opacity", "불투명도"),
        ("outline_text", "텍스트 윤곽선 만들기"),
        ("font", "글꼴"),
        ("size", "크기"),
        ("tracking", "자간"),
        ("kerning", "커닝"),
    ];
    proof {
        assert(table_view(t@) =~= korean_texts());
    }
    t
}

fn english_table() -> (t: Vec<(&'static str, &'static str)>)
    ensures
        table_view(t@) == english_texts(),
{
    let t = vec![
        ("app_title", "Flwing — Spread your wings freely"),
        ("file", "File"),
        ("edit", "Edit"),
        ("view", "View"),
        ("help", "Help"),
        ("new", "New"),
        ("open", "Open"),
        ("save", "Save"),
        ("save_as", "Save As"),
        ("exit", "Exit"),
        ("tools", "Tools"),
        ("properties", "Properties"),
        ("layers", "Layers"),
        ("select", "Select"),
        ("pen", "Pen"),
        ("text", "Text"),
        ("rect", "Rectangle"),
        ("ellipse", "Ellipse"),
        ("image_trace", "Image Trace"),
        ("color", "Color"),
        ("fill", "Fill"),
        ("stroke", "Stroke"),
        ("width", "Width"),
        ("opacity", "Opacity"),
        ("outline_text", "Create Outlines"),
        ("font", "Font"),
        ("size", "Size"),
        ("tracking", "Tracking"),
        ("kerning", "Kerning"),
    ];
    proof {
        assert(table_view(t@) =~= english_texts());
    }
    t
}

/// The state of the interface language.
#[derive(Clone, Copy, Debug, PartialEq, Eq, Structural)]
pub struct Locale {
    pub language: Language,
}

/// The user's preferred locale tag, as the operating system reports it.
///
/// Trusted: wraps `sys_locale::get_locale`, which returns the first of the
/// system's preferred BCP 47 locale tags, or `None` when there is none. What
/// comes back depends on the machine and its settings, so nothing is stated
/// of it.
#[verifier::external_body]
fn system_locale() -> Option<String> {
    sys_locale::get_locale()
}

/// The language that a system locale tag selects.
pub fn language_for_locale(tag: Option<String>) -> (lang: Language)
    ensures
        lang == language_of_locale(
            match tag {
                Some(t) => Some(t@),
                None => None,
            },
        ),
{
    match tag {
        Some(t) => {
            if starts_with(t.as_str(), "ko") {
                Language::Korean
            } else {
                Language::English
            }
        },
        None => Language::English,
    }
}

impl Locale {
    /// A locale showing `language`.
    pub fn new(language: Language) -> (l: Self)
        ensures
            l.language == language,
    {
        Locale { language }
    }

    /// The locale that the system's preferred locale tag selects, as
    /// `language_for_locale` decides for that tag. The tag depends on the
    /// machine's settings and may be any tag or none, and either language is
    /// selected by some tag, so no clause can say which language comes back.
    pub fn from_system() -> (l: Self) {
        let tag = system_locale();
        Locale { language: language_for_locale(tag) }
    }
}

fn table_lookup(t: &Vec<(&'static str, &'static str)>, key: &str) -> (r: Option<&'static str>)
    ensures
        match r {
            Some(v) => lookup(table_view(t@), key@) == Some(v@),
            None => lookup(table_view(t@), key@) is None,
        },
{
    let mut i: usize = 0;
    proof {
        assert(table_view(t@).skip(0) =~= table_view(t@));
    }
    while i < t.len()
        invariant
            0 <= i <= t@.len(),
            lookup(table_view(t@), key@) == lookup(table_view(t@).skip(i as int), key@),
        decreases t@.len() - i,
    {
        let (k, v) = t[i];
        proof {
            assert(table_view(t@).skip(i as int)[0] == (k@, v@));
            assert(table_view(t@).skip(i as int).drop_first() =~= table_view(t@).skip(i + 1));
        }
        if str_eq(k, key) {
            return Some(v);
        }
        i = i + 1;
    }
    proof {
        assert(table_view(t@).skip(i as int).len() == 0);
    }
    None
}

/// What the interface shows for `key` in the locale's language: the text, or
/// the key itself when there is no text for it.
pub fn get_string(locale: &Locale, key: &str) -> (s: String)
    ensures
        s@ == translate(locale.language, key@),
{
    let table = match locale.language {
        Language::Korean => korean_table(),
        Language::English => english_table(),
    };
    match table_lookup(&table, key) {
        Some(v) => string_of(v),
        None => string_of(key),
    }
}

/// Switches the interface to `lang`.
pub fn set_language(locale: &mut Locale, lang: Language)
    ensures
        final(locale).language == lang,
{
    locale.language = lang;
}

/// The language the interface is shown in.
pub fn get_current_language(locale: &Locale) -> (lang: Language)
    ensures
        lang == locale.language,
{
    locale.language
}

/// The text keys of a table, in order.
pub open spec fn keys(entries: Seq<(Seq<char>, Seq<char>)>) -> Seq<Seq<char>> {
    entries.map_values(|e: (Seq<char>, Seq<char>)| e.0)
}

proof fn lemma_lookup_some_iff_key(entries: Seq<(Seq<char>, Seq<char>)>, key: Seq<char>)
    ensures
        lookup(entries, key) is Some <==> keys(entries).contains(key),
    decreases entries.len(),
{
    if entries.len() > 0 {
        lemma_lookup_some_iff_key(entries.drop_first(), key);
        assert(keys(entries.drop_first()) =~= keys(entries).drop_first());
        if keys(entries).contains(key) && entries[0].0 != key {
            let i = choose|i: int| 0 <= i < keys(entries).len() && keys(entries)[i] == key;
            assert(keys(entries.drop_first())[i - 1] == key);
        }
        if keys(entries.drop_first()).contains(key) {
            let i = choose|i: int| 0 <= i < keys(entries.drop_first()).len() && keys(entries.drop_first())[i] == key;
            assert(keys(entries)[i + 1] == key);
        }
        if entries[0].0 == key {
            assert(keys(entries)[0] == key);
        }
    }
}

/// Both languages have a text for exactly the same keys, so switching the
/// language never turns a translated text back into its bare key.
pub proof fn lemma_languages_share_keys(key: Seq<char>)
    ensures
        lookup(texts(Language::Korean), key) is Some <==> lookup(texts(Language::English), key) is Some,
{
    lemma_lookup_some_iff_key(korean_texts(), key);
    lemma_lookup_some_iff_key(english_texts(), key);
    assert(keys(korean_texts()) =~= keys(english_texts()));
}

} // verus!
