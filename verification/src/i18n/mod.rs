pub mod store;
pub mod texts;

pub use store::LangStore;



use vstd::prelude::*;

use crate::text::str_eq;

verus! {

/// Supported languages.
#[derive(Debug, Clone, Copy, PartialEq, Eq, Hash, Structural)]
pub enum Lang {
    En,
    Es,
    Tr,
    It,
    Fr,
    De,
    Ru,
}

/// The two-letter code of a language.
pub open spec fn lang_code(lang: Lang) -> Seq<char> {
    match lang {
        Lang::En => "en"@,
        Lang::Es => "es"@,
        Lang::Tr => "tr"@,
        Lang::It => "it"@,
        Lang::Fr => "fr"@,
        Lang::De => "de"@,
        Lang::Ru => "ru"@,
    }
}

/// The language whose code is `code`, if any.
pub open spec fn lang_from_code(code: Seq<char>) -> Option<Lang> {
    if code == "en"@ {
        Some(Lang::En)
    } else if code == "es"@ {
        Some(Lang::Es)
    } else if code == "tr"@ {
        Some(Lang::Tr)
    } else if code == "it"@ {
        Some(Lang::It)
    } else if code == "fr"@ {
        Some(Lang::Fr)
    } else if code == "de"@ {
        Some(Lang::De)
    } else if code == "ru"@ {
        Some(Lang::Ru)
    } else {
        None
    }
}

/// The label of a language on the selection keyboard.
pub open spec fn lang_display_name(lang: Lang) -> Seq<char> {
    match lang {
        Lang::En => "🇬🇧 English"@,
        Lang::Es => "🇪🇸 Español"@,
        Lang::Tr => "🇹🇷 Türkçe"@,
        Lang::It => "🇮🇹 Italiano"@,
        Lang::Fr => "🇫🇷 Français"@,
        Lang::De => "🇩🇪 Deutsch"@,
        Lang::Ru => "🇷🇺 Русский"@,
    }
}

/// A language's own name, as its label shows it after the flag.
pub open spec fn lang_name(lang: Lang) -> Seq<char> {
    match lang {
        Lang::En => "English"@,
        Lang::Es => "Español"@,
        Lang::Tr => "Türkçe"@,
        Lang::It => "Italiano"@,
        Lang::Fr => "Français"@,
        Lang::De => "Deutsch"@,
        Lang::Ru => "Русский"@,
    }
}

/// A regional indicator symbol: two of them spell a flag.
pub open spec fn is_regional_indicator(c: char) -> bool {
    '\u{1F1E6}' <= c && c <= '\u{1F1FF}'
}

/// Every language, in the order of the selection keyboard.
pub open spec fn all_langs() -> Seq<Lang> {
    seq![Lang::En, Lang::Es, Lang::Tr, Lang::It, Lang::Fr, Lang::De, Lang::Ru]
}

impl Lang {
    pub const ALL: [Lang; 7] = [Lang::En, Lang::Es, Lang::Tr, Lang::It, Lang::Fr, Lang::De, Lang::Ru];

    /// Every language, in the order of the selection keyboard.
    pub fn all() -> (r: Vec<Lang>)
        ensures
            r@ == all_langs(),
    {
        let r = vec![Lang::En, Lang::Es, Lang::Tr, Lang::It, Lang::Fr, Lang::De, Lang::Ru];
        assert(r@ =~= all_langs());
        r
    }

    /// The language whose code is exactly `code`.
    pub fn from_code(code: &str) -> (r: Option<Lang>)
        ensures
            r == lang_from_code(code@),
    {
        if str_eq(code, "en") {
            Some(Lang::En)
        } else if str_eq(code, "es") {
            Some(Lang::Es)
        } else if str_eq(code, "tr") {
            Some(Lang::Tr)
        } else if str_eq(code, "it") {
            Some(Lang::It)
        } else if str_eq(code, "fr") {
            Some(Lang::Fr)
        } else if str_eq(code, "de") {
            Some(Lang::De)
        } else if str_eq(code, "ru") {
            Some(Lang::Ru)
        } else {
            None
        }
    }

    /// The two-letter code of the language.
    pub fn code(self) -> (r: &'static str)
        ensures
            r@ == lang_code(self),
    {
        match self {
            Lang::En => "en",
            Lang::Es => "es",
            Lang::Tr => "tr",
            Lang::It => "it",
            Lang::Fr => "fr",
            Lang::De => "de",
            Lang::Ru => "ru",
        }
    }

    /// The label of the language on the selection keyboard.
    pub fn display_name(self) -> (r: &'static str)
        ensures
            r@ == lang_display_name(self),
    {
        match self {
            Lang::En => "🇬🇧 English",
            Lang::Es => "🇪🇸 Español",
            Lang::Tr => "🇹🇷 Türkçe",
            Lang::It => "🇮🇹 Italiano",
            Lang::Fr => "🇫🇷 Français",
            Lang::De => "🇩🇪 Deutsch",
            Lang::Ru => "🇷🇺 Русский",
        }
    }
}

/// A language's code names that language and no other: reading the code of
/// any language back gives the same language.
pub proof fn lemma_code_round_trip(lang: Lang)
    ensures
        lang_from_code(lang_code(lang)) == Some(lang),
{
    reveal_strlit("en");
    reveal_strlit("es");
    reveal_strlit("tr");
    reveal_strlit("it");
    reveal_strlit("fr");
    reveal_strlit("de");
    reveal_strlit("ru");
    assert("es"@[1] != "en"@[1]);
    assert("tr"@[0] != "en"@[0]);
    assert("tr"@[0] != "es"@[0]);
    assert("it"@[0] != "en"@[0]);
    assert("it"@[0] != "es"@[0]);
    assert("it"@[0] != "tr"@[0]);
    assert("fr"@[0] != "en"@[0]);
    assert("fr"@[0] != "es"@[0]);
    assert("fr"@[0] != "tr"@[0]);
    assert("fr"@[0] != "it"@[0]);
    assert("de"@[0] != "en"@[0]);
    assert("de"@[0] != "es"@[0]);
    assert("de"@[0] != "tr"@[0]);
    assert("de"@[0] != "it"@[0]);
    assert("de"@[0] != "fr"@[0]);
    assert("ru"@[0] != "en"@[0]);
    assert("ru"@[0] != "es"@[0]);
    assert("ru"@[0] != "tr"@[0]);
    assert("ru"@[0] != "it"@[0]);
    assert("ru"@[0] != "fr"@[0]);
    assert("ru"@[0] != "de"@[0]);
}

/// A code that names a language is exactly that language's code.
pub proof fn lemma_from_code_exact(code: Seq<char>)
    ensures
        lang_from_code(code) matches Some(lang) ==> lang_code(lang) == code,
{
}

/// The labels of different languages differ.
pub proof fn lemma_display_names_distinct(a: Lang, b: Lang)
    requires
        a != b,
    ensures
        lang_display_name(a) != lang_display_name(b),
{
    reveal_strlit("🇬🇧 English");
    reveal_strlit("🇪🇸 Español");
    reveal_strlit("🇹🇷 Türkçe");
    reveal_strlit("🇮🇹 Italiano");
    reveal_strlit("🇫🇷 Français");
    reveal_strlit("🇩🇪 Deutsch");
    reveal_strlit("🇷🇺 Русский");
    assert(lang_display_name(Lang::En)[0] != lang_display_name(Lang::Es)[0]);
    assert(lang_display_name(Lang::En).len() != lang_display_name(Lang::Tr).len());
    assert(lang_display_name(Lang::En).len() != lang_display_name(Lang::It).len());
    assert(lang_display_name(Lang::En).len() != lang_display_name(Lang::Fr).len());
    assert(lang_display_name(Lang::En)[0] != lang_display_name(Lang::De)[0]);
    assert(lang_display_name(Lang::En)[0] != lang_display_name(Lang::Ru)[0]);
    assert(lang_display_name(Lang::Es).len() != lang_display_name(Lang::Tr).len());
    assert(lang_display_name(Lang::Es).len() != lang_display_name(Lang::It).len());
    assert(lang_display_name(Lang::Es).len() != lang_display_name(Lang::Fr).len());
    assert(lang_display_name(Lang::Es)[0] != lang_display_name(Lang::De)[0]);
    assert(lang_display_name(Lang::Es)[0] != lang_display_name(Lang::Ru)[0]);
    assert(lang_display_name(Lang::Tr).len() != lang_display_name(Lang::It).len());
    assert(lang_display_name(Lang::Tr).len() != lang_display_name(Lang::Fr).len());
    assert(lang_display_name(Lang::Tr).len() != lang_display_name(Lang::De).len());
    assert(lang_display_name(Lang::Tr).len() != lang_display_name(Lang::Ru).len());
    assert(lang_display_name(Lang::It)[0] != lang_display_name(Lang::Fr)[0]);
    assert(lang_display_name(Lang::It).len() != lang_display_name(Lang::De).len());
    assert(lang_display_name(Lang::It).len() != lang_display_name(Lang::Ru).len());
    assert(lang_display_name(Lang::Fr).len() != lang_display_name(Lang::De).len());
    assert(lang_display_name(Lang::Fr).len() != lang_display_name(Lang::Ru).len());
    assert(lang_display_name(Lang::De)[0] != lang_display_name(Lang::Ru)[0]);
}

/// Every label is a flag (two regional indicator symbols), a space, then
/// the language's own name.
pub proof fn lemma_display_name_shape(lang: Lang)
    ensures
        lang_display_name(lang).len() == lang_name(lang).len() + 3,
        is_regional_indicator(lang_display_name(lang)[0]),
        is_regional_indicator(lang_display_name(lang)[1]),
        lang_display_name(lang)[2] == ' ',
        lang_display_name(lang).skip(3) == lang_name(lang),
{
    match lang {
        Lang::En => {
            reveal_strlit("🇬🇧 English");
            reveal_strlit("English");
            assert(lang_display_name(lang).skip(3) =~= lang_name(lang));
        },
        Lang::Es => {
            reveal_strlit("🇪🇸 Español");
            reveal_strlit("Español");
            assert(lang_display_name(lang).skip(3) =~= lang_name(lang));
        },
        Lang::Tr => {
            reveal_strlit("🇹🇷 Türkçe");
            reveal_strlit("Türkçe");
            assert(lang_display_name(lang).skip(3) =~= lang_name(lang));
        },
        Lang::It => {
            reveal_strlit("🇮🇹 Italiano");
            reveal_strlit("Italiano");
            assert(lang_display_name(lang).skip(3) =~= lang_name(lang));
        },
        Lang::Fr => {
            reveal_strlit("🇫🇷 Français");
            reveal_strlit("Français");
            assert(lang_display_name(lang).skip(3) =~= lang_name(lang));
        },
        Lang::De => {
            reveal_strlit("🇩🇪 Deutsch");
            reveal_strlit("Deutsch");
            assert(lang_display_name(lang).skip(3) =~= lang_name(lang));
        },
        Lang::Ru => {
            reveal_strlit("🇷🇺 Русский");
            reveal_strlit("Русский");
            assert(lang_display_name(lang).skip(3) =~= lang_name(lang));
        },
    }
}

} // verus!
