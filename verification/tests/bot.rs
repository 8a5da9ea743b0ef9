use kiwilua::bot::{
    archive_stem, keyboard_layout, language_confirmation, parse_language_callback,
    plan_text_reply, reply_language, CallbackAction, TextReply,
};
use kiwilua::finder::{LuaFile, LuaFinder};
use kiwilua::i18n::Lang;
use kiwilua::settings::{clean_token, http_port, lang_store_path};

fn finder() -> LuaFinder {
    LuaFinder::from_games(vec![(
        "730".to_string(),
        vec![LuaFile { source_path: "/l/730/m.lua".to_string(), archive_path: "730/m.lua".to_string() }],
    )])
}

#[test]
fn stems() {
    assert_eq!(archive_stem("Counter Strike 2"), "Counter_Strike_2");
    assert_eq!(archive_stem("!!!"), "kiwilua");
    assert_eq!(archive_stem(&"a".repeat(100)).len(), 64);
    assert_eq!(archive_stem("é-x_"), "_-x".trim_start_matches('_'));
}

#[test]
fn text_replies() {
    let f = finder();
    assert!(matches!(plan_text_reply(None, Some(Lang::En), &f), TextReply::Ignore));
    assert!(matches!(plan_text_reply(Some("  "), Some(Lang::En), &f), TextReply::Ignore));
    assert!(matches!(plan_text_reply(Some("730"), None, &f), TextReply::AskLanguage));
    assert!(matches!(plan_text_reply(Some(&"x".repeat(129)), Some(Lang::De), &f), TextReply::TooLong(Lang::De)));
    assert!(matches!(plan_text_reply(Some(&"x".repeat(128)), Some(Lang::De), &f), TextReply::NotFound(Lang::De)));
    match plan_text_reply(Some(" cs2 "), Some(Lang::Es), &f) {
        TextReply::SendArchive { lang, files, archive_name } => {
            assert_eq!(lang, Lang::Es);
            assert_eq!(files.len(), 1);
            assert_eq!(archive_name, "cs2.zip");
        }
        _ => panic!("expected an archive"),
    }
}

#[test]
fn keyboard() {
    let rows = keyboard_layout();
    assert_eq!(rows.len(), 4);
    assert_eq!(rows[0][0], ("🇬🇧 English".to_string(), "lang:en".to_string()));
    assert_eq!(rows[0][1].1, "lang:es");
    assert_eq!(rows[3], vec![("🇷🇺 Русский".to_string(), "lang:ru".to_string())]);
}

#[test]
fn callbacks() {
    assert_eq!(parse_language_callback(None), CallbackAction::Acknowledge);
    assert_eq!(parse_language_callback(Some("other")), CallbackAction::Acknowledge);
    assert_eq!(parse_language_callback(Some("lang:xx")), CallbackAction::Unsupported);
    assert_eq!(parse_language_callback(Some("lang:tr")), CallbackAction::SetLanguage(Lang::Tr));
}

#[test]
fn confirmation_and_language() {
    assert_eq!(
        language_confirmation(Lang::En),
        "Language set to English.\n\nSend a game AppID or name to search for .lua files."
    );
    assert_eq!(reply_language(None), Lang::En);
    assert_eq!(reply_language(Some(Lang::It)), Lang::It);
}

#[test]
fn settings() {
    assert_eq!(clean_token("  abc \n"), Some("abc".to_string()));
    assert_eq!(clean_token("   "), None);
    assert_eq!(http_port(Some("8080")), 8080);
    assert_eq!(http_port(Some(" 8080")), 7860);
    assert_eq!(http_port(Some("70000")), 7860);
    assert_eq!(http_port(None), 7860);
    assert_eq!(lang_store_path(Some("OFF"), true), None);
    assert_eq!(lang_store_path(Some("None"), false), None);
    assert_eq!(lang_store_path(Some(" /x/y.db"), false), Some(" /x/y.db".to_string()));
    assert_eq!(lang_store_path(Some("  "), true), Some("/data/kiwilua_languages.db".to_string()));
    assert_eq!(lang_store_path(None, false), Some("./data/kiwilua_languages.db".to_string()));
}
