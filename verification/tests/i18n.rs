use kiwilua::i18n::store::{parse_language_file, render_entries};
use kiwilua::i18n::texts::{
    choose_language, choose_language_initial, help_text, language_set, no_language_set, ready,
};
use kiwilua::i18n::{Lang, LangStore};

#[test]
fn codes_round_trip() {
    for lang in Lang::ALL {
        assert_eq!(Lang::from_code(lang.code()), Some(lang));
    }
    assert_eq!(Lang::from_code("EN"), None);
    assert_eq!(Lang::from_code(""), None);
    assert_eq!(Lang::all(), Lang::ALL.to_vec());
}

#[test]
fn names_and_texts() {
    assert_eq!(Lang::De.display_name(), "🇩🇪 Deutsch");
    assert_eq!(choose_language(Lang::Fr), "Choisissez votre langue :");
    assert_eq!(choose_language_initial(), "Welcome to KiwiLua Bot.\n\nChoose your language:");
    assert_eq!(no_language_set(), "Please choose a language first.\n\nUse /start or /language.");
    assert!(ready(Lang::En).starts_with("🥝 Ready."));
    assert_eq!(help_text(Lang::Ru), "Контакт разработчика: @KiwiLua\nВремя ответа: 2-4 дня.");
}

#[test]
fn store_get_after_set() {
    let mut s = LangStore::new(None);
    assert_eq!(s.get(5), None);
    s.set(5, Lang::Tr);
    s.set(-100, Lang::It);
    s.set(5, Lang::Es);
    assert_eq!(s.get(5), Some(Lang::Es));
    assert_eq!(s.get(-100), Some(Lang::It));
    assert_eq!(s.path(), None);
}

#[test]
fn file_text_is_sorted_lines() {
    let mut s = LangStore::new(Some("/tmp/x.db".to_string()));
    s.set(30, Lang::Ru);
    s.set(-7, Lang::De);
    s.set(2, Lang::En);
    assert_eq!(s.file_text(), "-7 de\n2 en\n30 ru\n");
    assert_eq!(s.sorted_entries(), vec![(-7, Lang::De), (2, Lang::En), (30, Lang::Ru)]);
    assert_eq!(s.path(), Some("/tmp/x.db".to_string()));
}

#[test]
fn load_skips_bad_lines() {
    let mut s = LangStore::new(None);
    let n = s.load_text("1 en\n\nnot a line\n2 xx\n3\n  4   fr  extra\r\n-9223372036854775808 ru\n9223372036854775808 en\n+5 it");
    assert_eq!(n, 4);
    assert_eq!(s.get(1), Some(Lang::En));
    assert_eq!(s.get(4), Some(Lang::Fr));
    assert_eq!(s.get(i64::MIN), Some(Lang::Ru));
    assert_eq!(s.get(5), Some(Lang::It));
    assert_eq!(s.get(2), None);
}

#[test]
fn written_file_reads_back() {
    let mut s = LangStore::new(None);
    s.set(i64::MAX, Lang::En);
    s.set(i64::MIN, Lang::Fr);
    s.set(0, Lang::Tr);
    let text = s.file_text();
    let mut t = LangStore::new(None);
    assert_eq!(t.load_text(&text), 3);
    assert_eq!(t.sorted_entries(), s.sorted_entries());
}

#[test]
fn render_and_parse() {
    let es = vec![(1, Lang::En), (-2, Lang::Ru)];
    let text = render_entries(&es);
    assert_eq!(text, "1 en\n-2 ru\n");
    assert_eq!(parse_language_file(&text), es);
    assert_eq!(parse_language_file("1 en\r\n2 de\r"), vec![(1, Lang::En), (2, Lang::De)]);
}

#[test]
fn display_names_are_flag_space_name_and_distinct() {
    assert_eq!(Lang::En.display_name(), "🇬🇧 English");
    assert_eq!(Lang::Ru.display_name(), "🇷🇺 Русский");
    let names: Vec<&str> = Lang::ALL.iter().map(|l| l.display_name()).collect();
    for (i, n) in names.iter().enumerate() {
        let chars: Vec<char> = n.chars().collect();
        assert!(('\u{1F1E6}'..='\u{1F1FF}').contains(&chars[0]));
        assert!(('\u{1F1E6}'..='\u{1F1FF}').contains(&chars[1]));
        assert_eq!(chars[2], ' ');
        for m in &names[i + 1..] {
            assert_ne!(n, m);
        }
    }
}

#[test]
fn ready_texts_share_markers_and_differ() {
    assert_eq!(
        ready(Lang::En),
        "🥝 Ready. Send a game AppID or name and I will return a ZIP with .lua files."
    );
    for (i, a) in Lang::ALL.iter().enumerate() {
        let t = ready(*a);
        assert!(t.starts_with("🥝 "));
        assert!(t.contains("AppID") && t.contains("ZIP") && t.contains(".lua"));
        for b in &Lang::ALL[i + 1..] {
            assert_ne!(t, ready(*b));
        }
    }
}

#[test]
fn language_prompts_end_with_colon_and_differ() {
    assert_eq!(choose_language(Lang::En), "Choose your language:");
    for (i, a) in Lang::ALL.iter().enumerate() {
        assert!(choose_language(*a).ends_with(':'));
        for b in &Lang::ALL[i + 1..] {
            assert_ne!(choose_language(*a), choose_language(*b));
        }
    }
}

#[test]
fn confirmations_name_the_language_and_differ() {
    assert_eq!(language_set(Lang::En), "Language set to English.");
    for (i, a) in Lang::ALL.iter().enumerate() {
        let name = a.display_name().split_once(' ').unwrap().1;
        assert!(language_set(*a).contains(name));
        for b in &Lang::ALL[i + 1..] {
            assert_ne!(language_set(*a), language_set(*b));
        }
    }
}
