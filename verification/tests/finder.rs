use kiwilua::finder::{
    build_archive_path, build_terms, insert_term, is_lua_file, known_aliases, normalize,
    path_file_stem, sanitize_zip_component, term_matches, LuaFile, LuaFinder,
};

fn file(path: &str, archive: &str) -> LuaFile {
    LuaFile { source_path: path.to_string(), archive_path: archive.to_string() }
}

fn sample() -> LuaFinder {
    LuaFinder::from_games(vec![
        ("730".to_string(), vec![file("./lua_files/730/main.lua", "730/main.lua")]),
        ("empty".to_string(), vec![]),
        (
            "440".to_string(),
            vec![
                file("./lua_files/440/a.lua", "440/a.lua"),
                file("./lua_files/440/sub/Hats_Config.LUA", "440/sub/Hats_Config.LUA"),
            ],
        ),
        ("999".to_string(), vec![file("./lua_files/999/zzz.lua", "999/zzz.lua")]),
    ])
}

fn archives(files: &[LuaFile]) -> Vec<String> {
    files.iter().map(|f| f.archive_path.clone()).collect()
}

#[test]
fn empty_folders_are_not_indexed() {
    let f = sample();
    assert_eq!(f.app_count(), 3);
    assert_eq!(f.file_count(), 4);
}

#[test]
fn search_by_app_id() {
    let f = sample();
    assert_eq!(archives(&f.search(" 440 ")), vec!["440/a.lua", "440/sub/Hats_Config.LUA"]);
}

#[test]
fn search_by_alias() {
    let f = sample();
    assert_eq!(archives(&f.search("Counter-Strike")), vec!["730/main.lua"]);
    assert_eq!(archives(&f.search("tf2")), vec!["440/a.lua", "440/sub/Hats_Config.LUA"]);
}

#[test]
fn search_by_file_stem() {
    let f = sample();
    assert_eq!(archives(&f.search("hats config")), vec!["440/a.lua", "440/sub/Hats_Config.LUA"]);
    assert_eq!(archives(&f.search("ZZZ")), vec!["999/zzz.lua"]);
}

#[test]
fn long_query_containing_a_term_matches() {
    let f = sample();
    assert_eq!(archives(&f.search("please find dota for me")), vec!["440/a.lua", "440/sub/Hats_Config.LUA"]);
    assert_eq!(archives(&f.search("csgo please")), vec!["730/main.lua", "440/a.lua", "440/sub/Hats_Config.LUA"]);
    assert_eq!(archives(&f.search("csgo")), vec!["730/main.lua"]);
}

#[test]
fn blank_and_symbol_queries_find_nothing() {
    let f = sample();
    assert!(f.search("   ").is_empty());
    assert!(f.search("!!!").is_empty());
    assert!(f.search("nothing-like-this").is_empty());
}

#[test]
fn several_games_come_in_index_order() {
    let f = sample();
    assert_eq!(archives(&f.search("9")), vec!["999/zzz.lua"]);
    assert_eq!(archives(&f.search("a")), vec!["730/main.lua", "440/a.lua", "440/sub/Hats_Config.LUA"]);
}

#[test]
fn normalize_examples() {
    assert_eq!(normalize("  Counter-Strike: Global_Offensive. "), "counter strike global offensive");
    assert_eq!(normalize("ÄÖü"), "");
    assert_eq!(normalize("a\u{3000}b"), "a b");
}

#[test]
fn term_matching() {
    assert!(term_matches("cs2", "cs2"));
    assert!(term_matches("counter strike 2", "strike"));
    assert!(term_matches("cs", "cs2 please"));
    assert!(term_matches("cs", "c"));
    assert!(!term_matches("cs", "x"));
    assert!(term_matches("abc", "ab"));
    assert!(!term_matches("abd", "ab x"));
    assert!(!term_matches("ab", "xa"));
    assert!(term_matches("ab", "xab"));
    assert!(term_matches("é", "éa"));
}

#[test]
fn aliases_of_known_games() {
    assert_eq!(known_aliases("570"), vec!["Dota 2", "DOTA"]);
    assert_eq!(known_aliases("730").len(), 5);
    assert!(known_aliases("1").is_empty());
}

#[test]
fn terms_are_sorted_and_distinct() {
    let files = vec![file("/x/dota.lua", "a"), file("/x/.hidden", "b"), file("/x/Dota 2.lua", "c")];
    assert_eq!(build_terms("570", &files), vec!["570".to_string(), "dota".to_string(), "dota 2".to_string(), "hidden".to_string()]);
}

#[test]
fn insert_term_keeps_order() {
    let mut terms = vec!["b".to_string()];
    insert_term(&mut terms, "A");
    insert_term(&mut terms, "c");
    insert_term(&mut terms, "B");
    insert_term(&mut terms, "--");
    assert_eq!(terms, vec!["a".to_string(), "b".to_string(), "c".to_string()]);
}

#[test]
fn lua_extension_any_case() {
    assert!(is_lua_file("/a/b.lua"));
    assert!(is_lua_file("x.LuA"));
    assert!(!is_lua_file("/a/.lua"));
    assert!(!is_lua_file("/a/b.luac"));
    assert!(!is_lua_file("/a/lua"));
}

#[test]
fn file_stems() {
    assert_eq!(path_file_stem("/a/b.tar.gz"), Some("b.tar".to_string()));
    assert_eq!(path_file_stem("/a/.bashrc"), Some(".bashrc".to_string()));
    assert_eq!(path_file_stem("/a/noext"), Some("noext".to_string()));
    assert_eq!(path_file_stem("/a/.."), None);
    assert_eq!(path_file_stem("/"), None);
    assert_eq!(path_file_stem("a/b/"), Some("b".to_string()));
}

#[test]
fn sanitize_examples() {
    assert_eq!(sanitize_zip_component("__My Game!__", "game"), "My_Game");
    assert_eq!(sanitize_zip_component("___", "game"), "game");
    assert_eq!(sanitize_zip_component("ok.lua", "script"), "ok.lua");
}

#[test]
fn archive_paths() {
    assert_eq!(build_archive_path("730", "sub dir/main.lua"), "730/sub_dir/main.lua");
    assert_eq!(build_archive_path("730", "./a/../b.lua"), "730/a/b.lua");
    assert_eq!(build_archive_path("??", ""), "game/script.lua");
}

#[test]
fn file_count_is_the_sum_of_app_id_searches() {
    let f = sample();
    let total: usize = ["730", "440", "999"].iter().map(|id| f.search(id).len()).sum();
    assert_eq!(total, f.file_count());
    assert_eq!(f.file_count(), 4);
}

#[test]
fn every_indexed_game_has_a_file() {
    let f = sample();
    assert!(f.app_count() <= f.file_count());
    let empty = LuaFinder::from_games(vec![("1".to_string(), vec![]), ("2".to_string(), vec![])]);
    assert_eq!(empty.app_count(), 0);
    assert_eq!(empty.file_count(), 0);
}

#[test]
fn sanitized_components_are_clean_and_stable() {
    for v in ["__a b__", "???", "", "ok.lua", "_-_", "Ünïcode name"] {
        let r = sanitize_zip_component(v, "script");
        assert!(!r.is_empty());
        assert!(r.chars().all(|c| c.is_ascii_alphanumeric() || ".-_".contains(c)));
        assert!(!r.starts_with('_') && !r.ends_with('_'));
        assert_eq!(sanitize_zip_component(&r, "script"), r);
    }
    assert_eq!(sanitize_zip_component("???", "script"), "script");
}

#[test]
fn normal_forms_are_stable_and_case_blind() {
    for v in ["  Counter-Strike: Global   Offensive ", "HALF_life.2", "", "¡¿", "a  b"] {
        let r = normalize(v);
        assert_eq!(normalize(&r), r);
        assert!(r.chars().all(|c| c.is_ascii_lowercase() || c.is_ascii_digit() || c == ' '));
        assert!(!r.starts_with(' ') && !r.ends_with(' ') && !r.contains("  "));
        assert_eq!(normalize(&v.to_ascii_uppercase()), r);
    }
    assert_eq!(normalize("  Counter-Strike: Global   Offensive "), "counter strike global offensive");
}
