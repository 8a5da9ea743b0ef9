use kiwilua::source::{
    append_chunk, check_content_length, check_status, classify_response, finish_download, is_zip,
    normalize_legacy_base_url, parse_templates, AttemptError, FetchAttempts, FetchError,
    FetchedConfig, FetchedKind, LuaSourceConfig,
};

#[test]
fn legacy_base_url_becomes_lua_template() {
    assert_eq!(
        normalize_legacy_base_url("https://example.test/database/".to_owned()),
        "https://example.test/database/{app_id}.lua"
    );
}

#[test]
fn classifies_raw_lua() {
    let kind = classify_response(
        "https://example.test/730.lua",
        "text/plain",
        b"addappid(730)",
    )
    .expect("Lua response should be accepted");

    assert_eq!(kind, FetchedKind::Lua);
}

#[test]
fn classifies_zip_by_magic_bytes() {
    let kind = classify_response(
        "https://example.test/730",
        "application/octet-stream",
        b"PK\x03\x04",
    )
    .expect("ZIP response should be accepted");

    assert_eq!(kind, FetchedKind::Zip);
}

#[test]
fn rejects_html_as_lua() {
    let err = classify_response(
        "https://example.test/730.lua",
        "text/html",
        b"<!doctype html>",
    )
    .expect_err("HTML should not be accepted as Lua");

    assert!(matches!(err, AttemptError::InvalidContent(_)));
}

fn reason(r: Result<FetchedKind, AttemptError>) -> String {
    match r {
        Err(AttemptError::InvalidContent(m)) => m,
        other => panic!("expected invalid content, got {:?}", other),
    }
}

#[test]
fn rejects_empty_body() {
    assert_eq!(reason(classify_response("https://x/1.lua", "text/plain", b"")), "empty response body");
}

#[test]
fn rejects_zip_url_without_zip_body() {
    assert_eq!(
        reason(classify_response("https://x/1.ZIP", "application/zip", b"hello")),
        "URL looks like ZIP, but response is not a ZIP file"
    );
}

#[test]
fn rejects_invalid_utf8() {
    assert_eq!(
        reason(classify_response("https://x/1.lua", "text/plain", &[0xff, 0xfe, 0x41])),
        "response is not UTF-8 text"
    );
}

#[test]
fn rejects_html_after_white_space_in_any_case() {
    assert_eq!(
        reason(classify_response("https://x/1.lua", "text/plain", b"  \n<HTML><body>")),
        "response is HTML, not Lua"
    );
}

#[test]
fn rejects_unsupported_content_type_with_debug_quotes() {
    assert_eq!(
        reason(classify_response("https://x/1", "image/png", b"addappid(1)")),
        "unsupported content type \"image/png\""
    );
}

#[test]
fn accepts_lua_by_content_with_empty_type() {
    assert_eq!(classify_response("https://x/1", "", b"setManifestid(1)").unwrap(), FetchedKind::Lua);
}

#[test]
fn rejects_text_that_does_not_look_like_lua() {
    assert!(matches!(
        classify_response("https://x/1.txt", "text/plain", b"hello"),
        Err(AttemptError::InvalidContent(_))
    ));
}

#[test]
fn zip_magic_variants() {
    assert!(is_zip(b"PK\x03\x04rest"));
    assert!(is_zip(b"PK\x05\x06"));
    assert!(is_zip(b"PK\x07\x08"));
    assert!(!is_zip(b"PK\x03"));
    assert!(!is_zip(b"PK\x01\x02"));
}

#[test]
fn legacy_url_with_placeholder_is_kept_trimmed() {
    assert_eq!(
        normalize_legacy_base_url("  https://a/{AppID}.zip \n".to_owned()),
        "https://a/{AppID}.zip"
    );
}

#[test]
fn legacy_url_without_slash() {
    assert_eq!(normalize_legacy_base_url("https://a/b".to_owned()), "https://a/b/{app_id}.lua");
    assert_eq!(normalize_legacy_base_url("https://a/b///".to_owned()), "https://a/b/{app_id}.lua");
}

#[test]
fn templates_are_split_trimmed_and_filtered() {
    assert_eq!(
        parse_templates(" a ,b;\n ;c\n"),
        vec!["a".to_string(), "b".to_string(), "c".to_string()]
    );
    assert!(parse_templates(" , ;").is_empty());
}

#[test]
fn config_defaults() {
    let c = LuaSourceConfig::from_settings(None, None, None, None, None);
    assert_eq!(c.max_download_bytes(), 50 * 1024 * 1024);
    assert_eq!(c.request_timeout_secs(), 20);
    assert_eq!(
        c.render_urls("730"),
        vec!["https://pub-5b6d3b7c03fd4ac1afb5bd3017850e20.r2.dev/730.zip".to_string()]
    );
}

#[test]
fn config_from_settings() {
    let c = LuaSourceConfig::from_settings(
        Some("https://a/{app_id}.lua, https://b/{APPID}/{appid}"),
        Some("https://ignored/{app_id}"),
        None,
        Some("1024"),
        Some("0"),
    );
    assert_eq!(c.max_download_bytes(), 1024);
    assert_eq!(c.request_timeout_secs(), 20);
    assert_eq!(
        c.render_urls("440"),
        vec!["https://a/440.lua".to_string(), "https://b/440/440".to_string()]
    );
}

#[test]
fn config_falls_back_in_order() {
    let c = LuaSourceConfig::from_settings(Some("   "), None, Some("https://db/"), Some("x"), Some("+7"));
    assert_eq!(c.render_urls("570"), vec!["https://db/570.lua".to_string()]);
    assert_eq!(c.max_download_bytes(), 50 * 1024 * 1024);
    assert_eq!(c.request_timeout_secs(), 7);
    let d = LuaSourceConfig::from_settings(Some(",;"), Some("https://x/{app_id}"), None, None, None);
    assert_eq!(d.render_urls("1"), vec!["https://pub-5b6d3b7c03fd4ac1afb5bd3017850e20.r2.dev/1.zip".to_string()]);
}

#[test]
fn render_replaces_every_spelling() {
    let c = LuaSourceConfig::from_settings(Some("{app_id}-{AppID}-{APPID}-{appid}-{APP_ID}"), None, None, None, None);
    assert_eq!(c.render_urls("9"), vec!["9-9-9-9-{APP_ID}".to_string()]);
}

#[test]
fn status_checks() {
    assert!(matches!(check_status(404), Err(AttemptError::NotFound)));
    assert!(matches!(check_status(500), Err(AttemptError::BadStatus(500))));
    assert!(matches!(check_status(301), Err(AttemptError::BadStatus(301))));
    assert!(check_status(200).is_ok());
    assert!(check_status(204).is_ok());
}

#[test]
fn length_and_chunk_limits() {
    assert!(matches!(check_content_length(Some(11), 10), Err(AttemptError::TooLarge { limit: 10 })));
    assert!(check_content_length(Some(10), 10).is_ok());
    assert!(check_content_length(None, 10).is_ok());
    let mut body = vec![1u8, 2, 3];
    assert!(append_chunk(&mut body, &[4, 5], 5).is_ok());
    assert_eq!(body, vec![1, 2, 3, 4, 5]);
    assert!(matches!(append_chunk(&mut body, &[6], 5), Err(AttemptError::TooLarge { limit: 5 })));
    assert_eq!(body, vec![1, 2, 3, 4, 5]);
}

#[test]
fn finish_download_lowercases_content_type() {
    let c = finish_download("https://x/730", Some("TEXT/Plain"), b"addappid(730)".to_vec()).unwrap();
    assert_eq!(c.kind, FetchedKind::Lua);
    assert_eq!(c.source_url, "https://x/730");
    assert_eq!(c.bytes, b"addappid(730)".to_vec());
    assert!(finish_download("https://x/730", None, b"addappid(730)".to_vec()).is_ok());
}

#[test]
fn attempt_messages() {
    assert_eq!(AttemptError::NotFound.message(), "404 Not Found");
    assert_eq!(AttemptError::BadStatus(503).message(), "HTTP 503");
    assert_eq!(AttemptError::Network("timeout".to_string()).message(), "network error: timeout");
    assert_eq!(AttemptError::TooLarge { limit: 100 }.message(), "download is larger than 100 bytes");
    assert_eq!(AttemptError::InvalidContent("x".to_string()).message(), "invalid content: x");
}

#[test]
fn only_404s_give_not_found() {
    let mut a = FetchAttempts::new();
    a.record_failure("https://a", &AttemptError::NotFound);
    a.record_failure("https://b", &AttemptError::NotFound);
    match a.finish() {
        FetchError::NotFound { attempts } => {
            assert_eq!(attempts, vec!["https://a: 404 Not Found".to_string(), "https://b: 404 Not Found".to_string()]);
        }
        other => panic!("unexpected {:?}", other),
    }
    let mut b = FetchAttempts::new();
    b.record_failure("https://a", &AttemptError::NotFound);
    b.record_failure("https://b", &AttemptError::BadStatus(500));
    let e = b.finish();
    assert!(matches!(e, FetchError::Unavailable { .. }));
    assert_eq!(
        e.message(),
        "sources unavailable: [\"https://a: 404 Not Found\", \"https://b: HTTP 500\"]"
    );
    assert_eq!(FetchAttempts::new().finish().message(), "config not found: []");
}

#[test]
fn a_fetched_config_ends_the_fetch() {
    let mut attempts = FetchAttempts::new();
    let failed = attempts.observe("https://a/1.lua", Err(AttemptError::NotFound));
    assert!(failed.is_none());
    let found = attempts.observe(
        "https://b/1.lua",
        Ok(FetchedConfig { source_url: "https://b/1.lua".to_string(), kind: FetchedKind::Lua, bytes: b"x".to_vec() }),
    );
    assert_eq!(found.unwrap().source_url, "https://b/1.lua");
    match attempts.finish() {
        FetchError::NotFound { attempts } => assert_eq!(attempts, vec!["https://a/1.lua: 404 Not Found".to_string()]),
        FetchError::Unavailable { .. } => panic!("only a 404 was recorded"),
    }
}
