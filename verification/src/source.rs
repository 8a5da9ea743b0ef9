use vstd::prelude::*;

use crate::finder::slash_sep;
use crate::num::{decimal, decimal_chars, parse_u64, unsigned_text};
use vstd::utf8::{decode_utf8, valid_utf8};

use crate::text::{
    append_chars, ascii_lower, lower_str, ends_with, ends_with_chars, lower_chars, starts_with,
    starts_with_chars, trim_start, trim_start_chars, lemma_nonempty_pieces, lemma_replace_absent,
    lemma_trim_idempotent, append_str, char_views, chars_of, contains, contains_chars, copy_range,
    nonempty_pieces, owned, replace_all, replace_chars, split_by, split_by_mask, string_from_chars,
    string_views, strip_end, trim, trim_chars,
};

verus! {

// ---------------------------------------------------------------------------
// Source URL templates.
// ---------------------------------------------------------------------------

/// The characters that separate templates in a setting.
pub open spec fn template_sep() -> spec_fn(char) -> bool {
    |c: char| c == '\n' || c == ',' || c == ';'
}

/// The templates listed in a setting: the pieces between newlines, commas and
/// semicolons, trimmed, without empty ones.
pub open spec fn parsed_templates(value: Seq<char>) -> Seq<Seq<char>> {
    nonempty_pieces(split_by(value, template_sep()).map_values(|p: Seq<char>| trim(p)))
}

/// The templates listed in `value`, separated by newlines, commas or
/// semicolons, trimmed, empty ones left out.
pub fn parse_templates(value: &str) -> (r: Vec<String>)
    ensures
        string_views(r@) == parsed_templates(value@),
{
    let cs = chars_of(value);
    let mut mask: Vec<bool> = Vec::new();
    let mut i: usize = 0;
    while i < cs.len()
        invariant
            i <= cs@.len(),
            mask@.len() == i,
            forall|j: int| 0 <= j < i ==> mask@[j] == template_sep()(#[trigger] cs@[j]),
        decreases cs@.len() - i,
    {
        let c = cs[i];
        mask.push(c == '\n' || c == ',' || c == ';');
        i = i + 1;
    }
    let pieces = split_by_mask(cs.as_slice(), mask.as_slice(), Ghost(template_sep()));
    let ghost trimmed = char_views(pieces@).map_values(|p: Seq<char>| trim(p));
    let mut r: Vec<String> = Vec::new();
    let mut k: usize = 0;
    assert(trimmed.take(0) =~= Seq::<Seq<char>>::empty());
    assert(nonempty_pieces(Seq::<Seq<char>>::empty()) == Seq::<Seq<char>>::empty());
    assert(string_views(r@) =~= Seq::<Seq<char>>::empty());
    while k < pieces.len()
        invariant
            k <= pieces@.len(),
            trimmed == char_views(pieces@).map_values(|p: Seq<char>| trim(p)),
            string_views(r@) == nonempty_pieces(trimmed.take(k as int)),
        decreases pieces@.len() - k,
    {
        let t = trim_chars(pieces[k].as_slice());
        assert(trimmed.take(k + 1).drop_last() =~= trimmed.take(k as int));
        assert(trimmed.take(k + 1).last() == t@);
        if t.len() > 0 {
            let ghost before = string_views(r@);
            r.push(string_from_chars(t.as_slice()));
            assert(string_views(r@) =~= before.push(t@));
        }
        k = k + 1;
    }
    assert(trimmed.take(pieces@.len() as int) =~= trimmed);
    r
}

/// The placeholders that a template may hold for the AppID.
pub open spec fn placeholders() -> Seq<Seq<char>> {
    seq!["{app_id}"@, "{AppID}"@, "{APPID}"@, "{appid}"@]
}

/// A template with every placeholder replaced by `app_id`, one placeholder
/// spelling after the other.
pub open spec fn rendered(template: Seq<char>, app_id: Seq<char>) -> Seq<char> {
    replace_all(
        replace_all(
            replace_all(replace_all(template, "{app_id}"@, app_id), "{AppID}"@, app_id),
            "{APPID}"@,
            app_id,
        ),
        "{appid}"@,
        app_id,
    )
}

/// The template that a legacy base URL setting stands for: the trimmed value
/// where it holds a placeholder already; else the value without trailing
/// slashes, followed by `/{app_id}.lua`.
pub open spec fn legacy_template(value: Seq<char>) -> Seq<char> {
    let v = trim(value);
    if contains(v, "{app_id}"@) || contains(v, "{AppID}"@) || contains(v, "{APPID}"@) || contains(
        v,
        "{appid}"@,
    ) {
        v
    } else {
        strip_end(v, slash_sep()) + "/{app_id}.lua"@
    }
}

/// The template that a legacy base URL setting stands for.
pub fn normalize_legacy_base_url(value: String) -> (r: String)
    ensures
        r@ == legacy_template(value@),
{
    let cs = chars_of(value.as_str());
    let v = trim_chars(cs.as_slice());
    let has = contains_chars(v.as_slice(), chars_of("{app_id}").as_slice())
        || contains_chars(v.as_slice(), chars_of("{AppID}").as_slice())
        || contains_chars(v.as_slice(), chars_of("{APPID}").as_slice())
        || contains_chars(v.as_slice(), chars_of("{appid}").as_slice());
    if has {
        return string_from_chars(v.as_slice());
    }
    let mut b = v.len();
    assert(v@.take(b as int) =~= v@);
    while b > 0 && v[b - 1] == '/'
        invariant
            b <= v@.len(),
            strip_end(v@, slash_sep()) == strip_end(v@.take(b as int), slash_sep()),
        decreases b,
    {
        assert(v@.take(b as int).drop_last() =~= v@.take(b - 1));
        b = b - 1;
    }
    let mut out = copy_range(v.as_slice(), 0, b);
    assert(out@ =~= v@.take(b as int));
    append_str(&mut out, "/{app_id}.lua");
    string_from_chars(out.as_slice())
}

/// The template used where no setting lists one.
pub open spec fn default_templates() -> Seq<Seq<char>> {
    seq!["https://pub-5b6d3b7c03fd4ac1afb5bd3017850e20.r2.dev/{app_id}.zip"@]
}

/// The download limit used where no valid one is set: 50 MiB.
pub const DEFAULT_MAX_DOWNLOAD_BYTES: usize = 52428800;

/// The request timeout in seconds used where no valid one is set.
pub const DEFAULT_SOURCE_TIMEOUT_SECS: u64 = 20;

/// A setting as it is used: trimmed, and absent where it is blank.
pub open spec fn env_value(raw: Option<Seq<char>>) -> Option<Seq<char>> {
    match raw {
        Some(v) => if trim(v).len() > 0 {
            Some(trim(v))
        } else {
            None
        },
        None => None,
    }
}

/// The templates configured by the three template settings, tried in order:
/// the list, the single template, the legacy base URL.
pub open spec fn configured_templates(
    list: Option<Seq<char>>,
    single: Option<Seq<char>>,
    legacy: Option<Seq<char>>,
) -> Seq<Seq<char>> {
    let chosen = match env_value(list) {
        Some(v) => Some(v),
        None => match env_value(single) {
            Some(v) => Some(v),
            None => match env_value(legacy) {
                Some(v) => Some(legacy_template(v)),
                None => None,
            },
        },
    };
    match chosen {
        Some(v) => if parsed_templates(v).len() > 0 {
            parsed_templates(v)
        } else {
            default_templates()
        },
        None => default_templates(),
    }
}

/// The template settings take effect in order. Where the template list is
/// set (not blank) and lists templates, they are the ones configured.
/// Where it is unset or blank and the single template setting is set and
/// lists templates, those are configured, whatever the legacy base URL.
/// Where both are unset or blank, a set legacy base URL gives its template;
/// where all three are, the default source is used.
pub proof fn lemma_template_settings_order(
    list: Option<Seq<char>>,
    single: Option<Seq<char>>,
    legacy: Option<Seq<char>>,
)
    ensures
        (list matches Some(v) && trim(v).len() > 0 && parsed_templates(trim(v)).len() > 0)
            ==> configured_templates(list, single, legacy) == parsed_templates(trim(list->0)),
        ((list is None || trim(list->0).len() == 0) && (single matches Some(v) && trim(v).len() > 0
            && parsed_templates(trim(v)).len() > 0))
            ==> configured_templates(list, single, legacy) == parsed_templates(trim(single->0)),
        ((list is None || trim(list->0).len() == 0) && (single is None || trim(single->0).len() == 0)
            && (legacy matches Some(v) && trim(v).len() > 0 && parsed_templates(legacy_template(trim(v))).len() > 0))
            ==> configured_templates(list, single, legacy) == parsed_templates(legacy_template(trim(legacy->0))),
        ((list is None || trim(list->0).len() == 0) && (single is None || trim(single->0).len() == 0)
            && (legacy is None || trim(legacy->0).len() == 0)) ==> configured_templates(list, single, legacy)
            == seq!["https://pub-5b6d3b7c03fd4ac1afb5bd3017850e20.r2.dev/{app_id}.zip"@],
{
}

/// A positive whole number setting, or `default` where it is absent, not a
/// number, zero, or above `max`.
pub open spec fn positive_setting(raw: Option<Seq<char>>, max: nat, default: nat) -> nat {
    match raw {
        Some(v) => match unsigned_text(v) {
            Some(n) => if 0 < n <= max {
                n
            } else {
                default
            },
            None => default,
        },
        None => default,
    }
}

/// A setting trimmed, absent where blank.
pub fn env_setting(raw: Option<&str>) -> (r: Option<String>)
    ensures
        match r {
            Some(s) => env_value(match raw {
                Some(v) => Some(v@),
                None => None,
            }) == Some(s@),
            None => env_value(match raw {
                Some(v) => Some(v@),
                None => None,
            }) is None,
        },
{
    match raw {
        Some(v) => {
            let t = trim_chars(chars_of(v).as_slice());
            if t.len() > 0 {
                Some(string_from_chars(t.as_slice()))
            } else {
                None
            }
        },
        None => None,
    }
}

fn positive_number(raw: Option<&str>, max: u64, default: u64) -> (r: u64)
    requires
        default <= max,
    ensures
        r == positive_setting(
            match raw {
                Some(v) => Some(v@),
                None => None,
            },
            max as nat,
            default as nat,
        ),
{
    match raw {
        Some(v) => match parse_u64(chars_of(v).as_slice()) {
            Some(n) => if 0 < n && n <= max {
                n
            } else {
                default
            },
            None => default,
        },
        None => default,
    }
}

/// Where configurations for games are fetched from, and with what limits.
#[derive(Debug, Clone)]
pub struct LuaSourceConfig {
    templates: Vec<String>,
    max_download_bytes: usize,
    request_timeout_secs: u64,
}

/// The view of an optional string setting.
pub open spec fn opt_view(o: Option<&str>) -> Option<Seq<char>> {
    match o {
        Some(v) => Some(v@),
        None => None,
    }
}

impl LuaSourceConfig {
    /// The URL templates, in the order they are tried.
    pub closed spec fn template_list(&self) -> Seq<Seq<char>> {
        string_views(self.templates@)
    }

    /// The largest download accepted, in bytes.
    pub closed spec fn byte_limit(&self) -> nat {
        self.max_download_bytes as nat
    }

    /// The timeout of one request, in seconds.
    pub closed spec fn timeout_secs(&self) -> nat {
        self.request_timeout_secs as nat
    }

    /// The configuration from the raw settings (each `None` where unset):
    /// the URL template list, the single URL template, the legacy base URL,
    /// the download limit in bytes and the request timeout in seconds.
    pub fn from_settings(
        templates: Option<&str>,
        template: Option<&str>,
        legacy_base_url: Option<&str>,
        max_bytes: Option<&str>,
        timeout_secs: Option<&str>,
    ) -> (r: LuaSourceConfig)
        ensures
            r.template_list() == configured_templates(
                opt_view(templates),
                opt_view(template),
                opt_view(legacy_base_url),
            ),
            r.byte_limit() == positive_setting(
                opt_view(max_bytes),
                usize::MAX as nat,
                DEFAULT_MAX_DOWNLOAD_BYTES as nat,
            ),
            r.timeout_secs() == positive_setting(
                opt_view(timeout_secs),
                u64::MAX as nat,
                DEFAULT_SOURCE_TIMEOUT_SECS as nat,
            ),
    {
        let chosen: Option<String> = match env_setting(templates) {
            Some(v) => Some(v),
            None => match env_setting(template) {
                Some(v) => Some(v),
                None => match env_setting(legacy_base_url) {
                    Some(v) => Some(normalize_legacy_base_url(v)),
                    None => None,
                },
            },
        };
        let mut list: Vec<String> = match chosen {
            Some(v) => parse_templates(v.as_str()),
            None => Vec::new(),
        };
        if list.len() == 0 {
            list.push(owned("https://pub-5b6d3b7c03fd4ac1afb5bd3017850e20.r2.dev/{app_id}.zip"));
            assert(string_views(list@) =~= default_templates());
        }
        let max = positive_number(max_bytes, usize::MAX as u64, DEFAULT_MAX_DOWNLOAD_BYTES as u64);
        let timeout = positive_number(timeout_secs, u64::MAX, DEFAULT_SOURCE_TIMEOUT_SECS);
        LuaSourceConfig { templates: list, max_download_bytes: max as usize, request_timeout_secs: timeout }
    }

    /// How many URL templates are configured.
    pub fn template_count(&self) -> (r: usize)
        ensures
            r == self.template_list().len(),
    {
        self.templates.len()
    }

    /// The largest download accepted, in bytes.
    pub fn max_download_bytes(&self) -> (r: usize)
        ensures
            r == self.byte_limit(),
    {
        self.max_download_bytes
    }

    /// The timeout of one request, in seconds.
    pub fn request_timeout_secs(&self) -> (r: u64)
        ensures
            r == self.timeout_secs(),
    {
        self.request_timeout_secs
    }

    /// The URLs to try for `app_id`: each template with its placeholders
    /// replaced, in template order.
    pub fn render_urls(&self, app_id: &str) -> (r: Vec<String>)
        ensures
            string_views(r@) == self.template_list().map_values(|t: Seq<char>| rendered(t, app_id@)),
    {
        let id = chars_of(app_id);
        let p1 = chars_of("{app_id}");
        let p2 = chars_of("{AppID}");
        let p3 = chars_of("{APPID}");
        let p4 = chars_of("{appid}");
        proof {
            reveal_strlit("{app_id}");
            reveal_strlit("{AppID}");
            reveal_strlit("{APPID}");
            reveal_strlit("{appid}");
        }
        let mut r: Vec<String> = Vec::new();
        let mut i: usize = 0;
        while i < self.templates.len()
            invariant
                i <= self.templates@.len(),
                id@ == app_id@,
                p1@ == "{app_id}"@,
                p2@ == "{AppID}"@,
                p3@ == "{APPID}"@,
                p4@ == "{appid}"@,
                p1@.len() > 0 && p2@.len() > 0 && p3@.len() > 0 && p4@.len() > 0,
                string_views(r@) == self.template_list().take(i as int).map_values(
                    |t: Seq<char>| rendered(t, app_id@),
                ),
            decreases self.templates@.len() - i,
        {
            let t = chars_of(self.templates[i].as_str());
            let a = replace_chars(t.as_slice(), p1.as_slice(), id.as_slice());
            let b = replace_chars(a.as_slice(), p2.as_slice(), id.as_slice());
            let c = replace_chars(b.as_slice(), p3.as_slice(), id.as_slice());
            let d = replace_chars(c.as_slice(), p4.as_slice(), id.as_slice());
            let ghost before = string_views(r@);
            r.push(string_from_chars(d.as_slice()));
            assert(string_views(r@) =~= before.push(d@));
            assert(self.template_list().take(i + 1) =~= self.template_list().take(i as int).push(
                self.templates@[i as int]@,
            ));
            assert(string_views(r@) =~= self.template_list().take(i + 1).map_values(
                |t: Seq<char>| rendered(t, app_id@),
            ));
            i = i + 1;
        }
        assert(self.template_list().take(self.templates@.len() as int) =~= self.template_list());
        r
    }
}

// ---------------------------------------------------------------------------
// Classifying a downloaded body.
// ---------------------------------------------------------------------------

/// What a fetched configuration is.
#[derive(Debug, Clone, Copy, PartialEq, Eq, Structural)]
pub enum FetchedKind {
    Lua,
    Zip,
}

/// A configuration fetched from one of the sources.
#[derive(Debug)]
pub struct FetchedConfig {
    pub source_url: String,
    pub kind: FetchedKind,
    pub bytes: Vec<u8>,
}

/// Why fetching a configuration failed: no source had it, or some source
/// failed otherwise. Each attempt is summarized as `url: reason`.
#[derive(Debug)]
pub enum FetchError {
    NotFound { attempts: Vec<String> },
    Unavailable { attempts: Vec<String> },
}

/// Why one source could not deliver a configuration.
#[derive(Debug)]
pub enum AttemptError {
    NotFound,
    BadStatus(u16),
    Network(String),
    TooLarge { limit: usize },
    InvalidContent(String),
}

/// The bytes begin with one of the ZIP signatures `PK\x03\x04`,
/// `PK\x05\x06` or `PK\x07\x08`.
pub open spec fn zip_magic(b: Seq<u8>) -> bool {
    &&& b.len() >= 4
    &&& b[0] == 0x50u8
    &&& b[1] == 0x4bu8
    &&& ((b[2] == 3u8 && b[3] == 4u8) || (b[2] == 5u8 && b[3] == 6u8) || (b[2] == 7u8 && b[3] == 8u8))
}

/// Whether `bytes` begins with a ZIP signature.
pub fn is_zip(bytes: &[u8]) -> (r: bool)
    ensures
        r == zip_magic(bytes@),
{
    bytes.len() >= 4 && bytes[0] == 0x50 && bytes[1] == 0x4b && ((bytes[2] == 3 && bytes[3] == 4)
        || (bytes[2] == 5 && bytes[3] == 6) || (bytes[2] == 7 && bytes[3] == 8))
}

/// The quoted, escaped spelling that `{:?}` gives a string.
pub uninterp spec fn str_debug(s: Seq<char>) -> Seq<char>;

/// Formats `s` with `{:?}` (std's `Debug` for `str`): the text in double
/// quotes with special characters escaped. The contract names the result
/// without stating the escaping rules.
#[verifier::external_body]
pub(crate) fn debug_str(s: &str) -> (r: String)
    ensures
        r@ == str_debug(s@),
{
    format!("{:?}", s)
}

/// Decodes `bytes` as UTF-8 with `std::str::from_utf8`: it succeeds exactly
/// on well-formed UTF-8, and then gives the encoded characters.
#[verifier::external_body]
fn utf8_decode(bytes: &[u8]) -> (r: Option<String>)
    ensures
        r is Some <==> valid_utf8(bytes@),
        r matches Some(s) ==> s@ == decode_utf8(bytes@),
{
    match std::str::from_utf8(bytes) {
        Ok(s) => Some(s.to_owned()),
        Err(_) => None,
    }
}

/// How a downloaded body is classified, from its URL, its lower-cased
/// content type and its bytes: a ZIP by its signature; otherwise Lua when it
/// is UTF-8 text, not HTML, looks like Lua (by content or URL) and came with
/// a text-like content type. The error is the reason given for rejecting it.
pub open spec fn classification(url: Seq<char>, content_type: Seq<char>, bytes: Seq<u8>) -> Result<FetchedKind, Seq<char>> {
    let lower_url = ascii_lower(url);
    if bytes.len() == 0 {
        Err("empty response body"@)
    } else if zip_magic(bytes) {
        Ok(FetchedKind::Zip)
    } else if ends_with(lower_url, ".zip"@) {
        Err("URL looks like ZIP, but response is not a ZIP file"@)
    } else if !valid_utf8(bytes) {
        Err("response is not UTF-8 text"@)
    } else {
        let text = decode_utf8(bytes);
        let start = ascii_lower(trim_start(text));
        if starts_with(start, "<!doctype html"@) || starts_with(start, "<html"@) {
            Err("response is HTML, not Lua"@)
        } else {
            let looks_like_lua = contains(text, "addappid"@) || contains(text, "setManifestid"@)
                || ends_with(lower_url, ".lua"@);
            let text_type = starts_with(content_type, "text/"@) || contains(content_type, "lua"@)
                || contains(content_type, "octet-stream"@) || content_type.len() == 0;
            if looks_like_lua && text_type {
                Ok(FetchedKind::Lua)
            } else {
                Err("unsupported content type "@ + str_debug(content_type))
            }
        }
    }
}

/// A body that is not empty, not a ZIP, is UTF-8 text that does not open as
/// HTML, and looks like Lua (it calls `addappid` or `setManifestid`, or its
/// URL ends in `.lua`), from a URL that does not end in `.zip`, is accepted as
/// Lua whenever its content type begins with `text/`, mentions `lua` or
/// `octet-stream`, or is empty.
pub proof fn lemma_lua_body_accepted(url: Seq<char>, content_type: Seq<char>, bytes: Seq<u8>)
    requires
        bytes.len() > 0,
        !zip_magic(bytes),
        !ends_with(ascii_lower(url), ".zip"@),
        valid_utf8(bytes),
        !starts_with(ascii_lower(trim_start(decode_utf8(bytes))), "<!doctype html"@),
        !starts_with(ascii_lower(trim_start(decode_utf8(bytes))), "<html"@),
        contains(decode_utf8(bytes), "addappid"@) || contains(decode_utf8(bytes), "setManifestid"@)
            || ends_with(ascii_lower(url), ".lua"@),
        starts_with(content_type, "text/"@) || contains(content_type, "lua"@)
            || contains(content_type, "octet-stream"@) || content_type.len() == 0,
    ensures
        classification(url, content_type, bytes) == Ok::<FetchedKind, Seq<char>>(FetchedKind::Lua),
{
}

/// What is refused, and why: an empty body; a body without a ZIP signature
/// from a URL ending in `.zip`; one that is not UTF-8; one that opens as
/// HTML; and Lua-looking text whose content type is none of the accepted
/// ones. A body with a ZIP signature is a ZIP whatever its URL and type.
pub proof fn lemma_bodies_refused(url: Seq<char>, content_type: Seq<char>, bytes: Seq<u8>)
    ensures
        bytes.len() == 0 ==> classification(url, content_type, bytes) == Err::<FetchedKind, Seq<char>>(
            "empty response body"@,
        ),
        zip_magic(bytes) ==> classification(url, content_type, bytes) == Ok::<FetchedKind, Seq<char>>(
            FetchedKind::Zip,
        ),
        (bytes.len() > 0 && !zip_magic(bytes) && ends_with(ascii_lower(url), ".zip"@))
            ==> classification(url, content_type, bytes) == Err::<FetchedKind, Seq<char>>(
            "URL looks like ZIP, but response is not a ZIP file"@,
        ),
        (bytes.len() > 0 && !zip_magic(bytes) && !ends_with(ascii_lower(url), ".zip"@) && !valid_utf8(bytes))
            ==> classification(url, content_type, bytes) == Err::<FetchedKind, Seq<char>>(
            "response is not UTF-8 text"@,
        ),
        (bytes.len() > 0 && !zip_magic(bytes) && !ends_with(ascii_lower(url), ".zip"@) && valid_utf8(bytes)
            && (starts_with(ascii_lower(trim_start(decode_utf8(bytes))), "<!doctype html"@) || starts_with(
            ascii_lower(trim_start(decode_utf8(bytes))),
            "<html"@,
        ))) ==> classification(url, content_type, bytes) == Err::<FetchedKind, Seq<char>>(
            "response is HTML, not Lua"@,
        ),
        (bytes.len() > 0 && !zip_magic(bytes) && !ends_with(ascii_lower(url), ".zip"@) && valid_utf8(bytes)
            && !starts_with(ascii_lower(trim_start(decode_utf8(bytes))), "<!doctype html"@) && !starts_with(
            ascii_lower(trim_start(decode_utf8(bytes))),
            "<html"@,
        ) && !(starts_with(content_type, "text/"@) || contains(content_type, "lua"@) || contains(
            content_type,
            "octet-stream"@,
        ) || content_type.len() == 0)) ==> classification(url, content_type, bytes) is Err,
{
}

/// An error of invalid content with the given reason.
fn invalid(reason: &str) -> (r: AttemptError)
    ensures
        r matches AttemptError::InvalidContent(m) && m@ == reason@,
{
    AttemptError::InvalidContent(owned(reason))
}

/// Classifies a downloaded body by its URL, lower-cased content type and bytes.
pub fn classify_response(url: &str, content_type: &str, bytes: &[u8]) -> (r: Result<FetchedKind, AttemptError>)
    ensures
        match classification(url@, content_type@, bytes@) {
            Ok(k) => (r matches Ok(k2) && k2 == k),
            Err(reason) => (r matches Err(AttemptError::InvalidContent(m)) && m@ == reason),
        },
{
    if bytes.len() == 0 {
        return Err(invalid("empty response body"));
    }
    if is_zip(bytes) {
        return Ok(FetchedKind::Zip);
    }
    let lower_url = lower_chars(chars_of(url).as_slice());
    if ends_with_chars(lower_url.as_slice(), chars_of(".zip").as_slice()) {
        return Err(invalid("URL looks like ZIP, but response is not a ZIP file"));
    }
    let text = match utf8_decode(bytes) {
        Some(t) => t,
        None => {
            return Err(invalid("response is not UTF-8 text"));
        },
    };
    let tc = chars_of(text.as_str());
    let start = lower_chars(trim_start_chars(tc.as_slice()).as_slice());
    if starts_with_chars(start.as_slice(), chars_of("<!doctype html").as_slice())
        || starts_with_chars(start.as_slice(), chars_of("<html").as_slice()) {
        return Err(invalid("response is HTML, not Lua"));
    }
    let looks_like_lua = contains_chars(tc.as_slice(), chars_of("addappid").as_slice())
        || contains_chars(tc.as_slice(), chars_of("setManifestid").as_slice())
        || ends_with_chars(lower_url.as_slice(), chars_of(".lua").as_slice());
    let ct = chars_of(content_type);
    let text_type = starts_with_chars(ct.as_slice(), chars_of("text/").as_slice())
        || contains_chars(ct.as_slice(), chars_of("lua").as_slice())
        || contains_chars(ct.as_slice(), chars_of("octet-stream").as_slice())
        || ct.len() == 0;
    if looks_like_lua && text_type {
        Ok(FetchedKind::Lua)
    } else {
        let mut msg = chars_of("unsupported content type ");
        let dbg = debug_str(content_type);
        append_str(&mut msg, dbg.as_str());
        Err(AttemptError::InvalidContent(string_from_chars(msg.as_slice())))
    }
}

// ---------------------------------------------------------------------------
// Messages.
// ---------------------------------------------------------------------------

/// The pieces joined with `sep` between neighbours.
pub open spec fn join_sep(ws: Seq<Seq<char>>, sep: Seq<char>) -> Seq<char>
    decreases ws.len(),
{
    if ws.len() == 0 {
        Seq::<char>::empty()
    } else if ws.len() == 1 {
        ws[0]
    } else {
        join_sep(ws.drop_last(), sep) + sep + ws.last()
    }
}

/// What `{:?}` gives a list of strings: each one quoted, separated by
/// `, `, within square brackets.
pub open spec fn debug_list(items: Seq<Seq<char>>) -> Seq<char> {
    "["@ + join_sep(items.map_values(|s: Seq<char>| str_debug(s)), ", "@) + "]"@
}

/// What `{:?}` gives `items`.
fn debug_strings(items: &Vec<String>) -> (r: Vec<char>)
    ensures
        r@ == debug_list(string_views(items@)),
{
    let ghost d = string_views(items@).map_values(|s: Seq<char>| str_debug(s));
    let mut body: Vec<char> = Vec::new();
    let mut i: usize = 0;
    assert(d.take(0) =~= Seq::<Seq<char>>::empty());
    while i < items.len()
        invariant
            i <= items@.len(),
            d == string_views(items@).map_values(|s: Seq<char>| str_debug(s)),
            body@ == join_sep(d.take(i as int), ", "@),
        decreases items@.len() - i,
    {
        assert(d.take(i + 1).drop_last() =~= d.take(i as int));
        let ghost b0 = body@;
        if i > 0 {
            append_str(&mut body, ", ");
        }
        let q = debug_str(items[i].as_str());
        append_str(&mut body, q.as_str());
        assert(d.take(i + 1).last() == q@);
        if i == 0 {
            assert(body@ =~= join_sep(d.take(i + 1), ", "@));
        } else {
            assert(body@ =~= join_sep(d.take(i + 1), ", "@));
        }
        i = i + 1;
    }
    assert(d.take(items@.len() as int) =~= d);
    let mut r = chars_of("[");
    append_chars(&mut r, body.as_slice());
    append_str(&mut r, "]");
    r
}

/// How an attempt's failure is described.
pub open spec fn attempt_message(e: AttemptError) -> Seq<char> {
    match e {
        AttemptError::NotFound => "404 Not Found"@,
        AttemptError::BadStatus(status) => "HTTP "@ + decimal(status as nat),
        AttemptError::Network(err) => "network error: "@ + err@,
        AttemptError::TooLarge { limit } => "download is larger than "@ + decimal(limit as nat) + " bytes"@,
        AttemptError::InvalidContent(reason) => "invalid content: "@ + reason@,
    }
}

/// How a failed fetch is described.
pub open spec fn fetch_message(e: FetchError) -> Seq<char> {
    match e {
        FetchError::NotFound { attempts } => "config not found: "@ + debug_list(string_views(attempts@)),
        FetchError::Unavailable { attempts } => "sources unavailable: "@ + debug_list(string_views(attempts@)),
    }
}

impl AttemptError {
    /// The description of the failure.
    pub fn message(&self) -> (r: String)
        ensures
            r@ == attempt_message(*self),
    {
        let mut out: Vec<char> = Vec::new();
        match self {
            AttemptError::NotFound => {
                append_str(&mut out, "404 Not Found");
            },
            AttemptError::BadStatus(status) => {
                append_str(&mut out, "HTTP ");
                let d = decimal_chars(*status as u64);
                append_chars(&mut out, d.as_slice());
            },
            AttemptError::Network(err) => {
                append_str(&mut out, "network error: ");
                append_str(&mut out, err.as_str());
            },
            AttemptError::TooLarge { limit } => {
                append_str(&mut out, "download is larger than ");
                let d = decimal_chars(*limit as u64);
                append_chars(&mut out, d.as_slice());
                append_str(&mut out, " bytes");
            },
            AttemptError::InvalidContent(reason) => {
                append_str(&mut out, "invalid content: ");
                append_str(&mut out, reason.as_str());
            },
        }
        string_from_chars(out.as_slice())
    }
}

impl FetchError {
    /// The description of the failure.
    pub fn message(&self) -> (r: String)
        ensures
            r@ == fetch_message(*self),
    {
        let mut out: Vec<char> = Vec::new();
        match self {
            FetchError::NotFound { attempts } => {
                append_str(&mut out, "config not found: ");
                let d = debug_strings(attempts);
                append_chars(&mut out, d.as_slice());
            },
            FetchError::Unavailable { attempts } => {
                append_str(&mut out, "sources unavailable: ");
                let d = debug_strings(attempts);
                append_chars(&mut out, d.as_slice());
            },
        }
        string_from_chars(out.as_slice())
    }
}

// ---------------------------------------------------------------------------
// The decisions of a fetch.
// ---------------------------------------------------------------------------

/// The failed attempts of a fetch so far, in order, and whether one of them
/// failed for another reason than a 404.
pub struct FetchAttempts {
    attempts: Vec<String>,
    saw_non_404: bool,
}

impl FetchAttempts {
    /// The summaries of the failed attempts, in order.
    pub closed spec fn summaries(&self) -> Seq<Seq<char>> {
        string_views(self.attempts@)
    }

    /// Whether an attempt failed for another reason than a 404.
    pub closed spec fn saw_other_failure(&self) -> bool {
        self.saw_non_404
    }

    /// No attempt yet.
    pub fn new() -> (r: FetchAttempts)
        ensures
            r.summaries() == Seq::<Seq<char>>::empty(),
            !r.saw_other_failure(),
    {
        let r = FetchAttempts { attempts: Vec::new(), saw_non_404: false };
        assert(r.summaries() =~= Seq::<Seq<char>>::empty());
        r
    }

    /// Records that fetching `url` failed with `err`: its summary is
    /// `url: reason`.
    pub fn record_failure(&mut self, url: &str, err: &AttemptError)
        ensures
            final(self).summaries() == old(self).summaries().push(url@ + ": "@ + attempt_message(*err)),
            final(self).saw_other_failure() == (old(self).saw_other_failure() || !(err is NotFound)),
    {
        if !(matches!(err, AttemptError::NotFound)) {
            self.saw_non_404 = true;
        }
        let mut s = chars_of(url);
        append_str(&mut s, ": ");
        let m = err.message();
        append_str(&mut s, m.as_str());
        let ghost before = string_views(self.attempts@);
        self.attempts.push(string_from_chars(s.as_slice()));
        assert(string_views(self.attempts@) =~= before.push(url@ + ": "@ + attempt_message(*err)));
    }

    /// Takes the outcome of fetching from `url`: a fetched configuration ends
    /// the fetch and is handed back, leaving the attempts as they were; a
    /// failure is recorded and the fetch goes on with the next source.
    pub fn observe(&mut self, url: &str, outcome: Result<FetchedConfig, AttemptError>) -> (r: Option<FetchedConfig>)
        ensures
            match outcome {
                Ok(c) => r == Some(c) && *final(self) == *old(self),
                Err(e) => r is None && final(self).summaries() == old(self).summaries().push(
                    url@ + ": "@ + attempt_message(e),
                ) && final(self).saw_other_failure() == (old(self).saw_other_failure() || !(e is NotFound)),
            },
    {
        match outcome {
            Ok(c) => Some(c),
            Err(e) => {
                self.record_failure(url, &e);
                None
            },
        }
    }

    /// The error once every source has failed: `Unavailable` where some
    /// attempt failed for another reason than a 404, else `NotFound`.
    pub fn finish(self) -> (r: FetchError)
        ensures
            match r {
                FetchError::NotFound { attempts } => !self.saw_other_failure() && string_views(attempts@) == self.summaries(),
                FetchError::Unavailable { attempts } => self.saw_other_failure() && string_views(attempts@) == self.summaries(),
            },
    {
        if self.saw_non_404 {
            FetchError::Unavailable { attempts: self.attempts }
        } else {
            FetchError::NotFound { attempts: self.attempts }
        }
    }
}

/// What a response status means for an attempt: 404 is "not found", any
/// other status outside 200..=299 a bad status, the rest success.
pub fn check_status(status: u16) -> (r: Result<(), AttemptError>)
    ensures
        status == 404 ==> r matches Err(AttemptError::NotFound),
        status != 404 && !(200 <= status <= 299) ==> (r matches Err(AttemptError::BadStatus(s)) && s == status),
        200 <= status <= 299 ==> r is Ok,
{
    if status == 404 {
        Err(AttemptError::NotFound)
    } else if !(200 <= status && status <= 299) {
        Err(AttemptError::BadStatus(status))
    } else {
        Ok(())
    }
}

/// Whether an announced content length is acceptable: refused where it
/// exceeds the limit.
pub fn check_content_length(length: Option<u64>, max_download_bytes: usize) -> (r: Result<(), AttemptError>)
    ensures
        match length {
            Some(l) => if l > max_download_bytes {
                (r matches Err(AttemptError::TooLarge { limit }) && limit == max_download_bytes)
            } else {
                r is Ok
            },
            None => r is Ok,
        },
{
    match length {
        Some(l) => if l > max_download_bytes as u64 {
            Err(AttemptError::TooLarge { limit: max_download_bytes })
        } else {
            Ok(())
        },
        None => Ok(()),
    }
}

/// Adds a received chunk to the body, unless the body would then exceed the limit.
pub fn append_chunk(body: &mut Vec<u8>, chunk: &[u8], max_download_bytes: usize) -> (r: Result<(), AttemptError>)
    ensures
        old(body)@.len() + chunk@.len() > max_download_bytes ==> (r matches Err(AttemptError::TooLarge { limit }) && limit == max_download_bytes
            && final(body)@ == old(body)@),
        old(body)@.len() + chunk@.len() <= max_download_bytes ==> (r is Ok && final(body)@ == old(body)@ + chunk@),
{
    if body.len() > max_download_bytes || chunk.len() > max_download_bytes - body.len() {
        return Err(AttemptError::TooLarge { limit: max_download_bytes });
    }
    let ghost start = body@;
    let mut i: usize = 0;
    while i < chunk.len()
        invariant
            i <= chunk@.len(),
            body@ == start + chunk@.take(i as int),
        decreases chunk@.len() - i,
    {
        body.push(chunk[i]);
        assert(start + chunk@.take(i + 1) =~= (start + chunk@.take(i as int)).push(chunk@[i as int]));
        i = i + 1;
    }
    assert(chunk@.take(chunk@.len() as int) =~= chunk@);
    Ok(())
}

/// The fetched configuration from a complete download: the content type is
/// lower-cased (empty where the header is missing or not text) before the
/// body is classified.
pub fn finish_download(url: &str, content_type: Option<&str>, bytes: Vec<u8>) -> (r: Result<FetchedConfig, AttemptError>)
    ensures
        match classification(
            url@,
            ascii_lower(match content_type {
                Some(c) => c@,
                None => Seq::<char>::empty(),
            }),
            bytes@,
        ) {
            Ok(k) => (r matches Ok(c) && c.kind == k && c.source_url@ == url@ && c.bytes@ == bytes@),
            Err(reason) => (r matches Err(AttemptError::InvalidContent(m)) && m@ == reason),
        },
{
    let ct = match content_type {
        Some(c) => lower_str(c),
        None => String::new(),
    };
    assert(ct@ =~= ascii_lower(match content_type {
        Some(c) => c@,
        None => Seq::<char>::empty(),
    }));
    let kind = match classify_response(url, ct.as_str(), bytes.as_slice()) {
        Ok(k) => k,
        Err(e) => {
            return Err(e);
        },
    };
    Ok(FetchedConfig { source_url: owned(url), kind, bytes })
}

/// Every template read from a setting is non-empty and has no white space
/// at either end.
pub proof fn lemma_templates_clean(value: Seq<char>)
    ensures
        forall|k: int| 0 <= k < parsed_templates(value).len() ==> (#[trigger] parsed_templates(value)[k]).len() > 0
            && trim(parsed_templates(value)[k]) == parsed_templates(value)[k],
{
    let ps = split_by(value, template_sep());
    let ts = ps.map_values(|p: Seq<char>| trim(p));
    lemma_nonempty_pieces(ts);
    assert forall|k: int| 0 <= k < parsed_templates(value).len() implies (#[trigger] parsed_templates(value)[k]).len() > 0
        && trim(parsed_templates(value)[k]) == parsed_templates(value)[k] by {
        let t = parsed_templates(value)[k];
        let m = choose|m: int| 0 <= m < ts.len() && ts[m] == t;
        lemma_trim_idempotent(ps[m]);
    }
}

/// A template without placeholders gives the same URL for every game.
pub proof fn lemma_render_plain(template: Seq<char>, app_id: Seq<char>)
    requires
        !contains(template, "{app_id}"@),
        !contains(template, "{AppID}"@),
        !contains(template, "{APPID}"@),
        !contains(template, "{appid}"@),
    ensures
        rendered(template, app_id) == template,
{
    reveal_strlit("{app_id}");
    reveal_strlit("{AppID}");
    reveal_strlit("{APPID}");
    reveal_strlit("{appid}");
    lemma_replace_absent(template, "{app_id}"@, app_id);
    lemma_replace_absent(template, "{AppID}"@, app_id);
    lemma_replace_absent(template, "{APPID}"@, app_id);
    lemma_replace_absent(template, "{appid}"@, app_id);
}

/// Whether one of the failures was not a 404, recorded one after the other.
pub open spec fn any_other_failure(errs: Seq<AttemptError>) -> bool
    decreases errs.len(),
{
    if errs.len() == 0 {
        false
    } else {
        any_other_failure(errs.drop_last()) || !(errs.last() is NotFound)
    }
}

/// A fetch whose sources all failed ends in "not found" exactly when every
/// source answered 404, and in "unavailable" otherwise.
pub proof fn lemma_not_found_iff_all_404(errs: Seq<AttemptError>)
    ensures
        !any_other_failure(errs) <==> forall|i: int| 0 <= i < errs.len() ==> (#[trigger] errs[i]) is NotFound,
    decreases errs.len(),
{
    if errs.len() > 0 {
        let dl = errs.drop_last();
        lemma_not_found_iff_all_404(dl);
        if !any_other_failure(errs) {
            assert forall|i: int| 0 <= i < errs.len() implies (#[trigger] errs[i]) is NotFound by {
                if i < errs.len() - 1 {
                    assert(errs[i] == dl[i]);
                }
            }
        }
        if forall|i: int| 0 <= i < errs.len() ==> (#[trigger] errs[i]) is NotFound {
            assert forall|i: int| 0 <= i < dl.len() implies (#[trigger] dl[i]) is NotFound by {
                assert(dl[i] == errs[i]);
            }
            assert(errs[errs.len() - 1] is NotFound);
        }
    }
}

} // verus!
