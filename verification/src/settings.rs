use vstd::prelude::*;

use crate::num::{parse_u64, unsigned_text};
use crate::text::{ascii_lower, chars_of, lower_chars, string_from_chars, trim, trim_chars};

verus! {

/// The port of the health server where none is set.
pub const DEFAULT_HTTP_PORT: u16 = 7860;

/// The bot token as it is used: trimmed; none where it is blank.
pub open spec fn token_of(raw: Seq<char>) -> Option<Seq<char>> {
    if trim(raw).len() == 0 {
        None
    } else {
        Some(trim(raw))
    }
}

/// The bot token from the raw setting: trimmed; `None` where it is blank.
pub fn clean_token(raw: &str) -> (r: Option<String>)
    ensures
        match r {
            Some(t) => token_of(raw@) == Some(t@),
            None => token_of(raw@) is None,
        },
{
    let t = trim_chars(chars_of(raw).as_slice());
    if t.len() == 0 {
        None
    } else {
        Some(string_from_chars(t.as_slice()))
    }
}

/// The port of the health server: the setting where it reads as a port
/// number, else the default.
pub open spec fn port_of(raw: Option<Seq<char>>) -> u16 {
    match raw {
        Some(v) => match unsigned_text(v) {
            Some(n) => if n <= u16::MAX {
                n as u16
            } else {
                DEFAULT_HTTP_PORT
            },
            None => DEFAULT_HTTP_PORT,
        },
        None => DEFAULT_HTTP_PORT,
    }
}

/// The port of the health server from the raw `PORT` setting.
pub fn http_port(raw: Option<&str>) -> (r: u16)
    ensures
        r == port_of(match raw {
            Some(v) => Some(v@),
            None => None,
        }),
{
    match raw {
        Some(v) => match parse_u64(chars_of(v).as_slice()) {
            Some(n) => if n <= 65535 {
                n as u16
            } else {
                DEFAULT_HTTP_PORT
            },
            None => DEFAULT_HTTP_PORT,
        },
        None => DEFAULT_HTTP_PORT,
    }
}

/// Where the language preferences are kept: nowhere where the setting is
/// `off` or `none` in any ASCII case; the setting itself where it is not
/// blank; else a file in `/data` where that folder exists, or in `./data`.
pub open spec fn lang_store_path_of(raw: Option<Seq<char>>, data_dir_exists: bool) -> Option<Seq<char>> {
    let fallback = if data_dir_exists {
        "/data/kiwilua_languages.db"@
    } else {
        "./data/kiwilua_languages.db"@
    };
    match raw {
        Some(v) => if ascii_lower(v) == "off"@ || ascii_lower(v) == "none"@ {
            None
        } else if trim(v).len() > 0 {
            Some(v)
        } else {
            Some(fallback)
        },
        None => Some(fallback),
    }
}

/// Where the language preferences are kept, from the raw `LANG_STORE_PATH`
/// setting and whether `/data` is a folder.
pub fn lang_store_path(raw: Option<&str>, data_dir_exists: bool) -> (r: Option<String>)
    ensures
        match r {
            Some(p) => lang_store_path_of(
                match raw {
                    Some(v) => Some(v@),
                    None => None,
                },
                data_dir_exists,
            ) == Some(p@),
            None => lang_store_path_of(
                match raw {
                    Some(v) => Some(v@),
                    None => None,
                },
                data_dir_exists,
            ) is None,
        },
{
    if let Some(v) = raw {
        let low = lower_chars(chars_of(v).as_slice());
        let off = crate::text::chars_eq(low.as_slice(), chars_of("off").as_slice());
        let none = crate::text::chars_eq(low.as_slice(), chars_of("none").as_slice());
        if off || none {
            return None;
        }
        let t = trim_chars(chars_of(v).as_slice());
        if t.len() > 0 {
            return Some(v.to_owned());
        }
    }
    if data_dir_exists {
        Some(String::from_str("/data/kiwilua_languages.db"))
    } else {
        Some(String::from_str("./data/kiwilua_languages.db"))
    }
}

} // verus!
