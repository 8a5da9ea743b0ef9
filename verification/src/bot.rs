use vstd::prelude::*;

use crate::finder::{search_result, underscore, LuaFile, LuaFinder};
use crate::i18n::texts::{language_set, language_set_text, search_prompt, search_prompt_text};
use crate::i18n::{all_langs, lang_code, lang_display_name, lang_from_code, Lang};
use crate::text::{
    append_str, chars_of, copy_range, is_alnum, is_ascii_alnum, starts_with, starts_with_chars,
    string_from_chars, strip_both, strip_by_mask, trim, trim_str, all_chars, lemma_strip_keeps,
};

verus! {

/// Queries longer than this many characters are refused.
pub const MAX_QUERY_CHARS: usize = 128;

/// At most this many characters of the query name the archive.
pub const MAX_STEM_CHARS: usize = 64;

/// A character that may stand in an archive's file name as it is.
pub open spec fn stem_safe(c: char) -> bool {
    is_ascii_alnum(c) || c == '-' || c == '_'
}

/// The file name stem of the archive sent for a query: its first 64
/// characters, each unsafe one replaced by `_`, underscores at both ends
/// dropped; `kiwilua` where nothing is left.
pub open spec fn stem_of(query: Seq<char>) -> Seq<char> {
    let m = query.map_values(|c: char| if stem_safe(c) { c } else { '_' });
    let t = strip_both(
        if m.len() > MAX_STEM_CHARS {
            m.take(MAX_STEM_CHARS as int)
        } else {
            m
        },
        underscore(),
    );
    if t.len() == 0 {
        "kiwilua"@
    } else {
        t
    }
}

/// The file name stem of the archive sent for `query`.
pub fn archive_stem(query: &str) -> (r: String)
    ensures
        r@ == stem_of(query@),
{
    let q = chars_of(query);
    let n = if q.len() > MAX_STEM_CHARS { MAX_STEM_CHARS } else { q.len() };
    let ghost full = q@.map_values(|c: char| if stem_safe(c) { c } else { '_' });
    let ghost cut = if full.len() > MAX_STEM_CHARS { full.take(MAX_STEM_CHARS as int) } else { full };
    let mut m: Vec<char> = Vec::new();
    let mut mask: Vec<bool> = Vec::new();
    let mut i: usize = 0;
    while i < n
        invariant
            n <= q@.len(),
            n == cut.len(),
            full == q@.map_values(|c: char| if stem_safe(c) { c } else { '_' }),
            cut == (if full.len() > MAX_STEM_CHARS { full.take(MAX_STEM_CHARS as int) } else { full }),
            i <= n,
            m@ == cut.take(i as int),
            mask@.len() == i,
            forall|j: int| 0 <= j < i ==> mask@[j] == underscore()(#[trigger] m@[j]),
        decreases n - i,
    {
        let c = q[i];
        let d = if is_alnum(c) || c == '-' || c == '_' { c } else { '_' };
        assert(cut[i as int] == d);
        m.push(d);
        mask.push(d == '_');
        assert(m@ =~= cut.take(i + 1));
        i = i + 1;
    }
    assert(cut.take(n as int) =~= cut);
    let t = strip_by_mask(m.as_slice(), mask.as_slice(), Ghost(underscore()));
    if t.len() == 0 {
        String::from_str("kiwilua")
    } else {
        string_from_chars(t.as_slice())
    }
}

/// What the bot does with a text message.
pub enum TextReply {
    /// Nothing: the message has no text, or only white space.
    Ignore,
    /// Asks the chat to choose a language first.
    AskLanguage,
    /// Tells the chat that the query is too long.
    TooLong(Lang),
    /// Tells the chat that nothing was found.
    NotFound(Lang),
    /// Packs these files and sends the archive under this name.
    SendArchive { lang: Lang, files: Vec<LuaFile>, archive_name: String },
}

/// `r` is the reply to a text message with text `text` from a chat with
/// language `lang`, given the games of the index: nothing for a blank text;
/// a request to choose a language first; a refusal of a query longer than
/// 128 characters; "not found" where a search for the trimmed text finds
/// nothing; else the files found, to be sent as `<stem>.zip`.
pub open spec fn text_reply_ok(text: Option<Seq<char>>, lang: Option<Lang>, finder: Seq<crate::finder::GameModel>, r: TextReply) -> bool {
    match text {
        None => r is Ignore,
        Some(t) => {
            let q = trim(t);
            if q.len() == 0 {
                r is Ignore
            } else {
                match lang {
                    None => r is AskLanguage,
                    Some(l) => if q.len() > MAX_QUERY_CHARS {
                        r == TextReply::TooLong(l)
                    } else {
                        let found = search_result(finder, q);
                        if found.len() == 0 {
                            r == TextReply::NotFound(l)
                        } else {
                            r matches TextReply::SendArchive { lang, files, archive_name }
                                && lang == l && files@ == found && archive_name@ == stem_of(q) + ".zip"@
                        }
                    },
                }
            }
        },
    }
}

/// Decides the reply to a text message from the chat's language and the index.
pub fn plan_text_reply(text: Option<&str>, lang: Option<Lang>, finder: &LuaFinder) -> (r: TextReply)
    ensures
        text_reply_ok(
            match text {
                Some(t) => Some(t@),
                None => None,
            },
            lang,
            finder@,
            r,
        ),
{
    let t = match text {
        Some(t) => t,
        None => {
            return TextReply::Ignore;
        },
    };
    let q = trim_str(t);
    if q.as_str().is_empty() {
        return TextReply::Ignore;
    }
    let l = match lang {
        Some(l) => l,
        None => {
            return TextReply::AskLanguage;
        },
    };
    let qc = chars_of(q.as_str());
    if qc.len() > MAX_QUERY_CHARS {
        return TextReply::TooLong(l);
    }
    let files = finder.search(q.as_str());
    proof {
        crate::text::lemma_trim_idempotent(t@);
    }
    if files.len() == 0 {
        return TextReply::NotFound(l);
    }
    let stem = archive_stem(q.as_str());
    let mut name = chars_of(stem.as_str());
    append_str(&mut name, ".zip");
    TextReply::SendArchive { lang: l, files, archive_name: string_from_chars(name.as_slice()) }
}

/// The language to answer in: the chat's, or English where it has none.
pub fn reply_language(stored: Option<Lang>) -> (r: Lang)
    ensures
        r == (match stored {
            Some(l) => l,
            None => Lang::En,
        }),
{
    match stored {
        Some(l) => l,
        None => Lang::En,
    }
}

/// A button of the language keyboard: its label and its callback data.
pub open spec fn language_button(l: Lang) -> (Seq<char>, Seq<char>) {
    (lang_display_name(l), "lang:"@ + lang_code(l))
}

/// The rows of a keyboard of buttons, two to a row.
pub open spec fn rows_of_two(ls: Seq<Lang>) -> Seq<Seq<(Seq<char>, Seq<char>)>>
    decreases ls.len(),
{
    if ls.len() == 0 {
        Seq::<Seq<(Seq<char>, Seq<char>)>>::empty()
    } else if ls.len() <= 2 {
        seq![ls.map_values(|l: Lang| language_button(l))]
    } else {
        seq![ls.take(2).map_values(|l: Lang| language_button(l))] + rows_of_two(ls.skip(2))
    }
}

/// The views of keyboard rows.
pub open spec fn rows_view(rows: Seq<Vec<(String, String)>>) -> Seq<Seq<(Seq<char>, Seq<char>)>> {
    rows.map_values(|row: Vec<(String, String)>| row@.map_values(|b: (String, String)| (b.0@, b.1@)))
}

/// A button of the language keyboard.
fn button(l: Lang) -> (r: (String, String))
    ensures
        (r.0@, r.1@) == language_button(l),
{
    let mut data = chars_of("lang:");
    append_str(&mut data, l.code());
    (String::from_str(l.display_name()), string_from_chars(data.as_slice()))
}

/// The language selection keyboard: every language, two to a row, each
/// button labelled with the language's name and carrying `lang:<code>`.
pub fn keyboard_layout() -> (r: Vec<Vec<(String, String)>>)
    ensures
        rows_view(r@) == rows_of_two(all_langs()),
{
    let langs = Lang::all();
    let mut rows: Vec<Vec<(String, String)>> = Vec::new();
    let mut i: usize = 0;
    assert(langs@.skip(0) =~= langs@);
    assert(rows_view(rows@) + rows_of_two(langs@.skip(0)) =~= rows_of_two(all_langs()));
    while i < langs.len()
        invariant
            langs@ == all_langs(),
            i <= langs@.len(),
            rows_view(rows@) + rows_of_two(langs@.skip(i as int)) == rows_of_two(all_langs()),
        decreases langs@.len() - i,
    {
        let ghost rest = langs@.skip(i as int);
        let mut row: Vec<(String, String)> = Vec::new();
        row.push(button(langs[i]));
        if i + 1 < langs.len() {
            row.push(button(langs[i + 1]));
        }
        let ghost rv = row@.map_values(|b: (String, String)| (b.0@, b.1@));
        proof {
            if rest.len() <= 2 {
                assert(rv =~= rest.map_values(|l: Lang| language_button(l)));
                assert(rows_of_two(rest) =~= seq![rv]);
                assert(langs@.skip(langs@.len() as int) =~= Seq::<Lang>::empty());
            } else {
                assert(rv =~= rest.take(2).map_values(|l: Lang| language_button(l)));
                assert(rest.skip(2) =~= langs@.skip(i + 2));
            }
        }
        let ghost before = rows_view(rows@);
        rows.push(row);
        assert(rows_view(rows@) =~= before.push(rv));
        if i + 2 < langs.len() {
            i = i + 2;
        } else {
            assert(rows_of_two(langs@.skip(langs@.len() as int)) =~= Seq::<Seq<(Seq<char>, Seq<char>)>>::empty()) by {
                assert(langs@.skip(langs@.len() as int) =~= Seq::<Lang>::empty());
            }
            assert(rows_view(rows@) =~= rows_of_two(all_langs()));
            i = langs.len();
        }
    }
    assert(rows_of_two(langs@.skip(i as int)) =~= Seq::<Seq<(Seq<char>, Seq<char>)>>::empty()) by {
        assert(langs@.skip(i as int) =~= Seq::<Lang>::empty());
    }
    rows
}

/// What the bot does with a press on the language keyboard.
#[derive(Debug, Clone, Copy, PartialEq, Eq, Structural)]
pub enum CallbackAction {
    /// Only acknowledges the press: it carries no language choice.
    Acknowledge,
    /// Tells the user that the language is not supported.
    Unsupported,
    /// Sets the chat's language.
    SetLanguage(Lang),
}

/// The action for callback data: `lang:<code>` sets that language where the
/// code names one, is unsupported where it does not; anything else is only
/// acknowledged.
pub open spec fn callback_action(data: Option<Seq<char>>) -> CallbackAction {
    match data {
        None => CallbackAction::Acknowledge,
        Some(d) => if starts_with(d, "lang:"@) {
            match lang_from_code(d.skip(5)) {
                Some(l) => CallbackAction::SetLanguage(l),
                None => CallbackAction::Unsupported,
            }
        } else {
            CallbackAction::Acknowledge
        },
    }
}

/// Pressing a language's button on the keyboard sets that language: the
/// callback data `lang:` followed by the language's code gives
/// `SetLanguage` of it, and `SetLanguage(l)` comes from exactly that data.
/// Data that does not start with `lang:`, or no data, is only acknowledged;
/// `lang:` with a code of no language is unsupported.
pub proof fn lemma_language_callback_round_trip(l: Lang, data: Seq<char>)
    ensures
        callback_action(Some("lang:"@ + lang_code(l))) == CallbackAction::SetLanguage(l),
        callback_action(Some(language_button(l).1)) == CallbackAction::SetLanguage(l),
        callback_action(Some(data)) == CallbackAction::SetLanguage(l) ==> data == "lang:"@ + lang_code(l),
        !starts_with(data, "lang:"@) ==> callback_action(Some(data)) == CallbackAction::Acknowledge,
        callback_action(None) == CallbackAction::Acknowledge,
        (starts_with(data, "lang:"@) && (forall|m: Lang| data.skip(5) != #[trigger] lang_code(m)))
            ==> callback_action(Some(data)) == CallbackAction::Unsupported,
{
    reveal_strlit("lang:");
    let d = "lang:"@ + lang_code(l);
    assert(d.subrange(0, 5) =~= "lang:"@);
    assert(d.skip(5) =~= lang_code(l));
    crate::i18n::lemma_code_round_trip(l);
    if starts_with(data, "lang:"@) && (forall|m: Lang| data.skip(5) != #[trigger] lang_code(m)) {
        crate::i18n::lemma_from_code_exact(data.skip(5));
        if let Some(m) = lang_from_code(data.skip(5)) {
            assert(data.skip(5) == lang_code(m));
        }
    }
    if callback_action(Some(data)) == CallbackAction::SetLanguage(l) {
        assert(starts_with(data, "lang:"@));
        crate::i18n::lemma_from_code_exact(data.skip(5));
        assert(data.subrange(0, 5) == "lang:"@);
        assert(data =~= data.subrange(0, 5) + data.skip(5));
    }
}

/// The action for the data of a press on the language keyboard.
pub fn parse_language_callback(data: Option<&str>) -> (r: CallbackAction)
    ensures
        r == callback_action(match data {
            Some(d) => Some(d@),
            None => None,
        }),
{
    let d = match data {
        Some(d) => d,
        None => {
            return CallbackAction::Acknowledge;
        },
    };
    let cs = chars_of(d);
    let prefix = chars_of("lang:");
    proof {
        reveal_strlit("lang:");
    }
    if !starts_with_chars(cs.as_slice(), prefix.as_slice()) {
        return CallbackAction::Acknowledge;
    }
    let rest = copy_range(cs.as_slice(), 5, cs.len());
    assert(rest@ =~= d@.skip(5));
    let code = string_from_chars(rest.as_slice());
    match Lang::from_code(code.as_str()) {
        Some(l) => CallbackAction::SetLanguage(l),
        None => CallbackAction::Unsupported,
    }
}

/// The message that confirms a language choice: the confirmation, a blank
/// line, and the invitation to search.
pub fn language_confirmation(lang: Lang) -> (r: String)
    ensures
        r@ == language_set_text(lang) + "\n\n"@ + search_prompt_text(lang),
{
    let mut out = chars_of(language_set(lang));
    append_str(&mut out, "\n\n");
    append_str(&mut out, search_prompt(lang));
    string_from_chars(out.as_slice())
}

/// The archive for any query is named by a non-empty stem of at most 64
/// characters, each an ASCII letter or digit, `-` or `_`.
pub proof fn lemma_stem_safe(query: Seq<char>)
    ensures
        stem_of(query).len() > 0,
        stem_of(query).len() <= MAX_STEM_CHARS,
        all_chars(stem_of(query), |c: char| stem_safe(c)),
{
    reveal_strlit("kiwilua");
    let m = query.map_values(|c: char| if stem_safe(c) { c } else { '_' });
    let cut = if m.len() > MAX_STEM_CHARS { m.take(MAX_STEM_CHARS as int) } else { m };
    assert(all_chars(cut, |c: char| stem_safe(c))) by {
        assert forall|i: int| 0 <= i < cut.len() implies (|c: char| stem_safe(c))(#[trigger] cut[i]) by {
            assert(cut[i] == m[i]);
        }
    }
    lemma_strip_keeps(cut, underscore(), |c: char| stem_safe(c));
    assert(all_chars("kiwilua"@, |c: char| stem_safe(c)));
}

} // verus!
