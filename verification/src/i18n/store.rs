use vstd::prelude::*;

use super::{lang_code, lang_from_code, Lang};
use crate::num::{is_digit, lemma_signed_reads_back, parse_i64, signed_decimal, signed_decimal_chars, signed_text};
use crate::text::{
    append_chars, append_str, char_views, chars_of, copy_range, is_whitespace, nonempty_pieces,
    lemma_split_append, lemma_split_push, split_by, split_by_mask, string_from_chars, words, ws_sep,
};

verus! {

#[verifier::external_type_specification]
#[verifier::external_body]
#[verifier::reject_recursive_types(K)]
#[verifier::reject_recursive_types(V)]
#[verifier::reject_recursive_types(S)]
pub struct ExDashMap<K, V, S>(dashmap::DashMap<K, V, S>);

/// The concurrent map of language preferences, by chat id.
pub type LangMap = dashmap::DashMap<i64, Lang>;

/// The language preferences that a map holds, by chat id.
pub uninterp spec fn dash_contents(m: LangMap) -> Map<i64, Lang>;

/// No preference at all.
pub open spec fn no_preferences() -> Map<i64, Lang> {
    Map::empty()
}

/// `dashmap::DashMap::new`: an empty map.
#[verifier::external_body]
fn dash_new() -> (r: LangMap)
    ensures
        dash_contents(r) == no_preferences(),
{
    dashmap::DashMap::new()
}

/// `dashmap::DashMap::get`, the found value copied out: the value stored
/// under `key`, if any.
#[verifier::external_body]
fn dash_get(m: &LangMap, key: i64) -> (r: Option<Lang>)
    ensures
        r == (if dash_contents(*m).contains_key(key) {
            Some(dash_contents(*m)[key])
        } else {
            None
        }),
{
    match m.get(&key) {
        Some(v) => Some(*v),
        None => None,
    }
}

/// `dashmap::DashMap::insert`: afterwards `key` maps to `value` and every
/// other key is unchanged. (It takes `&self`; the wrapper takes `&mut` so
/// that the change can be stated.)
#[verifier::external_body]
fn dash_insert(m: &mut LangMap, key: i64, value: Lang)
    ensures
        dash_contents(*final(m)) == dash_contents(*old(m)).insert(key, value),
{
    m.insert(key, value);
}

/// `dashmap::DashMap::iter`, each entry copied out as a pair: every entry
/// exactly once, in an order that the map does not fix.
#[verifier::external_body]
fn dash_entries(m: &LangMap) -> (r: Vec<(i64, Lang)>)
    ensures
        distinct_keys(r@),
        entries_map(r@) == dash_contents(*m),
{
    let mut r = Vec::new();
    for entry in m.iter() {
        r.push((*entry.key(), *entry.value()));
    }
    r
}

/// No chat id occurs twice.
pub open spec fn distinct_keys(es: Seq<(i64, Lang)>) -> bool {
    forall|i: int, j: int| 0 <= i < j < es.len() ==> (#[trigger] es[i]).0 != (#[trigger] es[j]).0
}

/// Chat ids strictly increase.
pub open spec fn sorted_keys(es: Seq<(i64, Lang)>) -> bool {
    forall|i: int, j: int| 0 <= i < j < es.len() ==> (#[trigger] es[i]).0 < (#[trigger] es[j]).0
}

/// The map that the entries describe, later entries winning.
pub open spec fn entries_map(es: Seq<(i64, Lang)>) -> Map<i64, Lang>
    decreases es.len(),
{
    if es.len() == 0 {
        Map::<i64, Lang>::empty()
    } else {
        entries_map(es.drop_last()).insert(es.last().0, es.last().1)
    }
}

/// `m` with the entries applied in order.
pub open spec fn apply_entries(m: Map<i64, Lang>, es: Seq<(i64, Lang)>) -> Map<i64, Lang>
    decreases es.len(),
{
    if es.len() == 0 {
        m
    } else {
        apply_entries(m, es.drop_last()).insert(es.last().0, es.last().1)
    }
}

// ---------------------------------------------------------------------------
// The preference file: one `<chat_id> <lang_code>` line per chat.
// ---------------------------------------------------------------------------

/// The line separator.
pub open spec fn newline() -> spec_fn(char) -> bool {
    |c: char| c == '\n'
}

/// A line without the carriage return that ended it.
pub open spec fn strip_cr(p: Seq<char>) -> Seq<char> {
    if p.len() > 0 && p.last() == '\r' {
        p.drop_last()
    } else {
        p
    }
}

/// The lines of a text as `str::lines` gives them: split at `\n`, a `\r`
/// before a `\n` dropped, no empty line after a final `\n`.
pub open spec fn text_lines(s: Seq<char>) -> Seq<Seq<char>> {
    let ps = split_by(s, newline());
    let init = ps.drop_last().map_values(|p: Seq<char>| strip_cr(p));
    if ps.last().len() == 0 {
        init
    } else {
        init.push(ps.last())
    }
}

/// What a line of the preference file says: its first word a chat id, its
/// second word a language code; nothing where either does not read.
pub open spec fn parse_line(line: Seq<char>) -> Option<(i64, Lang)> {
    let w = words(line);
    if w.len() < 2 {
        None
    } else {
        match signed_text(w[0]) {
            Some(v) => if i64::MIN <= v <= i64::MAX {
                match lang_from_code(w[1]) {
                    Some(l) => Some((v as i64, l)),
                    None => None,
                }
            } else {
                None
            },
            None => None,
        }
    }
}

/// The preferences that the lines state, in order; lines that do not read
/// are skipped.
pub open spec fn parsed_entries(lines: Seq<Seq<char>>) -> Seq<(i64, Lang)>
    decreases lines.len(),
{
    if lines.len() == 0 {
        Seq::<(i64, Lang)>::empty()
    } else {
        let r = parsed_entries(lines.drop_last());
        match parse_line(lines.last()) {
            Some(e) => r.push(e),
            None => r,
        }
    }
}

/// The preferences that a file's text states.
pub open spec fn file_entries(content: Seq<char>) -> Seq<(i64, Lang)> {
    parsed_entries(text_lines(content))
}

/// The line that states one preference.
pub open spec fn entry_line(e: (i64, Lang)) -> Seq<char> {
    signed_decimal(e.0 as int) + seq![' '] + lang_code(e.1) + seq!['\n']
}

/// The text that states the preferences, one line each, in order.
pub open spec fn entries_text(es: Seq<(i64, Lang)>) -> Seq<char>
    decreases es.len(),
{
    if es.len() == 0 {
        Seq::<char>::empty()
    } else {
        entries_text(es.drop_last()) + entry_line(es.last())
    }
}

/// The pieces of `cs` that are not empty.
fn nonempty_only(ps: &Vec<Vec<char>>) -> (r: Vec<Vec<char>>)
    ensures
        char_views(r@) == nonempty_pieces(char_views(ps@)),
{
    let ghost all = char_views(ps@);
    let mut r: Vec<Vec<char>> = Vec::new();
    let mut i: usize = 0;
    assert(all.take(0) =~= Seq::<Seq<char>>::empty());
    assert(char_views(r@) =~= nonempty_pieces(all.take(0)));
    while i < ps.len()
        invariant
            i <= ps@.len(),
            all == char_views(ps@),
            char_views(r@) == nonempty_pieces(all.take(i as int)),
        decreases ps@.len() - i,
    {
        assert(all.take(i + 1).drop_last() =~= all.take(i as int));
        assert(all.take(i + 1).last() == ps@[i as int]@);
        if ps[i].len() > 0 {
            let ghost before = char_views(r@);
            let w = copy_range(ps[i].as_slice(), 0, ps[i].len());
            assert(w@ =~= ps@[i as int]@);
            r.push(w);
            assert(char_views(r@) =~= before.push(ps@[i as int]@));
        }
        i = i + 1;
    }
    assert(all.take(ps@.len() as int) =~= all);
    r
}

/// The words of `cs`.
fn words_of(cs: &[char]) -> (r: Vec<Vec<char>>)
    ensures
        char_views(r@) == words(cs@),
{
    let mut mask: Vec<bool> = Vec::new();
    let mut i: usize = 0;
    while i < cs.len()
        invariant
            i <= cs@.len(),
            mask@.len() == i,
            forall|j: int| 0 <= j < i ==> mask@[j] == ws_sep()(#[trigger] cs@[j]),
        decreases cs@.len() - i,
    {
        mask.push(is_whitespace(cs[i]));
        i = i + 1;
    }
    let ps = split_by_mask(cs, mask.as_slice(), Ghost(ws_sep()));
    nonempty_only(&ps)
}

/// The lines of `cs`, as `str::lines` gives them.
fn lines_of(cs: &[char]) -> (r: Vec<Vec<char>>)
    ensures
        char_views(r@) == text_lines(cs@),
{
    let mut mask: Vec<bool> = Vec::new();
    let mut i: usize = 0;
    while i < cs.len()
        invariant
            i <= cs@.len(),
            mask@.len() == i,
            forall|j: int| 0 <= j < i ==> mask@[j] == newline()(#[trigger] cs@[j]),
        decreases cs@.len() - i,
    {
        mask.push(cs[i] == '\n');
        i = i + 1;
    }
    let mut ps = split_by_mask(cs, mask.as_slice(), Ghost(newline()));
    proof {
        crate::text::lemma_split_nonempty(cs@, newline());
    }
    let last = ps.pop().unwrap();
    let ghost init = char_views(ps@);
    assert(init =~= split_by(cs@, newline()).drop_last());
    let mut r: Vec<Vec<char>> = Vec::new();
    let mut k: usize = 0;
    while k < ps.len()
        invariant
            k <= ps@.len(),
            init == char_views(ps@),
            char_views(r@) == init.take(k as int).map_values(|p: Seq<char>| strip_cr(p)),
        decreases ps@.len() - k,
    {
        let p = &ps[k];
        let n = p.len();
        let q = if n > 0 && p[n - 1] == '\r' {
            copy_range(p.as_slice(), 0, n - 1)
        } else {
            copy_range(p.as_slice(), 0, n)
        };
        assert(q@ =~= strip_cr(p@));
        let ghost before = char_views(r@);
        r.push(q);
        assert(char_views(r@) =~= before.push(strip_cr(p@)));
        assert(init.take(k + 1).map_values(|p: Seq<char>| strip_cr(p)) =~= init.take(k as int).map_values(
            |p: Seq<char>| strip_cr(p),
        ).push(strip_cr(init[k as int])));
        k = k + 1;
    }
    assert(init.take(ps@.len() as int) =~= init);
    if last.len() > 0 {
        let ghost before = char_views(r@);
        let ghost lv = last@;
        r.push(last);
        assert(char_views(r@) =~= before.push(lv));
    }
    r
}

/// What one line of the preference file says.
pub fn parse_language_line(line: &[char]) -> (r: Option<(i64, Lang)>)
    ensures
        r == parse_line(line@),
{
    let w = words_of(line);
    if w.len() < 2 {
        return None;
    }
    assert(char_views(w@)[0] == w@[0]@);
    assert(char_views(w@)[1] == w@[1]@);
    let id = match parse_i64(w[0].as_slice()) {
        Some(v) => v,
        None => {
            return None;
        },
    };
    let code = string_from_chars(w[1].as_slice());
    match Lang::from_code(code.as_str()) {
        Some(l) => Some((id, l)),
        None => None,
    }
}

/// The preferences that the text of a preference file states, in order.
pub fn parse_language_file(content: &str) -> (r: Vec<(i64, Lang)>)
    ensures
        r@ == file_entries(content@),
{
    let cs = chars_of(content);
    let lines = lines_of(cs.as_slice());
    let ghost ls = char_views(lines@);
    let mut r: Vec<(i64, Lang)> = Vec::new();
    let mut i: usize = 0;
    assert(ls.take(0) =~= Seq::<Seq<char>>::empty());
    while i < lines.len()
        invariant
            i <= lines@.len(),
            ls == char_views(lines@),
            r@ == parsed_entries(ls.take(i as int)),
        decreases lines@.len() - i,
    {
        assert(ls.take(i + 1).drop_last() =~= ls.take(i as int));
        assert(ls.take(i + 1).last() == lines@[i as int]@);
        match parse_language_line(lines[i].as_slice()) {
            Some(e) => r.push(e),
            None => {},
        }
        i = i + 1;
    }
    assert(ls.take(lines@.len() as int) =~= ls);
    r
}

/// The line that states one preference.
fn render_line(out: &mut Vec<char>, e: (i64, Lang))
    ensures
        final(out)@ == old(out)@ + entry_line(e),
{
    let d = signed_decimal_chars(e.0);
    append_chars(out, d.as_slice());
    out.push(' ');
    append_str(out, e.1.code());
    out.push('\n');
}

/// The text that states the preferences, one `<chat_id> <lang_code>` line each, in order.
pub fn render_entries(es: &[(i64, Lang)]) -> (r: String)
    ensures
        r@ == entries_text(es@),
{
    let mut out: Vec<char> = Vec::new();
    let mut i: usize = 0;
    assert(es@.take(0) =~= Seq::<(i64, Lang)>::empty());
    while i < es.len()
        invariant
            i <= es@.len(),
            out@ == entries_text(es@.take(i as int)),
        decreases es@.len() - i,
    {
        assert(es@.take(i + 1).drop_last() =~= es@.take(i as int));
        render_line(&mut out, es[i]);
        i = i + 1;
    }
    assert(es@.take(es@.len() as int) =~= es@);
    string_from_chars(out.as_slice())
}

// ---------------------------------------------------------------------------
// Entries and maps.
// ---------------------------------------------------------------------------

/// The map of entries holds exactly their chat ids.
pub proof fn lemma_entries_dom(es: Seq<(i64, Lang)>, k: i64)
    ensures
        entries_map(es).contains_key(k) <==> exists|i: int| 0 <= i < es.len() && (#[trigger] es[i]).0 == k,
    decreases es.len(),
{
    if es.len() > 0 {
        lemma_entries_dom(es.drop_last(), k);
        if entries_map(es.drop_last()).contains_key(k) {
            let i = choose|i: int| 0 <= i < es.drop_last().len() && (#[trigger] es.drop_last()[i]).0 == k;
            assert(es[i].0 == k);
        }
        if exists|i: int| 0 <= i < es.len() && (#[trigger] es[i]).0 == k {
            let i = choose|i: int| 0 <= i < es.len() && (#[trigger] es[i]).0 == k;
            if i < es.len() - 1 {
                assert(es.drop_last()[i].0 == k);
            }
        }
    }
}

/// Putting an entry with a new chat id anywhere among the others maps the
/// same as adding it.
pub proof fn lemma_entries_insert(es: Seq<(i64, Lang)>, i: int, e: (i64, Lang))
    requires
        0 <= i <= es.len(),
        forall|j: int| 0 <= j < es.len() ==> (#[trigger] es[j]).0 != e.0,
    ensures
        entries_map(es.insert(i, e)) == entries_map(es).insert(e.0, e.1),
    decreases es.len(),
{
    if i == es.len() {
        assert(es.insert(i, e) =~= es.push(e));
        assert(es.push(e).drop_last() =~= es);
    } else {
        let l = es.last();
        let es2 = es.drop_last();
        lemma_entries_insert(es2, i, e);
        assert(es.insert(i, e).drop_last() =~= es2.insert(i, e));
        assert(es.insert(i, e).last() == l);
        assert(l.0 != e.0);
        assert(entries_map(es2).insert(e.0, e.1).insert(l.0, l.1) =~= entries_map(es2).insert(l.0, l.1).insert(e.0, e.1));
    }
}

/// The entries ordered by chat id.
fn sort_entries(es: &Vec<(i64, Lang)>) -> (r: Vec<(i64, Lang)>)
    requires
        distinct_keys(es@),
    ensures
        sorted_keys(r@),
        entries_map(r@) == entries_map(es@),
{
    let mut out: Vec<(i64, Lang)> = Vec::new();
    let mut i: usize = 0;
    assert(es@.take(0) =~= Seq::<(i64, Lang)>::empty());
    while i < es.len()
        invariant
            i <= es@.len(),
            distinct_keys(es@),
            sorted_keys(out@),
            entries_map(out@) == entries_map(es@.take(i as int)),
        decreases es@.len() - i,
    {
        let e = es[i];
        let mut p: usize = 0;
        while p < out.len() && out[p].0 < e.0
            invariant
                p <= out@.len(),
                forall|j: int| 0 <= j < p ==> (#[trigger] out@[j]).0 < e.0,
            decreases out@.len() - p,
        {
            p = p + 1;
        }
        proof {
            assert forall|j: int| 0 <= j < out@.len() implies (#[trigger] out@[j]).0 != e.0 by {
                lemma_entries_dom(out@, out@[j].0);
                lemma_entries_dom(es@.take(i as int), out@[j].0);
                if out@[j].0 == e.0 {
                    let m = choose|m: int| 0 <= m < es@.take(i as int).len() && (#[trigger] es@.take(i as int)[m]).0 == out@[j].0;
                    assert(es@[m].0 == es@[i as int].0);
                }
            }
            if p < out@.len() {
                assert(out@[p as int].0 > e.0);
            }
            lemma_entries_insert(out@, p as int, e);
            assert(es@.take(i + 1) =~= es@.take(i as int).push(e));
            assert(es@.take(i + 1).drop_last() =~= es@.take(i as int));
        }
        let ghost old_out = out@;
        out.insert(p, e);
        proof {
            assert(out@ =~= old_out.insert(p as int, e));
            assert forall|a: int, b: int| 0 <= a < b < out@.len() implies (#[trigger] out@[a]).0 < (#[trigger] out@[b]).0 by {
                if b < p {
                } else if a < p && b == p {
                } else if a < p {
                    assert(out@[b] == old_out[b - 1]);
                } else if a == p {
                    assert(out@[b] == old_out[b - 1]);
                    if b - 1 > p {
                        assert(old_out[p as int].0 < old_out[b - 1].0);
                    }
                } else {
                    assert(out@[a] == old_out[a - 1]);
                    assert(out@[b] == old_out[b - 1]);
                }
            }
        }
        i = i + 1;
    }
    assert(es@.take(es@.len() as int) =~= es@);
    out
}

// ---------------------------------------------------------------------------
// The store.
// ---------------------------------------------------------------------------

/// The language preference of each chat, and where the preferences are kept
/// on disk, if anywhere.
pub struct LangStore {
    map: LangMap,
    path: Option<String>,
}

impl LangStore {
    /// The language preference of each chat.
    pub closed spec fn prefs(&self) -> Map<i64, Lang> {
        dash_contents(self.map)
    }

    /// The file that keeps the preferences, if any.
    pub closed spec fn file_path(&self) -> Option<Seq<char>> {
        match self.path {
            Some(p) => Some(p@),
            None => None,
        }
    }

    /// A store without preferences, kept at `path` if one is given.
    pub fn new(path: Option<String>) -> (r: LangStore)
        ensures
            r.prefs() == no_preferences(),
            r.file_path() == (match path {
                Some(p) => Some(p@),
                None => None::<Seq<char>>,
            }),
    {
        LangStore { map: dash_new(), path }
    }

    /// The file that keeps the preferences, if any.
    pub fn path(&self) -> (r: Option<String>)
        ensures
            r matches Some(p) ==> self.file_path() == Some(p@),
            r is None ==> self.file_path() is None,
    {
        match &self.path {
            Some(p) => Some(p.clone()),
            None => None,
        }
    }

    /// The language chosen for `chat_id`, if any.
    pub fn get(&self, chat_id: i64) -> (r: Option<Lang>)
        ensures
            r == (if self.prefs().contains_key(chat_id) {
                Some(self.prefs()[chat_id])
            } else {
                None
            }),
    {
        dash_get(&self.map, chat_id)
    }

    /// Records `lang` as the language of `chat_id`.
    pub fn set(&mut self, chat_id: i64, lang: Lang)
        ensures
            final(self).prefs() == old(self).prefs().insert(chat_id, lang),
            final(self).file_path() == old(self).file_path(),
    {
        dash_insert(&mut self.map, chat_id, lang);
    }

    /// Loads the preferences that the text of a preference file states, line
    /// by line, later lines winning; lines that do not read are skipped.
    /// Returns how many lines were loaded.
    pub fn load_text(&mut self, content: &str) -> (r: usize)
        ensures
            final(self).prefs() == apply_entries(old(self).prefs(), file_entries(content@)),
            final(self).file_path() == old(self).file_path(),
            r == file_entries(content@).len(),
    {
        let es = parse_language_file(content);
        let ghost start = self.prefs();
        let mut i: usize = 0;
        assert(es@.take(0) =~= Seq::<(i64, Lang)>::empty());
        while i < es.len()
            invariant
                i <= es@.len(),
                self.prefs() == apply_entries(start, es@.take(i as int)),
                self.file_path() == old(self).file_path(),
            decreases es@.len() - i,
        {
            assert(es@.take(i + 1).drop_last() =~= es@.take(i as int));
            dash_insert(&mut self.map, es[i].0, es[i].1);
            i = i + 1;
        }
        assert(es@.take(es@.len() as int) =~= es@);
        es.len()
    }

    /// Every preference, ordered by chat id.
    pub fn sorted_entries(&self) -> (r: Vec<(i64, Lang)>)
        ensures
            sorted_keys(r@),
            entries_map(r@) == self.prefs(),
    {
        let es = dash_entries(&self.map);
        sort_entries(&es)
    }

    /// The text of the preference file: one `<chat_id> <lang_code>` line per
    /// chat, ordered by chat id.
    pub fn file_text(&self) -> (r: String)
        ensures
            exists|es: Seq<(i64, Lang)>| sorted_keys(es) && entries_map(es) == self.prefs() && r@ == entries_text(es),
    {
        let es = self.sorted_entries();
        render_entries(es.as_slice())
    }
}

// ---------------------------------------------------------------------------
// Writing the file and reading it back.
// ---------------------------------------------------------------------------

/// The line that states one preference, without its line end.
pub open spec fn entry_body(e: (i64, Lang)) -> Seq<char> {
    signed_decimal(e.0 as int) + seq![' '] + lang_code(e.1)
}

/// A language code is two ASCII lower case letters.
proof fn lemma_code_letters(l: Lang)
    ensures
        lang_code(l).len() == 2,
        forall|i: int| 0 <= i < 2 ==> 'a' <= #[trigger] lang_code(l)[i] <= 'z',
{
    reveal_strlit("en");
    reveal_strlit("es");
    reveal_strlit("tr");
    reveal_strlit("it");
    reveal_strlit("fr");
    reveal_strlit("de");
    reveal_strlit("ru");
}

/// The words of a preference line are its chat id and its code.
proof fn lemma_body_words(e: (i64, Lang))
    ensures
        words(entry_body(e)) == seq![signed_decimal(e.0 as int), lang_code(e.1)],
{
    let d = signed_decimal(e.0 as int);
    let c = lang_code(e.1);
    lemma_signed_reads_back(e.0 as int);
    lemma_code_letters(e.1);
    let e0 = Seq::<char>::empty();
    assert forall|i: int| 0 <= i < d.len() implies !ws_sep()(#[trigger] d[i]) by {
        assert(is_digit(d[i]) || d[i] == '-');
    }
    assert forall|i: int| 0 <= i < c.len() implies !ws_sep()(#[trigger] c[i]) by {
        assert('a' <= c[i] <= 'z');
    }
    assert(split_by(e0, ws_sep()) =~= seq![e0]);
    lemma_split_append(e0, d, ws_sep());
    assert(e0 + d =~= d);
    assert(split_by(d, ws_sep()) =~= seq![d]);
    lemma_split_push(d, ws_sep(), ' ');
    assert(split_by(d.push(' '), ws_sep()) =~= seq![d, e0]);
    lemma_split_append(d.push(' '), c, ws_sep());
    assert(d.push(' ') + c =~= entry_body(e));
    let p = seq![d, c];
    assert(split_by(entry_body(e), ws_sep()) =~= p);
    assert(p.drop_last() =~= seq![d]);
    assert(seq![d].drop_last() =~= Seq::<Seq<char>>::empty());
    assert(nonempty_pieces(Seq::<Seq<char>>::empty()) == Seq::<Seq<char>>::empty());
    assert(nonempty_pieces(seq![d]) =~= seq![d]);
    assert(nonempty_pieces(p) =~= p);
}

/// A preference line reads back as the preference it states.
pub proof fn lemma_line_reads_back(e: (i64, Lang))
    ensures
        parse_line(entry_body(e)) == Some(e),
{
    lemma_body_words(e);
    lemma_signed_reads_back(e.0 as int);
    super::lemma_code_round_trip(e.1);
    let w = words(entry_body(e));
    assert(w[0] == signed_decimal(e.0 as int));
    assert(w[1] == lang_code(e.1));
}

/// The pieces of a preference file between its line ends are its lines, and
/// an empty piece after the last line end.
proof fn lemma_text_split(es: Seq<(i64, Lang)>)
    ensures
        split_by(entries_text(es), newline()) == es.map_values(|e: (i64, Lang)| entry_body(e)).push(Seq::<char>::empty()),
    decreases es.len(),
{
    let bodies = es.map_values(|e: (i64, Lang)| entry_body(e));
    if es.len() == 0 {
        assert(entries_text(es) =~= Seq::<char>::empty());
        assert(bodies.push(Seq::<char>::empty()) =~= seq![Seq::<char>::empty()]);
    } else {
        let dl = es.drop_last();
        let e = es.last();
        lemma_text_split(dl);
        let t = entries_text(dl);
        let b = entry_body(e);
        lemma_signed_reads_back(e.0 as int);
        lemma_code_letters(e.1);
        assert forall|i: int| 0 <= i < b.len() implies !newline()(#[trigger] b[i]) by {
            let d = signed_decimal(e.0 as int);
            if i < d.len() {
                assert(b[i] == d[i]);
                assert(is_digit(d[i]) || d[i] == '-');
            } else if i > d.len() {
                assert(b[i] == lang_code(e.1)[i - d.len() - 1]);
            }
        }
        lemma_split_append(t, b, newline());
        lemma_split_push(t + b, newline(), '\n');
        assert(entries_text(es) =~= (t + b).push('\n'));
        let bd = dl.map_values(|e: (i64, Lang)| entry_body(e));
        assert(bodies =~= bd.push(b));
        assert(Seq::<char>::empty() + b =~= b);
        assert(bd.push(Seq::<char>::empty()).update(bd.len() as int, Seq::<char>::empty() + b) =~= bd.push(b));
    }
}

/// A preference file is read back line by line as the preferences it states.
pub proof fn lemma_file_reads_back(es: Seq<(i64, Lang)>)
    ensures
        file_entries(entries_text(es)) == es,
{
    lemma_text_split(es);
    let bodies = es.map_values(|e: (i64, Lang)| entry_body(e));
    let ps = split_by(entries_text(es), newline());
    assert(ps.drop_last() =~= bodies);
    assert forall|i: int| 0 <= i < bodies.len() implies strip_cr(#[trigger] bodies[i]) == bodies[i] by {
        lemma_code_letters(es[i].1);
        let b = bodies[i];
        assert(b.last() == lang_code(es[i].1)[1]);
    }
    assert(bodies.map_values(|p: Seq<char>| strip_cr(p)) =~= bodies);
    assert(text_lines(entries_text(es)) == bodies);
    lemma_parsed_bodies(es);
}

proof fn lemma_parsed_bodies(es: Seq<(i64, Lang)>)
    ensures
        parsed_entries(es.map_values(|e: (i64, Lang)| entry_body(e))) == es,
    decreases es.len(),
{
    let bodies = es.map_values(|e: (i64, Lang)| entry_body(e));
    if es.len() == 0 {
        assert(bodies =~= Seq::<Seq<char>>::empty());
        assert(es =~= Seq::<(i64, Lang)>::empty());
    } else {
        lemma_parsed_bodies(es.drop_last());
        assert(bodies.drop_last() =~= es.drop_last().map_values(|e: (i64, Lang)| entry_body(e)));
        lemma_line_reads_back(es.last());
        assert(es.drop_last().push(es.last()) =~= es);
    }
}

/// Applying entries with distinct chat ids to no preferences gives their map.
proof fn lemma_apply_empty(es: Seq<(i64, Lang)>)
    ensures
        apply_entries(no_preferences(), es) == entries_map(es),
    decreases es.len(),
{
    if es.len() > 0 {
        lemma_apply_empty(es.drop_last());
    }
}

/// What the store writes to its file, loaded into a store without
/// preferences, gives back the same preferences: for any ordering of the
/// preferences by chat id, reading the text written from it restores them.
pub proof fn lemma_store_round_trip(prefs: Map<i64, Lang>, es: Seq<(i64, Lang)>)
    requires
        sorted_keys(es),
        entries_map(es) == prefs,
    ensures
        apply_entries(no_preferences(), file_entries(entries_text(es))) == prefs,
        file_entries(entries_text(es)).len() == es.len(),
{
    lemma_file_reads_back(es);
    lemma_apply_empty(es);
}

/// After a chat's language is set, that chat reads it back, and every other
/// chat reads what it read before.
pub proof fn lemma_set_then_get(prefs: Map<i64, Lang>, chat_id: i64, lang: Lang, other: i64)
    ensures
        prefs.insert(chat_id, lang).contains_key(chat_id),
        prefs.insert(chat_id, lang)[chat_id] == lang,
        other != chat_id ==> (prefs.insert(chat_id, lang).contains_key(other) == prefs.contains_key(other)),
        other != chat_id && prefs.contains_key(other) ==> prefs.insert(chat_id, lang)[other] == prefs[other],
{
}

} // verus!
