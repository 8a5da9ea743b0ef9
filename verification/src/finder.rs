use vstd::prelude::*;

use crate::text::{
    ascii_upper, lemma_join_space_shape, lemma_words_chars, lemma_words_of_join, upper_char,
    lemma_strip_both_ends,
    ascii_lower, char_views, chars_eq, chars_of, collapse_ws, contains, contains_chars, copy_range,
    is_alnum, is_ascii_alnum, lex_less, lex_lt, lemma_lex_total, lemma_lex_trans, string_views, is_whitespace, is_ws, join_chars, join_space, join_with, lower_char,
    lower_chars, split_by, trim, trim_str, all_chars, lemma_join_keeps, lemma_join_starts,
    lemma_strip_keeps, starts_with, split_by_mask, str_eq, string_from_chars, strip_both, strip_by_mask,
    to_lower, words,
};

verus! {

// ---------------------------------------------------------------------------
// Paths, as the index spells them: components separated by '/'.
// ---------------------------------------------------------------------------

/// The path separator.
pub open spec fn slash_sep() -> spec_fn(char) -> bool {
    |c: char| c == '/'
}

/// The pieces of `ws` for which `keep` holds, in order.
pub open spec fn filter_pieces(ws: Seq<Seq<char>>, keep: spec_fn(Seq<char>) -> bool) -> Seq<Seq<char>>
    decreases ws.len(),
{
    if ws.len() == 0 {
        ws
    } else {
        let r = filter_pieces(ws.drop_last(), keep);
        if keep(ws.last()) {
            r.push(ws.last())
        } else {
            r
        }
    }
}

/// A path segment that names something: not empty and not `.`.
pub open spec fn is_component() -> spec_fn(Seq<char>) -> bool {
    |seg: Seq<char>| seg.len() > 0 && seg != seq!['.']
}

/// A component that is a plain name: not `..` either.
pub open spec fn is_normal_component() -> spec_fn(Seq<char>) -> bool {
    |seg: Seq<char>| seg.len() > 0 && seg != seq!['.'] && seg != seq!['.', '.']
}

/// The components of a path: its '/'-separated segments without empty ones and `.`.
pub open spec fn path_components(p: Seq<char>) -> Seq<Seq<char>> {
    filter_pieces(split_by(p, slash_sep()), is_component())
}

/// The plain-name components of a path, `..` left out too.
pub open spec fn normal_components(p: Seq<char>) -> Seq<Seq<char>> {
    filter_pieces(split_by(p, slash_sep()), is_normal_component())
}

/// The final component of a path, unless the path has none or ends in `..`.
pub open spec fn file_name(p: Seq<char>) -> Option<Seq<char>> {
    let cs = path_components(p);
    if cs.len() == 0 || cs.last() == seq!['.', '.'] {
        None
    } else {
        Some(cs.last())
    }
}

/// The index of the last `c` in `s`, or -1.
pub open spec fn last_index_of(s: Seq<char>, c: char) -> int
    decreases s.len(),
{
    if s.len() == 0 {
        -1
    } else if s.last() == c {
        s.len() - 1
    } else {
        last_index_of(s.drop_last(), c)
    }
}

/// The stem of a file name: the part before its last `.`, or the whole name
/// where there is no `.` or the only `.` leads the name.
pub open spec fn name_stem(name: Seq<char>) -> Seq<char> {
    let k = last_index_of(name, '.');
    if k <= 0 {
        name
    } else {
        name.take(k)
    }
}

/// The extension of a file name: the part after its last `.`, where there is
/// a `.` that does not lead the name.
pub open spec fn name_extension(name: Seq<char>) -> Option<Seq<char>> {
    let k = last_index_of(name, '.');
    if k <= 0 {
        None
    } else {
        Some(name.skip(k + 1))
    }
}

/// The stem of a path's file name.
pub open spec fn path_stem(p: Seq<char>) -> Option<Seq<char>> {
    match file_name(p) {
        Some(n) => Some(name_stem(n)),
        None => None,
    }
}

/// A path whose extension is `lua` in any ASCII case.
pub open spec fn is_lua_path(p: Seq<char>) -> bool {
    match file_name(p) {
        Some(n) => match name_extension(n) {
            Some(e) => ascii_lower(e) == seq!['l', 'u', 'a'],
            None => false,
        },
        None => false,
    }
}

pub proof fn lemma_last_index_bounds(s: Seq<char>, c: char)
    ensures
        -1 <= last_index_of(s, c) < s.len(),
        last_index_of(s, c) >= 0 ==> s[last_index_of(s, c)] == c,
        forall|j: int| last_index_of(s, c) < j < s.len() ==> s[j] != c,
    decreases s.len(),
{
    if s.len() > 0 && s.last() != c {
        lemma_last_index_bounds(s.drop_last(), c);
        let k = last_index_of(s.drop_last(), c);
        assert forall|j: int| k < j < s.len() implies s[j] != c by {
            if j < s.len() - 1 {
                assert(s[j] == s.drop_last()[j]);
            }
        }
    }
}

/// The index of the last `c` in `cs`, or -1.
pub(crate) fn find_last(cs: &[char], c: char) -> (r: Option<usize>)
    ensures
        match r {
            Some(k) => k == last_index_of(cs@, c),
            None => last_index_of(cs@, c) == -1,
        },
{
    let mut i = cs.len();
    assert(cs@.take(i as int) =~= cs@);
    while i > 0 && cs[i - 1] != c
        invariant
            i <= cs@.len(),
            last_index_of(cs@, c) == last_index_of(cs@.take(i as int), c),
        decreases i,
    {
        assert(cs@.take(i as int).drop_last() =~= cs@.take(i - 1));
        i = i - 1;
    }
    if i == 0 {
        assert(cs@.take(0) =~= Seq::<char>::empty());
        None
    } else {
        assert(cs@.take(i as int).last() == c);
        Some(i - 1)
    }
}

/// Copies the pieces of `ws` for which `keep` holds; `flags` marks exactly them.
fn keep_pieces(ws: &Vec<Vec<char>>, flags: &[bool], Ghost(keep): Ghost<spec_fn(Seq<char>) -> bool>) -> (r: Vec<Vec<char>>)
    requires
        flags@.len() == ws@.len(),
        forall|i: int| 0 <= i < ws@.len() ==> flags@[i] == keep(#[trigger] ws@[i]@),
    ensures
        char_views(r@) == filter_pieces(char_views(ws@), keep),
{
    let ghost all = char_views(ws@);
    let mut r: Vec<Vec<char>> = Vec::new();
    let mut i: usize = 0;
    assert(char_views(r@) =~= filter_pieces(all.take(0), keep)) by {
        assert(all.take(0) =~= Seq::<Seq<char>>::empty());
    }
    while i < ws.len()
        invariant
            all == char_views(ws@),
            flags@.len() == ws@.len(),
            forall|j: int| 0 <= j < ws@.len() ==> flags@[j] == keep(#[trigger] ws@[j]@),
            i <= ws@.len(),
            char_views(r@) == filter_pieces(all.take(i as int), keep),
        decreases ws@.len() - i,
    {
        let ghost before = all.take(i as int);
        assert(all.take(i + 1).drop_last() =~= before);
        assert(all.take(i + 1).last() == ws@[i as int]@);
        if flags[i] {
            let w = copy_range(ws[i].as_slice(), 0, ws[i].len());
            assert(w@ =~= ws@[i as int]@);
            r.push(w);
            assert(char_views(r@) =~= filter_pieces(before, keep).push(ws@[i as int]@));
        }
        i = i + 1;
    }
    assert(all.take(ws@.len() as int) =~= all);
    r
}

/// Whether a segment names something (not empty, not `.`), and whether it
/// is a plain name (not `..` either).
fn segment_kind(seg: &Vec<char>) -> (r: (bool, bool))
    ensures
        r.0 == is_component()(seg@),
        r.1 == is_normal_component()(seg@),
{
    let n = seg.len();
    let dot = n == 1 && seg[0] == '.';
    let dots = n == 2 && seg[0] == '.' && seg[1] == '.';
    proof {
        if n == 1 && !dot {
            assert(seg@[0] != seq!['.'][0]);
        }
        if n == 2 && !dots {
            assert(seg@[0] != seq!['.', '.'][0] || seg@[1] != seq!['.', '.'][1]);
        }
        if dot {
            assert(seg@ =~= seq!['.']);
        }
        if dots {
            assert(seg@ =~= seq!['.', '.']);
        }
    }
    (n > 0 && !dot, n > 0 && !dot && !dots)
}

/// The '/'-separated segments of `p`.
fn path_segments(p: &[char]) -> (r: Vec<Vec<char>>)
    ensures
        char_views(r@) == split_by(p@, slash_sep()),
{
    let mut mask: Vec<bool> = Vec::new();
    let mut i: usize = 0;
    while i < p.len()
        invariant
            i <= p@.len(),
            mask@.len() == i,
            forall|j: int| 0 <= j < i ==> mask@[j] == slash_sep()(#[trigger] p@[j]),
        decreases p@.len() - i,
    {
        mask.push(p[i] == '/');
        i = i + 1;
    }
    split_by_mask(p, mask.as_slice(), Ghost(slash_sep()))
}

/// The components of `p`; with `normal_only`, its plain-name components.
fn components(p: &[char], normal_only: bool) -> (r: Vec<Vec<char>>)
    ensures
        normal_only ==> char_views(r@) == normal_components(p@),
        !normal_only ==> char_views(r@) == path_components(p@),
{
    let segs = path_segments(p);
    let mut flags: Vec<bool> = Vec::new();
    let mut i: usize = 0;
    let ghost keep = if normal_only { is_normal_component() } else { is_component() };
    while i < segs.len()
        invariant
            i <= segs@.len(),
            flags@.len() == i,
            keep == (if normal_only { is_normal_component() } else { is_component() }),
            forall|j: int| 0 <= j < i ==> flags@[j] == keep(#[trigger] segs@[j]@),
        decreases segs@.len() - i,
    {
        let (comp, normal) = segment_kind(&segs[i]);
        flags.push(if normal_only { normal } else { comp });
        i = i + 1;
    }
    keep_pieces(&segs, flags.as_slice(), Ghost(keep))
}

/// The final component of `p`, unless `p` has none or ends in `..`.
fn file_name_chars(p: &[char]) -> (r: Option<Vec<char>>)
    ensures
        match r {
            Some(n) => file_name(p@) == Some(n@),
            None => file_name(p@) is None,
        },
{
    let mut comps = components(p, false);
    match comps.pop() {
        None => None,
        Some(last) => {
            proof {
                assert(char_views(comps@).push(last@) =~= path_components(p@));
            }
            if last.len() == 2 && last[0] == '.' && last[1] == '.' {
                assert(last@ =~= seq!['.', '.']);
                None
            } else {
                assert(last@ != seq!['.', '.']) by {
                    if last@.len() == 2 {
                        assert(last@[0] != seq!['.', '.'][0] || last@[1] != seq!['.', '.'][1]);
                    }
                }
                Some(last)
            }
        },
    }
}

/// The stem of the file name of `path`: the name before its last `.`, the
/// whole name where it has no `.` or only a leading one; `None` where the
/// path has no file name.
pub fn path_file_stem(path: &str) -> (r: Option<String>)
    ensures
        match r {
            Some(s) => path_stem(path@) == Some(s@),
            None => path_stem(path@) is None,
        },
{
    let p = chars_of(path);
    match file_name_chars(p.as_slice()) {
        None => None,
        Some(name) => {
            let k = match find_last(name.as_slice(), '.') {
                Some(k) => k,
                None => 0,
            };
            if k == 0 {
                Some(string_from_chars(name.as_slice()))
            } else {
                proof {
                    lemma_last_index_bounds(name@, '.');
                }
                let stem = copy_range(name.as_slice(), 0, k);
                assert(stem@ =~= name@.take(k as int));
                Some(string_from_chars(stem.as_slice()))
            }
        },
    }
}

/// Whether `path` names a file whose extension is `lua` in any ASCII case.
pub fn is_lua_file(path: &str) -> (r: bool)
    ensures
        r == is_lua_path(path@),
{
    let p = chars_of(path);
    match file_name_chars(p.as_slice()) {
        None => false,
        Some(name) => {
            let k = match find_last(name.as_slice(), '.') {
                Some(k) => k,
                None => 0,
            };
            if k == 0 {
                false
            } else {
                proof {
                    lemma_last_index_bounds(name@, '.');
                    assert(last_index_of(name@, '.') != -1);
                    assert(k < name@.len());
                }
                let n = name.len();
                assert(k < n);
                let ext = copy_range(name.as_slice(), k + 1, n);
                assert(ext@ =~= name@.skip(k + 1));
                let low = lower_chars(ext.as_slice());
                let r = low.len() == 3 && low[0] == 'l' && low[1] == 'u' && low[2] == 'a';
                proof {
                    if r {
                        assert(low@ =~= seq!['l', 'u', 'a']);
                    } else if low@.len() == 3 {
                        assert(low@[0] != seq!['l', 'u', 'a'][0] || low@[1] != seq!['l', 'u', 'a'][1]
                            || low@[2] != seq!['l', 'u', 'a'][2]);
                    }
                }
                r
            }
        },
    }
}

// ---------------------------------------------------------------------------
// Names inside the archive.
// ---------------------------------------------------------------------------

/// A character that may stand in an archive name as it is.
pub open spec fn zip_safe(c: char) -> bool {
    is_ascii_alnum(c) || c == '.' || c == '-' || c == '_'
}

/// The underscore.
pub open spec fn underscore() -> spec_fn(char) -> bool {
    |c: char| c == '_'
}

/// `value` with every unsafe character replaced by `_` and underscores at both
/// ends dropped; `fallback` where nothing is left.
pub open spec fn sanitized(value: Seq<char>, fallback: Seq<char>) -> Seq<char> {
    let m = value.map_values(|c: char| if zip_safe(c) { c } else { '_' });
    let t = strip_both(m, underscore());
    if t.len() == 0 {
        fallback
    } else {
        t
    }
}

/// The components of the name under which a file is stored in the archive:
/// the sanitized AppID, then the sanitized plain-name components of its
/// path relative to the game folder, or `script.lua` where there are none.
pub open spec fn archive_parts(app_id: Seq<char>, relative: Seq<char>) -> Seq<Seq<char>> {
    let comps = normal_components(relative);
    let parts = seq![sanitized(app_id, "game"@)] + comps.map_values(sanitize_script());
    if parts.len() == 1 {
        parts.push("script.lua"@)
    } else {
        parts
    }
}

/// A path component as it stands in an archive name.
pub open spec fn sanitize_script() -> spec_fn(Seq<char>) -> Seq<char> {
    |c: Seq<char>| sanitized(c, "script"@)
}

/// The name under which a file is stored in the archive: its parts joined by `/`.
pub open spec fn archive_name(app_id: Seq<char>, relative: Seq<char>) -> Seq<char> {
    join_with(archive_parts(app_id, relative), '/')
}

fn sanitize_chars(value: &[char], fallback: &[char]) -> (r: Vec<char>)
    ensures
        r@ == sanitized(value@, fallback@),
{
    let mut m: Vec<char> = Vec::new();
    let mut mask: Vec<bool> = Vec::new();
    let mut i: usize = 0;
    while i < value.len()
        invariant
            i <= value@.len(),
            m@ == value@.take(i as int).map_values(|c: char| if zip_safe(c) { c } else { '_' }),
            mask@.len() == i,
            forall|j: int| 0 <= j < i ==> mask@[j] == underscore()(#[trigger] m@[j]),
        decreases value@.len() - i,
    {
        let c = value[i];
        let safe = is_alnum(c) || c == '.' || c == '-' || c == '_';
        let d = if safe { c } else { '_' };
        m.push(d);
        mask.push(d == '_');
        assert(value@.take(i + 1).map_values(|c: char| if zip_safe(c) { c } else { '_' }) =~= value@.take(
            i as int,
        ).map_values(|c: char| if zip_safe(c) { c } else { '_' }).push(d));
        i = i + 1;
    }
    assert(value@.take(value@.len() as int) =~= value@);
    let t = strip_by_mask(m.as_slice(), mask.as_slice(), Ghost(underscore()));
    if t.len() == 0 {
        copy_range(fallback, 0, fallback.len())
    } else {
        t
    }
}

/// `value` with every character other than an ASCII letter or digit, `.`,
/// `-` or `_` replaced by `_`, and underscores at both ends dropped;
/// `fallback` where nothing is left.
pub fn sanitize_zip_component(value: &str, fallback: &str) -> (r: String)
    ensures
        r@ == sanitized(value@, fallback@),
{
    let v = chars_of(value);
    let f = chars_of(fallback);
    let r = sanitize_chars(v.as_slice(), f.as_slice());
    string_from_chars(r.as_slice())
}

/// The name under which the file at `relative_path` (relative to the folder
/// of game `app_id`) is stored in the archive.
pub fn build_archive_path(app_id: &str, relative_path: &str) -> (r: String)
    ensures
        r@ == archive_name(app_id@, relative_path@),
{
    let game = chars_of("game");
    let script = chars_of("script");
    let a = chars_of(app_id);
    let rel = chars_of(relative_path);
    let comps = components(rel.as_slice(), true);
    let mut parts: Vec<Vec<char>> = Vec::new();
    parts.push(sanitize_chars(a.as_slice(), game.as_slice()));
    let ghost f = sanitize_script();
    let mut i: usize = 0;
    while i < comps.len()
        invariant
            i <= comps@.len(),
            script@ == "script"@,
            f == sanitize_script(),
            char_views(parts@) == seq![sanitized(app_id@, "game"@)] + char_views(comps@).take(i as int).map_values(f),
        decreases comps@.len() - i,
    {
        let p = sanitize_chars(comps[i].as_slice(), script.as_slice());
        let ghost before = char_views(parts@);
        assert(p@ == f(comps@[i as int]@));
        parts.push(p);
        assert(char_views(parts@) =~= before.push(p@));
        assert(char_views(comps@).take(i as int).push(comps@[i as int]@).map_values(f) =~= char_views(comps@).take(i as int).map_values(f).push(f(comps@[i as int]@)));
        assert(char_views(comps@).take(i + 1) =~= char_views(comps@).take(i as int).push(comps@[i as int]@));
        assert(char_views(parts@) =~= seq![sanitized(app_id@, "game"@)] + char_views(comps@).take(i + 1).map_values(f));
        i = i + 1;
    }
    assert(char_views(comps@).take(comps@.len() as int) =~= char_views(comps@));
    assert(char_views(parts@) =~= seq![sanitized(app_id@, "game"@)] + normal_components(rel@).map_values(f));
    if parts.len() == 1 {
        let tail = chars_of("script.lua");
        parts.push(tail);
        assert(char_views(parts@) =~= archive_parts(app_id@, relative_path@));
    } else {
        assert(char_views(parts@) =~= archive_parts(app_id@, relative_path@));
    }
    let joined = join_chars(&parts, '/');
    string_from_chars(joined.as_slice())
}

// ---------------------------------------------------------------------------
// Search terms.
// ---------------------------------------------------------------------------

/// What one character of a search text becomes: ASCII letters and digits in
/// lower case, white space and `-`, `_`, `:`, `.` a space, anything else nothing.
pub open spec fn norm_piece(c: char) -> Seq<char> {
    if is_ascii_alnum(c) {
        seq![lower_char(c)]
    } else if is_ws(c) || c == '-' || c == '_' || c == ':' || c == '.' {
        seq![' ']
    } else {
        Seq::<char>::empty()
    }
}

/// Every character of `s` mapped by `norm_piece`.
pub open spec fn norm_map(s: Seq<char>) -> Seq<char>
    decreases s.len(),
{
    if s.len() == 0 {
        s
    } else {
        norm_map(s.drop_last()) + norm_piece(s.last())
    }
}

/// The normal form of a search text: the words of its mapped characters,
/// joined by single spaces.
pub open spec fn normalized(s: Seq<char>) -> Seq<char> {
    join_space(words(norm_map(s)))
}

/// A character that a word of a normal form may hold: an ASCII lower case
/// letter or a digit.
pub open spec fn normal_char(c: char) -> bool {
    ('a' <= c && c <= 'z') || ('0' <= c && c <= '9')
}

/// Mapping gives only word characters and spaces.
proof fn lemma_norm_map_chars(s: Seq<char>)
    ensures
        forall|i: int| 0 <= i < norm_map(s).len() ==> normal_char(#[trigger] norm_map(s)[i]) || norm_map(s)[i] == ' ',
    decreases s.len(),
{
    if s.len() > 0 {
        lemma_norm_map_chars(s.drop_last());
        let a = norm_map(s.drop_last());
        let c = s.last();
        let p = norm_piece(c);
        if 'A' <= c && c <= 'Z' {
            assert(normal_char(lower_char(c)));
        }
        assert forall|i: int| 0 <= i < norm_map(s).len() implies normal_char(#[trigger] norm_map(s)[i]) || norm_map(s)[i] == ' ' by {
            if i < a.len() {
                assert(norm_map(s)[i] == a[i]);
            } else {
                assert(norm_map(s)[i] == p[i - a.len()]);
            }
        }
    }
}

/// A text of word characters and spaces maps to itself.
proof fn lemma_norm_map_fixed(s: Seq<char>)
    requires
        forall|i: int| 0 <= i < s.len() ==> normal_char(#[trigger] s[i]) || s[i] == ' ',
    ensures
        norm_map(s) == s,
    decreases s.len(),
{
    if s.len() > 0 {
        let d = s.drop_last();
        assert forall|i: int| 0 <= i < d.len() implies normal_char(#[trigger] d[i]) || d[i] == ' ' by {
            assert(d[i] == s[i]);
        }
        lemma_norm_map_fixed(d);
        let c = s.last();
        assert(normal_char(c) || c == ' ') by {
            assert(s[s.len() - 1] == c);
        }
        assert(norm_piece(c) =~= seq![c]);
        assert(s =~= d + seq![c]);
    }
}

/// Upper-casing the ASCII letters of a text does not change what it maps to.
proof fn lemma_norm_map_upper(s: Seq<char>)
    ensures
        norm_map(ascii_upper(s)) == norm_map(s),
    decreases s.len(),
{
    if s.len() > 0 {
        lemma_norm_map_upper(s.drop_last());
        assert(ascii_upper(s).drop_last() =~= ascii_upper(s.drop_last()));
        let c = s.last();
        assert(ascii_upper(s).last() == upper_char(c));
        if 'a' <= c && c <= 'z' {
            assert('A' <= upper_char(c) && upper_char(c) <= 'Z');
            assert(lower_char(upper_char(c)) == c);
        }
        assert(norm_piece(upper_char(c)) == norm_piece(c));
    }
}

/// The normal form of any text holds only ASCII lower case letters, digits
/// and single spaces between words, with no space at either end; it is its
/// own normal form, and the text upper-cased has the same one.
pub proof fn lemma_normalized_form(s: Seq<char>)
    ensures
        forall|i: int| 0 <= i < normalized(s).len() ==> normal_char(#[trigger] normalized(s)[i]) || normalized(s)[i] == ' ',
        normalized(s).len() > 0 ==> normalized(s)[0] != ' ' && normalized(s).last() != ' ',
        forall|i: int| 0 <= i < normalized(s).len() - 1 ==> !(#[trigger] normalized(s)[i] == ' ' && normalized(s)[i + 1] == ' '),
        normalized(normalized(s)) == normalized(s),
        normalized(ascii_upper(s)) == normalized(s),
{
    let m = norm_map(s);
    let q = |c: char| normal_char(c) || c == ' ';
    lemma_norm_map_chars(s);
    assert(all_chars(m, q));
    lemma_words_chars(m, q);
    let w = words(m);
    assert forall|k: int, j: int| 0 <= k < w.len() && 0 <= j < w[k].len() implies normal_char(#[trigger] w[k][j]) && w[k][j] != ' ' by {
        assert(q(w[k][j]) && !is_ws(w[k][j]));
    }
    let nc = |c: char| normal_char(c);
    assert forall|k: int, j: int| 0 <= k < w.len() && 0 <= j < w[k].len() implies nc(#[trigger] w[k][j]) && w[k][j] != ' ' by {
        assert(normal_char(w[k][j]) && w[k][j] != ' ');
    }
    lemma_join_space_shape(w, nc);
    let r = normalized(s);
    assert(r == join_space(w));
    assert forall|i: int| 0 <= i < r.len() implies normal_char(#[trigger] r[i]) || r[i] == ' ' by {
        assert(nc(r[i]) || r[i] == ' ');
    }
    lemma_norm_map_fixed(r);
    assert forall|k: int, j: int| 0 <= k < w.len() && 0 <= j < w[k].len() implies !is_ws(#[trigger] w[k][j]) by {
        assert(normal_char(w[k][j]));
    }
    lemma_words_of_join(w);
    lemma_norm_map_upper(s);
}

/// Words joined in order, each separated from the next by its own character:
/// `ws[0] + seps[0] + ws[1] + seps[1] + ...`.
pub open spec fn join_by(ws: Seq<Seq<char>>, seps: Seq<char>) -> Seq<char>
    decreases ws.len(),
{
    if ws.len() == 0 {
        Seq::<char>::empty()
    } else if ws.len() == 1 {
        ws[0]
    } else {
        join_by(ws.drop_last(), seps) + seq![seps[ws.len() - 2]] + ws.last()
    }
}

/// Each word in ASCII lower case.
pub open spec fn lowered(ws: Seq<Seq<char>>) -> Seq<Seq<char>> {
    ws.map_values(|w: Seq<char>| ascii_lower(w))
}

/// Mapping a text piece by piece maps each piece.
proof fn lemma_norm_map_concat(a: Seq<char>, b: Seq<char>)
    ensures
        norm_map(a + b) == norm_map(a) + norm_map(b),
    decreases b.len(),
{
    if b.len() == 0 {
        assert(a + b =~= a);
        assert(norm_map(a) + norm_map(b) =~= norm_map(a));
    } else {
        lemma_norm_map_concat(a, b.drop_last());
        assert((a + b).drop_last() =~= a + b.drop_last());
        assert((a + b).last() == b.last());
        assert(norm_map(a) + norm_map(b.drop_last()) + norm_piece(b.last()) =~= norm_map(a) + (norm_map(
            b.drop_last(),
        ) + norm_piece(b.last())));
    }
}

/// A word of ASCII letters and digits maps to itself in lower case.
proof fn lemma_norm_map_word(a: Seq<char>)
    requires
        forall|i: int| 0 <= i < a.len() ==> is_ascii_alnum(#[trigger] a[i]),
    ensures
        norm_map(a) == ascii_lower(a),
        forall|i: int| 0 <= i < ascii_lower(a).len() ==> normal_char(#[trigger] ascii_lower(a)[i]),
    decreases a.len(),
{
    if a.len() > 0 {
        let d = a.drop_last();
        assert forall|i: int| 0 <= i < d.len() implies is_ascii_alnum(#[trigger] d[i]) by {
            assert(d[i] == a[i]);
        }
        lemma_norm_map_word(d);
        assert(is_ascii_alnum(a.last())) by {
            assert(a[a.len() - 1] == a.last());
        }
        assert(norm_piece(a.last()) =~= seq![lower_char(a.last())]);
        assert(ascii_lower(a) =~= ascii_lower(d) + seq![lower_char(a.last())]);
    }
    assert forall|i: int| 0 <= i < ascii_lower(a).len() implies normal_char(#[trigger] ascii_lower(a)[i]) by {
        assert(is_ascii_alnum(a[i]));
        assert(ascii_lower(a)[i] == lower_char(a[i]));
    }
}

/// Words of ASCII letters and digits separated by name separators map to the
/// lower-cased words joined by single spaces.
proof fn lemma_norm_map_joined(ws: Seq<Seq<char>>, seps: Seq<char>)
    requires
        ws.len() >= 1,
        seps.len() + 1 == ws.len(),
        forall|k: int| 0 <= k < ws.len() ==> (#[trigger] ws[k]).len() > 0,
        forall|k: int, j: int| 0 <= k < ws.len() && 0 <= j < ws[k].len() ==> is_ascii_alnum(#[trigger] ws[k][j]),
        forall|k: int|
            0 <= k < seps.len() ==> is_ws(#[trigger] seps[k]) || seps[k] == '-' || seps[k] == '_' || seps[k] == ':'
                || seps[k] == '.',
    ensures
        norm_map(join_by(ws, seps)) == join_space(lowered(ws)),
    decreases ws.len(),
{
    let l = ws.last();
    assert(l == ws[ws.len() - 1]);
    assert forall|i: int| 0 <= i < l.len() implies is_ascii_alnum(#[trigger] l[i]) by {
        assert(l[i] == ws[ws.len() - 1][i]);
    }
    lemma_norm_map_word(l);
    if ws.len() == 1 {
        assert(lowered(ws)[0] == ascii_lower(ws[0]));
    } else {
        let init = ws.drop_last();
        let si = seps.drop_last();
        assert forall|k: int| 0 <= k < init.len() implies (#[trigger] init[k]).len() > 0 by {
            assert(init[k] == ws[k]);
        }
        assert forall|k: int, j: int| 0 <= k < init.len() && 0 <= j < init[k].len() implies is_ascii_alnum(
            #[trigger] init[k][j],
        ) by {
            assert(init[k] == ws[k]);
        }
        assert forall|k: int| 0 <= k < si.len() implies is_ws(#[trigger] si[k]) || si[k] == '-' || si[k] == '_'
            || si[k] == ':' || si[k] == '.' by {
            assert(si[k] == seps[k]);
        }
        lemma_norm_map_joined(init, si);
        assert(join_by(init, si) == join_by(init, seps)) by {
            lemma_join_by_prefix(init, si, seps);
        }
        let s = seps[ws.len() - 2];
        assert(norm_piece(s) =~= seq![' ']);
        let a = join_by(init, seps);
        lemma_norm_map_concat(a + seq![s], l);
        lemma_norm_map_concat(a, seq![s]);
        assert(seq![s].drop_last() =~= Seq::<char>::empty());
        assert(norm_map(seq![s]) =~= norm_map(Seq::<char>::empty()) + norm_piece(s));
        assert(lowered(ws).drop_last() =~= lowered(init));
        assert(lowered(ws).last() == ascii_lower(l));
    }
}

/// Joining only reads the separators between the words it joins.
proof fn lemma_join_by_prefix(ws: Seq<Seq<char>>, s1: Seq<char>, s2: Seq<char>)
    requires
        s1.len() + 1 >= ws.len(),
        s2.len() >= s1.len(),
        forall|k: int| 0 <= k < s1.len() ==> s1[k] == s2[k],
    ensures
        join_by(ws, s1) == join_by(ws, s2),
    decreases ws.len(),
{
    if ws.len() > 1 {
        lemma_join_by_prefix(ws.drop_last(), s1, s2);
    }
}

/// White space and `-`, `_`, `:`, `.` all separate words: words of ASCII
/// letters and digits separated by any of them normalize to the words in
/// lower case joined by single spaces.
pub proof fn lemma_normalize_separators(ws: Seq<Seq<char>>, seps: Seq<char>)
    requires
        ws.len() >= 1,
        seps.len() + 1 == ws.len(),
        forall|k: int| 0 <= k < ws.len() ==> (#[trigger] ws[k]).len() > 0,
        forall|k: int, j: int| 0 <= k < ws.len() && 0 <= j < ws[k].len() ==> is_ascii_alnum(#[trigger] ws[k][j]),
        forall|k: int|
            0 <= k < seps.len() ==> is_ws(#[trigger] seps[k]) || seps[k] == '-' || seps[k] == '_' || seps[k] == ':'
                || seps[k] == '.',
    ensures
        normalized(join_by(ws, seps)) == join_space(lowered(ws)),
        normalized(join_by(ws, seps)).len() > 0,
{
    lemma_norm_map_joined(ws, seps);
    let lw = lowered(ws);
    assert forall|k: int| 0 <= k < lw.len() implies (#[trigger] lw[k]).len() > 0 by {
        assert(lw[k] == ascii_lower(ws[k]));
    }
    assert forall|k: int, j: int| 0 <= k < lw.len() && 0 <= j < lw[k].len() implies !is_ws(#[trigger] lw[k][j]) by {
        assert(lw[k] == ascii_lower(ws[k]));
        assert forall|i: int| 0 <= i < ws[k].len() implies is_ascii_alnum(#[trigger] ws[k][i]) by {}
        lemma_norm_map_word(ws[k]);
        assert(normal_char(ascii_lower(ws[k])[j]));
    }
    lemma_words_of_join(lw);
    let nc = |c: char| normal_char(c);
    assert forall|k: int, j: int| 0 <= k < lw.len() && 0 <= j < lw[k].len() implies nc(#[trigger] lw[k][j]) && lw[k][j] != ' ' by {
        assert(lw[k] == ascii_lower(ws[k]));
        assert forall|i: int| 0 <= i < ws[k].len() implies is_ascii_alnum(#[trigger] ws[k][i]) by {}
        lemma_norm_map_word(ws[k]);
        assert(normal_char(ascii_lower(ws[k])[j]));
    }
    lemma_join_space_shape(lw, nc);
}

/// A character that is neither an ASCII letter or digit, nor white space,
/// nor one of `-`, `_`, `:`, `.`, is dropped: the text normalizes as if it
/// were not there.
pub proof fn lemma_normalize_drops_other(a: Seq<char>, c: char, b: Seq<char>)
    requires
        !is_ascii_alnum(c),
        !is_ws(c),
        c != '-' && c != '_' && c != ':' && c != '.',
    ensures
        normalized(a + seq![c] + b) == normalized(a + b),
{
    lemma_norm_map_concat(a + seq![c], b);
    lemma_norm_map_concat(a, seq![c]);
    lemma_norm_map_concat(a, b);
    assert(seq![c].drop_last() =~= Seq::<char>::empty());
    assert(norm_map(seq![c]) =~= norm_map(Seq::<char>::empty()) + norm_piece(c));
    assert(norm_map(seq![c]) =~= Seq::<char>::empty());
    assert(norm_map(a) + Seq::<char>::empty() =~= norm_map(a));
}

/// Two words of ASCII letters and digits with one separator between them
/// (white space, `-`, `_`, `:` or `.`) normalize to the two words in lower
/// case with one space between them.
pub proof fn lemma_normalize_two_words(a: Seq<char>, s: char, b: Seq<char>)
    requires
        a.len() > 0,
        b.len() > 0,
        forall|i: int| 0 <= i < a.len() ==> is_ascii_alnum(#[trigger] a[i]),
        forall|i: int| 0 <= i < b.len() ==> is_ascii_alnum(#[trigger] b[i]),
        is_ws(s) || s == '-' || s == '_' || s == ':' || s == '.',
    ensures
        normalized(a + seq![s] + b) == ascii_lower(a) + seq![' '] + ascii_lower(b),
{
    let ws = seq![a, b];
    let seps = seq![s];
    assert(ws.drop_last() =~= seq![a]);
    assert(join_by(seq![a], seps) == a);
    assert(ws.last() == b);
    assert(seps[0] == s);
    assert(join_by(ws, seps) =~= a + seq![s] + b);
    lemma_normalize_separators(ws, seps);
    let lw = lowered(ws);
    assert(lw.drop_last() =~= seq![ascii_lower(a)]);
    assert(lw.last() == ascii_lower(b));
    assert(join_space(seq![ascii_lower(a)]) == ascii_lower(a));
    assert(join_space(lw) == join_space(lw.drop_last()) + seq![' '] + lw.last());
}

/// The normal form of a search text: ASCII letters and digits in lower case,
/// words separated by single spaces, other characters dropped.
pub fn normalize(value: &str) -> (r: String)
    ensures
        r@ == normalized(value@),
{
    let cs = chars_of(value);
    let mut m: Vec<char> = Vec::new();
    let mut i: usize = 0;
    assert(cs@.take(0) =~= Seq::<char>::empty());
    while i < cs.len()
        invariant
            i <= cs@.len(),
            m@ == norm_map(cs@.take(i as int)),
        decreases cs@.len() - i,
    {
        let c = cs[i];
        assert(cs@.take(i + 1).drop_last() =~= cs@.take(i as int));
        if is_alnum(c) {
            m.push(to_lower(c));
        } else if is_whitespace(c) || c == '-' || c == '_' || c == ':' || c == '.' {
            m.push(' ');
        }
        assert(m@ =~= norm_map(cs@.take(i + 1)));
        i = i + 1;
    }
    assert(cs@.take(cs@.len() as int) =~= cs@);
    let out = collapse_ws(m.as_slice());
    string_from_chars(out.as_slice())
}

/// A term matches a query when they are equal, the term contains the query,
/// or the query is at least three bytes long and contains the term.
pub open spec fn term_matches_spec(term: Seq<char>, query: Seq<char>) -> bool {
    ||| term == query
    ||| contains(term, query)
    ||| (utf8_len(query) >= 3 && contains(query, term))
}

/// The number of bytes that UTF-8 takes for `c`.
pub open spec fn utf8_width(c: char) -> nat {
    if (c as u32) < 0x80 {
        1
    } else if (c as u32) < 0x800 {
        2
    } else if (c as u32) < 0x10000 {
        3
    } else {
        4
    }
}

/// The number of bytes that UTF-8 takes for `s`, what `str::len` returns.
pub open spec fn utf8_len(s: Seq<char>) -> nat
    decreases s.len(),
{
    if s.len() == 0 {
        0
    } else {
        utf8_len(s.drop_last()) + utf8_width(s.last())
    }
}

/// Whether `s` takes at least three bytes in UTF-8.
fn at_least_three_bytes(s: &[char]) -> (r: bool)
    ensures
        r == (utf8_len(s@) >= 3),
{
    let mut total: u64 = 0;
    let mut i: usize = 0;
    assert(s@.take(0) =~= Seq::<char>::empty());
    while i < s.len() && total < 3
        invariant
            i <= s@.len(),
            total == utf8_len(s@.take(i as int)),
        decreases s@.len() - i,
    {
        let c = s[i];
        let w: u64 = if (c as u32) < 0x80 {
            1
        } else if (c as u32) < 0x800 {
            2
        } else if (c as u32) < 0x10000 {
            3
        } else {
            4
        };
        assert(s@.take(i + 1).drop_last() =~= s@.take(i as int));
        total = total + w;
        i = i + 1;
    }
    if total < 3 {
        assert(s@.take(i as int) =~= s@);
        false
    } else {
        proof {
            lemma_utf8_len_prefix(s@, i as int);
        }
        true
    }
}

/// A prefix takes no more bytes than the whole.
proof fn lemma_utf8_len_prefix(s: Seq<char>, i: int)
    requires
        0 <= i <= s.len(),
    ensures
        utf8_len(s.take(i)) <= utf8_len(s),
    decreases s.len() - i,
{
    if i < s.len() {
        lemma_utf8_len_prefix(s, i + 1);
        assert(s.take(i + 1).drop_last() =~= s.take(i));
    } else {
        assert(s.take(i) =~= s);
    }
}

/// Whether `term` matches `query`: equal, the term contains the query, or a
/// query of at least three bytes contains the term.
pub fn term_matches(term: &str, query: &str) -> (r: bool)
    ensures
        r == term_matches_spec(term@, query@),
{
    let t = chars_of(term);
    let q = chars_of(query);
    chars_eq(t.as_slice(), q.as_slice()) || contains_chars(t.as_slice(), q.as_slice()) || (
    at_least_three_bytes(q.as_slice()) && contains_chars(q.as_slice(), t.as_slice()))
}

/// The other names under which some games are known.
pub open spec fn aliases(app_id: Seq<char>) -> Seq<Seq<char>> {
    if app_id == "440"@ {
        seq!["Team Fortress 2"@, "TF2"@]
    } else if app_id == "570"@ {
        seq!["Dota 2"@, "DOTA"@]
    } else if app_id == "730"@ {
        seq![
            "Counter-Strike 2"@,
            "Counter Strike 2"@,
            "CS2"@,
            "Counter-Strike Global Offensive"@,
            "CSGO"@,
        ]
    } else {
        Seq::<Seq<char>>::empty()
    }
}

/// The views of a sequence of string slices.
pub open spec fn str_views(v: Seq<&str>) -> Seq<Seq<char>> {
    v.map_values(|x: &str| x@)
}

/// The other names under which the game `app_id` is known.
pub fn known_aliases(app_id: &str) -> (r: Vec<&'static str>)
    ensures
        str_views(r@) == aliases(app_id@),
{
    let r: Vec<&'static str> = if str_eq(app_id, "440") {
        vec!["Team Fortress 2", "TF2"]
    } else if str_eq(app_id, "570") {
        vec!["Dota 2", "DOTA"]
    } else if str_eq(app_id, "730") {
        vec!["Counter-Strike 2", "Counter Strike 2", "CS2", "Counter-Strike Global Offensive", "CSGO"]
    } else {
        Vec::new()
    };
    assert(str_views(r@) =~= aliases(app_id@));
    r
}

// ---------------------------------------------------------------------------
// Sorted term sets.
// ---------------------------------------------------------------------------

/// Strictly increasing in lexicographic order: sorted, with no repeats.
pub open spec fn sorted_strict(s: Seq<Seq<char>>) -> bool {
    forall|i: int, j: int| 0 <= i < j < s.len() ==> lex_lt(#[trigger] s[i], #[trigger] s[j])
}

/// Adds `v` to the sorted, repeat-free `terms`, unless it is there already.
fn insert_sorted(terms: &mut Vec<String>, v: String)
    requires
        sorted_strict(string_views(old(terms)@)),
    ensures
        sorted_strict(string_views(final(terms)@)),
        string_views(final(terms)@).to_set() == string_views(old(terms)@).to_set().insert(v@),
{
    let vc = chars_of(v.as_str());
    let mut i: usize = 0;
    let ghost old_v = string_views(terms@);
    while i < terms.len()
        invariant
            i <= terms@.len(),
            old_v == string_views(terms@),
            vc@ == v@,
            forall|j: int| 0 <= j < i ==> lex_lt(#[trigger] old_v[j], v@),
        ensures
            i <= terms@.len(),
            old_v == string_views(terms@),
            forall|j: int| 0 <= j < i ==> lex_lt(#[trigger] old_v[j], v@),
            i < terms@.len() ==> !lex_lt(old_v[i as int], v@),
        decreases terms@.len() - i,
    {
        let tc = chars_of(terms[i].as_str());
        if !lex_less(tc.as_slice(), vc.as_slice()) {
            break;
        }
        i = i + 1;
    }
    if i < terms.len() {
        let tc = chars_of(terms[i].as_str());
        if chars_eq(tc.as_slice(), vc.as_slice()) {
            assert(old_v.to_set().insert(v@) =~= old_v.to_set()) by {
                assert(old_v[i as int] == v@);
            }
            return;
        }
    }
    proof {
        if i < old_v.len() {
            lemma_lex_total(old_v[i as int], v@);
            assert(lex_lt(v@, old_v[i as int]));
            assert forall|j: int| i <= j < old_v.len() implies lex_lt(v@, #[trigger] old_v[j]) by {
                if j > i {
                    lemma_lex_trans(v@, old_v[i as int], old_v[j]);
                }
            }
        }
    }
    terms.insert(i, v);
    proof {
        let nv = string_views(terms@);
        assert(nv =~= old_v.insert(i as int, v@));
        assert forall|a: int, b: int| 0 <= a < b < nv.len() implies lex_lt(#[trigger] nv[a], #[trigger] nv[b]) by {
            if b < i {
            } else if a < i && b == i {
            } else if a < i {
                assert(nv[b] == old_v[b - 1]);
                lemma_lex_trans(nv[a], v@, nv[b]);
            } else if a == i {
                assert(nv[b] == old_v[b - 1]);
            } else {
                assert(nv[a] == old_v[a - 1]);
                assert(nv[b] == old_v[b - 1]);
            }
        }
        assert forall|t: Seq<char>| nv.to_set().contains(t) == old_v.to_set().insert(v@).contains(t) by {
            if nv.to_set().contains(t) {
                let k = choose|k: int| 0 <= k < nv.len() && nv[k] == t;
                if k < i {
                    assert(old_v[k] == t);
                } else if k > i {
                    assert(old_v[k - 1] == t);
                }
            }
            if old_v.to_set().contains(t) && t != v@ {
                let k = choose|k: int| 0 <= k < old_v.len() && old_v[k] == t;
                if k < i {
                    assert(nv[k] == t);
                } else {
                    assert(nv[k + 1] == t);
                }
            }
            if t == v@ {
                assert(nv[i as int] == t);
            }
        }
        assert(nv.to_set() =~= old_v.to_set().insert(v@));
    }
}

/// The normal forms of `cands` that are not empty.
pub open spec fn term_set(cands: Seq<Seq<char>>) -> Set<Seq<char>>
    decreases cands.len(),
{
    if cands.len() == 0 {
        Set::empty()
    } else {
        let s = term_set(cands.drop_last());
        let t = normalized(cands.last());
        if t.len() > 0 {
            s.insert(t)
        } else {
            s
        }
    }
}

/// Adds the normal form of `value` to the sorted terms, unless it is empty.
pub fn insert_term(terms: &mut Vec<String>, value: &str)
    requires
        sorted_strict(string_views(old(terms)@)),
    ensures
        sorted_strict(string_views(final(terms)@)),
        string_views(final(terms)@).to_set() == (if normalized(value@).len() > 0 {
            string_views(old(terms)@).to_set().insert(normalized(value@))
        } else {
            string_views(old(terms)@).to_set()
        }),
{
    let v = normalize(value);
    if v.as_str().is_empty() {
        return;
    }
    insert_sorted(terms, v);
}

// ---------------------------------------------------------------------------
// The index.
// ---------------------------------------------------------------------------

/// A .lua file: where it lies, and the name it gets inside an archive.
#[derive(Debug, Clone)]
pub struct LuaFile {
    pub source_path: String,
    pub archive_path: String,
}

impl LuaFile {
    /// A copy of this file entry.
    pub fn duplicate(&self) -> (r: LuaFile)
        ensures
            r == *self,
    {
        LuaFile { source_path: self.source_path.clone(), archive_path: self.archive_path.clone() }
    }
}

/// The stems of the files' names, in order, for the files that have one.
pub open spec fn file_stems(files: Seq<LuaFile>) -> Seq<Seq<char>>
    decreases files.len(),
{
    if files.len() == 0 {
        Seq::<Seq<char>>::empty()
    } else {
        let r = file_stems(files.drop_last());
        match path_stem(files.last().source_path@) {
            Some(stem) => r.push(stem),
            None => r,
        }
    }
}

/// What a game is searched by: its AppID, its other names, and its file stems.
pub open spec fn term_sources(app_id: Seq<char>, files: Seq<LuaFile>) -> Seq<Seq<char>> {
    seq![app_id] + aliases(app_id) + file_stems(files)
}

/// The search terms of a game: the normal forms of its AppID, its other
/// names and its file stems, without empty ones, sorted and without repeats.
pub fn build_terms(app_id: &str, files: &[LuaFile]) -> (r: Vec<String>)
    ensures
        sorted_strict(string_views(r@)),
        string_views(r@).to_set() == term_set(term_sources(app_id@, files@)),
{
    let mut cands: Vec<String> = Vec::new();
    cands.push(app_id.to_owned());
    let al = known_aliases(app_id);
    let mut i: usize = 0;
    while i < al.len()
        invariant
            i <= al@.len(),
            string_views(cands@) == seq![app_id@] + str_views(al@).take(i as int),
        decreases al@.len() - i,
    {
        let a: &str = al[i];
        let owned = a.to_owned();
        assert(owned@ == al@[i as int]@);
        let ghost before = string_views(cands@);
        cands.push(owned);
        assert(string_views(cands@) =~= before.push(owned@));
        assert(str_views(al@).take(i + 1) =~= str_views(al@).take(i as int).push(al@[i as int]@));
        assert(string_views(cands@) =~= seq![app_id@] + str_views(al@).take(i + 1));
        i = i + 1;
    }
    assert(str_views(al@).take(al@.len() as int) =~= str_views(al@));
    let ghost head = string_views(cands@);
    let mut k: usize = 0;
    assert(files@.take(0) =~= Seq::<LuaFile>::empty());
    assert(head + file_stems(files@.take(0)) =~= head);
    while k < files.len()
        invariant
            k <= files@.len(),
            string_views(cands@) == head + file_stems(files@.take(k as int)),
        decreases files@.len() - k,
    {
        assert(files@.take(k + 1).drop_last() =~= files@.take(k as int));
        assert(files@.take(k + 1).last() == files@[k as int]);
        let ghost before = string_views(cands@);
        match path_file_stem(files[k].source_path.as_str()) {
            Some(stem) => {
                let ghost sv = stem@;
                cands.push(stem);
                assert(string_views(cands@) =~= before.push(sv));
                assert(string_views(cands@) =~= head + file_stems(files@.take(k + 1)));
            },
            None => {},
        }
        k = k + 1;
    }
    assert(files@.take(files@.len() as int) =~= files@);
    assert(string_views(cands@) =~= term_sources(app_id@, files@));
    let mut terms: Vec<String> = Vec::new();
    let mut j: usize = 0;
    assert(string_views(cands@).take(0) =~= Seq::<Seq<char>>::empty());
    assert(string_views(terms@).to_set() =~= Set::<Seq<char>>::empty());
    while j < cands.len()
        invariant
            j <= cands@.len(),
            sorted_strict(string_views(terms@)),
            string_views(terms@).to_set() == term_set(string_views(cands@).take(j as int)),
        decreases cands@.len() - j,
    {
        assert(string_views(cands@).take(j + 1).drop_last() =~= string_views(cands@).take(j as int));
        insert_term(&mut terms, cands[j].as_str());
        j = j + 1;
    }
    assert(string_views(cands@).take(cands@.len() as int) =~= string_views(cands@));
    terms
}

/// What the index knows of one game folder.
pub struct GameModel {
    pub app_id: Seq<char>,
    pub terms: Set<Seq<char>>,
    pub files: Seq<LuaFile>,
}

/// The model of a game folder with the given AppID and files.
pub open spec fn game_model(app_id: Seq<char>, files: Seq<LuaFile>) -> GameModel {
    GameModel { app_id, terms: term_set(term_sources(app_id, files)), files }
}

/// The games that the index holds for the scanned folders `entries`, in
/// order: one for each folder with at least one file.
pub open spec fn index_model(entries: Seq<(String, Vec<LuaFile>)>) -> Seq<GameModel>
    decreases entries.len(),
{
    if entries.len() == 0 {
        Seq::<GameModel>::empty()
    } else {
        let r = index_model(entries.drop_last());
        let e = entries.last();
        if e.1@.len() > 0 {
            r.push(game_model(e.0@, e.1@))
        } else {
            r
        }
    }
}

/// The number of files of all games.
pub open spec fn total_files(games: Seq<GameModel>) -> nat
    decreases games.len(),
{
    if games.len() == 0 {
        0
    } else {
        total_files(games.drop_last()) + games.last().files.len()
    }
}

/// The index of the last game whose AppID is exactly `id`.
pub open spec fn last_game_with_id(games: Seq<GameModel>, id: Seq<char>) -> Option<int>
    decreases games.len(),
{
    if games.len() == 0 {
        None
    } else if games.last().app_id == id {
        Some(games.len() - 1)
    } else {
        last_game_with_id(games.drop_last(), id)
    }
}

/// A game matches a normalized query when one of its terms does.
pub open spec fn game_matches(g: GameModel, q: Seq<char>) -> bool {
    exists|t: Seq<char>| g.terms.contains(t) && term_matches_spec(t, q)
}

/// The files of the games that match `q`, game after game in index order.
pub open spec fn matched_files(games: Seq<GameModel>, q: Seq<char>) -> Seq<LuaFile>
    decreases games.len(),
{
    if games.len() == 0 {
        Seq::<LuaFile>::empty()
    } else {
        matched_files(games.drop_last(), q) + (if game_matches(games.last(), q) {
            games.last().files
        } else {
            Seq::<LuaFile>::empty()
        })
    }
}

/// What a search for `query` returns: nothing for a blank query; the files of
/// the last game whose AppID is the trimmed query exactly; otherwise the
/// files of every game with a term that matches the normalized query, in
/// index order, or nothing where the normalized query is empty.
pub open spec fn search_result(games: Seq<GameModel>, query: Seq<char>) -> Seq<LuaFile> {
    let t = trim(query);
    if t.len() == 0 {
        Seq::<LuaFile>::empty()
    } else {
        match last_game_with_id(games, t) {
            Some(i) => games[i].files,
            None => {
                let q = normalized(t);
                if q.len() == 0 {
                    Seq::<LuaFile>::empty()
                } else {
                    matched_files(games, q)
                }
            },
        }
    }
}

struct GameEntry {
    app_id: String,
    terms: Vec<String>,
    files: Vec<LuaFile>,
}

impl GameEntry {
    closed spec fn model(self) -> GameModel {
        GameModel { app_id: self.app_id@, terms: string_views(self.terms@).to_set(), files: self.files@ }
    }

    closed spec fn wf(self) -> bool {
        &&& self.files@.len() > 0
        &&& sorted_strict(string_views(self.terms@))
        &&& self.model() == game_model(self.app_id@, self.files@)
    }
}

/// In-memory index of all .lua files organized by game folder.
pub struct LuaFinder {
    games: Vec<GameEntry>,
    file_count: usize,
}

/// Appends copies of `files` to `out`.
fn append_files(out: &mut Vec<LuaFile>, files: &Vec<LuaFile>)
    ensures
        final(out)@ == old(out)@ + files@,
{
    let ghost start = out@;
    let mut i: usize = 0;
    while i < files.len()
        invariant
            i <= files@.len(),
            out@ == start + files@.take(i as int),
        decreases files@.len() - i,
    {
        out.push(files[i].duplicate());
        assert(start + files@.take(i + 1) =~= (start + files@.take(i as int)).push(files@[i as int]));
        i = i + 1;
    }
    assert(files@.take(files@.len() as int) =~= files@);
}

impl View for LuaFinder {
    type V = Seq<GameModel>;

    closed spec fn view(&self) -> Seq<GameModel> {
        self.games@.map_values(|g: GameEntry| g.model())
    }
}

impl LuaFinder {
    #[verifier::type_invariant]
    closed spec fn inv(self) -> bool {
        &&& forall|i: int| 0 <= i < self.games@.len() ==> (#[trigger] self.games@[i]).wf()
        &&& self.file_count == total_files(self@)
    }

    /// Builds the index from the scanned game folders: each entry is a folder's
    /// AppID and the .lua files found under it. Folders without files are left
    /// out; the others keep their order and get their search terms.
    pub fn from_games(entries: Vec<(String, Vec<LuaFile>)>) -> (r: LuaFinder)
        requires
            total_files(index_model(entries@)) <= usize::MAX,
        ensures
            r@ == index_model(entries@),
    {
        let mut games: Vec<GameEntry> = Vec::new();
        let mut count: usize = 0;
        let mut i: usize = 0;
        assert(entries@.take(0) =~= Seq::<(String, Vec<LuaFile>)>::empty());
        while i < entries.len()
            invariant
                i <= entries@.len(),
                total_files(index_model(entries@)) <= usize::MAX,
                forall|j: int| 0 <= j < games@.len() ==> (#[trigger] games@[j]).wf(),
                games@.map_values(|g: GameEntry| g.model()) == index_model(entries@.take(i as int)),
                count == total_files(index_model(entries@.take(i as int))),
            decreases entries@.len() - i,
        {
            let ghost prev = games@.map_values(|g: GameEntry| g.model());
            assert(entries@.take(i + 1).drop_last() =~= entries@.take(i as int));
            assert(entries@.take(i + 1).last() == entries@[i as int]);
            proof {
                lemma_index_model_prefix(entries@, i + 1);
            }
            let entry = &entries[i];
            if entry.1.len() > 0 {
                let terms = build_terms(entry.0.as_str(), entry.1.as_slice());
                let mut files: Vec<LuaFile> = Vec::new();
                append_files(&mut files, &entry.1);
                assert(files@ =~= entry.1@);
                let g = GameEntry { app_id: entry.0.clone(), terms, files };
                assert(g.model().terms =~= game_model(entry.0@, entry.1@).terms);
                assert(g.wf());
                let ghost next = index_model(entries@.take(i + 1));
                assert(next == prev.push(g.model()));
                assert(next.drop_last() =~= prev);
                assert(total_files(next) == count + entry.1@.len());
                count = count + entry.1.len();
                games.push(g);
                assert(games@.map_values(|g: GameEntry| g.model()) =~= prev.push(g.model()));
            } else {
                assert(index_model(entries@.take(i + 1)) == prev);
            }
            i = i + 1;
        }
        assert(entries@.take(entries@.len() as int) =~= entries@);
        LuaFinder { games, file_count: count }
    }

    /// Searches for .lua files by AppID, known game alias, folder name, or file name.
    pub fn search(&self, query: &str) -> (r: Vec<LuaFile>)
        ensures
            r@ == search_result(self@, query@),
    {
        proof {
            use_type_invariant(self);
        }
        let ghost games = self@;
        let trimmed = trim_str(query);
        let mut results: Vec<LuaFile> = Vec::new();
        if trimmed.as_str().is_empty() {
            return results;
        }
        let mut i = self.games.len();
        assert(games.take(i as int) =~= games);
        while i > 0
            invariant
                i <= self.games@.len(),
                games == self@,
                results@ == Seq::<LuaFile>::empty(),
                trim(query@) == trimmed@,
                trimmed@.len() > 0,
                last_game_with_id(games, trimmed@) == last_game_with_id(games.take(i as int), trimmed@),
            decreases i,
        {
            let g = &self.games[i - 1];
            assert(games.take(i as int).last() == g.model());
            if str_eq(g.app_id.as_str(), trimmed.as_str()) {
                assert(games[i - 1] == g.model());
                append_files(&mut results, &g.files);
                assert(results@ =~= g.files@);
                return results;
            }
            assert(games.take(i as int).drop_last() =~= games.take(i - 1));
            i = i - 1;
        }
        assert(games.take(0) =~= Seq::<GameModel>::empty());
        assert(last_game_with_id(games, trimmed@) is None);
        let q = normalize(trimmed.as_str());
        if q.as_str().is_empty() {
            return results;
        }
        assert(matched_files(games.take(0), q@) =~= results@);
        let mut k: usize = 0;
        assert(games.take(0) =~= Seq::<GameModel>::empty());
        while k < self.games.len()
            invariant
                k <= self.games@.len(),
                games == self@,
                forall|j: int| 0 <= j < self.games@.len() ==> (#[trigger] self.games@[j]).wf(),
                results@ == matched_files(games.take(k as int), q@),
            decreases self.games@.len() - k,
        {
            let g = &self.games[k];
            assert(games[k as int] == g.model());
            assert(games.take(k + 1).drop_last() =~= games.take(k as int));
            assert(games.take(k + 1).last() == g.model());
            let mut found = false;
            let mut t: usize = 0;
            while t < g.terms.len() && !found
                invariant
                    t <= g.terms@.len(),
                    found ==> game_matches(g.model(), q@),
                    !found ==> forall|j: int| 0 <= j < t ==> !term_matches_spec(#[trigger] g.terms@[j]@, q@),
                decreases g.terms@.len() - t,
            {
                if term_matches(g.terms[t].as_str(), q.as_str()) {
                    assert(string_views(g.terms@).to_set().contains(g.terms@[t as int]@)) by {
                        assert(string_views(g.terms@)[t as int] == g.terms@[t as int]@);
                    }
                    found = true;
                }
                t = t + 1;
            }
            if found {
                append_files(&mut results, &g.files);
            } else {
                assert(!game_matches(g.model(), q@)) by {
                    if game_matches(g.model(), q@) {
                        let w = choose|w: Seq<char>| g.model().terms.contains(w) && term_matches_spec(w, q@);
                        let j = choose|j: int| 0 <= j < string_views(g.terms@).len() && string_views(g.terms@)[j] == w;
                        assert(g.terms@[j]@ == w);
                    }
                }
                assert(results@ =~= results@ + Seq::<LuaFile>::empty());
            }
            k = k + 1;
        }
        assert(games.take(self.games@.len() as int) =~= games);
        results
    }

    /// The number of indexed game folders.
    pub fn app_count(&self) -> (r: usize)
        ensures
            r == self@.len(),
    {
        self.games.len()
    }

    /// The number of indexed .lua files.
    pub fn file_count(&self) -> (r: usize)
        ensures
            r == total_files(self@),
    {
        proof {
            use_type_invariant(self);
        }
        self.file_count
    }
}

/// Each prefix of the entries indexes to no more files than all of them.
proof fn lemma_index_model_prefix(entries: Seq<(String, Vec<LuaFile>)>, i: int)
    requires
        0 <= i <= entries.len(),
    ensures
        total_files(index_model(entries.take(i))) <= total_files(index_model(entries)),
    decreases entries.len() - i,
{
    if i < entries.len() {
        lemma_index_model_prefix(entries, i + 1);
        assert(entries.take(i + 1).drop_last() =~= entries.take(i));
        let m = index_model(entries.take(i));
        let e = entries.take(i + 1).last();
        if e.1@.len() > 0 {
            assert(m.push(game_model(e.0@, e.1@)).drop_last() =~= m);
        }
    } else {
        assert(entries.take(i) =~= entries);
    }
}

/// Every game that the index keeps has at least one file.
pub proof fn lemma_index_model_games_have_files(entries: Seq<(String, Vec<LuaFile>)>)
    ensures
        forall|k: int| 0 <= k < index_model(entries).len() ==> (#[trigger] index_model(entries)[k]).files.len() > 0,
    decreases entries.len(),
{
    if entries.len() > 0 {
        lemma_index_model_games_have_files(entries.drop_last());
        let r = index_model(entries.drop_last());
        let e = entries.last();
        assert forall|k: int| 0 <= k < index_model(entries).len() implies (#[trigger] index_model(entries)[k]).files.len() > 0 by {
            if k < r.len() {
                assert(index_model(entries)[k] == r[k]);
            } else {
                assert(e.1@.len() > 0);
                assert(index_model(entries)[k] == game_model(e.0@, e.1@));
            }
        }
    }
}

/// Games that each have a file hold at least as many files as there are
/// games, and no file exactly where there is no game.
pub proof fn lemma_game_and_file_counts(games: Seq<GameModel>)
    requires
        forall|k: int| 0 <= k < games.len() ==> (#[trigger] games[k]).files.len() > 0,
    ensures
        games.len() <= total_files(games),
        (games.len() == 0) == (total_files(games) == 0),
    decreases games.len(),
{
    if games.len() > 0 {
        let g = games.drop_last();
        assert forall|k: int| 0 <= k < g.len() implies (#[trigger] g[k]).files.len() > 0 by {
            assert(g[k] == games[k]);
        }
        lemma_game_and_file_counts(g);
        assert(games.last() == games[games.len() - 1]);
    }
}

/// An index built from any scanned folders counts no more games than files,
/// and no game exactly where it counts no file.
pub proof fn lemma_index_counts(entries: Seq<(String, Vec<LuaFile>)>)
    ensures
        index_model(entries).len() <= total_files(index_model(entries)),
        (index_model(entries).len() == 0) == (total_files(index_model(entries)) == 0),
{
    lemma_index_model_games_have_files(entries);
    lemma_game_and_file_counts(index_model(entries));
}

/// The files that searches for the AppIDs of the first `n` games return, added up.
pub open spec fn app_id_search_total(games: Seq<GameModel>, n: int) -> nat
    decreases n,
{
    if n <= 0 {
        0
    } else {
        app_id_search_total(games, n - 1) + search_result(games, games[n - 1].app_id).len()
    }
}

/// Where the AppIDs of the games differ and are trimmed and not empty, the
/// searches for each AppID together return every file exactly once: their
/// sizes add up to the number of files.
pub proof fn lemma_file_count_by_app_id(games: Seq<GameModel>)
    requires
        forall|k: int| 0 <= k < games.len() ==> (#[trigger] games[k]).app_id.len() > 0
            && trim(games[k].app_id) == games[k].app_id,
        forall|i: int, j: int| 0 <= i < j < games.len() ==> (#[trigger] games[i]).app_id != (#[trigger] games[j]).app_id,
    ensures
        app_id_search_total(games, games.len() as int) == total_files(games),
{
    assert forall|n: int| 0 <= n <= games.len() implies #[trigger] app_id_search_total(games, n) == total_files(games.take(n)) by {
        lemma_search_total_prefix(games, n);
    }
    assert(games.take(games.len() as int) =~= games);
}

proof fn lemma_search_total_prefix(games: Seq<GameModel>, n: int)
    requires
        0 <= n <= games.len(),
        forall|k: int| 0 <= k < games.len() ==> (#[trigger] games[k]).app_id.len() > 0
            && trim(games[k].app_id) == games[k].app_id,
        forall|i: int, j: int| 0 <= i < j < games.len() ==> (#[trigger] games[i]).app_id != (#[trigger] games[j]).app_id,
    ensures
        app_id_search_total(games, n) == total_files(games.take(n)),
    decreases n,
{
    if n == 0 {
        assert(games.take(0) =~= Seq::<GameModel>::empty());
    } else {
        lemma_search_total_prefix(games, n - 1);
        let i = n - 1;
        assert(games[i].app_id.len() > 0);
        assert forall|j: int| i < j < games.len() implies (#[trigger] games[j]).app_id != games[i].app_id by {
            assert(games[i].app_id != games[j].app_id);
        }
        lemma_search_by_app_id(games, i, games[i].app_id);
        assert(games.take(n).drop_last() =~= games.take(n - 1));
        assert(games.take(n).last() == games[i]);
    }
}

// ---------------------------------------------------------------------------
// What archive names look like.
// ---------------------------------------------------------------------------

/// A character that may stand in an archive name: a safe one or `/`.
pub open spec fn archive_char() -> spec_fn(char) -> bool {
    |c: char| zip_safe(c) || c == '/'
}

/// A sanitized component holds only safe characters, where its fallback does.
proof fn lemma_sanitized_safe(v: Seq<char>, fallback: Seq<char>)
    requires
        all_chars(fallback, archive_char()),
    ensures
        all_chars(sanitized(v, fallback), archive_char()),
{
    let m = v.map_values(|c: char| if zip_safe(c) { c } else { '_' });
    assert(all_chars(m, archive_char())) by {
        assert forall|i: int| 0 <= i < m.len() implies archive_char()(#[trigger] m[i]) by {
            assert(m[i] == (if zip_safe(v[i]) { v[i] } else { '_' }));
        }
    }
    lemma_strip_keeps(m, underscore(), archive_char());
}

/// A sanitized component, where its fallback is a clean one, is not empty,
/// holds only safe characters, neither begins nor ends with `_`, and stays
/// as it is when sanitized again.
pub proof fn lemma_sanitized_clean(v: Seq<char>, fallback: Seq<char>)
    requires
        fallback.len() > 0,
        forall|i: int| 0 <= i < fallback.len() ==> zip_safe(#[trigger] fallback[i]),
        fallback[0] != '_',
        fallback.last() != '_',
    ensures
        sanitized(v, fallback).len() > 0,
        forall|i: int| 0 <= i < sanitized(v, fallback).len() ==> zip_safe(#[trigger] sanitized(v, fallback)[i]),
        sanitized(v, fallback)[0] != '_',
        sanitized(v, fallback).last() != '_',
        sanitized(sanitized(v, fallback), fallback) == sanitized(v, fallback),
{
    let safe = |c: char| zip_safe(c);
    let m = v.map_values(|c: char| if zip_safe(c) { c } else { '_' });
    assert(all_chars(m, safe)) by {
        assert forall|i: int| 0 <= i < m.len() implies safe(#[trigger] m[i]) by {
            assert(m[i] == (if zip_safe(v[i]) { v[i] } else { '_' }));
        }
    }
    lemma_strip_keeps(m, underscore(), safe);
    lemma_strip_both_ends(m, underscore());
    let r = sanitized(v, fallback);
    assert(forall|i: int| 0 <= i < r.len() ==> zip_safe(#[trigger] r[i])) by {
        if strip_both(m, underscore()).len() > 0 {
            assert forall|i: int| 0 <= i < r.len() implies zip_safe(#[trigger] r[i]) by {
                assert(safe(strip_both(m, underscore())[i]));
            }
        }
    }
    let m2 = r.map_values(|c: char| if zip_safe(c) { c } else { '_' });
    assert(m2 =~= r);
    lemma_strip_both_ends(r, underscore());
}

/// Every file is stored under a name that begins with its game's sanitized
/// AppID and a slash and holds only ASCII letters, digits, `.`, `-`, `_` and `/`.
pub proof fn lemma_archive_name_safe(app_id: Seq<char>, relative: Seq<char>)
    ensures
        all_chars(archive_name(app_id, relative), archive_char()),
        starts_with(archive_name(app_id, relative), sanitized(app_id, "game"@).push('/')),
{
    reveal_strlit("game");
    reveal_strlit("script");
    reveal_strlit("script.lua");
    assert(all_chars("game"@, archive_char()));
    assert(all_chars("script"@, archive_char()));
    assert(all_chars("script.lua"@, archive_char()));
    let comps = normal_components(relative);
    let parts0 = seq![sanitized(app_id, "game"@)] + comps.map_values(sanitize_script());
    let parts = archive_parts(app_id, relative);
    assert forall|k: int| 0 <= k < parts.len() implies all_chars(#[trigger] parts[k], archive_char()) by {
        if k == 0 {
            lemma_sanitized_safe(app_id, "game"@);
        } else if k < parts0.len() {
            assert(parts[k] == sanitized(comps[k - 1], "script"@));
            lemma_sanitized_safe(comps[k - 1], "script"@);
        } else {
            assert(parts[k] == "script.lua"@);
        }
    }
    assert(archive_char()('/'));
    lemma_join_keeps(parts, '/', archive_char());
    assert(parts.len() >= 2);
    assert(parts[0] == sanitized(app_id, "game"@));
    lemma_join_starts(parts, '/');
}

/// Where no later game has the same AppID, the last game with an AppID is found by it.
proof fn lemma_last_game(games: Seq<GameModel>, i: int)
    requires
        0 <= i < games.len(),
        forall|j: int| i < j < games.len() ==> (#[trigger] games[j]).app_id != games[i].app_id,
    ensures
        last_game_with_id(games, games[i].app_id) == Some(i),
    decreases games.len(),
{
    if i < games.len() - 1 {
        let dl = games.drop_last();
        assert forall|j: int| i < j < dl.len() implies (#[trigger] dl[j]).app_id != dl[i].app_id by {
            assert(dl[j] == games[j]);
        }
        lemma_last_game(dl, i);
        assert(games.last() == games[games.len() - 1]);
    }
}

/// A search for a game's AppID, with white space around it or not, returns
/// exactly that game's files, where no later game has the same AppID.
pub proof fn lemma_search_by_app_id(games: Seq<GameModel>, i: int, query: Seq<char>)
    requires
        0 <= i < games.len(),
        games[i].app_id.len() > 0,
        trim(query) == games[i].app_id,
        forall|j: int| i < j < games.len() ==> (#[trigger] games[j]).app_id != games[i].app_id,
    ensures
        search_result(games, query) == games[i].files,
{
    lemma_last_game(games, i);
}

/// The normal form of each text is among the terms of the texts, where it is
/// not empty.
proof fn lemma_term_set_has(cands: Seq<Seq<char>>, k: int)
    requires
        0 <= k < cands.len(),
        normalized(cands[k]).len() > 0,
    ensures
        term_set(cands).contains(normalized(cands[k])),
    decreases cands.len(),
{
    if k < cands.len() - 1 {
        assert(cands.drop_last()[k] == cands[k]);
        lemma_term_set_has(cands.drop_last(), k);
    }
}

/// The other names of the games that have some: Team Fortress 2 (440),
/// Dota 2 (570) and Counter-Strike (730).
pub proof fn lemma_known_alias_table()
    ensures
        aliases("440"@) == seq!["Team Fortress 2"@, "TF2"@],
        aliases("570"@) == seq!["Dota 2"@, "DOTA"@],
        aliases("730"@) == seq![
            "Counter-Strike 2"@,
            "Counter Strike 2"@,
            "CS2"@,
            "Counter-Strike Global Offensive"@,
            "CSGO"@,
        ],
{
    reveal_strlit("440");
    reveal_strlit("570");
    reveal_strlit("730");
    assert("570"@[1] != "440"@[1]);
    assert("730"@[0] != "440"@[0]);
    assert("730"@[0] != "570"@[0]);
}

/// A search for "Team Fortress 2" or "TF2" finds the game of AppID 440,
/// whatever its files: the game matches the normalized query, and in an index
/// that holds only that game the search returns its files.
pub proof fn lemma_team_fortress_found(files: Seq<LuaFile>, query: Seq<char>)
    requires
        query == "Team Fortress 2"@ || query == "TF2"@,
    ensures
        game_matches(game_model("440"@, files), normalized(query)),
        search_result(seq![game_model("440"@, files)], query) == files,
{
    lemma_known_alias_table();
    reveal_strlit("Team Fortress 2");
    reveal_strlit("TF2");
    reveal_strlit("440");
    reveal_strlit("Team");
    reveal_strlit("Fortress");
    reveal_strlit("2");
    let g = game_model("440"@, files);
    let cands = term_sources("440"@, files);
    let k: int = if query == "Team Fortress 2"@ { 1 } else { 2 };
    assert(cands[k] == query);
    if query == "Team Fortress 2"@ {
        let ws = seq!["Team"@, "Fortress"@, "2"@];
        let seps = seq![' ', ' '];
        assert(ws.drop_last().drop_last() =~= seq!["Team"@]);
        assert(ws.drop_last() =~= seq!["Team"@, "Fortress"@]);
        assert(join_by(seq!["Team"@], seps) == "Team"@);
        assert(join_by(ws.drop_last(), seps) =~= "Team"@ + seq![' '] + "Fortress"@);
        assert(join_by(ws, seps) =~= query);
        assert forall|a: int, j: int| 0 <= a < ws.len() && 0 <= j < ws[a].len() implies is_ascii_alnum(#[trigger] ws[a][j]) by {
            if a == 0 {
                assert(ws[a] == "Team"@);
            } else if a == 1 {
                assert(ws[a] == "Fortress"@);
            } else {
                assert(ws[a] == "2"@);
            }
        }
        lemma_normalize_separators(ws, seps);
    } else {
        let ws = seq!["TF2"@];
        let seps = Seq::<char>::empty();
        assert(join_by(ws, seps) == query);
        assert forall|a: int, j: int| 0 <= a < ws.len() && 0 <= j < ws[a].len() implies is_ascii_alnum(#[trigger] ws[a][j]) by {
            assert(ws[a] == "TF2"@);
        }
        lemma_normalize_separators(ws, seps);
    }
    let q = normalized(query);
    lemma_term_set_has(cands, k);
    assert(g.terms.contains(q) && term_matches_spec(q, q));
    assert(crate::text::trim_start(query) == query);
    assert(crate::text::trim_end(query) == query);
    assert(trim(query) == query);
    let games = seq![g];
    assert(games.drop_last() =~= Seq::<GameModel>::empty());
    assert(games.last() == g);
    assert(g.app_id != query);
    assert(last_game_with_id(Seq::<GameModel>::empty(), query) is None);
    assert(last_game_with_id(games, query) == last_game_with_id(games.drop_last(), query));
    assert(last_game_with_id(games, query) is None);
    assert(game_matches(g, q));
    assert(matched_files(Seq::<GameModel>::empty(), q) == Seq::<LuaFile>::empty());
    assert(matched_files(games, q) == matched_files(games.drop_last(), q) + g.files);
    assert(matched_files(games, q) =~= files);
}

} // verus!
