use vstd::prelude::*;

verus! {

/// The characters of `s`, in order.
pub fn chars_of(s: &str) -> (r: Vec<char>)
    ensures
        r@ == s@,
{
    let mut r: Vec<char> = Vec::new();
    for c in it: s.chars()
        invariant
            r@ == it.seq().take(it.index()),
    {
        r.push(c);
    }
    r
}

} // verus!

verus! {

/// Appends `c` to `s` through `String::push`; the contract states that the
/// string's characters grow by exactly `c` at the end, as the std documentation says.
#[verifier::external_body]
pub(crate) fn push_char(s: &mut String, c: char)
    ensures
        final(s)@ == old(s)@.push(c),
{
    s.push(c);
}

/// A string holding exactly the characters `cs`.
pub fn string_from_chars(cs: &[char]) -> (r: String)
    ensures
        r@ == cs@,
{
    let mut r = String::new();
    let mut i: usize = 0;
    while i < cs.len()
        invariant
            i <= cs@.len(),
            r@ == cs@.take(i as int),
        decreases cs@.len() - i,
    {
        push_char(&mut r, cs[i]);
        assert(cs@.take(i as int).push(cs@[i as int]) =~= cs@.take(i + 1));
        i = i + 1;
    }
    assert(cs@.take(cs@.len() as int) =~= cs@);
    r
}

/// Whether two strings hold the same characters.
pub fn str_eq(a: &str, b: &str) -> (r: bool)
    ensures
        r == (a@ == b@),
{
    let x = chars_of(a);
    let y = chars_of(b);
    chars_eq(x.as_slice(), y.as_slice())
}

/// Whether two character slices are equal.
pub fn chars_eq(x: &[char], y: &[char]) -> (r: bool)
    ensures
        r == (x@ == y@),
{
    if x.len() != y.len() {
        return false;
    }
    let mut i: usize = 0;
    while i < x.len()
        invariant
            x@.len() == y@.len(),
            i <= x@.len(),
            forall|j: int| 0 <= j < i ==> x@[j] == y@[j],
        decreases x@.len() - i,
    {
        if x[i] != y[i] {
            return false;
        }
        i = i + 1;
    }
    assert(x@ =~= y@);
    true
}

} // verus!

verus! {

/// Unicode `White_Space`, the set that `char::is_whitespace` tests.
pub open spec fn is_ws(c: char) -> bool {
    ||| ('\t' <= c && c <= '\r')
    ||| c == ' '
    ||| c == '\u{85}'
    ||| c == '\u{a0}'
    ||| c == '\u{1680}'
    ||| ('\u{2000}' <= c && c <= '\u{200a}')
    ||| c == '\u{2028}'
    ||| c == '\u{2029}'
    ||| c == '\u{202f}'
    ||| c == '\u{205f}'
    ||| c == '\u{3000}'
}

/// Whether `c` is Unicode white space.
pub fn is_whitespace(c: char) -> (r: bool)
    ensures
        r == is_ws(c),
{
    ('\t' <= c && c <= '\r') || c == ' ' || c == '\u{85}' || c == '\u{a0}' || c == '\u{1680}'
        || ('\u{2000}' <= c && c <= '\u{200a}') || c == '\u{2028}' || c == '\u{2029}'
        || c == '\u{202f}' || c == '\u{205f}' || c == '\u{3000}'
}

/// `s` without its leading white space.
pub open spec fn trim_start(s: Seq<char>) -> Seq<char>
    decreases s.len(),
{
    if s.len() > 0 && is_ws(s[0]) {
        trim_start(s.drop_first())
    } else {
        s
    }
}

/// `s` without its trailing white space.
pub open spec fn trim_end(s: Seq<char>) -> Seq<char>
    decreases s.len(),
{
    if s.len() > 0 && is_ws(s.last()) {
        trim_end(s.drop_last())
    } else {
        s
    }
}

/// `s` without leading and trailing white space.
pub open spec fn trim(s: Seq<char>) -> Seq<char> {
    trim_end(trim_start(s))
}

/// Leading white space can be dropped before trimming the start.
pub proof fn lemma_trim_start_skip(s: Seq<char>, i: int)
    requires
        0 <= i <= s.len(),
        forall|j: int| 0 <= j < i ==> is_ws(#[trigger] s[j]),
    ensures
        trim_start(s) == trim_start(s.skip(i)),
    decreases i,
{
    if i > 0 {
        assert(s.drop_first().skip(i - 1) =~= s.skip(i));
        lemma_trim_start_skip(s.drop_first(), i - 1);
    } else {
        assert(s.skip(0) =~= s);
    }
}

/// Trailing white space can be dropped before trimming the end.
pub proof fn lemma_trim_end_take(s: Seq<char>, i: int)
    requires
        0 <= i <= s.len(),
        forall|j: int| i <= j < s.len() ==> is_ws(#[trigger] s[j]),
    ensures
        trim_end(s) == trim_end(s.take(i)),
    decreases s.len() - i,
{
    if i < s.len() {
        assert(s.drop_last().take(i) =~= s.take(i));
        lemma_trim_end_take(s.drop_last(), i);
    } else {
        assert(s.take(i) =~= s);
    }
}

/// The characters `cs[a..b]`.
pub fn copy_range(cs: &[char], a: usize, b: usize) -> (r: Vec<char>)
    requires
        a <= b <= cs@.len(),
    ensures
        r@ == cs@.subrange(a as int, b as int),
{
    let mut r: Vec<char> = Vec::new();
    let mut i = a;
    while i < b
        invariant
            a <= i <= b <= cs@.len(),
            r@ == cs@.subrange(a as int, i as int),
        decreases b - i,
    {
        r.push(cs[i]);
        assert(cs@.subrange(a as int, i as int).push(cs@[i as int]) =~= cs@.subrange(a as int, i + 1));
        i = i + 1;
    }
    r
}

/// The index of the first character of `cs` that is not white space, or its length.
fn first_non_ws(cs: &[char]) -> (r: usize)
    ensures
        r <= cs@.len(),
        forall|j: int| 0 <= j < r ==> is_ws(#[trigger] cs@[j]),
        r < cs@.len() ==> !is_ws(cs@[r as int]),
{
    let mut i: usize = 0;
    while i < cs.len() && is_whitespace(cs[i])
        invariant
            i <= cs@.len(),
            forall|j: int| 0 <= j < i ==> is_ws(#[trigger] cs@[j]),
        decreases cs@.len() - i,
    {
        i = i + 1;
    }
    i
}

/// `cs` without leading white space.
pub fn trim_start_chars(cs: &[char]) -> (r: Vec<char>)
    ensures
        r@ == trim_start(cs@),
{
    let a = first_non_ws(cs);
    proof {
        lemma_trim_start_skip(cs@, a as int);
        assert(cs@.skip(a as int) =~= cs@.subrange(a as int, cs@.len() as int));
    }
    copy_range(cs, a, cs.len())
}

/// `cs` without leading and trailing white space.
pub fn trim_chars(cs: &[char]) -> (r: Vec<char>)
    ensures
        r@ == trim(cs@),
{
    let a = first_non_ws(cs);
    let mut b = cs.len();
    while b > a && is_whitespace(cs[b - 1])
        invariant
            a <= b <= cs@.len(),
            forall|j: int| b <= j < cs@.len() ==> is_ws(#[trigger] cs@[j]),
        decreases b,
    {
        b = b - 1;
    }
    proof {
        let s = cs@;
        lemma_trim_start_skip(s, a as int);
        let t = s.skip(a as int);
        assert(trim_start(t) == t);
        lemma_trim_end_take(t, b - a);
        assert(t.take(b - a) =~= s.subrange(a as int, b as int));
        let u = t.take(b - a);
        if u.len() > 0 {
            assert(u.last() == s[b - 1]);
        }
        assert(trim_end(u) == u);
    }
    copy_range(cs, a, b)
}

/// A string holding `s` without leading and trailing white space.
pub fn trim_str(s: &str) -> (r: String)
    ensures
        r@ == trim(s@),
{
    let cs = chars_of(s);
    let t = trim_chars(cs.as_slice());
    string_from_chars(t.as_slice())
}

} // verus!

verus! {

/// ASCII letter or digit.
pub open spec fn is_ascii_alnum(c: char) -> bool {
    ('0' <= c && c <= '9') || ('a' <= c && c <= 'z') || ('A' <= c && c <= 'Z')
}

/// `c` with ASCII upper case letters mapped to lower case.
pub open spec fn lower_char(c: char) -> char {
    if 'A' <= c && c <= 'Z' {
        ((c as int) + 32) as char
    } else {
        c
    }
}

/// `s` with every ASCII upper case letter mapped to lower case.
pub open spec fn ascii_lower(s: Seq<char>) -> Seq<char> {
    s.map_values(|c: char| lower_char(c))
}

/// `c` with ASCII lower case letters mapped to upper case.
pub open spec fn upper_char(c: char) -> char {
    if 'a' <= c && c <= 'z' {
        ((c as int) - 32) as char
    } else {
        c
    }
}

/// `s` with every ASCII lower case letter mapped to upper case.
pub open spec fn ascii_upper(s: Seq<char>) -> Seq<char> {
    s.map_values(|c: char| upper_char(c))
}

/// Whether `c` is an ASCII letter or digit.
pub fn is_alnum(c: char) -> (r: bool)
    ensures
        r == is_ascii_alnum(c),
{
    ('0' <= c && c <= '9') || ('a' <= c && c <= 'z') || ('A' <= c && c <= 'Z')
}

/// `c` with an ASCII upper case letter mapped to lower case.
pub fn to_lower(c: char) -> (r: char)
    ensures
        r == lower_char(c),
{
    if 'A' <= c && c <= 'Z' {
        let b: u8 = c as u8;
        (b + 32) as char
    } else {
        c
    }
}

/// `cs` with ASCII upper case letters mapped to lower case.
pub fn lower_chars(cs: &[char]) -> (r: Vec<char>)
    ensures
        r@ == ascii_lower(cs@),
{
    let mut r: Vec<char> = Vec::new();
    let mut i: usize = 0;
    while i < cs.len()
        invariant
            i <= cs@.len(),
            r@ == ascii_lower(cs@.take(i as int)),
        decreases cs@.len() - i,
    {
        let c = to_lower(cs[i]);
        r.push(c);
        assert(ascii_lower(cs@.take(i + 1)) =~= ascii_lower(cs@.take(i as int)).push(c));
        i = i + 1;
    }
    assert(cs@.take(cs@.len() as int) =~= cs@);
    r
}

/// `p` stands in `s` at position `i`.
pub open spec fn occurs_at(s: Seq<char>, p: Seq<char>, i: int) -> bool {
    0 <= i && i + p.len() <= s.len() && s.subrange(i, i + p.len()) == p
}

/// `s` begins with `p`.
pub open spec fn starts_with(s: Seq<char>, p: Seq<char>) -> bool {
    occurs_at(s, p, 0)
}

/// `s` ends with `p`.
pub open spec fn ends_with(s: Seq<char>, p: Seq<char>) -> bool {
    occurs_at(s, p, s.len() - p.len())
}

/// `p` occurs somewhere in `s`.
pub open spec fn contains(s: Seq<char>, p: Seq<char>) -> bool {
    exists|i: int| occurs_at(s, p, i)
}

/// Whether `p` stands in `s` at position `i`.
pub fn matches_at(s: &[char], p: &[char], i: usize) -> (r: bool)
    ensures
        r == occurs_at(s@, p@, i as int),
{
    if i > s.len() || p.len() > s.len() - i {
        return false;
    }
    let mut k: usize = 0;
    while k < p.len()
        invariant
            i + p@.len() <= s@.len(),
            s@.len() == s.len(),
            k <= p@.len(),
            forall|j: int| 0 <= j < k ==> s@[i + j] == p@[j],
        decreases p@.len() - k,
    {
        if s[i + k] != p[k] {
            assert(s@.subrange(i as int, i + p@.len())[k as int] != p@[k as int]);
            return false;
        }
        k = k + 1;
    }
    assert(s@.subrange(i as int, i + p@.len()) =~= p@);
    true
}

/// Whether `s` begins with `p`.
pub fn starts_with_chars(s: &[char], p: &[char]) -> (r: bool)
    ensures
        r == starts_with(s@, p@),
{
    matches_at(s, p, 0)
}

/// Whether `s` ends with `p`.
pub fn ends_with_chars(s: &[char], p: &[char]) -> (r: bool)
    ensures
        r == ends_with(s@, p@),
{
    if p.len() > s.len() {
        return false;
    }
    matches_at(s, p, s.len() - p.len())
}

/// Whether `p` occurs somewhere in `s`.
pub fn contains_chars(s: &[char], p: &[char]) -> (r: bool)
    ensures
        r == contains(s@, p@),
{
    if p.len() > s.len() {
        assert(forall|i: int| !occurs_at(s@, p@, i));
        return false;
    }
    let last = s.len() - p.len();
    let mut i: usize = 0;
    loop
        invariant
            last == s@.len() - p@.len(),
            i <= last,
            forall|j: int| 0 <= j < i ==> !occurs_at(s@, p@, j),
        ensures
            forall|j: int| 0 <= j <= last ==> !occurs_at(s@, p@, j),
        decreases last - i,
    {
        if matches_at(s, p, i) {
            return true;
        }
        if i == last {
            break;
        }
        i = i + 1;
    }
    assert forall|j: int| !occurs_at(s@, p@, j) by {
        if 0 <= j && j + p@.len() <= s@.len() {
            assert(j <= last);
        }
    }
    false
}

/// `s` with every occurrence of the non-empty `pat`, taken from left to
/// right without overlap, replaced by `rep`.
pub open spec fn replace_all(s: Seq<char>, pat: Seq<char>, rep: Seq<char>) -> Seq<char>
    decreases s.len(),
{
    if s.len() == 0 {
        s
    } else if pat.len() > 0 && starts_with(s, pat) {
        rep + replace_all(s.skip(pat.len() as int), pat, rep)
    } else {
        seq![s[0]] + replace_all(s.drop_first(), pat, rep)
    }
}

/// `s` with every occurrence of the non-empty `pat` replaced by `rep`.
pub fn replace_chars(s: &[char], pat: &[char], rep: &[char]) -> (r: Vec<char>)
    requires
        pat@.len() > 0,
    ensures
        r@ == replace_all(s@, pat@, rep@),
{
    let mut r: Vec<char> = Vec::new();
    let mut i: usize = 0;
    assert(s@.skip(0) =~= s@);
    while i < s.len()
        invariant
            pat@.len() > 0,
            i <= s@.len(),
            r@ + replace_all(s@.skip(i as int), pat@, rep@) == replace_all(s@, pat@, rep@),
        decreases s@.len() - i,
    {
        let ghost t = s@.skip(i as int);
        if matches_at(s, pat, i) {
            assert(t.subrange(0, pat@.len() as int) =~= s@.subrange(i as int, i + pat@.len()));
            assert(t.skip(pat@.len() as int) =~= s@.skip(i + pat@.len()));
            let mut k: usize = 0;
            let ghost r0 = r@;
            while k < rep.len()
                invariant
                    k <= rep@.len(),
                    r@ == r0 + rep@.take(k as int),
                decreases rep@.len() - k,
            {
                r.push(rep[k]);
                assert(r0 + rep@.take(k + 1) =~= (r0 + rep@.take(k as int)).push(rep@[k as int]));
                k = k + 1;
            }
            assert(rep@.take(rep@.len() as int) =~= rep@);
            assert(r@ + replace_all(s@.skip(i + pat@.len()), pat@, rep@) =~= r0 + replace_all(t, pat@, rep@));
            i = i + pat.len();
        } else {
            assert(!starts_with(t, pat@)) by {
                if starts_with(t, pat@) {
                    assert(t.subrange(0, pat@.len() as int) =~= s@.subrange(i as int, i + pat@.len()));
                }
            }
            assert(t.drop_first() =~= s@.skip(i + 1));
            let ghost r0 = r@;
            r.push(s[i]);
            assert(r@ + replace_all(s@.skip(i + 1), pat@, rep@) =~= r0 + replace_all(t, pat@, rep@));
            i = i + 1;
        }
    }
    assert(s@.skip(i as int).len() == 0);
    assert(r@ =~= r@ + replace_all(s@.skip(i as int), pat@, rep@));
    r
}

} // verus!

verus! {

/// The pieces of `s` between the characters for which `sep` holds, in order;
/// there is always at least one piece, and pieces may be empty.
pub open spec fn split_by(s: Seq<char>, sep: spec_fn(char) -> bool) -> Seq<Seq<char>>
    decreases s.len(),
{
    if s.len() == 0 {
        seq![Seq::<char>::empty()]
    } else {
        let init = split_by(s.drop_last(), sep);
        if sep(s.last()) {
            init.push(Seq::<char>::empty())
        } else {
            init.update(init.len() - 1, init.last().push(s.last()))
        }
    }
}

/// The pieces that are not empty, in order.
pub open spec fn nonempty_pieces(ws: Seq<Seq<char>>) -> Seq<Seq<char>>
    decreases ws.len(),
{
    if ws.len() == 0 {
        ws
    } else {
        let r = nonempty_pieces(ws.drop_last());
        if ws.last().len() > 0 {
            r.push(ws.last())
        } else {
            r
        }
    }
}

/// The pieces joined with a single space between neighbours.
pub open spec fn join_space(ws: Seq<Seq<char>>) -> Seq<char>
    decreases ws.len(),
{
    if ws.len() == 0 {
        Seq::<char>::empty()
    } else if ws.len() == 1 {
        ws[0]
    } else {
        join_space(ws.drop_last()) + seq![' '] + ws.last()
    }
}

/// The white-space separator.
pub open spec fn ws_sep() -> spec_fn(char) -> bool {
    |c: char| is_ws(c)
}

/// The words of `s`: its maximal runs of characters that are not white space.
pub open spec fn words(s: Seq<char>) -> Seq<Seq<char>> {
    nonempty_pieces(split_by(s, ws_sep()))
}

/// The character views of a sequence of character vectors.
pub open spec fn char_views(v: Seq<Vec<char>>) -> Seq<Seq<char>> {
    v.map_values(|x: Vec<char>| x@)
}

/// The character views of a sequence of strings.
pub open spec fn string_views(v: Seq<String>) -> Seq<Seq<char>> {
    v.map_values(|x: String| x@)
}

/// There is always at least one piece.
pub proof fn lemma_split_nonempty(s: Seq<char>, sep: spec_fn(char) -> bool)
    ensures
        split_by(s, sep).len() >= 1,
    decreases s.len(),
{
    if s.len() > 0 {
        lemma_split_nonempty(s.drop_last(), sep);
    }
}

/// One more character either closes the last piece or extends it.
pub proof fn lemma_split_push(s: Seq<char>, sep: spec_fn(char) -> bool, c: char)
    ensures
        split_by(s, sep).len() >= 1,
        split_by(s.push(c), sep) == (if sep(c) {
            split_by(s, sep).push(Seq::<char>::empty())
        } else {
            split_by(s, sep).update(
                split_by(s, sep).len() - 1,
                split_by(s, sep).last().push(c),
            )
        }),
{
    lemma_split_nonempty(s, sep);
    assert(s.push(c).drop_last() =~= s);
}

/// The pieces of `cs`, cut where `mask` is set; `mask` marks exactly the separators.
pub(crate) fn split_by_mask(cs: &[char], mask: &[bool], Ghost(sep): Ghost<spec_fn(char) -> bool>) -> (r: Vec<Vec<char>>)
    requires
        mask@.len() == cs@.len(),
        forall|i: int| 0 <= i < cs@.len() ==> mask@[i] == sep(#[trigger] cs@[i]),
    ensures
        char_views(r@) == split_by(cs@, sep),
{
    let mut pieces: Vec<Vec<char>> = Vec::new();
    let mut cur: Vec<char> = Vec::new();
    let mut i: usize = 0;
    assert(cs@.take(0) =~= Seq::<char>::empty());
    assert(char_views(pieces@).push(cur@) =~= split_by(cs@.take(0), sep));
    while i < cs.len()
        invariant
            mask@.len() == cs@.len(),
            forall|i: int| 0 <= i < cs@.len() ==> mask@[i] == sep(#[trigger] cs@[i]),
            i <= cs@.len(),
            char_views(pieces@).push(cur@) == split_by(cs@.take(i as int), sep),
        decreases cs@.len() - i,
    {
        proof {
            lemma_split_push(cs@.take(i as int), sep, cs@[i as int]);
            assert(cs@.take(i as int).push(cs@[i as int]) =~= cs@.take(i + 1));
        }
        let ghost before = char_views(pieces@).push(cur@);
        if mask[i] {
            pieces.push(cur);
            cur = Vec::new();
            assert(char_views(pieces@).push(cur@) =~= before.push(Seq::<char>::empty()));
        } else {
            cur.push(cs[i]);
            assert(char_views(pieces@).push(cur@) =~= before.update(before.len() - 1, before.last().push(cs@[i as int])));
        }
        i = i + 1;
    }
    assert(cs@.take(cs@.len() as int) =~= cs@);
    pieces.push(cur);
    assert(char_views(pieces@) =~= split_by(cs@, sep));
    pieces
}

/// Joining after extending the last word extends the joined text.
proof fn lemma_join_extend_last(ws: Seq<Seq<char>>, c: char)
    requires
        ws.len() >= 1,
    ensures
        join_space(ws.drop_last().push(ws.last().push(c))) == join_space(ws).push(c),
{
    let w2 = ws.drop_last().push(ws.last().push(c));
    assert(w2.drop_last() =~= ws.drop_last());
    if ws.len() > 1 {
        assert(join_space(w2) =~= join_space(ws).push(c));
    }
}

/// `s` with runs of white space collapsed to one space and white space at
/// both ends dropped: its words joined by single spaces.
pub fn collapse_ws(m: &[char]) -> (r: Vec<char>)
    ensures
        r@ == join_space(words(m@)),
{
    let mut out: Vec<char> = Vec::new();
    let mut pending = false;
    let mut i: usize = 0;
    assert(m@.take(0) =~= Seq::<char>::empty());
    proof {
        let e = seq![Seq::<char>::empty()];
        assert(e.drop_last() =~= Seq::<Seq<char>>::empty());
        assert(nonempty_pieces(Seq::<Seq<char>>::empty()) == Seq::<Seq<char>>::empty());
        assert(e.last().len() == 0);
        assert(nonempty_pieces(e) =~= Seq::<Seq<char>>::empty());
    }
    while i < m.len()
        invariant
            i <= m@.len(),
            ({
                let p = split_by(m@.take(i as int), ws_sep());
                let w = nonempty_pieces(p);
                &&& p.len() >= 1
                &&& out@ == join_space(w)
                &&& (out@.len() > 0) == (w.len() > 0)
                &&& pending == (w.len() > 0 && p.last().len() == 0)
                &&& p.last().len() > 0 ==> w.len() > 0 && w.last() == p.last()
            }),
        decreases m@.len() - i,
    {
        let c = m[i];
        let ghost p = split_by(m@.take(i as int), ws_sep());
        let ghost w = nonempty_pieces(p);
        proof {
            lemma_split_push(m@.take(i as int), ws_sep(), c);
            assert(m@.take(i as int).push(c) =~= m@.take(i + 1));
        }
        let ghost p2 = split_by(m@.take(i + 1), ws_sep());
        if is_whitespace(c) {
            assert(p2 == p.push(Seq::<char>::empty()));
            assert(p2.drop_last() =~= p);
            assert(nonempty_pieces(p2) == w);
            pending = out.len() > 0;
        } else {
            let ghost y = p.last().push(c);
            assert(p2 == p.update(p.len() - 1, y));
            assert(p2.drop_last() =~= p.drop_last());
            assert(nonempty_pieces(p2) == nonempty_pieces(p.drop_last()).push(y));
            if pending {
                assert(nonempty_pieces(p2) =~= w.push(y));
                assert(y =~= seq![c]);
                assert(nonempty_pieces(p2).drop_last() =~= w);
                out.push(' ');
                out.push(c);
                assert(out@ =~= join_space(nonempty_pieces(p2)));
            } else if out.len() == 0 {
                assert(nonempty_pieces(p2) =~= seq![y]);
                assert(y =~= seq![c]);
                out.push(c);
                assert(out@ =~= join_space(nonempty_pieces(p2)));
            } else {
                assert(nonempty_pieces(p2) =~= w.drop_last().push(w.last().push(c)));
                proof {
                    lemma_join_extend_last(w, c);
                }
                out.push(c);
            }
            pending = false;
        }
        i = i + 1;
    }
    assert(m@.take(m@.len() as int) =~= m@);
    out
}

} // verus!

verus! {

/// Strict lexicographic order on character sequences, the order of `str`.
pub open spec fn lex_lt(a: Seq<char>, b: Seq<char>) -> bool
    decreases a.len(),
{
    if a.len() == 0 {
        b.len() > 0
    } else if b.len() == 0 {
        false
    } else if a[0] == b[0] {
        lex_lt(a.drop_first(), b.drop_first())
    } else {
        a[0] < b[0]
    }
}

/// Two different sequences are ordered one way, and never both ways.
pub proof fn lemma_lex_total(a: Seq<char>, b: Seq<char>)
    ensures
        a != b ==> lex_lt(a, b) || lex_lt(b, a),
        !(lex_lt(a, b) && lex_lt(b, a)),
        !lex_lt(a, a),
    decreases a.len(),
{
    if a.len() > 0 && b.len() > 0 && a[0] == b[0] {
        lemma_lex_total(a.drop_first(), b.drop_first());
        if a != b {
            assert(a =~= seq![a[0]] + a.drop_first());
            assert(b =~= seq![b[0]] + b.drop_first());
        }
    }
    if a.len() > 0 {
        lemma_lex_total(a.drop_first(), a.drop_first());
    }
    if a.len() == 0 && b.len() == 0 {
        assert(a =~= b);
    }
}

/// The lexicographic order is transitive.
pub proof fn lemma_lex_trans(a: Seq<char>, b: Seq<char>, c: Seq<char>)
    requires
        lex_lt(a, b),
        lex_lt(b, c),
    ensures
        lex_lt(a, c),
    decreases a.len(),
{
    if a.len() > 0 && b.len() > 0 && c.len() > 0 && a[0] == b[0] && b[0] == c[0] {
        lemma_lex_trans(a.drop_first(), b.drop_first(), c.drop_first());
    }
}

/// Whether `a` comes strictly before `b` in lexicographic order.
pub fn lex_less(a: &[char], b: &[char]) -> (r: bool)
    ensures
        r == lex_lt(a@, b@),
{
    let mut i: usize = 0;
    assert(a@.skip(0) =~= a@);
    assert(b@.skip(0) =~= b@);
    while i < a.len() && i < b.len() && a[i] == b[i]
        invariant
            i <= a@.len(),
            i <= b@.len(),
            lex_lt(a@, b@) == lex_lt(a@.skip(i as int), b@.skip(i as int)),
        decreases a@.len() - i,
    {
        assert(a@.skip(i as int).drop_first() =~= a@.skip(i + 1));
        assert(b@.skip(i as int).drop_first() =~= b@.skip(i + 1));
        i = i + 1;
    }
    if i == a.len() {
        i < b.len()
    } else if i == b.len() {
        false
    } else {
        a[i] < b[i]
    }
}

/// `s` without the leading characters for which `p` holds.
pub open spec fn strip_start(s: Seq<char>, p: spec_fn(char) -> bool) -> Seq<char>
    decreases s.len(),
{
    if s.len() > 0 && p(s[0]) {
        strip_start(s.drop_first(), p)
    } else {
        s
    }
}

/// `s` without the trailing characters for which `p` holds.
pub open spec fn strip_end(s: Seq<char>, p: spec_fn(char) -> bool) -> Seq<char>
    decreases s.len(),
{
    if s.len() > 0 && p(s.last()) {
        strip_end(s.drop_last(), p)
    } else {
        s
    }
}

/// `s` without the characters at both ends for which `p` holds.
pub open spec fn strip_both(s: Seq<char>, p: spec_fn(char) -> bool) -> Seq<char> {
    strip_end(strip_start(s, p), p)
}

proof fn lemma_strip_start_skip(s: Seq<char>, p: spec_fn(char) -> bool, i: int)
    requires
        0 <= i <= s.len(),
        forall|j: int| 0 <= j < i ==> p(#[trigger] s[j]),
    ensures
        strip_start(s, p) == strip_start(s.skip(i), p),
    decreases i,
{
    if i > 0 {
        assert(s.drop_first().skip(i - 1) =~= s.skip(i));
        lemma_strip_start_skip(s.drop_first(), p, i - 1);
    } else {
        assert(s.skip(0) =~= s);
    }
}

proof fn lemma_strip_end_take(s: Seq<char>, p: spec_fn(char) -> bool, i: int)
    requires
        0 <= i <= s.len(),
        forall|j: int| i <= j < s.len() ==> p(#[trigger] s[j]),
    ensures
        strip_end(s, p) == strip_end(s.take(i), p),
    decreases s.len() - i,
{
    if i < s.len() {
        assert(s.drop_last().take(i) =~= s.take(i));
        lemma_strip_end_take(s.drop_last(), p, i);
    } else {
        assert(s.take(i) =~= s);
    }
}

/// `cs` without the characters at both ends that `mask` marks; `mask` marks
/// exactly the characters for which `p` holds.
pub(crate) fn strip_by_mask(cs: &[char], mask: &[bool], Ghost(p): Ghost<spec_fn(char) -> bool>) -> (r: Vec<char>)
    requires
        mask@.len() == cs@.len(),
        forall|i: int| 0 <= i < cs@.len() ==> mask@[i] == p(#[trigger] cs@[i]),
    ensures
        r@ == strip_both(cs@, p),
{
    let mut a: usize = 0;
    while a < cs.len() && mask[a]
        invariant
            a <= cs@.len(),
            mask@.len() == cs@.len(),
            forall|i: int| 0 <= i < cs@.len() ==> mask@[i] == p(#[trigger] cs@[i]),
            forall|j: int| 0 <= j < a ==> p(#[trigger] cs@[j]),
        decreases cs@.len() - a,
    {
        a = a + 1;
    }
    let mut b = cs.len();
    while b > a && mask[b - 1]
        invariant
            a <= b <= cs@.len(),
            mask@.len() == cs@.len(),
            forall|i: int| 0 <= i < cs@.len() ==> mask@[i] == p(#[trigger] cs@[i]),
            forall|j: int| b <= j < cs@.len() ==> p(#[trigger] cs@[j]),
        decreases b,
    {
        b = b - 1;
    }
    proof {
        let s = cs@;
        lemma_strip_start_skip(s, p, a as int);
        let t = s.skip(a as int);
        if t.len() > 0 {
            assert(t[0] == s[a as int]);
        }
        assert(strip_start(t, p) == t);
        lemma_strip_end_take(t, p, b - a);
        assert(t.take(b - a) =~= s.subrange(a as int, b as int));
        let u = t.take(b - a);
        if u.len() > 0 {
            assert(u.last() == s[b - 1]);
        }
        assert(strip_end(u, p) == u);
    }
    copy_range(cs, a, b)
}

/// The pieces joined with the character `c` between neighbours.
pub open spec fn join_with(ws: Seq<Seq<char>>, c: char) -> Seq<char>
    decreases ws.len(),
{
    if ws.len() == 0 {
        Seq::<char>::empty()
    } else if ws.len() == 1 {
        ws[0]
    } else {
        join_with(ws.drop_last(), c) + seq![c] + ws.last()
    }
}

/// The pieces `ws` joined with `c` between neighbours.
pub fn join_chars(ws: &Vec<Vec<char>>, c: char) -> (r: Vec<char>)
    ensures
        r@ == join_with(char_views(ws@), c),
{
    let mut r: Vec<char> = Vec::new();
    let mut i: usize = 0;
    while i < ws.len()
        invariant
            i <= ws@.len(),
            r@ == join_with(char_views(ws@.take(i as int)), c),
        decreases ws@.len() - i,
    {
        let ghost before = char_views(ws@.take(i as int));
        let ghost after = char_views(ws@.take(i + 1));
        assert(after.drop_last() =~= before);
        assert(after.last() == ws@[i as int]@);
        if i > 0 {
            r.push(c);
        }
        let w = &ws[i];
        let mut k: usize = 0;
        let ghost r0 = r@;
        while k < w.len()
            invariant
                k <= w@.len(),
                r@ == r0 + w@.take(k as int),
            decreases w@.len() - k,
        {
            r.push(w[k]);
            assert(r0 + w@.take(k + 1) =~= (r0 + w@.take(k as int)).push(w@[k as int]));
            k = k + 1;
        }
        assert(w@.take(w@.len() as int) =~= w@);
        if i == 0 {
            assert(r@ =~= join_with(after, c));
        } else {
            assert(r@ =~= join_with(after, c));
        }
        i = i + 1;
    }
    assert(ws@.take(ws@.len() as int) =~= ws@);
    r
}

} // verus!

verus! {

/// Appends the characters `s` to `out`.
pub fn append_chars(out: &mut Vec<char>, s: &[char])
    ensures
        final(out)@ == old(out)@ + s@,
{
    let ghost start = out@;
    let mut i: usize = 0;
    while i < s.len()
        invariant
            i <= s@.len(),
            out@ == start + s@.take(i as int),
        decreases s@.len() - i,
    {
        out.push(s[i]);
        assert(start + s@.take(i + 1) =~= (start + s@.take(i as int)).push(s@[i as int]));
        i = i + 1;
    }
    assert(s@.take(s@.len() as int) =~= s@);
}

/// Appends the characters of `s` to `out`.
pub fn append_str(out: &mut Vec<char>, s: &str)
    ensures
        final(out)@ == old(out)@ + s@,
{
    let cs = chars_of(s);
    append_chars(out, cs.as_slice());
}

/// A string holding `s` with ASCII upper case letters mapped to lower case.
pub fn lower_str(s: &str) -> (r: String)
    ensures
        r@ == ascii_lower(s@),
{
    let cs = chars_of(s);
    let l = lower_chars(cs.as_slice());
    string_from_chars(l.as_slice())
}

/// A string holding the characters of `s`.
pub fn owned(s: &str) -> (r: String)
    ensures
        r@ == s@,
{
    s.to_owned()
}

} // verus!

verus! {

/// Characters that hold no separator extend the last piece.
pub proof fn lemma_split_append(s: Seq<char>, b: Seq<char>, sep: spec_fn(char) -> bool)
    requires
        forall|i: int| 0 <= i < b.len() ==> !sep(#[trigger] b[i]),
    ensures
        split_by(s, sep).len() >= 1,
        split_by(s + b, sep) == split_by(s, sep).update(
            split_by(s, sep).len() - 1,
            split_by(s, sep).last() + b,
        ),
    decreases b.len(),
{
    lemma_split_nonempty(s, sep);
    let p = split_by(s, sep);
    if b.len() == 0 {
        assert(s + b =~= s);
        assert(p.update(p.len() - 1, p.last() + b) =~= p);
    } else {
        let b2 = b.drop_last();
        let c = b.last();
        assert forall|i: int| 0 <= i < b2.len() implies !sep(#[trigger] b2[i]) by {
            assert(b2[i] == b[i]);
        }
        lemma_split_append(s, b2, sep);
        assert(s + b =~= (s + b2).push(c));
        lemma_split_push(s + b2, sep, c);
        assert(!sep(c));
        let q = p.update(p.len() - 1, p.last() + b2);
        assert(q.last() == p.last() + b2);
        assert((p.last() + b2).push(c) =~= p.last() + b);
        assert(q.len() == p.len());
        assert(q.update(q.len() - 1, q.last().push(c)) =~= p.update(p.len() - 1, p.last() + b));
    }
}

} // verus!

verus! {

proof fn lemma_trim_start_fixed(s: Seq<char>)
    ensures
        trim_start(trim_start(s)) == trim_start(s),
        trim_start(s).len() > 0 ==> !is_ws(trim_start(s)[0]),
    decreases s.len(),
{
    if s.len() > 0 && is_ws(s[0]) {
        lemma_trim_start_fixed(s.drop_first());
    }
}

proof fn lemma_trim_end_keeps_start(s: Seq<char>)
    requires
        s.len() > 0 ==> !is_ws(s[0]),
    ensures
        trim_end(s).len() > 0 ==> !is_ws(trim_end(s)[0]),
        trim_end(s).len() > 0 ==> !is_ws(trim_end(s).last()),
        trim_end(trim_end(s)) == trim_end(s),
    decreases s.len(),
{
    if s.len() > 0 && is_ws(s.last()) {
        if s.len() > 1 {
            assert(s.drop_last()[0] == s[0]);
        }
        lemma_trim_end_keeps_start(s.drop_last());
    }
}

/// Trimming twice trims as much as trimming once.
pub proof fn lemma_trim_idempotent(s: Seq<char>)
    ensures
        trim(trim(s)) == trim(s),
{
    lemma_trim_start_fixed(s);
    let a = trim_start(s);
    lemma_trim_end_keeps_start(a);
    let b = trim_end(a);
    assert(trim_start(b) == b);
}

} // verus!

verus! {

/// Every character of `s` satisfies `q`.
pub open spec fn all_chars(s: Seq<char>, q: spec_fn(char) -> bool) -> bool {
    forall|i: int| 0 <= i < s.len() ==> q(#[trigger] s[i])
}

/// What stripping leaves does not begin with a stripped character.
proof fn lemma_strip_start_head(s: Seq<char>, p: spec_fn(char) -> bool)
    ensures
        strip_start(s, p).len() > 0 ==> !p(strip_start(s, p)[0]),
    decreases s.len(),
{
    if s.len() > 0 && p(s[0]) {
        lemma_strip_start_head(s.drop_first(), p);
    }
}

/// Stripping the end leaves a prefix that does not end with a stripped character.
proof fn lemma_strip_end_prefix(s: Seq<char>, p: spec_fn(char) -> bool)
    ensures
        strip_end(s, p).len() <= s.len(),
        strip_end(s, p) == s.take(strip_end(s, p).len() as int),
        strip_end(s, p).len() > 0 ==> !p(strip_end(s, p).last()),
    decreases s.len(),
{
    if s.len() > 0 && p(s.last()) {
        lemma_strip_end_prefix(s.drop_last(), p);
        let r = strip_end(s.drop_last(), p);
        assert(s.drop_last().take(r.len() as int) =~= s.take(r.len() as int));
    } else {
        assert(s.take(s.len() as int) =~= s);
    }
}

/// What stripping both ends leaves, where anything, neither begins nor ends
/// with a stripped character; a text that neither begins nor ends with one
/// is left as it is.
pub proof fn lemma_strip_both_ends(s: Seq<char>, p: spec_fn(char) -> bool)
    ensures
        strip_both(s, p).len() > 0 ==> !p(strip_both(s, p)[0]) && !p(strip_both(s, p).last()),
        (s.len() > 0 && !p(s[0]) && !p(s.last())) ==> strip_both(s, p) == s,
{
    let a = strip_start(s, p);
    lemma_strip_start_head(s, p);
    lemma_strip_end_prefix(a, p);
    let r = strip_end(a, p);
    if r.len() > 0 {
        assert(r[0] == a.take(r.len() as int)[0]);
    }
}

/// Stripping keeps only characters of the input, and never lengthens it.
pub proof fn lemma_strip_keeps(s: Seq<char>, p: spec_fn(char) -> bool, q: spec_fn(char) -> bool)
    requires
        all_chars(s, q),
    ensures
        all_chars(strip_both(s, p), q),
        strip_both(s, p).len() <= s.len(),
{
    lemma_strip_start_keeps(s, p, q);
    lemma_strip_end_keeps(strip_start(s, p), p, q);
}

proof fn lemma_strip_start_keeps(s: Seq<char>, p: spec_fn(char) -> bool, q: spec_fn(char) -> bool)
    requires
        all_chars(s, q),
    ensures
        all_chars(strip_start(s, p), q),
        strip_start(s, p).len() <= s.len(),
    decreases s.len(),
{
    if s.len() > 0 && p(s[0]) {
        assert forall|i: int| 0 <= i < s.drop_first().len() implies q(#[trigger] s.drop_first()[i]) by {
            assert(s.drop_first()[i] == s[i + 1]);
        }
        lemma_strip_start_keeps(s.drop_first(), p, q);
    }
}

proof fn lemma_strip_end_keeps(s: Seq<char>, p: spec_fn(char) -> bool, q: spec_fn(char) -> bool)
    requires
        all_chars(s, q),
    ensures
        all_chars(strip_end(s, p), q),
        strip_end(s, p).len() <= s.len(),
    decreases s.len(),
{
    if s.len() > 0 && p(s.last()) {
        assert forall|i: int| 0 <= i < s.drop_last().len() implies q(#[trigger] s.drop_last()[i]) by {
            assert(s.drop_last()[i] == s[i]);
        }
        lemma_strip_end_keeps(s.drop_last(), p, q);
    }
}

/// Joining pieces whose characters satisfy `q` with a separator that does gives
/// a text whose characters do.
pub proof fn lemma_join_keeps(ws: Seq<Seq<char>>, c: char, q: spec_fn(char) -> bool)
    requires
        q(c),
        forall|k: int| 0 <= k < ws.len() ==> all_chars(#[trigger] ws[k], q),
    ensures
        all_chars(join_with(ws, c), q),
    decreases ws.len(),
{
    if ws.len() > 1 {
        let dl = ws.drop_last();
        assert forall|k: int| 0 <= k < dl.len() implies all_chars(#[trigger] dl[k], q) by {
            assert(dl[k] == ws[k]);
        }
        lemma_join_keeps(dl, c, q);
        let j = join_with(dl, c);
        let l = ws.last();
        assert(all_chars(l, q));
        assert forall|i: int| 0 <= i < join_with(ws, c).len() implies q(#[trigger] join_with(ws, c)[i]) by {
            if i < j.len() {
                assert(join_with(ws, c)[i] == j[i]);
            } else if i == j.len() {
                assert(join_with(ws, c)[i] == c);
            } else {
                assert(join_with(ws, c)[i] == l[i - j.len() - 1]);
            }
        }
    } else if ws.len() == 1 {
        assert(all_chars(ws[0], q));
    }
}

/// Two or more pieces joined begin with the first piece and the separator.
pub proof fn lemma_join_starts(ws: Seq<Seq<char>>, c: char)
    requires
        ws.len() >= 2,
    ensures
        starts_with(join_with(ws, c), ws[0].push(c)),
    decreases ws.len(),
{
    let dl = ws.drop_last();
    let pre = ws[0].push(c);
    if ws.len() == 2 {
        assert(dl =~= seq![ws[0]]);
        assert(join_with(dl, c) == ws[0]);
        assert(join_with(ws, c).subrange(0, pre.len() as int) =~= pre);
    } else {
        lemma_join_starts(dl, c);
        assert(dl[0] == ws[0]);
        let j = join_with(dl, c);
        assert(join_with(ws, c).subrange(0, pre.len() as int) =~= j.subrange(0, pre.len() as int));
    }
}

/// Without an occurrence of the pattern there is nothing to replace.
pub proof fn lemma_replace_absent(s: Seq<char>, pat: Seq<char>, rep: Seq<char>)
    requires
        pat.len() > 0,
        !contains(s, pat),
    ensures
        replace_all(s, pat, rep) == s,
    decreases s.len(),
{
    if s.len() > 0 {
        assert(!occurs_at(s, pat, 0));
        let t = s.drop_first();
        assert(!contains(t, pat)) by {
            if contains(t, pat) {
                let i = choose|i: int| occurs_at(t, pat, i);
                assert(s.subrange(i + 1, i + 1 + pat.len()) =~= t.subrange(i, i + pat.len()));
                assert(occurs_at(s, pat, i + 1));
            }
        }
        lemma_replace_absent(t, pat, rep);
        assert(seq![s[0]] + t =~= s);
    }
}

/// The pieces that are kept are pieces of the input, and none is empty.
pub proof fn lemma_nonempty_pieces(ws: Seq<Seq<char>>)
    ensures
        forall|k: int| 0 <= k < nonempty_pieces(ws).len() ==> (#[trigger] nonempty_pieces(ws)[k]).len() > 0
            && ws.contains(nonempty_pieces(ws)[k]),
    decreases ws.len(),
{
    if ws.len() > 0 {
        lemma_nonempty_pieces(ws.drop_last());
        let r = nonempty_pieces(ws.drop_last());
        assert forall|k: int| 0 <= k < nonempty_pieces(ws).len() implies (#[trigger] nonempty_pieces(ws)[k]).len() > 0
            && ws.contains(nonempty_pieces(ws)[k]) by {
            if k < r.len() {
                assert(nonempty_pieces(ws)[k] == r[k]);
                let m = choose|m: int| 0 <= m < ws.drop_last().len() && ws.drop_last()[m] == r[k];
                assert(ws[m] == r[k]);
            } else {
                assert(nonempty_pieces(ws)[k] == ws.last());
                assert(ws[ws.len() - 1] == ws.last());
            }
        }
    }
}

} // verus!

verus! {

/// The pieces of `s` hold no separator, and only characters of `s`.
pub proof fn lemma_split_pieces_chars(s: Seq<char>, sep: spec_fn(char) -> bool, q: spec_fn(char) -> bool)
    requires
        all_chars(s, q),
    ensures
        forall|k: int, j: int|
            0 <= k < split_by(s, sep).len() && 0 <= j < split_by(s, sep)[k].len()
                ==> q(#[trigger] split_by(s, sep)[k][j]) && !sep(split_by(s, sep)[k][j]),
    decreases s.len(),
{
    if s.len() > 0 {
        let d = s.drop_last();
        assert(all_chars(d, q)) by {
            assert forall|i: int| 0 <= i < d.len() implies q(#[trigger] d[i]) by {
                assert(d[i] == s[i]);
            }
        }
        lemma_split_pieces_chars(d, sep, q);
        lemma_split_nonempty(d, sep);
        let init = split_by(d, sep);
        let p = split_by(s, sep);
        assert(q(s.last())) by {
            assert(s[s.len() - 1] == s.last());
        }
        assert forall|k: int, j: int| 0 <= k < p.len() && 0 <= j < p[k].len() implies q(#[trigger] p[k][j]) && !sep(p[k][j]) by {
            if sep(s.last()) {
                assert(p[k] == (if k < init.len() { init[k] } else { Seq::<char>::empty() }));
                if k < init.len() {
                    assert(init[k][j] == p[k][j]);
                }
            } else {
                if k < init.len() - 1 {
                    assert(p[k] == init[k]);
                } else {
                    assert(p[k] == init.last().push(s.last()));
                    if j < init.last().len() {
                        assert(p[k][j] == init[init.len() - 1][j]);
                    }
                }
            }
        }
    }
}

/// The words of `s` hold no white space, and only characters of `s`; none is empty.
pub proof fn lemma_words_chars(s: Seq<char>, q: spec_fn(char) -> bool)
    requires
        all_chars(s, q),
    ensures
        forall|k: int| 0 <= k < words(s).len() ==> (#[trigger] words(s)[k]).len() > 0,
        forall|k: int, j: int|
            0 <= k < words(s).len() && 0 <= j < words(s)[k].len() ==> q(#[trigger] words(s)[k][j]) && !is_ws(
                words(s)[k][j],
            ),
{
    let p = split_by(s, ws_sep());
    lemma_split_pieces_chars(s, ws_sep(), q);
    lemma_nonempty_pieces(p);
    assert forall|k: int, j: int| 0 <= k < words(s).len() && 0 <= j < words(s)[k].len() implies q(
        #[trigger] words(s)[k][j],
    ) && !is_ws(words(s)[k][j]) by {
        let m = choose|m: int| 0 <= m < p.len() && p[m] == words(s)[k];
        assert(p[m][j] == words(s)[k][j]);
        assert(!ws_sep()(p[m][j]));
    }
}

/// Splitting words joined by single spaces gives the words back.
pub proof fn lemma_words_of_join(ws: Seq<Seq<char>>)
    requires
        forall|k: int| 0 <= k < ws.len() ==> (#[trigger] ws[k]).len() > 0,
        forall|k: int, j: int| 0 <= k < ws.len() && 0 <= j < ws[k].len() ==> !is_ws(#[trigger] ws[k][j]),
    ensures
        words(join_space(ws)) == ws,
    decreases ws.len(),
{
    let e = Seq::<char>::empty();
    if ws.len() == 0 {
        assert(split_by(e, ws_sep()) == seq![e]);
        assert(seq![e].drop_last() =~= Seq::<Seq<char>>::empty());
        assert(nonempty_pieces(Seq::<Seq<char>>::empty()) == Seq::<Seq<char>>::empty());
        assert(seq![e].last() == e);
        assert(nonempty_pieces(seq![e]) =~= Seq::<Seq<char>>::empty());
    } else {
        let l = ws.last();
        assert forall|j: int| 0 <= j < l.len() implies !ws_sep()(#[trigger] l[j]) by {
            assert(l[j] == ws[ws.len() - 1][j]);
        }
        if ws.len() == 1 {
            lemma_split_append(e, l, ws_sep());
            assert(e + l =~= l);
            assert(split_by(e, ws_sep()) == seq![e]);
            assert(seq![e].update(0, e + l) =~= seq![l]);
            assert(join_space(ws) == l);
            assert(seq![l].drop_last() =~= Seq::<Seq<char>>::empty());
            assert(nonempty_pieces(Seq::<Seq<char>>::empty()) == Seq::<Seq<char>>::empty());
            assert(seq![l].last() == l);
            assert(l.len() > 0);
            assert(Seq::<Seq<char>>::empty().push(l) =~= seq![l]);
            assert(nonempty_pieces(seq![l]) =~= seq![l]);
            assert(ws =~= seq![l]);
        } else {
            let init = ws.drop_last();
            assert forall|k: int| 0 <= k < init.len() implies (#[trigger] init[k]).len() > 0 by {
                assert(init[k] == ws[k]);
            }
            assert forall|k: int, j: int| 0 <= k < init.len() && 0 <= j < init[k].len() implies !is_ws(
                #[trigger] init[k][j],
            ) by {
                assert(init[k] == ws[k]);
            }
            lemma_words_of_join(init);
            let a = join_space(init);
            lemma_split_push(a, ws_sep(), ' ');
            let pa = split_by(a, ws_sep());
            let pb = pa.push(e);
            assert(split_by(a.push(' '), ws_sep()) == pb);
            lemma_split_append(a.push(' '), l, ws_sep());
            assert(a.push(' ') + l =~= join_space(ws));
            assert(pb.update(pb.len() - 1, pb.last() + l) =~= pa.push(l));
            assert(split_by(join_space(ws), ws_sep()) == pa.push(l));
            assert(pa.push(l).drop_last() =~= pa);
            assert(nonempty_pieces(pa.push(l)) == nonempty_pieces(pa).push(l));
            assert(ws =~= init.push(l));
        }
    }
}

/// Words of characters satisfying `q`, with no space in them, joined by
/// single spaces: every character satisfies `q` or is a space, the text is
/// empty exactly where there is no word, it neither begins nor ends with a
/// space, and no two spaces stand together.
pub proof fn lemma_join_space_shape(ws: Seq<Seq<char>>, q: spec_fn(char) -> bool)
    requires
        forall|k: int| 0 <= k < ws.len() ==> (#[trigger] ws[k]).len() > 0,
        forall|k: int, j: int| 0 <= k < ws.len() && 0 <= j < ws[k].len() ==> q(#[trigger] ws[k][j]) && ws[k][j] != ' ',
    ensures
        forall|i: int| 0 <= i < join_space(ws).len() ==> q(#[trigger] join_space(ws)[i]) || join_space(ws)[i] == ' ',
        (join_space(ws).len() > 0) == (ws.len() > 0),
        join_space(ws).len() > 0 ==> join_space(ws)[0] != ' ' && join_space(ws).last() != ' ',
        forall|i: int| 0 <= i < join_space(ws).len() - 1 ==> !(#[trigger] join_space(ws)[i] == ' ' && join_space(ws)[i + 1] == ' '),
    decreases ws.len(),
{
    if ws.len() == 1 {
        assert(ws[0][0] != ' ');
        assert(ws[0][ws[0].len() - 1] != ' ');
        assert forall|i: int| 0 <= i < join_space(ws).len() implies q(#[trigger] join_space(ws)[i]) by {
            assert(ws[0][i] == join_space(ws)[i]);
        }
    } else if ws.len() > 1 {
        let init = ws.drop_last();
        let l = ws.last();
        assert(l == ws[ws.len() - 1]);
        assert forall|k: int| 0 <= k < init.len() implies (#[trigger] init[k]).len() > 0 by {
            assert(init[k] == ws[k]);
        }
        assert forall|k: int, j: int| 0 <= k < init.len() && 0 <= j < init[k].len() implies q(#[trigger] init[k][j]) && init[k][j] != ' ' by {
            assert(init[k] == ws[k]);
        }
        lemma_join_space_shape(init, q);
        let a = join_space(init);
        let r = join_space(ws);
        assert(r == a + seq![' '] + l);
        assert(l[0] != ' ');
        assert(l[l.len() - 1] != ' ');
        assert forall|i: int| 0 <= i < r.len() implies q(#[trigger] r[i]) || r[i] == ' ' by {
            if i < a.len() {
                assert(r[i] == a[i]);
            } else if i > a.len() {
                assert(r[i] == l[i - a.len() - 1]);
            }
        }
        assert(r[0] == a[0]);
        assert(r.last() == l[l.len() - 1]);
        assert forall|i: int| 0 <= i < r.len() - 1 implies !(#[trigger] r[i] == ' ' && r[i + 1] == ' ') by {
            if i < a.len() - 1 {
                assert(r[i] == a[i] && r[i + 1] == a[i + 1]);
            } else if i == a.len() - 1 {
                assert(r[i] == a[a.len() - 1]);
            } else if i == a.len() {
                assert(r[i + 1] == l[0]);
            } else {
                assert(r[i] == l[i - a.len() - 1]);
            }
        }
    }
}

} // verus!
