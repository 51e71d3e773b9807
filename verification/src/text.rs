//! Character-level text utilities shared by the parsers, the matcher and the
//! renderer. Strings are modelled by their view, a `Seq<char>`.

use vstd::prelude::*;

verus! {

/// The Unicode `White_Space` property (PropList.txt), which `char::is_whitespace`
/// and `str::trim` go by.
pub open spec fn is_space(c: char) -> bool {
    ||| ('\u{9}' <= c && c <= '\u{d}')
    ||| c == ' '
    ||| c == '\u{85}'
    ||| c == '\u{a0}'
    ||| c == '\u{1680}'
    ||| ('\u{2000}' <= c && c <= '\u{200a}')
    ||| c == '\u{2028}'
    ||| c == '\u{2029}'
    ||| c == '\u{202f}'
    ||| c == '\u{205f}'
    ||| c == '\u{3000}'
}

/// Executable `White_Space` test.
pub fn is_whitespace(c: char) -> (r: bool)
    ensures
        r == is_space(c),
{
    ('\u{9}' <= c && c <= '\u{d}') || c == ' ' || c == '\u{85}' || c == '\u{a0}' || c == '\u{1680}'
        || ('\u{2000}' <= c && c <= '\u{200a}') || c == '\u{2028}' || c == '\u{2029}' || c
        == '\u{202f}' || c == '\u{205f}' || c == '\u{3000}'
}

/// `s` without the leading characters that satisfy `p`.
pub open spec fn trim_start_by(s: Seq<char>, p: spec_fn(char) -> bool) -> Seq<char>
    decreases s.len(),
{
    if s.len() > 0 && p(s[0]) {
        trim_start_by(s.drop_first(), p)
    } else {
        s
    }
}

/// `s` without the trailing characters that satisfy `p`.
pub open spec fn trim_end_by(s: Seq<char>, p: spec_fn(char) -> bool) -> Seq<char>
    decreases s.len(),
{
    if s.len() > 0 && p(s.last()) {
        trim_end_by(s.drop_last(), p)
    } else {
        s
    }
}

/// `str::trim`: leading and trailing white space removed.
pub open spec fn trim(s: Seq<char>) -> Seq<char> {
    trim_end_by(trim_start_by(s, |c: char| is_space(c)), |c: char| is_space(c))
}


/// Skipping a prefix whose characters all satisfy `p` does not change `trim_start_by`.
pub proof fn lemma_trim_start_skip(s: Seq<char>, p: spec_fn(char) -> bool, i: int)
    requires
        0 <= i <= s.len(),
        forall|k: int| 0 <= k < i ==> p(#[trigger] s[k]),
    ensures
        trim_start_by(s, p) == trim_start_by(s.subrange(i, s.len() as int), p),
    decreases i,
{
    if i == 0 {
        assert(s.subrange(0, s.len() as int) =~= s);
    } else {
        let t = s.drop_first();
        assert forall|k: int| 0 <= k < i - 1 implies p(#[trigger] t[k]) by {
            assert(t[k] == s[k + 1]);
        }
        lemma_trim_start_skip(t, p, i - 1);
        assert(t.subrange(i - 1, t.len() as int) =~= s.subrange(i, s.len() as int));
    }
}

/// Dropping a suffix whose characters all satisfy `p` does not change `trim_end_by`.
pub proof fn lemma_trim_end_skip(s: Seq<char>, p: spec_fn(char) -> bool, j: int)
    requires
        0 <= j <= s.len(),
        forall|k: int| j <= k < s.len() ==> p(#[trigger] s[k]),
    ensures
        trim_end_by(s, p) == trim_end_by(s.subrange(0, j), p),
    decreases s.len() - j,
{
    if j == s.len() {
        assert(s.subrange(0, j) =~= s);
    } else {
        let t = s.drop_last();
        assert forall|k: int| j <= k < t.len() implies p(#[trigger] t[k]) by {
            assert(t[k] == s[k]);
        }
        lemma_trim_end_skip(t, p, j);
        assert(t.subrange(0, j) =~= s.subrange(0, j));
    }
}

/// `s` is empty, or neither begins nor ends with white space.
pub open spec fn edges_solid(s: Seq<char>) -> bool {
    s.len() == 0 || (!is_space(s[0]) && !is_space(s.last()))
}

proof fn lemma_trim_start_first(s: Seq<char>, p: spec_fn(char) -> bool)
    ensures
        trim_start_by(s, p).len() > 0 ==> !p(trim_start_by(s, p)[0]),
    decreases s.len(),
{
    if s.len() > 0 && p(s[0]) {
        lemma_trim_start_first(s.drop_first(), p);
    }
}

proof fn lemma_trim_end_shape(s: Seq<char>, p: spec_fn(char) -> bool)
    ensures
        trim_end_by(s, p).len() <= s.len(),
        trim_end_by(s, p) == s.subrange(0, trim_end_by(s, p).len() as int),
        trim_end_by(s, p).len() > 0 ==> !p(trim_end_by(s, p).last()),
    decreases s.len(),
{
    if s.len() > 0 && p(s.last()) {
        lemma_trim_end_shape(s.drop_last(), p);
        let r = trim_end_by(s.drop_last(), p);
        assert(s.drop_last().subrange(0, r.len() as int) =~= s.subrange(0, r.len() as int));
    } else {
        assert(s.subrange(0, s.len() as int) =~= s);
    }
}

/// A trimmed string neither begins nor ends with white space.
pub proof fn lemma_trim_edges(s: Seq<char>)
    ensures
        edges_solid(trim(s)),
{
    let p = |c: char| is_space(c);
    let u = trim_start_by(s, p);
    lemma_trim_start_first(s, p);
    lemma_trim_end_shape(u, p);
    let t = trim_end_by(u, p);
    if t.len() > 0 {
        assert(t[0] == u.subrange(0, t.len() as int)[0]);
    }
}

/// Trimming leaves a string alone that neither begins nor ends with white space.
pub proof fn lemma_trim_solid(s: Seq<char>)
    requires
        edges_solid(s),
    ensures
        trim(s) == s,
{
}

/// Pieces that neither begin nor end with white space, joined by a
/// separator that is no white space, neither begin nor end with it.
pub proof fn lemma_join_edges(ps: Seq<Seq<char>>, sep: char)
    requires
        !is_space(sep),
        forall|i: int| 0 <= i < ps.len() ==> edges_solid(#[trigger] ps[i]),
    ensures
        edges_solid(join_with(ps, seq![sep])),
        ps.len() >= 2 ==> join_with(ps, seq![sep]).len() > 0,
    decreases ps.len(),
{
    if ps.len() >= 2 {
        let q = ps.drop_last();
        assert forall|i: int| 0 <= i < q.len() implies edges_solid(#[trigger] q[i]) by {
            assert(q[i] == ps[i]);
        }
        lemma_join_edges(q, sep);
        let j = join_with(q, seq![sep]);
        let r = j + seq![sep] + ps.last();
        assert(edges_solid(ps[ps.len() - 1]));
        if j.len() > 0 {
            assert(r[0] == j[0]);
        } else {
            assert(r[0] == sep);
        }
        if ps.last().len() > 0 {
            assert(r.last() == ps.last().last());
        } else {
            assert(r.last() == sep);
        }
    } else if ps.len() == 1 {
        assert(edges_solid(ps[0]));
    }
}

/// A copy of `s[i..j]`.
pub fn copy_range(s: &[char], i: usize, j: usize) -> (r: Vec<char>)
    requires
        i <= j <= s@.len(),
    ensures
        r@ == s@.subrange(i as int, j as int),
{
    let mut r: Vec<char> = Vec::new();
    let mut k: usize = i;
    while k < j
        invariant
            i <= k <= j <= s@.len(),
            r@ == s@.subrange(i as int, k as int),
        decreases j - k,
    {
        r.push(s[k]);
        k = k + 1;
        assert(r@ =~= s@.subrange(i as int, k as int));
    }
    r
}

/// `str::trim` on a character sequence.
pub fn trim_chars(s: &[char]) -> (r: Vec<char>)
    ensures
        r@ == trim(s@),
{
    let n = s.len();
    let mut i: usize = 0;
    while i < n && is_whitespace(s[i])
        invariant
            i <= n == s@.len(),
            forall|k: int| 0 <= k < i ==> is_space(#[trigger] s@[k]),
        decreases n - i,
    {
        i = i + 1;
    }
    let mut j: usize = n;
    while j > i && is_whitespace(s[j - 1])
        invariant
            i <= j <= n == s@.len(),
            forall|k: int| j <= k < n ==> is_space(#[trigger] s@[k]),
        decreases j,
    {
        j = j - 1;
    }
    let ghost sp = |c: char| is_space(c);
    proof {
        lemma_trim_start_skip(s@, sp, i as int);
        let t = s@.subrange(i as int, n as int);
        assert(trim_start_by(t, sp) == t);
        assert forall|k: int| j - i <= k < t.len() implies sp(#[trigger] t[k]) by {
            assert(t[k] == s@[k + i]);
        }
        lemma_trim_end_skip(t, sp, j - i);
        let u = t.subrange(0, j - i);
        assert(u =~= s@.subrange(i as int, j as int));
        assert(trim_end_by(u, sp) == u);
    }
    copy_range(s, i, j)
}


/// The characters of a string slice.
pub fn chars_of(s: &str) -> (r: Vec<char>)
    ensures
        r@ == s@,
{
    let mut r: Vec<char> = Vec::new();
    for c in it: s.chars()
        invariant
            r@ == it.seq().take(it.index() as int),
            it.seq() == s@,
    {
        r.push(c);
    }
    r
}

/// `String::push`: appends one character.
#[verifier::external_body]
pub fn push_char(s: &mut String, c: char)
    ensures
        final(s)@ == old(s)@.push(c),
{
    s.push(c);
}

/// A string holding exactly the given characters.
pub fn string_of(v: &[char]) -> (r: String)
    ensures
        r@ == v@,
{
    let mut r = String::new();
    let mut k: usize = 0;
    while k < v.len()
        invariant
            k <= v@.len(),
            r@ == v@.take(k as int),
        decreases v@.len() - k,
    {
        push_char(&mut r, v[k]);
        k = k + 1;
        assert(r@ =~= v@.take(k as int));
    }
    assert(v@.take(v@.len() as int) =~= v@);
    r
}


/// Whether `p` is a prefix of `s`.
pub fn is_prefix_exec(p: &[char], s: &[char]) -> (r: bool)
    ensures
        r == p@.is_prefix_of(s@),
{
    if p.len() > s.len() {
        return false;
    }
    let mut k: usize = 0;
    while k < p.len()
        invariant
            k <= p@.len() <= s@.len(),
            p@.subrange(0, k as int) == s@.subrange(0, k as int),
        decreases p@.len() - k,
    {
        if p[k] != s[k] {
            assert(p@[k as int] != s@.subrange(0, p@.len() as int)[k as int]);
            return false;
        }
        assert(p@.subrange(0, k + 1) =~= p@.subrange(0, k as int).push(p@[k as int]));
        assert(s@.subrange(0, k + 1) =~= s@.subrange(0, k as int).push(s@[k as int]));
        k = k + 1;
    }
    assert(p@.subrange(0, p@.len() as int) =~= p@);
    true
}

/// Whether two character sequences are equal.
pub fn same_chars(a: &[char], b: &[char]) -> (r: bool)
    ensures
        r == (a@ == b@),
{
    if a.len() != b.len() {
        return false;
    }
    let r = is_prefix_exec(a, b);
    proof {
        if r {
            assert(b@.subrange(0, b@.len() as int) =~= b@);
        }
    }
    r
}


/// What `char::is_alphanumeric` returns: whether the character has the
/// Unicode `Alphabetic` property or a `Numeric` general category.
pub uninterp spec fn alphanumeric(c: char) -> bool;

/// An ASCII digit or letter.
pub open spec fn ascii_alnum(c: char) -> bool {
    ('0' <= c <= '9') || ('a' <= c <= 'z') || ('A' <= c <= 'Z')
}

/// `char::is_alphanumeric`: on ASCII, exactly the digits and letters (as its
/// documentation fixes); beyond ASCII the Unicode tables are only named.
#[verifier::external_body]
pub(crate) fn is_alphanumeric(c: char) -> (r: bool)
    ensures
        r == alphanumeric(c),
        c <= '\u{7f}' ==> (r <==> ascii_alnum(c)),
{
    c.is_alphanumeric()
}

/// Whether `char::is_alphanumeric` holds of `c`: on ASCII, a digit or a
/// letter.
pub open spec fn is_alnum(c: char) -> bool {
    if c <= '\u{7f}' {
        ascii_alnum(c)
    } else {
        alphanumeric(c)
    }
}

/// A character that continues a word: alphanumeric or an underscore.
pub open spec fn is_word_char(c: char) -> bool {
    is_alnum(c) || c == '_'
}

/// Executable `is_word_char`.
pub fn word_char(c: char) -> (r: bool)
    ensures
        r == is_word_char(c),
{
    is_alphanumeric(c) || c == '_'
}


/// `str::split` on one character: the pieces between the separators, in
/// order; there is always at least one piece.
pub open spec fn split_on(s: Seq<char>, sep: char) -> Seq<Seq<char>>
    decreases s.len(),
{
    if s.len() == 0 {
        seq![Seq::<char>::empty()]
    } else {
        let rest = split_on(s.drop_last(), sep);
        if s.last() == sep {
            rest.push(Seq::<char>::empty())
        } else {
            rest.update(rest.len() - 1, rest.last().push(s.last()))
        }
    }
}

pub proof fn lemma_split_nonempty(s: Seq<char>, sep: char)
    ensures
        split_on(s, sep).len() >= 1,
    decreases s.len(),
{
    if s.len() > 0 {
        lemma_split_nonempty(s.drop_last(), sep);
    }
}

/// `line` without one trailing carriage return.
pub open spec fn strip_cr(line: Seq<char>) -> Seq<char> {
    if line.len() > 0 && line.last() == '\r' {
        line.drop_last()
    } else {
        line
    }
}

/// `str::lines`: the text split at `\n`, a `\r` right before a `\n` dropped,
/// and no empty line after a final line ending.
pub open spec fn lines(s: Seq<char>) -> Seq<Seq<char>> {
    let ps = split_on(s, '\n');
    let body = ps.drop_last().map_values(|l: Seq<char>| strip_cr(l));
    if ps.last().len() == 0 {
        body
    } else {
        body.push(ps.last())
    }
}

/// The strings of `v`, by their characters.
pub open spec fn views(v: Seq<String>) -> Seq<Seq<char>> {
    v.map_values(|x: String| x@)
}

/// The pieces joined with `sep` between them.
pub open spec fn join_with(ps: Seq<Seq<char>>, sep: Seq<char>) -> Seq<char>
    decreases ps.len(),
{
    if ps.len() == 0 {
        Seq::<char>::empty()
    } else if ps.len() == 1 {
        ps[0]
    } else {
        join_with(ps.drop_last(), sep) + sep + ps.last()
    }
}

/// `str::split` on one character.
pub fn split_chars(s: &[char], sep: char) -> (r: Vec<Vec<char>>)
    ensures
        r@.map_values(|v: Vec<char>| v@) == split_on(s@, sep),
{
    let mut out: Vec<Vec<char>> = Vec::new();
    let mut cur: Vec<char> = Vec::new();
    let mut k: usize = 0;
    while k < s.len()
        invariant
            k <= s@.len(),
            out@.map_values(|v: Vec<char>| v@).push(cur@) == split_on(s@.take(k as int), sep),
        decreases s@.len() - k,
    {
        let ghost before = out@.map_values(|v: Vec<char>| v@).push(cur@);
        assert(s@.take(k + 1).drop_last() =~= s@.take(k as int));
        assert(s@.take(k + 1).last() == s@[k as int]);
        if s[k] == sep {
            out.push(cur);
            cur = Vec::new();
            assert(out@.map_values(|v: Vec<char>| v@).push(cur@) =~= before.push(Seq::<char>::empty()));
        } else {
            cur.push(s[k]);
            assert(out@.map_values(|v: Vec<char>| v@).push(cur@) =~= before.update(
                before.len() - 1,
                before.last().push(s@[k as int]),
            ));
        }
        k = k + 1;
    }
    assert(s@.take(s@.len() as int) =~= s@);
    out.push(cur);
    assert(out@.map_values(|v: Vec<char>| v@) =~= split_on(s@, sep));
    out
}

/// `str::lines`.
pub fn lines_of(s: &[char]) -> (r: Vec<Vec<char>>)
    ensures
        r@.map_values(|v: Vec<char>| v@) == lines(s@),
{
    let ps = split_chars(s, '\n');
    proof {
        lemma_split_nonempty(s@, '\n');
    }
    let ghost psv = ps@.map_values(|v: Vec<char>| v@);
    let n = ps.len();
    let mut out: Vec<Vec<char>> = Vec::new();
    let mut k: usize = 0;
    while k + 1 < n
        invariant
            n == ps@.len() == psv.len(),
            n >= 1,
            psv == ps@.map_values(|v: Vec<char>| v@),
            k + 1 <= n,
            out@.map_values(|v: Vec<char>| v@) == psv.drop_last().take(k as int).map_values(
                |l: Seq<char>| strip_cr(l),
            ),
        decreases n - k,
    {
        let l = &ps[k];
        let m = l.len();
        proof {
            assert(l@ == psv[k as int]);
        }
        let piece = if m > 0 && l[m - 1] == '\r' {
            let p = copy_range(l, 0, m - 1);
            assert(p@ =~= l@.drop_last());
            p
        } else {
            let p = copy_range(l, 0, m);
            assert(p@ =~= l@);
            p
        };
        assert(piece@ == strip_cr(psv[k as int]));
        assert(psv.drop_last()[k as int] == psv[k as int]);
        let ghost before = out@.map_values(|v: Vec<char>| v@);
        let ghost pv = piece@;
        out.push(piece);
        assert(out@.map_values(|v: Vec<char>| v@) =~= before.push(pv));
        assert(psv.drop_last().take(k + 1).map_values(|l: Seq<char>| strip_cr(l))
            =~= psv.drop_last().take(k as int).map_values(|l: Seq<char>| strip_cr(l)).push(pv));
        k = k + 1;
    }
    assert(psv.drop_last().take(k as int) =~= psv.drop_last());
    let last = &ps[n - 1];
    assert(last@ == psv.last());
    if last.len() > 0 {
        out.push(copy_range(last, 0, last.len()));
        assert(last@.subrange(0, last@.len() as int) =~= last@);
    }
    assert(out@.map_values(|v: Vec<char>| v@) =~= lines(s@));
    out
}


/// A string option by its characters.
pub open spec fn opt_view(o: Option<String>) -> Option<Seq<char>> {
    match o {
        Some(x) => Some(x@),
        None => None,
    }
}

/// `str::trim_matches` with one character: every leading and trailing `c` removed.
pub open spec fn trim_char(s: Seq<char>, c: char) -> Seq<char> {
    trim_end_by(trim_start_by(s, equals_char(c)), equals_char(c))
}

/// The test "is the character `c`".
pub open spec fn equals_char(c: char) -> spec_fn(char) -> bool {
    |x: char| x == c
}

/// `str::trim_matches` with one character.
pub fn trim_char_exec(s: &[char], c: char) -> (r: Vec<char>)
    ensures
        r@ == trim_char(s@, c),
{
    let n = s.len();
    let mut i: usize = 0;
    while i < n && s[i] == c
        invariant
            i <= n == s@.len(),
            forall|k: int| 0 <= k < i ==> #[trigger] s@[k] == c,
        decreases n - i,
    {
        i = i + 1;
    }
    let mut j: usize = n;
    while j > i && s[j - 1] == c
        invariant
            i <= j <= n == s@.len(),
            forall|k: int| j <= k < n ==> #[trigger] s@[k] == c,
        decreases j,
    {
        j = j - 1;
    }
    let ghost sp = equals_char(c);
    proof {
        lemma_trim_start_skip(s@, sp, i as int);
        let t = s@.subrange(i as int, n as int);
        assert(trim_start_by(t, sp) == t);
        assert forall|k: int| j - i <= k < t.len() implies sp(#[trigger] t[k]) by {
            assert(t[k] == s@[k + i]);
        }
        lemma_trim_end_skip(t, sp, j - i);
        let u = t.subrange(0, j - i);
        assert(u =~= s@.subrange(i as int, j as int));
        assert(trim_end_by(u, sp) == u);
    }
    copy_range(s, i, j)
}

/// The rest of `s` after the prefix `p`, if `s` starts with `p`.
pub open spec fn strip_prefix(s: Seq<char>, p: Seq<char>) -> Option<Seq<char>> {
    if p.is_prefix_of(s) {
        Some(s.subrange(p.len() as int, s.len() as int))
    } else {
        None
    }
}

/// `str::strip_prefix`.
pub fn strip_prefix_exec(s: &[char], p: &[char]) -> (r: Option<Vec<char>>)
    ensures
        match r {
            Some(v) => strip_prefix(s@, p@) == Some(v@),
            None => strip_prefix(s@, p@) is None,
        },
{
    if is_prefix_exec(p, s) {
        Some(copy_range(s, p.len(), s.len()))
    } else {
        None
    }
}

/// Two keys that differ at a position within both cannot both begin one line.
pub proof fn lemma_prefixes_exclusive(a: Seq<char>, b: Seq<char>, l: Seq<char>, k: int)
    requires
        0 <= k < a.len(),
        k < b.len(),
        a[k] != b[k],
    ensures
        !(a.is_prefix_of(l) && b.is_prefix_of(l)),
{
    if a.is_prefix_of(l) && b.is_prefix_of(l) {
        assert(a[k] == l[k]);
        assert(b[k] == l[k]);
    }
}

/// Appends the characters of `v` to `out`.
pub fn append_chars(out: &mut Vec<char>, v: &[char])
    ensures
        final(out)@ == old(out)@ + v@,
{
    let mut k: usize = 0;
    while k < v.len()
        invariant
            k <= v@.len(),
            out@ == old(out)@ + v@.take(k as int),
        decreases v@.len() - k,
    {
        out.push(v[k]);
        k = k + 1;
        assert(out@ =~= old(out)@ + v@.take(k as int));
    }
    assert(v@.take(v@.len() as int) =~= v@);
}


/// The index of the first `c` in `s`, if any.
pub open spec fn find_char(s: Seq<char>, c: char) -> Option<int>
    decreases s.len(),
{
    if s.len() == 0 {
        None
    } else if s[0] == c {
        Some(0)
    } else {
        match find_char(s.drop_first(), c) {
            Some(i) => Some(i + 1),
            None => None,
        }
    }
}

pub proof fn lemma_find_char(s: Seq<char>, c: char)
    ensures
        match find_char(s, c) {
            Some(i) => 0 <= i < s.len() && s[i] == c && forall|k: int| 0 <= k < i ==> s[k] != c,
            None => forall|k: int| 0 <= k < s.len() ==> s[k] != c,
        },
    decreases s.len(),
{
    if s.len() > 0 {
        lemma_find_char(s.drop_first(), c);
        if s[0] != c {
            match find_char(s.drop_first(), c) {
                Some(i) => {
                    assert forall|k: int| 0 <= k < i + 1 implies s[k] != c by {
                        if k > 0 {
                            assert(s[k] == s.drop_first()[k - 1]);
                        }
                    }
                },
                None => {
                    assert forall|k: int| 0 <= k < s.len() implies s[k] != c by {
                        if k > 0 {
                            assert(s[k] == s.drop_first()[k - 1]);
                        }
                    }
                },
            }
        }
    }
}

/// The first index of `c` in `s`.
pub fn find_char_exec(s: &[char], c: char) -> (r: Option<usize>)
    ensures
        match r {
            Some(i) => find_char(s@, c) == Some(i as int),
            None => find_char(s@, c) is None,
        },
{
    proof {
        lemma_find_char(s@, c);
    }
    let mut i: usize = 0;
    while i < s.len()
        invariant
            i <= s@.len(),
            forall|k: int| 0 <= k < i ==> s@[k] != c,
            match find_char(s@, c) {
                Some(j) => 0 <= j < s@.len() && s@[j] == c && forall|k: int| 0 <= k < j ==> s@[k] != c,
                None => forall|k: int| 0 <= k < s@.len() ==> s@[k] != c,
            },
        decreases s@.len() - i,
    {
        if s[i] == c {
            return Some(i);
        }
        i = i + 1;
    }
    None
}

/// The index of the first occurrence of the two characters `a b` in `s`, if any.
pub open spec fn find_pair(s: Seq<char>, a: char, b: char) -> Option<int>
    decreases s.len(),
{
    if s.len() < 2 {
        None
    } else if s[0] == a && s[1] == b {
        Some(0)
    } else {
        match find_pair(s.drop_first(), a, b) {
            Some(i) => Some(i + 1),
            None => None,
        }
    }
}

pub proof fn lemma_find_pair(s: Seq<char>, a: char, b: char)
    ensures
        match find_pair(s, a, b) {
            Some(i) => 0 <= i && i + 2 <= s.len() && s[i] == a && s[i + 1] == b && forall|k: int|
                0 <= k < i ==> !(#[trigger] s[k] == a && s[k + 1] == b),
            None => forall|k: int| 0 <= k && k + 1 < s.len() ==> !(#[trigger] s[k] == a && s[k + 1] == b),
        },
    decreases s.len(),
{
    if s.len() >= 2 {
        let t = s.drop_first();
        lemma_find_pair(t, a, b);
        if !(s[0] == a && s[1] == b) {
            assert forall|k: int| 1 <= k && k + 1 < s.len() implies #[trigger] s[k] == t[k - 1] && s[k + 1] == t[k] by {}
        }
    }
}

/// The first index at which `a b` occurs in `s[from..]`, counted from `from`.
pub fn find_pair_exec(s: &[char], from: usize, a: char, b: char) -> (r: Option<usize>)
    requires
        from <= s@.len(),
    ensures
        match r {
            Some(i) => find_pair(s@.subrange(from as int, s@.len() as int), a, b) == Some(i as int),
            None => find_pair(s@.subrange(from as int, s@.len() as int), a, b) is None,
        },
{
    let ghost t = s@.subrange(from as int, s@.len() as int);
    proof {
        lemma_find_pair(t, a, b);
    }
    let n = s.len();
    let mut i: usize = from;
    while i < n && i + 1 < n
        invariant
            from <= i <= n,
            n == s@.len(),
            from <= n,
            t == s@.subrange(from as int, n as int),
            forall|k: int| from <= k < i && k + 1 < n ==> !(#[trigger] s@[k] == a && s@[k + 1] == b),
            match find_pair(t, a, b) {
                Some(j) => 0 <= j && j + 2 <= t.len() && t[j] == a && t[j + 1] == b && forall|k: int|
                    0 <= k < j ==> !(#[trigger] t[k] == a && t[k + 1] == b),
                None => forall|k: int| 0 <= k && k + 1 < t.len() ==> !(#[trigger] t[k] == a && t[k + 1] == b),
            },
        decreases n - i,
    {
        if s[i] == a && s[i + 1] == b {
            proof {
                assert(t[i - from] == a && t[i - from + 1] == b);
                match find_pair(t, a, b) {
                    Some(j) => {
                        if j < i - from {
                            assert(s@[j + from] == t[j] && s@[j + from + 1] == t[j + 1]);
                        }
                        if j > i - from {
                            assert(s@[i as int] == t[i - from]);
                        }
                    },
                    None => {},
                }
            }
            return Some(i - from);
        }
        i = i + 1;
    }
    proof {
        match find_pair(t, a, b) {
            Some(j) => {
                assert(s@[j + from] == t[j] && s@[j + from + 1] == t[j + 1]);
            },
            None => {},
        }
    }
    None
}


/// `char::to_ascii_lowercase`: ASCII capitals lowered, every other character kept.
pub open spec fn ascii_lower(c: char) -> char {
    if 'A' <= c && c <= 'Z' {
        ((c as int) + 32) as char
    } else {
        c
    }
}

/// `str::to_ascii_lowercase`.
pub open spec fn lower(s: Seq<char>) -> Seq<char> {
    s.map_values(|c: char| ascii_lower(c))
}

/// `str::to_ascii_lowercase` on a character sequence.
pub fn lower_chars(s: &[char]) -> (r: Vec<char>)
    ensures
        r@ == lower(s@),
{
    let mut out: Vec<char> = Vec::new();
    let mut i: usize = 0;
    while i < s.len()
        invariant
            i <= s@.len(),
            out@ == s@.take(i as int).map_values(|c: char| ascii_lower(c)),
        decreases s@.len() - i,
    {
        let c = s[i];
        let l = if 'A' <= c && c <= 'Z' { ((c as u8) + 32) as char } else { c };
        out.push(l);
        i = i + 1;
        assert(out@ =~= s@.take(i as int).map_values(|c: char| ascii_lower(c)));
    }
    assert(s@.take(s@.len() as int) =~= s@);
    out
}

/// `needle` occurs in `s`.
pub open spec fn contains_seq(s: Seq<char>, needle: Seq<char>) -> bool {
    exists|i: int| 0 <= i && i + needle.len() <= s.len() && #[trigger] s.subrange(i, i + needle.len()) == needle
}

/// `str::contains` with a string pattern.
pub fn contains_exec(s: &[char], needle: &[char]) -> (r: bool)
    ensures
        r == contains_seq(s@, needle@),
{
    if needle.len() > s.len() {
        return false;
    }
    if needle.len() == 0 {
        assert(s@.subrange(0int, 0int + needle@.len()) =~= needle@);
        assert(contains_seq(s@, needle@));
        return true;
    }
    let last = s.len() - needle.len();
    let mut i: usize = 0;
    while i <= last
        invariant
            last + needle@.len() == s@.len(),
            last < s.len(),
            i <= last + 1,
            forall|k: int| 0 <= k < i ==> #[trigger] s@.subrange(k, k + needle@.len()) != needle@,
        decreases last + 1 - i,
    {
        let piece = copy_range(s, i, i + needle.len());
        if same_chars(&piece, needle) {
            return true;
        }
        i = i + 1;
    }
    false
}

proof fn lemma_trim_start_shape(s: Seq<char>, p: spec_fn(char) -> bool)
    ensures
        trim_start_by(s, p).len() <= s.len(),
        trim_start_by(s, p) == s.subrange(s.len() - trim_start_by(s, p).len(), s.len() as int),
        forall|k: int| 0 <= k < s.len() - trim_start_by(s, p).len() ==> p(#[trigger] s[k]),
    decreases s.len(),
{
    if s.len() > 0 && p(s[0]) {
        let t = s.drop_first();
        lemma_trim_start_shape(t, p);
        let r = trim_start_by(t, p);
        assert(t.subrange(t.len() - r.len(), t.len() as int) =~= s.subrange(s.len() - r.len(), s.len() as int));
        assert forall|k: int| 0 <= k < s.len() - r.len() implies p(#[trigger] s[k]) by {
            if k > 0 {
                assert(s[k] == t[k - 1]);
            }
        }
    } else {
        assert(s.subrange(0, s.len() as int) =~= s);
    }
}

proof fn lemma_trim_end_rest(s: Seq<char>, p: spec_fn(char) -> bool)
    ensures
        forall|k: int| trim_end_by(s, p).len() <= k < s.len() ==> p(#[trigger] s[k]),
    decreases s.len(),
{
    if s.len() > 0 && p(s.last()) {
        let t = s.drop_last();
        lemma_trim_end_rest(t, p);
        assert forall|k: int| trim_end_by(s, p).len() <= k < s.len() implies p(#[trigger] s[k]) by {
            if k < t.len() {
                assert(s[k] == t[k]);
            }
        }
    }
}

/// `trim` cuts white space, and only white space, from both ends: what it
/// keeps is one contiguous piece of `s`, everything before and after it is
/// white space, and the piece neither begins nor ends with white space.
pub proof fn lemma_trim_cuts_white_space(s: Seq<char>)
    ensures
        exists|i: int, j: int|
            #![trigger s.subrange(i, j)]
            0 <= i <= j <= s.len() && trim(s) == s.subrange(i, j) && (forall|k: int|
                0 <= k < i ==> is_space(#[trigger] s[k])) && (forall|k: int|
                j <= k < s.len() ==> is_space(#[trigger] s[k])),
        edges_solid(trim(s)),
{
    let p = |c: char| is_space(c);
    lemma_trim_start_shape(s, p);
    let u = trim_start_by(s, p);
    let i = s.len() - u.len();
    lemma_trim_end_shape(u, p);
    lemma_trim_end_rest(u, p);
    let t = trim_end_by(u, p);
    let j = i + t.len();
    assert(t =~= s.subrange(i, j));
    assert forall|k: int| j <= k < s.len() implies is_space(#[trigger] s[k]) by {
        assert(s[k] == u[k - i]);
        assert(p(u[k - i]));
    }
    assert forall|k: int| 0 <= k < i implies is_space(#[trigger] s[k]) by {
        assert(p(s[k]));
    }
    lemma_trim_edges(s);
}

proof fn lemma_join_push_last(ps: Seq<Seq<char>>, sep: Seq<char>, c: char)
    requires
        ps.len() >= 1,
    ensures
        join_with(ps.update(ps.len() - 1, ps.last().push(c)), sep) == join_with(ps, sep).push(c),
{
    let q = ps.update(ps.len() - 1, ps.last().push(c));
    if ps.len() >= 2 {
        assert(q.drop_last() =~= ps.drop_last());
        assert(q.last() == ps.last().push(c));
        assert(join_with(q, sep) =~= join_with(ps, sep).push(c));
    } else {
        assert(q[0] == ps[0].push(c));
    }
}

/// Splitting at a separator and joining the pieces with it gives the text
/// back; no piece holds the separator; the last piece is empty exactly when
/// the text is empty or ends with the separator.
pub proof fn lemma_split_join(s: Seq<char>, sep: char)
    ensures
        join_with(split_on(s, sep), seq![sep]) == s,
        forall|i: int| 0 <= i < split_on(s, sep).len() ==> !(#[trigger] split_on(s, sep)[i]).contains(sep),
        split_on(s, sep).len() >= 1,
        (split_on(s, sep).last().len() == 0) <==> (s.len() == 0 || s.last() == sep),
        s.len() > 0 && s.last() == sep ==> split_on(s, sep).len() >= 2,
    decreases s.len(),
{
    if s.len() == 0 {
        assert(split_on(s, sep)[0] =~= Seq::<char>::empty());
        assert(s =~= Seq::<char>::empty());
    } else {
        let t = s.drop_last();
        lemma_split_join(t, sep);
        let rest = split_on(t, sep);
        let c = s.last();
        assert(t.push(c) =~= s);
        if c == sep {
            let q = rest.push(Seq::<char>::empty());
            assert(q.drop_last() =~= rest);
            assert(join_with(q, seq![sep]) =~= join_with(rest, seq![sep]) + seq![sep] + Seq::<char>::empty());
            assert forall|i: int| 0 <= i < q.len() implies !(#[trigger] q[i]).contains(sep) by {
                if i < rest.len() {
                    assert(q[i] == rest[i]);
                }
            }
        } else {
            lemma_join_push_last(rest, seq![sep], c);
            let q = rest.update(rest.len() - 1, rest.last().push(c));
            assert forall|i: int| 0 <= i < q.len() implies !(#[trigger] q[i]).contains(sep) by {
                if i < rest.len() - 1 {
                    assert(q[i] == rest[i]);
                } else {
                    let x = rest.last().push(c);
                    assert(!rest[rest.len() - 1].contains(sep));
                    if x.contains(sep) {
                        let k = choose|k: int| 0 <= k < x.len() && x[k] == sep;
                        if k < rest.last().len() {
                            assert(rest.last()[k] == sep);
                        }
                    }
                }
            }
        }
    }
}

/// For a text without carriage returns, its lines joined by newlines give
/// the text back, less one final newline; empty lines are kept, and no line
/// holds a newline.
pub proof fn lemma_lines_join(s: Seq<char>)
    requires
        !s.contains('\r'),
    ensures
        (if s.len() > 0 && s.last() == '\n' {
            join_with(lines(s), seq!['\n']).push('\n')
        } else {
            join_with(lines(s), seq!['\n'])
        }) == s,
        forall|i: int| 0 <= i < lines(s).len() ==> !(#[trigger] lines(s)[i]).contains('\n'),
{
    let ps = split_on(s, '\n');
    lemma_split_join(s, '\n');
    assert forall|i: int| 0 <= i < ps.len() implies strip_cr(#[trigger] ps[i]) == ps[i] by {
        if ps[i].len() > 0 && ps[i].last() == '\r' {
            lemma_piece_in_join(ps, i);
            assert(ps[i][ps[i].len() - 1] == '\r');
            assert(false);
        }
    }
    let body = ps.drop_last().map_values(|l: Seq<char>| strip_cr(l));
    assert(body =~= ps.drop_last());
    if ps.last().len() == 0 {
        if s.len() > 0 {
            assert(join_with(ps, seq!['\n']) =~= join_with(ps.drop_last(), seq!['\n']) + seq!['\n'] + ps.last());
            assert(join_with(ps.drop_last(), seq!['\n']).push('\n') =~= join_with(ps, seq!['\n']));
        } else {
            assert(ps.drop_last() =~= Seq::<Seq<char>>::empty());
        }
    } else {
        assert(body.push(ps.last()) =~= ps);
    }
    assert forall|i: int| 0 <= i < lines(s).len() implies !(#[trigger] lines(s)[i]).contains('\n') by {
        if ps.last().len() == 0 {
            assert(lines(s)[i] == ps[i]);
        } else {
            assert(lines(s)[i] == ps[i]);
        }
    }
}

/// Every character of a piece stands in the joined text.
proof fn lemma_piece_in_join(ps: Seq<Seq<char>>, i: int)
    requires
        0 <= i < ps.len(),
    ensures
        forall|k: int| 0 <= k < ps[i].len() ==> join_with(ps, seq!['\n']).contains(#[trigger] ps[i][k]),
    decreases ps.len(),
{
    let j = join_with(ps, seq!['\n']);
    if ps.len() == 1 {
        assert forall|k: int| 0 <= k < ps[i].len() implies j.contains(#[trigger] ps[i][k]) by {
            assert(j[k] == ps[0][k]);
        }
    } else {
        let q = ps.drop_last();
        let jq = join_with(q, seq!['\n']);
        assert(j =~= jq + seq!['\n'] + ps.last());
        if i < q.len() {
            lemma_piece_in_join(q, i);
            assert forall|k: int| 0 <= k < ps[i].len() implies j.contains(#[trigger] ps[i][k]) by {
                assert(q[i] == ps[i]);
                assert(jq.contains(q[i][k]));
                let m = choose|m: int| 0 <= m < jq.len() && jq[m] == q[i][k];
                assert(j[m] == jq[m]);
            }
        } else {
            assert forall|k: int| 0 <= k < ps[i].len() implies j.contains(#[trigger] ps[i][k]) by {
                assert(j[jq.len() + 1 + k] == ps.last()[k]);
            }
        }
    }
}

/// `to_ascii_lowercase` keeps the length, lowers each ASCII capital to its
/// small letter (32 code points on) and leaves every other character as it
/// is; no ASCII capital is left.
pub proof fn lemma_lower_letters(s: Seq<char>)
    ensures
        lower(s).len() == s.len(),
        forall|i: int|
            0 <= i < s.len() ==> {
                &&& ('A' <= s[i] <= 'Z' ==> lower(s)[i] as int == s[i] as int + 32)
                &&& (!('A' <= s[i] <= 'Z') ==> #[trigger] lower(s)[i] == s[i])
                &&& !('A' <= lower(s)[i] <= 'Z')
            },
{
}

} // verus!
