//! Character-level text model: lines, whitespace-separated words and
//! trimming, stated over `Seq<char>` and computed over a `Vec<char>`.
use vstd::prelude::*;

verus! {

/// The Unicode `White_Space` property, as `char::is_whitespace` decides it.
pub open spec fn is_ws(c: char) -> bool {
    let u = c as u32;
    ||| (0x09 <= u && u <= 0x0D)
    ||| u == 0x20
    ||| u == 0x85
    ||| u == 0xA0
    ||| u == 0x1680
    ||| (0x2000 <= u && u <= 0x200A)
    ||| u == 0x2028
    ||| u == 0x2029
    ||| u == 0x202F
    ||| u == 0x205F
    ||| u == 0x3000
}

/// Number of characters before the first line feed (or the whole length).
pub open spec fn line_len(s: Seq<char>) -> nat
    decreases s.len(),
{
    if s.len() == 0 || s[0] == '\n' {
        0
    } else {
        1 + line_len(s.drop_first())
    }
}

/// A line that was ended by a line feed loses one trailing carriage return.
pub open spec fn strip_cr(l: Seq<char>) -> Seq<char> {
    if l.len() > 0 && l.last() == '\r' {
        l.drop_last()
    } else {
        l
    }
}

/// The lines of a text: split at `\n` or `\r\n`; a final line ending is optional.
pub open spec fn lines(s: Seq<char>) -> Seq<Seq<char>>
    decreases s.len(),
{
    if s.len() == 0 {
        seq![]
    } else {
        let k = line_len(s);
        if k < s.len() {
            seq![strip_cr(s.take(k as int))] + lines(s.skip(k + 1 as int))
        } else {
            seq![s]
        }
    }
}

/// Number of characters before the first whitespace character (or the whole length).
pub open spec fn token_len(s: Seq<char>) -> nat
    decreases s.len(),
{
    if s.len() == 0 || is_ws(s[0]) {
        0
    } else {
        1 + token_len(s.drop_first())
    }
}

pub proof fn lemma_token_len_bound(s: Seq<char>)
    ensures
        token_len(s) <= s.len(),
    decreases s.len(),
{
    if s.len() > 0 && !is_ws(s[0]) {
        lemma_token_len_bound(s.drop_first());
    }
}

/// The maximal runs of non-whitespace characters, in order.
pub open spec fn words(s: Seq<char>) -> Seq<Seq<char>>
    decreases s.len(),
{
    if s.len() == 0 {
        seq![]
    } else if is_ws(s[0]) {
        words(s.drop_first())
    } else {
        let k = token_len(s);
        proof {
            lemma_token_len_bound(s);
        }
        seq![s.take(k as int)] + words(s.skip(k as int))
    }
}

/// The text without leading whitespace.
pub open spec fn trim_start(s: Seq<char>) -> Seq<char>
    decreases s.len(),
{
    if s.len() > 0 && is_ws(s[0]) {
        trim_start(s.drop_first())
    } else {
        s
    }
}

/// The text without trailing whitespace.
pub open spec fn trim_end(s: Seq<char>) -> Seq<char>
    decreases s.len(),
{
    if s.len() > 0 && is_ws(s.last()) {
        trim_end(s.drop_last())
    } else {
        s
    }
}

/// The text without leading and trailing whitespace.
pub open spec fn trim(s: Seq<char>) -> Seq<char> {
    trim_end(trim_start(s))
}

pub open spec fn starts_with(s: Seq<char>, p: Seq<char>) -> bool {
    p.len() <= s.len() && s.take(p.len() as int) == p
}

/// The pieces of `s` that a list of index ranges selects.
pub open spec fn pieces(s: Seq<char>, r: Seq<(usize, usize)>) -> Seq<Seq<char>> {
    r.map_values(|p: (usize, usize)| s.subrange(p.0 as int, p.1 as int))
}

/// The texts of a list of strings.
pub open spec fn string_views(v: Seq<String>) -> Seq<Seq<char>> {
    v.map_values(|s: String| s@)
}

/// Every range lies inside `lo..hi` and is ordered.
pub open spec fn ranges_within(r: Seq<(usize, usize)>, lo: int, hi: int) -> bool {
    forall|j: int| 0 <= j < r.len() ==> lo <= #[trigger] r[j].0 <= r[j].1 <= hi
}

/// A non-empty run of non-whitespace characters.
pub open spec fn is_token(w: Seq<char>) -> bool {
    w.len() > 0 && forall|j: int| 0 <= j < w.len() ==> !is_ws(#[trigger] w[j])
}

proof fn lemma_token_len_chars(s: Seq<char>)
    ensures
        forall|j: int| 0 <= j < token_len(s) ==> !is_ws(#[trigger] s[j]),
    decreases s.len(),
{
    if s.len() > 0 && !is_ws(s[0]) {
        lemma_token_len_bound(s);
        lemma_token_len_chars(s.drop_first());
        assert forall|j: int| 0 <= j < token_len(s) implies !is_ws(#[trigger] s[j]) by {
            if j > 0 {
                assert(s[j] == s.drop_first()[j - 1]);
            }
        }
    }
}

/// Every word is a non-empty run of non-whitespace characters.
pub proof fn law_words_are_tokens(s: Seq<char>)
    ensures
        forall|i: int| 0 <= i < words(s).len() ==> is_token(#[trigger] words(s)[i]),
    decreases s.len(),
{
    if s.len() > 0 {
        if is_ws(s[0]) {
            law_words_are_tokens(s.drop_first());
            assert(words(s) == words(s.drop_first()));
        } else {
            let k = token_len(s);
            lemma_token_len_bound(s);
            lemma_token_len_chars(s);
            law_words_are_tokens(s.skip(k as int));
            let w = words(s);
            assert(w == seq![s.take(k as int)] + words(s.skip(k as int)));
            assert forall|i: int| 0 <= i < w.len() implies is_token(#[trigger] w[i]) by {
                if i == 0 {
                    assert(w[0] == s.take(k as int));
                    assert forall|j: int| 0 <= j < w[0].len() implies !is_ws(#[trigger] w[0][j]) by {
                        assert(w[0][j] == s[j]);
                    }
                } else {
                    assert(w[i] == words(s.skip(k as int))[i - 1]);
                }
            }
        }
    }
}

proof fn lemma_words_trim_start(s: Seq<char>)
    ensures
        words(trim_start(s)) == words(s),
    decreases s.len(),
{
    if s.len() > 0 && is_ws(s[0]) {
        lemma_words_trim_start(s.drop_first());
    }
}

proof fn lemma_token_len_push_ws(p: Seq<char>, c: char)
    requires
        is_ws(c),
    ensures
        token_len(p.push(c)) == token_len(p),
    decreases p.len(),
{
    if p.len() == 0 {
        assert(p.push(c)[0] == c);
    } else if !is_ws(p[0]) {
        assert(p.push(c).drop_first() =~= p.drop_first().push(c));
        lemma_token_len_push_ws(p.drop_first(), c);
    }
}

/// A trailing whitespace character does not change the words of a text.
pub proof fn lemma_words_push_ws(p: Seq<char>, c: char)
    requires
        is_ws(c),
    ensures
        words(p.push(c)) == words(p),
    decreases p.len(),
{
    let q = p.push(c);
    if p.len() == 0 {
        assert(q.drop_first() =~= Seq::<char>::empty());
        assert(words(q) == words(q.drop_first()));
    } else if is_ws(p[0]) {
        assert(q.drop_first() =~= p.drop_first().push(c));
        lemma_words_push_ws(p.drop_first(), c);
    } else {
        let k = token_len(p);
        lemma_token_len_bound(p);
        lemma_token_len_push_ws(p, c);
        assert(q.take(k as int) =~= p.take(k as int));
        assert(q.skip(k as int) =~= p.skip(k as int).push(c));
        lemma_words_push_ws(p.skip(k as int), c);
    }
}

proof fn lemma_words_trim_end(s: Seq<char>)
    ensures
        words(trim_end(s)) == words(s),
    decreases s.len(),
{
    if s.len() > 0 && is_ws(s.last()) {
        lemma_words_trim_end(s.drop_last());
        assert(s.drop_last().push(s.last()) =~= s);
        lemma_words_push_ws(s.drop_last(), s.last());
    }
}

/// Trimming a text does not change its words.
pub proof fn law_words_ignore_trim(s: Seq<char>)
    ensures
        words(trim(s)) == words(s),
{
    lemma_words_trim_end(trim_start(s));
    lemma_words_trim_start(s);
}

pub proof fn lemma_line_len_bound(s: Seq<char>)
    ensures
        line_len(s) <= s.len(),
    decreases s.len(),
{
    if s.len() > 0 && s[0] != '\n' {
        lemma_line_len_bound(s.drop_first());
    }
}

/// The first line of `a + t` ends where that of `a` does, unless `a` has
/// no line feed; then it runs on into `t`.
pub proof fn lemma_line_len_append(a: Seq<char>, t: Seq<char>)
    ensures
        line_len(a + t) == if line_len(a) < a.len() {
            line_len(a)
        } else {
            a.len() + line_len(t)
        },
    decreases a.len(),
{
    lemma_line_len_bound(a);
    if a.len() == 0 {
        assert(a + t =~= t);
    } else if a[0] == '\n' {
        assert((a + t)[0] == '\n');
    } else {
        assert((a + t).drop_first() =~= a.drop_first() + t);
        lemma_line_len_append(a.drop_first(), t);
    }
}

proof fn lemma_line_len(s: Seq<char>, k: int)
    requires
        0 <= k <= s.len(),
        forall|j: int| 0 <= j < k ==> s[j] != '\n',
        k == s.len() || s[k] == '\n',
    ensures
        line_len(s) == k,
    decreases k,
{
    if k > 0 {
        lemma_line_len(s.drop_first(), k - 1);
    }
}

proof fn lemma_token_len(s: Seq<char>, k: int)
    requires
        0 <= k <= s.len(),
        forall|j: int| 0 <= j < k ==> !is_ws(#[trigger] s[j]),
        k == s.len() || is_ws(s[k]),
    ensures
        token_len(s) == k,
    decreases k,
{
    if k > 0 {
        lemma_token_len(s.drop_first(), k - 1);
    }
}

pub fn is_ws_char(c: char) -> (r: bool)
    ensures
        r == is_ws(c),
{
    let u = c as u32;
    (0x09 <= u && u <= 0x0D) || u == 0x20 || u == 0x85 || u == 0xA0 || u == 0x1680 || (0x2000
        <= u && u <= 0x200A) || u == 0x2028 || u == 0x2029 || u == 0x202F || u == 0x205F || u
        == 0x3000
}

/// The characters of a string, in order.
pub fn char_vec(s: &str) -> (v: Vec<char>)
    ensures
        v@ == s@,
{
    let mut v: Vec<char> = Vec::new();
    for c in it: s.chars()
        invariant
            v@ == it.seq().take(it.index()),
    {
        v.push(c);
    }
    v
}


/// The index ranges of the lines of `v`, in order.
pub fn line_ranges(v: &Vec<char>) -> (r: Vec<(usize, usize)>)
    ensures
        pieces(v@, r@) == lines(v@),
        ranges_within(r@, 0, v@.len() as int),
{
    let n = v.len();
    let mut out: Vec<(usize, usize)> = Vec::new();
    let mut start: usize = 0;
    let mut i: usize = 0;
    assert(v@.skip(0) =~= v@);
    assert(pieces(v@, out@) =~= Seq::<Seq<char>>::empty());
    while i < n
        invariant
            n == v@.len(),
            0 <= start <= i <= n,
            lines(v@) == pieces(v@, out@) + lines(v@.skip(start as int)),
            ranges_within(out@, 0, n as int),
            forall|j: int| start <= j < i ==> v@[j] != '\n',
        decreases n - i,
    {
        if v[i] == '\n' {
            let ghost rest = v@.skip(start as int);
            proof {
                lemma_line_len(rest, i - start);
                assert(rest.take(i - start) =~= v@.subrange(start as int, i as int));
                assert(rest.skip(i - start + 1) =~= v@.skip(i + 1));
            }
            let mut e = i;
            if e > start && v[e - 1] == '\r' {
                e = e - 1;
                assert(v@.subrange(start as int, i as int).drop_last() =~= v@.subrange(
                    start as int,
                    e as int,
                ));
            }
            let ghost old_out = out@;
            out.push((start, e));
            proof {
                assert(pieces(v@, out@) =~= pieces(v@, old_out).push(
                    v@.subrange(start as int, e as int),
                ));
                assert(lines(rest) =~= seq![v@.subrange(start as int, e as int)] + lines(
                    v@.skip(i + 1),
                ));
                assert(pieces(v@, old_out) + lines(rest) =~= pieces(v@, out@) + lines(
                    v@.skip(i + 1),
                ));
            }
            start = i + 1;
        }
        i = i + 1;
    }
    if start < n {
        let ghost rest = v@.skip(start as int);
        proof {
            lemma_line_len(rest, n - start);
            assert(rest =~= v@.subrange(start as int, n as int));
        }
        let ghost old_out = out@;
        out.push((start, n));
        assert(pieces(v@, out@) =~= pieces(v@, old_out).push(rest));
    } else {
        assert(v@.skip(start as int).len() == 0);
    }
    out
}


/// The index ranges of the words of `v[a..b]`, in order.
pub fn word_ranges(v: &Vec<char>, a: usize, b: usize) -> (r: Vec<(usize, usize)>)
    requires
        a <= b <= v@.len(),
    ensures
        pieces(v@, r@) == words(v@.subrange(a as int, b as int)),
        ranges_within(r@, a as int, b as int),
{
    let mut out: Vec<(usize, usize)> = Vec::new();
    let mut i: usize = a;
    assert(pieces(v@, out@) =~= Seq::<Seq<char>>::empty());
    while i < b
        invariant
            a <= i <= b <= v@.len(),
            words(v@.subrange(a as int, b as int)) == pieces(v@, out@) + words(
                v@.subrange(i as int, b as int),
            ),
            ranges_within(out@, a as int, b as int),
        decreases b - i,
    {
        if is_ws_char(v[i]) {
            assert(v@.subrange(i as int, b as int).drop_first() =~= v@.subrange(
                i + 1,
                b as int,
            ));
            i = i + 1;
        } else {
            let start = i;
            while i < b && !is_ws_char(v[i])
                invariant
                    a <= start <= i <= b <= v@.len(),
                    forall|j: int| start <= j < i ==> !is_ws(#[trigger] v@[j]),
                decreases b - i,
            {
                i = i + 1;
            }
            let ghost rest = v@.subrange(start as int, b as int);
            proof {
                assert forall|j: int| 0 <= j < i - start implies !is_ws(#[trigger] rest[j]) by {
                    assert(rest[j] == v@[start + j]);
                }
                lemma_token_len(rest, i - start);
                assert(rest.take(i - start) =~= v@.subrange(start as int, i as int));
                assert(rest.skip(i - start) =~= v@.subrange(i as int, b as int));
            }
            let ghost old_out = out@;
            out.push((start, i));
            proof {
                assert(pieces(v@, out@) =~= pieces(v@, old_out).push(
                    v@.subrange(start as int, i as int),
                ));
                assert(pieces(v@, old_out) + words(rest) =~= pieces(v@, out@) + words(
                    v@.subrange(i as int, b as int),
                ));
            }
        }
    }
    assert(v@.subrange(i as int, b as int).len() == 0);
    assert(pieces(v@, out@) + Seq::<Seq<char>>::empty() =~= pieces(v@, out@));
    out
}

/// The index range of `v[a..b]` without its leading and trailing whitespace.
pub fn trim_range(v: &Vec<char>, a: usize, b: usize) -> (r: (usize, usize))
    requires
        a <= b <= v@.len(),
    ensures
        a <= r.0 <= r.1 <= b,
        v@.subrange(r.0 as int, r.1 as int) == trim(v@.subrange(a as int, b as int)),
{
    let mut i = a;
    while i < b && is_ws_char(v[i])
        invariant
            a <= i <= b <= v@.len(),
            trim_start(v@.subrange(a as int, b as int)) == trim_start(
                v@.subrange(i as int, b as int),
            ),
        decreases b - i,
    {
        assert(v@.subrange(i as int, b as int).drop_first() =~= v@.subrange(i + 1, b as int));
        i = i + 1;
    }
    let mut j = b;
    while j > i && is_ws_char(v[j - 1])
        invariant
            a <= i <= j <= b <= v@.len(),
            trim_end(v@.subrange(i as int, b as int)) == trim_end(
                v@.subrange(i as int, j as int),
            ),
        decreases j - i,
    {
        assert(v@.subrange(i as int, j as int).drop_last() =~= v@.subrange(i as int, j - 1));
        j = j - 1;
    }
    (i, j)
}

/// Whether `v[a..b]` is exactly the text `lit`.
pub fn range_eq(v: &Vec<char>, a: usize, b: usize, lit: &str) -> (r: bool)
    requires
        a <= b <= v@.len(),
    ensures
        r == (v@.subrange(a as int, b as int) == lit@),
{
    let m = lit.unicode_len();
    if b - a != m {
        return false;
    }
    let mut k: usize = 0;
    while k < m
        invariant
            a <= b <= v@.len(),
            b - a == m == lit@.len(),
            0 <= k <= m,
            forall|t: int| 0 <= t < k ==> v@[a + t] == lit@[t],
        decreases m - k,
    {
        if v[a + k] != lit.get_char(k) {
            assert(v@.subrange(a as int, b as int)[k as int] != lit@[k as int]);
            return false;
        }
        k = k + 1;
    }
    assert(v@.subrange(a as int, b as int) =~= lit@);
    true
}

/// Whether `v[a..b]` begins with the text `lit`.
pub fn range_starts_with(v: &Vec<char>, a: usize, b: usize, lit: &str) -> (r: bool)
    requires
        a <= b <= v@.len(),
    ensures
        r == starts_with(v@.subrange(a as int, b as int), lit@),
{
    let m = lit.unicode_len();
    if b - a < m {
        return false;
    }
    let res = range_eq(v, a, a + m, lit);
    assert(v@.subrange(a as int, b as int).take(m as int) =~= v@.subrange(
        a as int,
        a + m,
    ));
    res
}

/// The text of `s` between character positions `a` and `b`.
pub fn range_string(s: &str, v: &Vec<char>, a: usize, b: usize) -> (r: String)
    requires
        v@ == s@,
        a <= b <= v@.len(),
    ensures
        r@ == v@.subrange(a as int, b as int),
{
    String::from_str(s.substring_char(a, b))
}

} // verus!
