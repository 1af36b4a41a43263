//! Character-level string helpers shared by the parsers and formatters.
//!
//! Strings are modelled by their `Seq<char>` view.  The functions here give
//! the line splitting, trimming, word splitting and joining that the rest of
//! the library relies on, each with a specification over that view.
use vstd::prelude::*;
use vstd::string::*;

verus! {

// ---------------------------------------------------------------------------
// Specifications
// ---------------------------------------------------------------------------

/// Unicode `White_Space` characters (the characters for which
/// `char::is_whitespace` holds).
pub open spec fn is_ws(c: char) -> bool {
    let u = c as u32;
    ||| u == 0x09
    ||| u == 0x0A
    ||| u == 0x0B
    ||| u == 0x0C
    ||| u == 0x0D
    ||| u == 0x20
    ||| u == 0x85
    ||| u == 0xA0
    ||| u == 0x1680
    ||| (0x2000 <= u && u <= 0x200A)
    ||| u == 0x2028
    ||| u == 0x2029
    ||| u == 0x202F
    ||| u == 0x205F
    ||| u == 0x3000
}

/// `s` with leading white space removed.
pub open spec fn trim_start(s: Seq<char>) -> Seq<char>
    decreases s.len(),
{
    if s.len() > 0 && is_ws(s[0]) {
        trim_start(s.drop_first())
    } else {
        s
    }
}

/// `s` with trailing white space removed.
pub open spec fn trim_end(s: Seq<char>) -> Seq<char>
    decreases s.len(),
{
    if s.len() > 0 && is_ws(s.last()) {
        trim_end(s.drop_last())
    } else {
        s
    }
}

/// `s` with leading and trailing white space removed (`str::trim`).
pub open spec fn trim(s: Seq<char>) -> Seq<char> {
    trim_end(trim_start(s))
}

/// A line without its `\r` terminator, if it has one.
pub open spec fn strip_cr(line: Seq<char>) -> Seq<char> {
    if line.len() > 0 && line.last() == '\r' {
        line.drop_last()
    } else {
        line
    }
}

/// The lines of `s[i..]`, `cur` being the part of the current line read so
/// far: lines end at `\n`, a `\r` before that `\n` is dropped, and a final
/// line ending is optional (`str::lines`).
pub open spec fn lines_from(s: Seq<char>, i: int, cur: Seq<char>) -> Seq<Seq<char>>
    decreases s.len() - i,
{
    if i >= s.len() {
        if cur.len() > 0 {
            seq![cur]
        } else {
            Seq::empty()
        }
    } else if s[i] == '\n' {
        seq![strip_cr(cur)] + lines_from(s, i + 1, Seq::empty())
    } else {
        lines_from(s, i + 1, cur.push(s[i]))
    }
}

/// The lines of `s`, as `str::lines` gives them.
pub open spec fn lines(s: Seq<char>) -> Seq<Seq<char>> {
    lines_from(s, 0, Seq::empty())
}

/// The white-space separated words of `s[i..]`, `cur` being the part of the
/// current word read so far (`str::split_whitespace`).
pub open spec fn words_from(s: Seq<char>, i: int, cur: Seq<char>) -> Seq<Seq<char>>
    decreases s.len() - i,
{
    if i >= s.len() {
        if cur.len() > 0 {
            seq![cur]
        } else {
            Seq::empty()
        }
    } else if is_ws(s[i]) {
        (if cur.len() > 0 {
            seq![cur]
        } else {
            Seq::empty()
        }) + words_from(s, i + 1, Seq::empty())
    } else {
        words_from(s, i + 1, cur.push(s[i]))
    }
}

/// The white-space separated words of `s`.
pub open spec fn words(s: Seq<char>) -> Seq<Seq<char>> {
    words_from(s, 0, Seq::empty())
}

/// The parts of `parts` joined with `sep` between consecutive parts.
pub open spec fn join(parts: Seq<Seq<char>>, sep: Seq<char>) -> Seq<char>
    decreases parts.len(),
{
    if parts.len() == 0 {
        Seq::empty()
    } else if parts.len() == 1 {
        parts[0]
    } else {
        join(parts.drop_last(), sep) + sep + parts.last()
    }
}

/// Lexicographic order of strings by code point (the order of `str` and
/// `String`, since UTF-8 preserves code point order).
pub open spec fn lex_lt(a: Seq<char>, b: Seq<char>) -> bool
    decreases a.len(),
{
    if a.len() == 0 {
        b.len() > 0
    } else if b.len() == 0 {
        false
    } else if a[0] == b[0] {
        lex_lt(a.drop_first(), b.drop_first())
    } else {
        (a[0] as u32) < (b[0] as u32)
    }
}

/// `a` comes before or equals `b` in lexicographic order.
pub open spec fn lex_le(a: Seq<char>, b: Seq<char>) -> bool {
    a == b || lex_lt(a, b)
}

/// Index of the first occurrence of `c` in `s`, or -1.
pub open spec fn find_first(s: Seq<char>, c: char) -> int
    decreases s.len(),
{
    if s.len() == 0 {
        -1
    } else if s[0] == c {
        0
    } else {
        let r = find_first(s.drop_first(), c);
        if r < 0 {
            -1
        } else {
            r + 1
        }
    }
}

/// `s` contains `needle` as a contiguous piece.
pub open spec fn contains_seq(s: Seq<char>, needle: Seq<char>) -> bool {
    exists|i: int|
        0 <= i && i + needle.len() <= s.len() && #[trigger] s.subrange(i, i + needle.len())
            == needle
}

// ---------------------------------------------------------------------------
// Lemmas
// ---------------------------------------------------------------------------

/// `find_first` is the first index holding `c`.
pub proof fn lemma_find_first(s: Seq<char>, c: char)
    ensures
        -1 <= find_first(s, c) < s.len(),
        find_first(s, c) >= 0 ==> s[find_first(s, c)] == c,
        forall|j: int|
            0 <= j < s.len() && (find_first(s, c) < 0 || j < find_first(s, c)) ==> s[j] != c,
    decreases s.len(),
{
    if s.len() > 0 && s[0] != c {
        lemma_find_first(s.drop_first(), c);
        assert forall|j: int|
            0 <= j < s.len() && (find_first(s, c) < 0 || j < find_first(s, c)) implies s[j]
            != c by {
            if j > 0 {
                assert(s[j] == s.drop_first()[j - 1]);
            }
        }
    }
}

/// A position holding `c` with no earlier `c` is `find_first`.
pub proof fn lemma_find_first_at(s: Seq<char>, c: char, k: int)
    requires
        0 <= k < s.len(),
        s[k] == c,
        forall|j: int| 0 <= j < k ==> s[j] != c,
    ensures
        find_first(s, c) == k,
{
    lemma_find_first(s, c);
}

/// No position holding `c` means `find_first` is -1.
pub proof fn lemma_find_first_none(s: Seq<char>, c: char)
    requires
        forall|j: int| 0 <= j < s.len() ==> s[j] != c,
    ensures
        find_first(s, c) == -1,
{
    lemma_find_first(s, c);
}

/// `lex_lt` never relates a string to itself.
pub proof fn lemma_lex_irreflexive(a: Seq<char>)
    ensures
        !lex_lt(a, a),
    decreases a.len(),
{
    if a.len() > 0 {
        lemma_lex_irreflexive(a.drop_first());
    }
}

/// `lex_lt` is asymmetric.
pub proof fn lemma_lex_asymmetric(a: Seq<char>, b: Seq<char>)
    ensures
        !(lex_lt(a, b) && lex_lt(b, a)),
    decreases a.len(),
{
    if a.len() > 0 && b.len() > 0 && a[0] == b[0] {
        lemma_lex_asymmetric(a.drop_first(), b.drop_first());
    }
}

/// `lex_lt` is transitive.
pub proof fn lemma_lex_transitive(a: Seq<char>, b: Seq<char>, c: Seq<char>)
    requires
        lex_lt(a, b),
        lex_lt(b, c),
    ensures
        lex_lt(a, c),
    decreases a.len(),
{
    if a.len() > 0 && b.len() > 0 && c.len() > 0 && a[0] == b[0] && b[0] == c[0] {
        lemma_lex_transitive(a.drop_first(), b.drop_first(), c.drop_first());
    }
}

/// Two different strings are ordered one way or the other.
pub proof fn lemma_lex_total(a: Seq<char>, b: Seq<char>)
    ensures
        a == b || lex_lt(a, b) || lex_lt(b, a),
    decreases a.len(),
{
    if a.len() > 0 && b.len() > 0 && a[0] == b[0] {
        lemma_lex_total(a.drop_first(), b.drop_first());
        if a.drop_first() == b.drop_first() {
            assert(a =~= seq![a[0]] + a.drop_first());
            assert(b =~= seq![b[0]] + b.drop_first());
        }
    } else if a.len() == 0 && b.len() == 0 {
        assert(a =~= b);
    } else if a.len() > 0 && b.len() > 0 {
        vstd::utf8::char_u32_cast(a[0], a[0] as u32);
        vstd::utf8::char_u32_cast(b[0], b[0] as u32);
    }
}

/// `lex_le` is transitive.
pub proof fn lemma_lex_le_transitive(a: Seq<char>, b: Seq<char>, c: Seq<char>)
    requires
        lex_le(a, b),
        lex_le(b, c),
    ensures
        lex_le(a, c),
{
    if a != b && b != c {
        lemma_lex_transitive(a, b, c);
    }
}

/// Splitting a join at its last part.
pub proof fn lemma_join_push(parts: Seq<Seq<char>>, last: Seq<char>, sep: Seq<char>)
    ensures
        join(parts.push(last), sep) == if parts.len() == 0 {
            last
        } else {
            join(parts, sep) + sep + last
        },
{
    assert(parts.push(last).drop_last() =~= parts);
}

/// No line ends in `s`: no `\n`, no `\r`.
pub open spec fn one_line(s: Seq<char>) -> bool {
    forall|i: int| 0 <= i < s.len() ==> #[trigger] s[i] != '\n' && s[i] != '\r'
}

/// Reading `lines_from` past characters that end no line moves them into
/// the current line.
proof fn lemma_lines_scan(s: Seq<char>, i: int, cur: Seq<char>, k: int)
    requires
        0 <= i,
        0 <= k,
        i + k <= s.len(),
        forall|j: int| i <= j < i + k ==> #[trigger] s[j] != '\n',
    ensures
        lines_from(s, i, cur) == lines_from(s, i + k, cur + s.subrange(i, i + k)),
    decreases k,
{
    if k == 0 {
        assert(cur + s.subrange(i, i) =~= cur);
    } else {
        lemma_lines_scan(s, i + 1, cur.push(s[i]), k - 1);
        assert(cur.push(s[i]) + s.subrange(i + 1, i + k) =~= cur + s.subrange(i, i + k));
    }
}

/// `lines_from` on a suffix does not see what comes before it.
proof fn lemma_lines_shift(p: Seq<char>, r: Seq<char>, j: int, cur: Seq<char>)
    requires
        0 <= j <= r.len(),
    ensures
        lines_from(p + r, p.len() + j, cur) == lines_from(r, j, cur),
    decreases r.len() - j,
{
    if j < r.len() {
        assert((p + r)[p.len() + j] == r[j]);
        if r[j] == '\n' {
            lemma_lines_shift(p, r, j + 1, Seq::empty());
        } else {
            lemma_lines_shift(p, r, j + 1, cur.push(r[j]));
        }
    }
}

/// A first line, its `\n` and the rest: the line comes first.
pub proof fn lemma_lines_cons(a: Seq<char>, r: Seq<char>)
    requires
        forall|i: int| 0 <= i < a.len() ==> #[trigger] a[i] != '\n',
    ensures
        lines(a + seq!['\n'] + r) == seq![strip_cr(a)] + lines(r),
{
    let s = a + seq!['\n'] + r;
    assert forall|j: int| 0 <= j < 0 + a.len() implies #[trigger] s[j] != '\n' by {
        assert(s[j] == a[j]);
    }
    lemma_lines_scan(s, 0, Seq::empty(), a.len() as int);
    assert(Seq::<char>::empty() + s.subrange(0, a.len() as int) =~= a);
    assert(s[a.len() as int] == '\n');
    let p = a + seq!['\n'];
    assert(s =~= p + r);
    lemma_lines_shift(p, r, 0, Seq::empty());
}

/// A nonempty text without `\n` is one line.
pub proof fn lemma_lines_single(a: Seq<char>)
    requires
        a.len() > 0,
        forall|i: int| 0 <= i < a.len() ==> #[trigger] a[i] != '\n',
    ensures
        lines(a) == seq![a],
{
    lemma_lines_scan(a, 0, Seq::empty(), a.len() as int);
    assert(Seq::<char>::empty() + a.subrange(0, a.len() as int) =~= a);
}

/// Joining a first part with more parts.
pub proof fn lemma_join_cons(x: Seq<char>, ps: Seq<Seq<char>>, sep: Seq<char>)
    requires
        ps.len() > 0,
    ensures
        join(seq![x] + ps, sep) == x + sep + join(ps, sep),
    decreases ps.len(),
{
    let all = seq![x] + ps;
    if ps.len() == 1 {
        assert(all.drop_last() =~= seq![x]);
        assert(all.last() == ps[0]);
        assert(join(seq![x], sep) == x);
        assert(join(ps, sep) == ps[0]);
        assert(join(all, sep) == join(all.drop_last(), sep) + sep + all.last());
    } else {
        lemma_join_cons(x, ps.drop_last(), sep);
        assert(all.drop_last() =~= seq![x] + ps.drop_last());
        assert(all.last() == ps.last());
        assert(join(all, sep) == join(all.drop_last(), sep) + sep + all.last());
        assert(join(ps, sep) == join(ps.drop_last(), sep) + sep + ps.last());
        assert(join(all, sep) =~= x + sep + join(ps, sep));
    }
}

/// Joining the lines of a text with `\n` gives the text back, where it
/// holds no `\r` and does not end in `\n`.
pub proof fn lemma_join_lines(m: Seq<char>)
    requires
        forall|i: int| 0 <= i < m.len() ==> #[trigger] m[i] != '\r',
        m.len() == 0 || m.last() != '\n',
    ensures
        join(lines(m), seq!['\n']) == m,
        m.len() > 0 ==> lines(m).len() > 0,
    decreases m.len(),
{
    lemma_find_first(m, '\n');
    let k = find_first(m, '\n');
    if m.len() == 0 {
    } else if k < 0 {
        lemma_lines_single(m);
    } else {
        let a = m.take(k);
        let r = m.skip(k + 1);
        assert(m =~= a + seq!['\n'] + r);
        lemma_lines_cons(a, r);
        assert(strip_cr(a) == a) by {
            if a.len() > 0 {
                assert(a.last() == m[k - 1]);
            }
        }
        assert(r.len() > 0);
        assert(r.last() == m.last());
        lemma_join_lines(r);
        lemma_join_cons(a, lines(r), seq!['\n']);
    }
}

/// Every part of a join occurs in it.
pub proof fn lemma_join_contains(parts: Seq<Seq<char>>, sep: Seq<char>, k: int)
    requires
        0 <= k < parts.len(),
    ensures
        contains_seq(join(parts, sep), parts[k]),
    decreases parts.len(),
{
    let j = join(parts, sep);
    let needle = parts[k];
    if parts.len() == 1 {
        let i: int = 0;
        assert(j.subrange(i, i + needle.len()) =~= needle);
    } else if k == parts.len() - 1 {
        let i: int = (join(parts.drop_last(), sep) + sep).len() as int;
        assert(j.subrange(i, i + needle.len()) =~= needle);
    } else {
        lemma_join_contains(parts.drop_last(), sep, k);
        assert(parts.drop_last()[k] == needle);
        let inner = join(parts.drop_last(), sep);
        let i = choose|i: int|
            0 <= i && i + needle.len() <= inner.len() && #[trigger] inner.subrange(
                i,
                i + needle.len(),
            ) == needle;
        assert(j.subrange(i, i + needle.len()) =~= inner.subrange(i, i + needle.len()));
    }
}

// ---------------------------------------------------------------------------
// Executable helpers
// ---------------------------------------------------------------------------

/// Appends one character to a string (`String::push`).
#[verifier::external_body]
pub(crate) fn push_char(s: &mut String, c: char)
    ensures
        final(s)@ == old(s)@.push(c),
{
    s.push(c);
}

/// The characters of a string slice, in order.
pub fn to_chars(s: &str) -> (r: Vec<char>)
    ensures
        r@ == s@,
{
    let mut out: Vec<char> = Vec::new();
    for c in it: s.chars()
        invariant
            out@ == it.seq().take(it.index()),
            it.seq() == s@,
    {
        out.push(c);
    }
    out
}

/// The string made of `v[lo..hi]`.
pub fn string_of(v: &[char], lo: usize, hi: usize) -> (r: String)
    requires
        lo <= hi <= v@.len(),
    ensures
        r@ == v@.subrange(lo as int, hi as int),
{
    let mut out = String::new();
    let mut i = lo;
    while i < hi
        invariant
            lo <= i <= hi <= v@.len(),
            out@ == v@.subrange(lo as int, i as int),
        decreases hi - i,
    {
        push_char(&mut out, v[i]);
        assert(v@.subrange(lo as int, i + 1) =~= v@.subrange(lo as int, i as int).push(v@[i as int]));
        i = i + 1;
    }
    out
}

/// Appends a string slice to a string.
pub fn push_str(s: &mut String, t: &str)
    ensures
        final(s)@ == old(s)@ + t@,
{
    s.append(t);
}

/// A string that is the concatenation of two slices.
pub fn concat2(a: &str, b: &str) -> (r: String)
    ensures
        r@ == a@ + b@,
{
    let mut s = String::from_str(a);
    s.append(b);
    s
}

/// Whether `c` is a Unicode white-space character (`char::is_whitespace`).
pub fn is_whitespace(c: char) -> (r: bool)
    ensures
        r == is_ws(c),
{
    let u = c as u32;
    u == 0x09 || u == 0x0A || u == 0x0B || u == 0x0C || u == 0x0D || u == 0x20 || u == 0x85 || u
        == 0xA0 || u == 0x1680 || (0x2000 <= u && u <= 0x200A) || u == 0x2028 || u == 0x2029 || u
        == 0x202F || u == 0x205F || u == 0x3000
}

/// The bounds `lo..hi` of `v` without leading and trailing white space.
pub fn trim_bounds(v: &[char]) -> (r: (usize, usize))
    ensures
        r.0 <= r.1 <= v@.len(),
        v@.subrange(r.0 as int, r.1 as int) == trim(v@),
{
    let n = v.len();
    let mut lo: usize = 0;
    assert(v@.subrange(0, n as int) =~= v@);
    while lo < n && is_whitespace(v[lo])
        invariant
            lo <= n == v@.len(),
            trim_start(v@) == trim_start(v@.subrange(lo as int, n as int)),
        decreases n - lo,
    {
        assert(v@.subrange(lo as int + 1, n as int) =~= v@.subrange(lo as int, n as int).drop_first());
        lo = lo + 1;
    }
    let ghost t = v@.subrange(lo as int, n as int);
    assert(trim_start(t) == t);
    let mut hi: usize = n;
    while hi > lo && is_whitespace(v[hi - 1])
        invariant
            lo <= hi <= n == v@.len(),
            trim_end(t) == trim_end(v@.subrange(lo as int, hi as int)),
            t == v@.subrange(lo as int, n as int),
        decreases hi,
    {
        assert(v@.subrange(lo as int, hi - 1) =~= v@.subrange(lo as int, hi as int).drop_last());
        hi = hi - 1;
    }
    (lo, hi)
}

/// `s` without leading and trailing white space (`str::trim`).
pub fn trim_string(s: &str) -> (r: String)
    ensures
        r@ == trim(s@),
{
    let v = to_chars(s);
    let (lo, hi) = trim_bounds(v.as_slice());
    string_of(v.as_slice(), lo, hi)
}

/// The lines of `s` (`str::lines`).
pub fn split_lines(s: &str) -> (r: Vec<String>)
    ensures
        r.deep_view() == lines(s@),
{
    let v = to_chars(s);
    let n = v.len();
    let mut out: Vec<String> = Vec::new();
    let mut start: usize = 0;
    let mut i: usize = 0;
    assert(out.deep_view() =~= Seq::<Seq<char>>::empty());
    assert(v@.subrange(0, 0) =~= Seq::<char>::empty());
    assert(out.deep_view() + lines(s@) =~= lines(s@));
    while i < n
        invariant
            start <= i <= n == v@.len(),
            v@ == s@,
            out.deep_view() + lines_from(v@, i as int, v@.subrange(start as int, i as int))
                == lines(s@),
        decreases n - i,
    {
        if v[i] == '\n' {
            let ghost cur = v@.subrange(start as int, i as int);
            let line = if i > start && v[i - 1] == '\r' {
                string_of(v.as_slice(), start, i - 1)
            } else {
                string_of(v.as_slice(), start, i)
            };
            assert(line@ == strip_cr(cur)) by {
                if i > start && v@[i - 1] == '\r' {
                    assert(cur.drop_last() =~= v@.subrange(start as int, i - 1));
                }
            }
            let ghost before = out.deep_view();
            out.push(line);
            assert(out.deep_view() =~= before.push(line@));
            assert(v@.subrange(i + 1, i + 1) =~= Seq::<char>::empty());
            assert(lines_from(v@, i as int, cur) == seq![strip_cr(cur)] + lines_from(
                v@,
                i + 1,
                Seq::empty(),
            ));
            assert(before + (seq![strip_cr(cur)] + lines_from(v@, i + 1, Seq::empty())) =~= before.push(line@) + lines_from(v@, i + 1, Seq::empty()));
            start = i + 1;
        } else {
            assert(v@.subrange(start as int, i + 1) =~= v@.subrange(start as int, i as int).push(v@[i as int]));
        }
        i = i + 1;
    }
    if start < n {
        let line = string_of(v.as_slice(), start, n);
        let ghost before = out.deep_view();
        out.push(line);
        assert(out.deep_view() =~= before + seq![line@]);
    } else {
        assert(out.deep_view() + lines_from(v@, i as int, v@.subrange(start as int, i as int)) =~= out.deep_view());
    }
    out
}

/// The white-space separated words of `s` (`str::split_whitespace`).
pub fn split_words(s: &str) -> (r: Vec<String>)
    ensures
        r.deep_view() == words(s@),
{
    let v = to_chars(s);
    let n = v.len();
    let mut out: Vec<String> = Vec::new();
    let mut start: usize = 0;
    let mut i: usize = 0;
    assert(out.deep_view() =~= Seq::<Seq<char>>::empty());
    assert(v@.subrange(0, 0) =~= Seq::<char>::empty());
    assert(out.deep_view() + words(s@) =~= words(s@));
    while i < n
        invariant
            start <= i <= n == v@.len(),
            v@ == s@,
            out.deep_view() + words_from(v@, i as int, v@.subrange(start as int, i as int))
                == words(s@),
        decreases n - i,
    {
        let ghost cur = v@.subrange(start as int, i as int);
        if is_whitespace(v[i]) {
            let ghost before = out.deep_view();
            if i > start {
                let w = string_of(v.as_slice(), start, i);
                out.push(w);
                assert(out.deep_view() =~= before.push(cur));
                assert(before + (seq![cur] + words_from(v@, i + 1, Seq::empty())) =~= out.deep_view() + words_from(v@, i + 1, Seq::empty()));
            } else {
                assert(before + (Seq::<Seq<char>>::empty() + words_from(v@, i + 1, Seq::empty())) =~= before + words_from(v@, i + 1, Seq::empty()));
            }
            assert(v@.subrange(i + 1, i + 1) =~= Seq::<char>::empty());
            start = i + 1;
        } else {
            assert(v@.subrange(start as int, i + 1) =~= cur.push(v@[i as int]));
        }
        i = i + 1;
    }
    if start < n {
        let w = string_of(v.as_slice(), start, n);
        let ghost before = out.deep_view();
        out.push(w);
        assert(out.deep_view() =~= before + seq![w@]);
    } else {
        assert(out.deep_view() + words_from(v@, i as int, v@.subrange(start as int, i as int)) =~= out.deep_view());
    }
    out
}

/// The parts joined with `sep` between consecutive parts (`[String]::join`).
pub fn join_strings(parts: &Vec<String>, sep: &str) -> (r: String)
    ensures
        r@ == join(parts.deep_view(), sep@),
{
    let mut out = String::new();
    let mut i: usize = 0;
    while i < parts.len()
        invariant
            i <= parts.len(),
            out@ == join(parts.deep_view().take(i as int), sep@),
        decreases parts.len() - i,
    {
        proof {
            lemma_join_push(parts.deep_view().take(i as int), parts[i as int]@, sep@);
            assert(parts.deep_view().take(i + 1) =~= parts.deep_view().take(i as int).push(
                parts[i as int]@,
            ));
        }
        if i > 0 {
            out.append(sep);
        }
        out.append(parts[i].as_str());
        i = i + 1;
    }
    assert(parts.deep_view().take(i as int) =~= parts.deep_view());
    out
}

/// Whether `a` comes strictly before `b` (`a < b` on strings).
pub fn str_lt(a: &str, b: &str) -> (r: bool)
    ensures
        r == lex_lt(a@, b@),
{
    let va = to_chars(a);
    let vb = to_chars(b);
    let mut i: usize = 0;
    assert(a@.skip(0) =~= a@);
    assert(b@.skip(0) =~= b@);
    while i < va.len() && i < vb.len() && va[i] == vb[i]
        invariant
            i <= va@.len(),
            i <= vb@.len(),
            va@ == a@,
            vb@ == b@,
            lex_lt(a@, b@) == lex_lt(a@.skip(i as int), b@.skip(i as int)),
        decreases va.len() - i,
    {
        assert(a@.skip(i + 1) =~= a@.skip(i as int).drop_first());
        assert(b@.skip(i + 1) =~= b@.skip(i as int).drop_first());
        i = i + 1;
    }
    if i == va.len() {
        i < vb.len()
    } else if i == vb.len() {
        false
    } else {
        (va[i] as u32) < (vb[i] as u32)
    }
}

/// Whether `p` is a prefix of `s`.
pub fn starts_with(s: &str, p: &str) -> (r: bool)
    ensures
        r == p@.is_prefix_of(s@),
{
    let vs = to_chars(s);
    let vp = to_chars(p);
    if vp.len() > vs.len() {
        return false;
    }
    let mut i: usize = 0;
    while i < vp.len()
        invariant
            i <= vp@.len() <= vs@.len(),
            vs@ == s@,
            vp@ == p@,
            forall|j: int| 0 <= j < i ==> vs@[j] == vp@[j],
        decreases vp.len() - i,
    {
        if vs[i] != vp[i] {
            return false;
        }
        i = i + 1;
    }
    true
}

/// `s` without the prefix `p`, if `s` starts with `p` (`str::strip_prefix`).
pub fn strip_prefix(s: &str, p: &str) -> (r: Option<String>)
    ensures
        r matches Some(t) ==> p@.is_prefix_of(s@) && t@ == s@.skip(p@.len() as int),
        r is None ==> !p@.is_prefix_of(s@),
{
    if starts_with(s, p) {
        let v = to_chars(s);
        let n = p.unicode_len();
        Some(string_of(v.as_slice(), n, v.len()))
    } else {
        None
    }
}

/// Whether `p` is a suffix of `s`.
pub fn ends_with(s: &str, p: &str) -> (r: bool)
    ensures
        r == p@.is_suffix_of(s@),
{
    let vs = to_chars(s);
    let vp = to_chars(p);
    if vp.len() > vs.len() {
        return false;
    }
    let off = vs.len() - vp.len();
    let mut i: usize = 0;
    while i < vp.len()
        invariant
            i <= vp@.len() <= vs@.len(),
            off + vp@.len() == vs@.len(),
            vs@.len() == vs.len(),
            vs@ == s@,
            vp@ == p@,
            forall|j: int| 0 <= j < i ==> vs@[off + j] == vp@[j],
        decreases vp.len() - i,
    {
        if vs[off + i] != vp[i] {
            return false;
        }
        i = i + 1;
    }
    true
}

/// `s` without the suffix `p`, if `s` ends with `p` (`str::strip_suffix`).
pub fn strip_suffix(s: &str, p: &str) -> (r: Option<String>)
    ensures
        r matches Some(t) ==> p@.is_suffix_of(s@) && t@ == s@.take(s@.len() - p@.len()),
        r is None ==> !p@.is_suffix_of(s@),
{
    if ends_with(s, p) {
        let v = to_chars(s);
        let n = p.unicode_len();
        Some(string_of(v.as_slice(), 0, v.len() - n))
    } else {
        None
    }
}

/// Index of the first occurrence of `c` among the characters of `v`.
pub fn find_char(v: &[char], c: char) -> (r: Option<usize>)
    ensures
        r matches Some(k) ==> k == find_first(v@, c),
        r is None ==> find_first(v@, c) == -1,
{
    let mut i: usize = 0;
    while i < v.len()
        invariant
            i <= v@.len(),
            forall|j: int| 0 <= j < i ==> v@[j] != c,
        decreases v.len() - i,
    {
        if v[i] == c {
            proof {
                lemma_find_first_at(v@, c, i as int);
            }
            return Some(i);
        }
        i = i + 1;
    }
    proof {
        lemma_find_first_none(v@, c);
    }
    None
}

// ---------------------------------------------------------------------------
// Decimal numbers
// ---------------------------------------------------------------------------

/// The ASCII digit for `d` (`0 <= d < 10`).
pub open spec fn digit_char(d: int) -> char {
    ((d + 48) as u8) as char
}

/// The decimal notation of `n`, without sign or leading zeros.
pub open spec fn decimal(n: nat) -> Seq<char>
    decreases n,
{
    if n < 10 {
        seq![digit_char(n as int)]
    } else {
        decimal(n / 10).push(digit_char((n % 10) as int))
    }
}

/// The decimal notation of a signed number, with a `-` before a negative one.
pub open spec fn signed_decimal(n: int) -> Seq<char> {
    if n < 0 {
        seq!['-'] + decimal((-n) as nat)
    } else {
        decimal(n as nat)
    }
}

/// Appends the decimal notation of `n`.
pub fn push_decimal(s: &mut String, n: u64)
    ensures
        final(s)@ == old(s)@ + decimal(n as nat),
    decreases n,
{
    if n >= 10 {
        push_decimal(s, n / 10);
    }
    let d: u8 = (n % 10) as u8;
    let c = (d + 48u8) as char;
    push_char(s, c);
    proof {
        if n < 10 {
            assert(decimal(n as nat) == seq![digit_char(n as int)]);
        }
    }
}

/// Appends the decimal notation of a signed number.
pub fn push_signed_decimal(s: &mut String, n: i64)
    ensures
        final(s)@ == old(s)@ + signed_decimal(n as int),
{
    if n < 0 {
        push_char(s, '-');
        let m: u64 = if n == i64::MIN { 9_223_372_036_854_775_808u64 } else { (-n) as u64 };
        push_decimal(s, m);
    } else {
        push_decimal(s, n as u64);
    }
}

/// Whether two string slices hold the same characters.
pub fn str_eq(a: &str, b: &str) -> (r: bool)
    ensures
        r == (a@ == b@),
{
    let va = to_chars(a);
    let vb = to_chars(b);
    if va.len() != vb.len() {
        return false;
    }
    let mut i: usize = 0;
    while i < va.len()
        invariant
            i <= va@.len() == vb@.len(),
            va@ == a@,
            vb@ == b@,
            forall|j: int| 0 <= j < i ==> va@[j] == vb@[j],
        decreases va.len() - i,
    {
        if va[i] != vb[i] {
            return false;
        }
        i = i + 1;
    }
    assert(va@ =~= vb@);
    true
}

/// An ASCII decimal digit.
pub open spec fn is_digit(c: char) -> bool {
    '0' <= c <= '9'
}

pub open spec fn all_digits(s: Seq<char>) -> bool {
    forall|i: int| 0 <= i < s.len() ==> is_digit(#[trigger] s[i])
}

/// The number written by a string of decimal digits.
pub open spec fn digits_value(s: Seq<char>) -> int
    decreases s.len(),
{
    if s.len() == 0 {
        0
    } else {
        digits_value(s.drop_last()) * 10 + (s.last() as int - 48)
    }
}

/// The number that Rust's integer parsing reads from `s`: an optional `+`
/// or `-`, then one or more decimal digits, nothing else.
pub open spec fn int_text_value(s: Seq<char>) -> Option<int> {
    if s.len() > 0 && (s[0] == '-' || s[0] == '+') {
        let ds = s.drop_first();
        if ds.len() > 0 && all_digits(ds) {
            Some(if s[0] == '-' { -digits_value(ds) } else { digits_value(ds) })
        } else {
            None
        }
    } else if s.len() > 0 && all_digits(s) {
        Some(digits_value(s))
    } else {
        None
    }
}

/// What `str::parse::<i64>` accepts: the number, where it fits in an `i64`.
pub open spec fn i64_text_value(s: Seq<char>) -> Option<i64> {
    match int_text_value(s) {
        Some(v) => if i64::MIN <= v <= i64::MAX { Some(v as i64) } else { None },
        None => None,
    }
}

/// What `str::parse::<u32>` accepts: the number, where it fits in a `u32`
/// (a `-` sign is refused).
pub open spec fn u32_text_value(s: Seq<char>) -> Option<u32> {
    if s.len() > 0 && s[0] == '-' {
        None
    } else {
        match int_text_value(s) {
            Some(v) => if 0 <= v <= u32::MAX { Some(v as u32) } else { None },
            None => None,
        }
    }
}

proof fn lemma_digits_value_grows(s: Seq<char>, k: int)
    requires
        all_digits(s),
        0 <= k <= s.len(),
    ensures
        0 <= digits_value(s.take(k)) <= digits_value(s),
    decreases s.len(),
{
    if s.len() > 0 {
        if k == s.len() {
            assert(s.take(k) =~= s);
            lemma_digits_value_grows(s.drop_last(), k - 1);
            assert(s.drop_last().take(k - 1) =~= s.drop_last());
            assert(is_digit(s[s.len() - 1]));
        } else {
            assert(all_digits(s.drop_last())) by {
                assert forall|i: int| 0 <= i < s.drop_last().len() implies is_digit(#[trigger] s.drop_last()[i]) by {
                    assert(s.drop_last()[i] == s[i]);
                }
            }
            lemma_digits_value_grows(s.drop_last(), k);
            assert(s.drop_last().take(k) =~= s.take(k));
            assert(is_digit(s[s.len() - 1]));
        }
    } else {
        assert(s.take(k) =~= s);
    }
}

/// Reads the digits `v[start..]` (at least one); `None` where a character
/// is no digit or the number exceeds `limit`.
fn read_digits(v: &Vec<char>, start: usize, limit: u64) -> (r: Option<u64>)
    requires
        start < v@.len(),
        limit >= 9,
    ensures
        r matches Some(n) ==> all_digits(v@.skip(start as int)) && n == digits_value(v@.skip(start as int)) && n <= limit,
        r is None ==> !all_digits(v@.skip(start as int)) || digits_value(v@.skip(start as int)) > limit,
{
    let mut acc: u64 = 0;
    let mut i: usize = start;
    while i < v.len()
        invariant
            start <= i <= v@.len(),
            all_digits(v@.subrange(start as int, i as int)),
            acc == digits_value(v@.subrange(start as int, i as int)),
            acc <= limit,
            limit >= 9,
        decreases v.len() - i,
    {
        let c = v[i];
        if !('0' <= c && c <= '9') {
            proof {
                assert(v@.skip(start as int)[i - start] == c);
            }
            return None;
        }
        let d: u64 = (c as u32 - 48) as u64;
        let ghost pre = v@.subrange(start as int, i as int);
        let ghost next = v@.subrange(start as int, i + 1);
        proof {
            assert(next.drop_last() =~= pre);
            assert(next.last() == c);
            assert(all_digits(next)) by {
                assert forall|j: int| 0 <= j < next.len() implies is_digit(#[trigger] next[j]) by {
                    if j < pre.len() {
                        assert(next[j] == pre[j]);
                    }
                }
            }
        }
        if acc > (limit - d) / 10 {
            proof {
                assert(digits_value(next) == acc * 10 + d);
                assert(acc * 10 + d > limit) by (nonlinear_arith)
                    requires
                        acc > (limit - d) / 10,
                        d <= 9,
                        limit >= 9,
                ;
                if all_digits(v@.skip(start as int)) {
                    lemma_digits_value_grows(v@.skip(start as int), i + 1 - start);
                    assert(v@.skip(start as int).take(i + 1 - start) =~= next);
                }
            }
            return None;
        }
        acc = acc * 10 + d;
        i = i + 1;
    }
    assert(v@.subrange(start as int, v@.len() as int) =~= v@.skip(start as int));
    Some(acc)
}

/// `str::parse::<i64>`.
pub fn parse_i64(s: &str) -> (r: Option<i64>)
    ensures
        r == i64_text_value(s@),
{
    let v = to_chars(s);
    if v.len() == 0 {
        return None;
    }
    let neg = v[0] == '-';
    let start: usize = if v[0] == '-' || v[0] == '+' { 1 } else { 0 };
    if start >= v.len() {
        return None;
    }
    proof {
        if start == 1 {
            assert(v@.skip(1) =~= s@.drop_first());
        } else {
            assert(v@.skip(0) =~= s@);
        }
    }
    let limit: u64 = if neg { 9_223_372_036_854_775_808u64 } else { 9_223_372_036_854_775_807u64 };
    match read_digits(&v, start, limit) {
        Some(n) => {
            if neg {
                if n == 9_223_372_036_854_775_808u64 {
                    Some(i64::MIN)
                } else {
                    Some(-(n as i64))
                }
            } else {
                Some(n as i64)
            }
        },
        None => None,
    }
}

/// `str::parse::<u32>`.
pub fn parse_u32(s: &str) -> (r: Option<u32>)
    ensures
        r == u32_text_value(s@),
{
    let v = to_chars(s);
    if v.len() == 0 || v[0] == '-' {
        return None;
    }
    let start: usize = if v[0] == '+' { 1 } else { 0 };
    if start >= v.len() {
        return None;
    }
    proof {
        if start == 1 {
            assert(v@.skip(1) =~= s@.drop_first());
        } else {
            assert(v@.skip(0) =~= s@);
        }
    }
    match read_digits(&v, start, 4_294_967_295u64) {
        Some(n) => Some(n as u32),
        None => None,
    }
}

/// What `str::parse::<u64>` accepts: the number, where it fits in a `u64`
/// (a `-` sign is refused).
pub open spec fn u64_text_value(s: Seq<char>) -> Option<u64> {
    if s.len() > 0 && s[0] == '-' {
        None
    } else {
        match int_text_value(s) {
            Some(v) => if 0 <= v <= u64::MAX { Some(v as u64) } else { None },
            None => None,
        }
    }
}

/// `str::parse::<u64>`.
pub fn parse_u64(s: &str) -> (r: Option<u64>)
    ensures
        r == u64_text_value(s@),
{
    let v = to_chars(s);
    if v.len() == 0 || v[0] == '-' {
        return None;
    }
    let start: usize = if v[0] == '+' { 1 } else { 0 };
    if start >= v.len() {
        return None;
    }
    proof {
        if start == 1 {
            assert(v@.skip(1) =~= s@.drop_first());
        } else {
            assert(v@.skip(0) =~= s@);
        }
    }
    read_digits(&v, start, 18_446_744_073_709_551_615u64)
}

/// `str::to_lowercase`.
pub uninterp spec fn lowercase_of(s: Seq<char>) -> Seq<char>;

/// A character of the ASCII range.
pub open spec fn is_ascii_char(c: char) -> bool {
    (c as u32) < 128
}

/// The ASCII lowercase of a character: `A`..`Z` become `a`..`z`, the rest
/// stay.
pub open spec fn ascii_lower(c: char) -> char {
    if 'A' <= c <= 'Z' {
        ((c as u32) + 32) as char
    } else {
        c
    }
}

/// `str::to_lowercase`: the lowercase form of each character, by the
/// Unicode rules; on an all-ASCII text that is the ASCII lowercase of each
/// character.
#[verifier::external_body]
pub(crate) fn to_lowercase(s: &str) -> (r: String)
    ensures
        r@ == lowercase_of(s@),
        (forall|i: int| 0 <= i < s@.len() ==> is_ascii_char(#[trigger] s@[i])) ==> r@ == s@.map_values(
            |c: char| ascii_lower(c),
        ),
{
    s.to_lowercase()
}

/// `s` with every occurrence of `p` replaced by `r`, left to right, the
/// occurrences not overlapping (`str::replace` with a non-empty pattern).
pub open spec fn replaced(s: Seq<char>, p: Seq<char>, r: Seq<char>) -> Seq<char>
    decreases s.len(),
{
    if s.len() == 0 || p.len() == 0 {
        s
    } else if p.is_prefix_of(s) {
        r + replaced(s.skip(p.len() as int), p, r)
    } else {
        seq![s[0]] + replaced(s.drop_first(), p, r)
    }
}

/// `str::replace` with a non-empty pattern.
pub fn replace_all(s: &str, p: &str, r: &str) -> (out: String)
    requires
        p@.len() > 0,
    ensures
        out@ == replaced(s@, p@, r@),
{
    let sv = to_chars(s);
    let pv = to_chars(p);
    let n = sv.len();
    let m = pv.len();
    let mut out = String::new();
    let mut i: usize = 0;
    assert(s@.skip(0) =~= s@);
    assert(out@ + replaced(s@, p@, r@) =~= replaced(s@, p@, r@));
    while i < n
        invariant
            sv@ == s@,
            pv@ == p@,
            n == sv@.len(),
            m == pv@.len(),
            m > 0,
            i <= n,
            out@ + replaced(s@.skip(i as int), p@, r@) == replaced(s@, p@, r@),
        decreases n - i,
    {
        let ghost rest = s@.skip(i as int);
        let mut matches = m <= n - i;
        let mut j: usize = 0;
        while matches && j < m
            invariant
                sv@ == s@,
                pv@ == p@,
                n == sv@.len(),
                m == pv@.len(),
                j <= m,
                matches ==> i + m <= n,
                matches ==> forall|q: int| 0 <= q < j ==> sv@[i + q] == pv@[q],
                !matches ==> !p@.is_prefix_of(rest),
                rest == s@.skip(i as int),
            decreases m - j,
        {
            if sv[i + j] != pv[j] {
                matches = false;
                assert(rest[j as int] == sv@[i + j]);
            }
            j = j + 1;
        }
        let ghost before = out@;
        if matches {
            assert(p@.is_prefix_of(rest)) by {
                assert forall|q: int| 0 <= q < p@.len() implies #[trigger] rest[q] == p@[q] by {
                    assert(rest[q] == sv@[i + q]);
                }
                assert(rest.take(p@.len() as int) =~= p@);
            }
            push_str(&mut out, r);
            assert(rest.skip(p@.len() as int) =~= s@.skip(i + m));
            assert(out@ + replaced(s@.skip(i + m), p@, r@) =~= before + replaced(rest, p@, r@));
            i = i + m;
        } else {
            push_char(&mut out, sv[i]);
            assert(rest.drop_first() =~= s@.skip(i + 1));
            assert(rest[0] == sv@[i as int]);
            assert(out@ + replaced(s@.skip(i + 1), p@, r@) =~= before + replaced(rest, p@, r@));
            i = i + 1;
        }
    }
    assert(s@.skip(n as int) =~= Seq::<char>::empty());
    assert(out@ + replaced(s@.skip(n as int), p@, r@) =~= out@);
    out
}

/// Whether `v` holds a string equal to `s`.
pub fn strings_contain(v: &Vec<String>, s: &String) -> (r: bool)
    ensures
        r == v.deep_view().contains(s@),
{
    let mut i: usize = 0;
    while i < v.len()
        invariant
            i <= v@.len(),
            forall|j: int| 0 <= j < i ==> v.deep_view()[j] != s@,
        decreases v.len() - i,
    {
        if v[i].as_str().unicode_len() == s.as_str().unicode_len() && str_eq(v[i].as_str(), s.as_str()) {
            assert(v.deep_view()[i as int] == s@);
            return true;
        }
        i = i + 1;
    }
    false
}

} // verus!
