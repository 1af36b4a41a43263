//! Ignore rules: glob patterns, regular expressions and size limits, in
//! optional `[sections]`, read from an ignore file.
use vstd::prelude::*;
use vstd::string::*;
use crate::text::{
    trim, lines, split_lines, trim_string, to_chars, string_of, starts_with, ends_with,
    strip_prefix, strip_suffix, push_char, push_str, u64_text_value, parse_u64, lowercase_of, to_lowercase,
};
use crate::paths::{path_ancestors, path_file_name, ancestors_of, file_name_of};

verus! {

// ---------------------------------------------------------------------------
// Calls into `regex`
// ---------------------------------------------------------------------------

/// Whether `regex::Regex::new` accepts the pattern.
pub uninterp spec fn regex_compiles(pattern: Seq<char>) -> bool;

/// Whether the regex compiled from `pattern` matches somewhere in `text`
/// (`Regex::is_match`).
pub uninterp spec fn regex_match(pattern: Seq<char>, text: Seq<char>) -> bool;

/// `regex::Regex::new(pattern).is_ok()`.
#[verifier::external_body]
fn regex_valid(pattern: &str) -> (r: bool)
    ensures
        r == regex_compiles(pattern@),
{
    regex::Regex::new(pattern).is_ok()
}

/// `Regex::is_match` of the regex compiled from `pattern`.
#[verifier::external_body]
fn regex_is_match(pattern: &str, text: &str) -> (r: bool)
    requires
        regex_compiles(pattern@),
    ensures
        r == regex_match(pattern@, text@),
{
    regex::Regex::new(pattern).unwrap().is_match(text)
}

/// The characters that `regex::escape` puts a backslash in front of
/// (`regex_syntax::is_meta_character`).
pub open spec fn is_regex_meta(c: char) -> bool {
    c == '\\' || c == '.' || c == '+' || c == '*' || c == '?' || c == '(' || c == ')' || c == '|'
        || c == '[' || c == ']' || c == '{' || c == '}' || c == '^' || c == '$' || c == '#'
        || c == '&' || c == '-' || c == '~'
}

/// One character as `regex::escape` writes it.
pub open spec fn regex_escaped(c: char) -> Seq<char> {
    if is_regex_meta(c) {
        seq!['\\', c]
    } else {
        seq![c]
    }
}

/// `regex::escape` on a one-character string: a backslash goes in front of
/// a meta character.
#[verifier::external_body]
fn regex_escape_char(c: char) -> (r: String)
    ensures
        r@ == regex_escaped(c),
{
    regex::escape(&c.to_string())
}

// ---------------------------------------------------------------------------
// Glob patterns
// ---------------------------------------------------------------------------

/// The regex text for the glob `p` from position `i`: `**` (and a `/`
/// after it) is `.*`, `*` is `[^/]*`, `?` is `[^/]`, `.` is `\.`, any other
/// character as `regex::escape` writes it.
pub open spec fn glob_regex_from(p: Seq<char>, i: int) -> Seq<char>
    decreases p.len() - i,
{
    if i < 0 || i >= p.len() {
        Seq::empty()
    } else if p[i] == '*' && i + 1 < p.len() && p[i + 1] == '*' {
        let j = if i + 2 < p.len() && p[i + 2] == '/' { i + 3 } else { i + 2 };
        seq!['.', '*'] + glob_regex_from(p, j)
    } else if p[i] == '*' {
        seq!['[', '^', '/', ']', '*'] + glob_regex_from(p, i + 1)
    } else if p[i] == '?' {
        seq!['[', '^', '/', ']'] + glob_regex_from(p, i + 1)
    } else if p[i] == '.' {
        seq!['\\', '.'] + glob_regex_from(p, i + 1)
    } else {
        regex_escaped(p[i]) + glob_regex_from(p, i + 1)
    }
}

/// The anchored regex text for a glob.
pub open spec fn glob_regex(p: Seq<char>) -> Seq<char> {
    seq!['^'] + glob_regex_from(p, 0) + seq!['$']
}

/// A regex text that compiles and matches `text`.
pub open spec fn regex_accepts(pattern: Seq<char>, text: Seq<char>) -> bool {
    regex_compiles(pattern) && regex_match(pattern, text)
}

/// A glob matches a whole text.
pub open spec fn simple_glob(p: Seq<char>, text: Seq<char>) -> bool {
    regex_accepts(glob_regex(p), text)
}

/// A glob rule matches a path: a pattern that ends in `/` matches a path
/// with a non-empty ancestor it matches; any other pattern matches the
/// path or its last component.
pub open spec fn glob_matches_path(pattern: Seq<char>, path: Seq<char>) -> bool {
    if pattern.len() > 0 && pattern.last() == '/' {
        let dir = pattern.drop_last();
        exists|k: int|
            0 <= k < path_ancestors(path).len() && path_ancestors(path)[k].len() > 0
                && #[trigger] simple_glob(dir, path_ancestors(path)[k])
    } else {
        simple_glob(pattern, path) || (path_file_name(path) matches Some(f) && simple_glob(pattern, f))
    }
}

/// A text as `regex::escape` writes it: each character in turn, a
/// backslash in front of each meta character.
pub open spec fn regex_escaped_text(s: Seq<char>) -> Seq<char>
    decreases s.len(),
{
    if s.len() == 0 {
        Seq::empty()
    } else {
        regex_escaped(s[0]) + regex_escaped_text(s.drop_first())
    }
}

/// A glob piece with no wildcard: no `*` and no `?`.
pub open spec fn glob_literal(s: Seq<char>) -> bool {
    forall|i: int| 0 <= i < s.len() ==> (#[trigger] s[i]) != '*' && s[i] != '?'
}

proof fn lemma_glob_literal_from(q: Seq<char>, k: int)
    requires
        0 <= k <= q.len(),
        forall|j: int| k <= j < q.len() ==> (#[trigger] q[j]) != '*' && q[j] != '?',
    ensures
        glob_regex_from(q, k) == regex_escaped_text(q.skip(k)),
    decreases q.len() - k,
{
    if k == q.len() {
        assert(q.skip(k) =~= Seq::<char>::empty());
    } else {
        lemma_glob_literal_from(q, k + 1);
        assert(q.skip(k)[0] == q[k]);
        assert(q.skip(k).drop_first() =~= q.skip(k + 1));
        if q[k] == '.' {
            assert(regex_escaped(q[k]) == seq!['\\', '.']);
        }
    }
}

proof fn lemma_glob_then_literal(p: Seq<char>, s: Seq<char>, i: int)
    requires
        0 <= i <= p.len(),
        glob_literal(s),
        !(s.len() > 0 && s[0] == '/' && p.len() > 0 && p.last() == '*'),
    ensures
        glob_regex_from(p + s, i) == glob_regex_from(p, i) + regex_escaped_text(s),
    decreases p.len() - i,
{
    let q = p + s;
    if i == p.len() {
        assert forall|j: int| p.len() <= j < q.len() implies (#[trigger] q[j]) != '*' && q[j] != '?' by {
            assert(q[j] == s[j - p.len()]);
        }
        lemma_glob_literal_from(q, i);
        assert(q.skip(i) =~= s);
        assert(glob_regex_from(p, i) =~= Seq::<char>::empty());
        assert(Seq::<char>::empty() + regex_escaped_text(s) =~= regex_escaped_text(s));
    } else {
        assert(q[i] == p[i]);
        if i + 1 == p.len() && s.len() > 0 {
            assert(q[i + 1] == s[0]);
        }
        if p[i] == '*' && i + 1 < p.len() && p[i + 1] == '*' {
            assert(q[i + 1] == p[i + 1]);
            if i + 2 < p.len() {
                assert(q[i + 2] == p[i + 2]);
            } else if i + 2 < q.len() {
                assert(q[i + 2] == s[0]);
            }
            let j = if i + 2 < p.len() && p[i + 2] == '/' { i + 3 } else { i + 2 };
            lemma_glob_then_literal(p, s, j);
            assert(seq!['.', '*'] + glob_regex_from(p, j) + regex_escaped_text(s)
                =~= seq!['.', '*'] + (glob_regex_from(p, j) + regex_escaped_text(s)));
        } else {
            lemma_glob_then_literal(p, s, i + 1);
            if p[i] == '*' {
                assert(seq!['[', '^', '/', ']', '*'] + glob_regex_from(p, i + 1) + regex_escaped_text(s)
                    =~= seq!['[', '^', '/', ']', '*'] + (glob_regex_from(p, i + 1) + regex_escaped_text(s)));
            } else if p[i] == '?' {
                assert(seq!['[', '^', '/', ']'] + glob_regex_from(p, i + 1) + regex_escaped_text(s)
                    =~= seq!['[', '^', '/', ']'] + (glob_regex_from(p, i + 1) + regex_escaped_text(s)));
            } else if p[i] == '.' {
                assert(seq!['\\', '.'] + glob_regex_from(p, i + 1) + regex_escaped_text(s)
                    =~= seq!['\\', '.'] + (glob_regex_from(p, i + 1) + regex_escaped_text(s)));
            } else {
                assert(regex_escaped(p[i]) + glob_regex_from(p, i + 1) + regex_escaped_text(s)
                    =~= regex_escaped(p[i]) + (glob_regex_from(p, i + 1) + regex_escaped_text(s)));
            }
        }
    }
}

/// The characters of a glob other than `*` and `?` stand for themselves: a
/// glob followed by a piece with no wildcard (`.` included) is matched by
/// the glob's regex followed by that piece as `regex::escape` writes it,
/// so `*.log` is `^[^/]*\.log$` and only names ending in `.log` fit.  A
/// piece that starts with `/` after a glob ending in `*` is left out
/// (`**/` is one token).  Before such a piece, `*` is `[^/]*` (any run of
/// characters within one path component), `?` is `[^/]` (one such
/// character) and `**` is `.*` (any run, `/` included).
pub proof fn law_glob_literal_text_is_escaped(p: Seq<char>, s: Seq<char>)
    requires
        glob_literal(s),
        !(s.len() > 0 && s[0] == '/' && p.len() > 0 && p.last() == '*'),
    ensures
        glob_regex(p + s) == seq!['^'] + glob_regex_from(p, 0) + regex_escaped_text(s) + seq!['$'],
        p.len() == 0 ==> glob_regex(s) == seq!['^'] + regex_escaped_text(s) + seq!['$'],
        p == seq!['*'] ==> glob_regex(p + s) == seq!['^', '[', '^', '/', ']', '*'] + regex_escaped_text(s) + seq!['$'],
        p == seq!['?'] ==> glob_regex(p + s) == seq!['^', '[', '^', '/', ']'] + regex_escaped_text(s) + seq!['$'],
        p == seq!['*', '*'] ==> glob_regex(p + s) == seq!['^', '.', '*'] + regex_escaped_text(s) + seq!['$'],
{
    lemma_glob_then_literal(p, s, 0);
    if p.len() == 0 {
        assert(p + s =~= s);
        assert(glob_regex_from(p, 0) =~= Seq::<char>::empty());
    }
    if p == seq!['*'] {
        assert(glob_regex_from(p, 1) =~= Seq::<char>::empty());
        assert(glob_regex_from(p, 0) =~= seq!['[', '^', '/', ']', '*']);
    }
    if p == seq!['?'] {
        assert(glob_regex_from(p, 1) =~= Seq::<char>::empty());
        assert(glob_regex_from(p, 0) =~= seq!['[', '^', '/', ']']);
    }
    if p == seq!['*', '*'] {
        assert(glob_regex_from(p, 2) =~= Seq::<char>::empty());
        assert(glob_regex_from(p, 0) =~= seq!['.', '*']);
    }
}

/// The anchored regex for a glob.
fn glob_to_regex(pattern: &str) -> (r: String)
    ensures
        r@ == glob_regex(pattern@),
{
    let p = to_chars(pattern);
    let ghost ps = pattern@;
    let mut out = String::new();
    push_char(&mut out, '^');
    let mut i: usize = 0;
    while i < p.len()
        invariant
            p@ == ps,
            i <= p@.len(),
            out@ + glob_regex_from(ps, i as int) == seq!['^'] + glob_regex_from(ps, 0),
        decreases p.len() - i,
    {
        let ghost before = out@;
        let ghost i0 = i as int;
        if p[i] == '*' && i + 1 < p.len() && p[i + 1] == '*' {
            push_char(&mut out, '.');
            push_char(&mut out, '*');
            i = i + 2;
            if i < p.len() && p[i] == '/' {
                i = i + 1;
            }
        } else if p[i] == '*' {
            push_char(&mut out, '[');
            push_char(&mut out, '^');
            push_char(&mut out, '/');
            push_char(&mut out, ']');
            push_char(&mut out, '*');
            i = i + 1;
        } else if p[i] == '?' {
            push_char(&mut out, '[');
            push_char(&mut out, '^');
            push_char(&mut out, '/');
            push_char(&mut out, ']');
            i = i + 1;
        } else if p[i] == '.' {
            push_char(&mut out, '\\');
            push_char(&mut out, '.');
            i = i + 1;
        } else {
            let e = regex_escape_char(p[i]);
            push_str(&mut out, e.as_str());
            i = i + 1;
        }
        proof {
            assert(out@ + glob_regex_from(ps, i as int) =~= before + glob_regex_from(ps, i0));
        }
    }
    push_char(&mut out, '$');
    assert(glob_regex_from(ps, i as int) =~= Seq::<char>::empty());
    assert(out@ =~= glob_regex(ps));
    out
}

/// Whether the glob matches the whole text.
fn simple_glob_match(pattern: &str, text: &str) -> (r: bool)
    ensures
        r == simple_glob(pattern@, text@),
{
    let re = glob_to_regex(pattern);
    if regex_valid(re.as_str()) {
        regex_is_match(re.as_str(), text)
    } else {
        false
    }
}

/// Whether a glob rule matches a path.
fn glob_matches(pattern: &str, path: &str) -> (r: bool)
    ensures
        r == glob_matches_path(pattern@, path@),
{
    let pv = to_chars(pattern);
    if pv.len() > 0 && pv[pv.len() - 1] == '/' {
        let dir = string_of(pv.as_slice(), 0, pv.len() - 1);
        assert(dir@ =~= pattern@.drop_last());
        assert(pattern@.last() == '/');
        let ancestors = ancestors_of(path);
        let ghost av = path_ancestors(path@);
        let mut k: usize = 0;
        while k < ancestors.len()
            invariant
                k <= ancestors@.len(),
                ancestors.deep_view() == av,
                av == path_ancestors(path@),
                pattern@.len() > 0,
                pattern@.last() == '/',
                dir@ == pattern@.drop_last(),
                forall|j: int| 0 <= j < k ==> !(av[j].len() > 0 && #[trigger] simple_glob(dir@, av[j])),
            decreases ancestors.len() - k,
        {
            let a = &ancestors[k];
            assert(av[k as int] == a@);
            if a.unicode_len() > 0 && simple_glob_match(dir.as_str(), a.as_str()) {
                assert(av[k as int].len() > 0 && simple_glob(dir@, av[k as int]));
                return true;
            }
            k = k + 1;
        }
        return false;
    }
    if simple_glob_match(pattern, path) {
        return true;
    }
    match file_name_of(path) {
        Some(f) => simple_glob_match(pattern, f.as_str()),
        None => false,
    }
}

// ---------------------------------------------------------------------------
// Sizes
// ---------------------------------------------------------------------------

/// The number text of a size and the factor its unit stands for: the size
/// is trimmed and lowercased; `gb`, `mb`, `kb` and `b` units are cut off
/// (and the number before them trimmed); with no unit the factor is 1.
pub open spec fn size_parts(s: Seq<char>) -> (Seq<char>, int) {
    let l = lowercase_of(trim(s));
    if seq!['g', 'b'].is_suffix_of(l) {
        (trim(l.take(l.len() - 2)), 1073741824)
    } else if seq!['m', 'b'].is_suffix_of(l) {
        (trim(l.take(l.len() - 2)), 1048576)
    } else if seq!['k', 'b'].is_suffix_of(l) {
        (trim(l.take(l.len() - 2)), 1024)
    } else if seq!['b'].is_suffix_of(l) {
        (trim(l.take(l.len() - 1)), 1)
    } else {
        (l, 1)
    }
}

/// The size in bytes that a size text stands for, if its number reads.
pub open spec fn size_value(s: Seq<char>) -> Option<u64> {
    match u64_text_value(size_parts(s).0) {
        Some(n) => Some((n * size_parts(s).1) as u64),
        None => None,
    }
}

/// The number times the unit fits in a `u64`.
pub open spec fn size_fits(s: Seq<char>) -> bool {
    u64_text_value(size_parts(s).0) matches Some(n) ==> n * size_parts(s).1 <= u64::MAX
}

/// Reads a size such as `10mb`, `500kb`, `1gb`, `1024b` or `4096`.
pub fn parse_size(s: &str) -> (r: Option<u64>)
    requires
        size_fits(s@),
    ensures
        r == size_value(s@),
{
    proof {
        reveal_strlit("gb");
        reveal_strlit("mb");
        reveal_strlit("kb");
        reveal_strlit("b");
        assert("gb"@ =~= seq!['g', 'b']);
        assert("mb"@ =~= seq!['m', 'b']);
        assert("kb"@ =~= seq!['k', 'b']);
        assert("b"@ =~= seq!['b']);
    }
    let t = trim_string(s);
    let l = to_lowercase(t.as_str());
    if let Some(num) = strip_suffix(l.as_str(), "gb") {
        let n = trim_string(num.as_str());
        assert(size_parts(s@) == (n@, 1073741824int));
        match parse_u64(n.as_str()) {
            Some(v) => {
                proof {
                    assert(v * 1073741824 <= u64::MAX);
                    assert(v * 1024 <= v * 1073741824 && v * 1024 * 1024 <= v * 1073741824
                        && v * 1024 * 1024 * 1024 == v * 1073741824) by (nonlinear_arith);
                }
                Some(v * 1024 * 1024 * 1024)
            },
            None => None,
        }
    } else if let Some(num) = strip_suffix(l.as_str(), "mb") {
        let n = trim_string(num.as_str());
        assert(size_parts(s@) == (n@, 1048576int));
        match parse_u64(n.as_str()) {
            Some(v) => {
                proof {
                    assert(v * 1048576 <= u64::MAX);
                    assert(v * 1024 <= v * 1048576 && v * 1024 * 1024 == v * 1048576) by (nonlinear_arith);
                }
                Some(v * 1024 * 1024)
            },
            None => None,
        }
    } else if let Some(num) = strip_suffix(l.as_str(), "kb") {
        let n = trim_string(num.as_str());
        assert(size_parts(s@) == (n@, 1024int));
        match parse_u64(n.as_str()) {
            Some(v) => {
                assert(v * 1024 <= u64::MAX);
                Some(v * 1024)
            },
            None => None,
        }
    } else if let Some(num) = strip_suffix(l.as_str(), "b") {
        let n = trim_string(num.as_str());
        assert(size_parts(s@) == (n@, 1int));
        let r = parse_u64(n.as_str());
        proof {
            if let Some(v) = r {
                assert((v * 1) as u64 == v);
            }
        }
        r
    } else {
        assert(size_parts(s@) == (l@, 1int));
        let r = parse_u64(l.as_str());
        proof {
            if let Some(v) = r {
                assert((v * 1) as u64 == v);
            }
        }
        r
    }
}

// ---------------------------------------------------------------------------
// Rules
// ---------------------------------------------------------------------------

/// One ignore rule.  A regex rule keeps the text of a pattern that
/// compiled when the rule was read.
#[derive(Debug)]
pub enum IgnoreRule {
    Glob { pattern: String, negated: bool },
    Regex { pattern: String, negated: bool },
    Size { max_bytes: u64 },
}

/// A rule and the section it was read in.
#[derive(Debug)]
pub struct SectionedRule {
    pub section: Option<String>,
    pub rule: IgnoreRule,
}

/// The rules of an ignore file, in file order.
#[derive(Debug)]
pub struct IgnoreRules {
    pub rules: Vec<SectionedRule>,
}

/// What a rule says.
pub enum RuleView {
    Glob(Seq<char>, bool),
    Regex(Seq<char>, bool),
    Size(u64),
}

pub open spec fn rule_view(r: IgnoreRule) -> RuleView {
    match r {
        IgnoreRule::Glob { pattern, negated } => RuleView::Glob(pattern@, negated),
        IgnoreRule::Regex { pattern, negated } => RuleView::Regex(pattern@, negated),
        IgnoreRule::Size { max_bytes } => RuleView::Size(max_bytes),
    }
}

pub open spec fn section_view(o: Option<String>) -> Option<Seq<char>> {
    match o {
        Some(s) => Some(s@),
        None => None,
    }
}

pub open spec fn sectioned_view(r: SectionedRule) -> (Option<Seq<char>>, RuleView) {
    (section_view(r.section), rule_view(r.rule))
}

pub open spec fn rules_view(rs: Seq<SectionedRule>) -> Seq<(Option<Seq<char>>, RuleView)> {
    rs.map_values(|r: SectionedRule| sectioned_view(r))
}

/// The state of reading an ignore file: the rules so far and the section.
pub struct ParseState {
    pub rules: Seq<(Option<Seq<char>>, RuleView)>,
    pub section: Option<Seq<char>>,
}

pub open spec fn size_prefix() -> Seq<char> {
    seq!['s', 'i', 'z', 'e', ':', '>']
}

pub open spec fn regex_prefix() -> Seq<char> {
    seq!['r', 'e', 'g', 'e', 'x', ':']
}

/// A trimmed line that is a rule line (not empty, a comment or a section).
pub open spec fn is_rule_line(t: Seq<char>) -> bool {
    t.len() > 0 && t[0] != '#' && !(t[0] == '[' && t.last() == ']')
}

/// One line of an ignore file: blank lines and `#` comments are skipped;
/// `[name]` opens a section; `size:>N` adds a size limit where the size
/// reads; `regex:P` (or `regex:!P`) adds a regex rule where `P` compiles;
/// any other line is a glob, negated by a leading `!`.
pub open spec fn parse_step(st: ParseState, line: Seq<char>) -> ParseState {
    let t = trim(line);
    if t.len() == 0 || t[0] == '#' {
        st
    } else if t[0] == '[' && t.last() == ']' {
        ParseState { rules: st.rules, section: Some(t.subrange(1, t.len() - 1)) }
    } else if size_prefix().is_prefix_of(t) {
        match size_value(t.skip(6)) {
            Some(b) => ParseState { rules: st.rules.push((st.section, RuleView::Size(b))), section: st.section },
            None => st,
        }
    } else if regex_prefix().is_prefix_of(t) {
        let rs = t.skip(6);
        let neg = rs.len() > 0 && rs[0] == '!';
        let p = if neg { rs.skip(1) } else { rs };
        if regex_compiles(p) {
            ParseState { rules: st.rules.push((st.section, RuleView::Regex(p, neg))), section: st.section }
        } else {
            st
        }
    } else {
        let neg = t[0] == '!';
        let p = if neg { t.skip(1) } else { t };
        ParseState { rules: st.rules.push((st.section, RuleView::Glob(p, neg))), section: st.section }
    }
}

pub open spec fn parse_lines(ls: Seq<Seq<char>>) -> ParseState
    decreases ls.len(),
{
    if ls.len() == 0 {
        ParseState { rules: Seq::empty(), section: None }
    } else {
        parse_step(parse_lines(ls.drop_last()), ls.last())
    }
}

/// A size line whose number times its unit fits in a `u64` (the others
/// overflow when read).
pub open spec fn line_size_fits(line: Seq<char>) -> bool {
    let t = trim(line);
    is_rule_line(t) && size_prefix().is_prefix_of(t) ==> size_fits(t.skip(6))
}

pub open spec fn sizes_fit(content: Seq<char>) -> bool {
    forall|i: int| 0 <= i < lines(content).len() ==> line_size_fits(#[trigger] lines(content)[i])
}

/// How one rule changes the verdict for a path: a matching glob or regex
/// sets it (to "kept" when negated), a size limit the file exceeds sets it
/// to "ignored", anything else leaves it.
pub open spec fn rule_verdict(ignored: bool, r: RuleView, path: Seq<char>, size: Option<u64>) -> bool {
    match r {
        RuleView::Glob(p, neg) => if glob_matches_path(p, path) { !neg } else { ignored },
        RuleView::Regex(p, neg) => if regex_accepts(p, path) { !neg } else { ignored },
        RuleView::Size(max) => if size matches Some(n) && n > max { true } else { ignored },
    }
}

/// The verdict of the rules in order, starting from "kept".
pub open spec fn ignored_by(rs: Seq<(Option<Seq<char>>, RuleView)>, path: Seq<char>, size: Option<u64>) -> bool
    decreases rs.len(),
{
    if rs.len() == 0 {
        false
    } else {
        rule_verdict(ignored_by(rs.drop_last(), path, size), rs.last().1, path, size)
    }
}

fn clone_section(s: &Option<String>) -> (r: Option<String>)
    ensures
        section_view(r) == section_view(*s),
{
    match s {
        Some(t) => Some(t.clone()),
        None => None,
    }
}

impl IgnoreRules {
    /// Reads an ignore file.
    pub fn parse(content: &str) -> (r: IgnoreRules)
        requires
            sizes_fit(content@),
        ensures
            rules_view(r.rules@) == parse_lines(lines(content@)).rules,
    {
        proof {
            reveal_strlit("size:>");
            reveal_strlit("regex:");
            reveal_strlit("!");
            reveal_strlit("#");
            reveal_strlit("[");
            reveal_strlit("]");
            assert("size:>"@ =~= size_prefix());
            assert("regex:"@ =~= regex_prefix());
            assert("!"@ =~= seq!['!']);
            assert("#"@ =~= seq!['#']);
            assert("["@ =~= seq!['[']);
            assert("]"@ =~= seq![']']);
        }
        let ls = split_lines(content);
        let mut rules: Vec<SectionedRule> = Vec::new();
        let mut current_section: Option<String> = None;
        let mut i: usize = 0;
        assert(rules_view(rules@) =~= Seq::<(Option<Seq<char>>, RuleView)>::empty());
        while i < ls.len()
            invariant
                i <= ls@.len(),
                ls.deep_view() == lines(content@),
                sizes_fit(content@),
                "size:>"@ == size_prefix(),
                "regex:"@ == regex_prefix(),
                "!"@ == seq!['!'],
                "#"@ == seq!['#'],
                "["@ == seq!['['],
                "]"@ == seq![']'],
                rules_view(rules@) == parse_lines(ls.deep_view().take(i as int)).rules,
                section_view(current_section) == parse_lines(ls.deep_view().take(i as int)).section,
            decreases ls.len() - i,
        {
            let ghost dv = ls.deep_view();
            let ghost before = rules@;
            let ghost st = parse_lines(dv.take(i as int));
            let ghost tl = trim(dv[i as int]);
            proof {
                assert(dv.take(i + 1).drop_last() =~= dv.take(i as int));
                assert(dv.take(i + 1).last() == ls@[i as int]@);
                assert(parse_lines(dv.take(i + 1)) == parse_step(st, dv[i as int]));
                assert(line_size_fits(dv[i as int]));
            }
            let trimmed = trim_string(ls[i].as_str());
            let t = trimmed.as_str();
            let tv = to_chars(t);
            assert(tv@ == tl);
            if tv.len() == 0 || tv[0] == '#' {
            } else if tv[0] == '[' && tv[tv.len() - 1] == ']' {
                let name = string_of(tv.as_slice(), 1, tv.len() - 1);
                current_section = Some(name);
            } else if let Some(size_spec) = strip_prefix(t, "size:>") {
                assert(size_spec@ == tl.skip(6));
                if let Some(bytes) = parse_size(size_spec.as_str()) {
                    rules.push(SectionedRule {
                        section: clone_section(&current_section),
                        rule: IgnoreRule::Size { max_bytes: bytes },
                    });
                    proof {
                        assert(sectioned_view(rules@.last()) == (st.section, RuleView::Size(bytes)));
                    }
                }
            } else if let Some(regex_str) = strip_prefix(t, "regex:") {
                assert(regex_str@ == tl.skip(6));
                let (negated, pattern) = match strip_prefix(regex_str.as_str(), "!") {
                    Some(p) => (true, p),
                    None => (false, regex_str),
                };
                proof {
                    let rs = tl.skip(6);
                    if rs.len() > 0 && rs[0] == '!' {
                        assert(rs.take(1) =~= seq!['!']);
                    }
                    if negated {
                        assert(rs.take(1)[0] == rs[0]);
                    }
                    assert(negated == (rs.len() > 0 && rs[0] == '!'));
                    assert(pattern@ == if negated { rs.skip(1) } else { rs });
                }
                if regex_valid(pattern.as_str()) {
                    let ghost pv = pattern@;
                    rules.push(SectionedRule {
                        section: clone_section(&current_section),
                        rule: IgnoreRule::Regex { pattern, negated },
                    });
                    proof {
                        assert(sectioned_view(rules@.last()) == (st.section, RuleView::Regex(pv, negated)));
                    }
                }
            } else {
                let (negated, pattern) = match strip_prefix(t, "!") {
                    Some(p) => (true, p),
                    None => (false, trimmed.clone()),
                };
                proof {
                    if tl[0] == '!' {
                        assert(tl.take(1) =~= seq!['!']);
                    }
                    if negated {
                        assert(tl.take(1)[0] == tl[0]);
                    }
                    assert(negated == (tl[0] == '!'));
                    assert(pattern@ == if negated { tl.skip(1) } else { tl });
                }
                let ghost pv = pattern@;
                rules.push(SectionedRule {
                    section: clone_section(&current_section),
                    rule: IgnoreRule::Glob { pattern, negated },
                });
                proof {
                    assert(sectioned_view(rules@.last()) == (st.section, RuleView::Glob(pv, negated)));
                }
            }
            proof {
                if rules@.len() > before.len() {
                    assert(rules@ == before.push(rules@.last()));
                    assert(rules_view(rules@) =~= rules_view(before).push(sectioned_view(rules@.last())));
                } else {
                    assert(rules@ == before);
                }
            }
            i = i + 1;
        }
        proof {
            assert(ls.deep_view().take(ls@.len() as int) =~= ls.deep_view());
        }
        IgnoreRules { rules }
    }

    /// No rules.
    pub fn empty() -> (r: IgnoreRules)
        ensures
            r.rules@.len() == 0,
    {
        IgnoreRules { rules: Vec::new() }
    }

    /// Whether a path (of the given size, if known) is ignored: the rules
    /// are applied in order and the last one that speaks decides.
    pub fn is_ignored(&self, path: &str, file_size: Option<u64>) -> (r: bool)
        ensures
            r == ignored_by(rules_view(self.rules@), path@, file_size),
    {
        let mut ignored = false;
        let mut i: usize = 0;
        while i < self.rules.len()
            invariant
                i <= self.rules@.len(),
                ignored == ignored_by(rules_view(self.rules@.take(i as int)), path@, file_size),
            decreases self.rules.len() - i,
        {
            proof {
                assert(rules_view(self.rules@.take(i + 1)).drop_last() =~= rules_view(self.rules@.take(i as int)));
            }
            match &self.rules[i].rule {
                IgnoreRule::Glob { pattern, negated } => {
                    if glob_matches(pattern.as_str(), path) {
                        ignored = !*negated;
                    }
                },
                IgnoreRule::Regex { pattern, negated } => {
                    if regex_valid(pattern.as_str()) && regex_is_match(pattern.as_str(), path) {
                        ignored = !*negated;
                    }
                },
                IgnoreRule::Size { max_bytes } => {
                    if let Some(size) = file_size {
                        if size > *max_bytes {
                            ignored = true;
                        }
                    }
                },
            }
            i = i + 1;
        }
        proof {
            assert(self.rules@.take(self.rules@.len() as int) =~= self.rules@);
        }
        ignored
    }

    /// Reads an ignore file whose size lines all read without overflow
    /// (`sizes_fit`); `None` for one that has a size line that overflows.
    pub fn parse_checked(content: &str) -> (r: Option<IgnoreRules>)
        ensures
            r is None <==> !sizes_fit(content@),
            r matches Some(rs) ==> rules_view(rs.rules@) == parse_lines(lines(content@)).rules,
    {
        if IgnoreRules::sizes_fit(content) {
            Some(IgnoreRules::parse(content))
        } else {
            None
        }
    }

    /// Whether every size line of an ignore file reads without overflow
    /// (`sizes_fit`), so that `parse` can read the file.
    pub fn sizes_fit(content: &str) -> (r: bool)
        ensures
            r == sizes_fit(content@),
    {
        proof {
            reveal_strlit("size:>");
            assert("size:>"@ =~= size_prefix());
        }
        let ls = split_lines(content);
        let mut i: usize = 0;
        while i < ls.len()
            invariant
                i <= ls@.len(),
                ls.deep_view() == lines(content@),
                "size:>"@ == size_prefix(),
                forall|j: int| 0 <= j < i ==> line_size_fits(#[trigger] lines(content@)[j]),
            decreases ls.len() - i,
        {
            proof {
                assert(ls.deep_view()[i as int] == ls@[i as int]@);
            }
            let trimmed = trim_string(ls[i].as_str());
            let tv = to_chars(trimmed.as_str());
            let rule_line = tv.len() > 0 && tv[0] != '#' && !(tv[0] == '[' && tv[tv.len() - 1] == ']');
            if rule_line {
                if let Some(size_spec) = strip_prefix(trimmed.as_str(), "size:>") {
                    if !size_text_fits(size_spec.as_str()) {
                        return false;
                    }
                }
            }
            i = i + 1;
        }
        true
    }
}

/// Reads a size where its number times its unit fits in a `u64`: `None`
/// when it does not (reading it would overflow), else what `parse_size`
/// gives.
pub fn parse_size_checked(s: &str) -> (r: Option<Option<u64>>)
    ensures
        r is None <==> !size_fits(s@),
        r matches Some(v) ==> v == size_value(s@),
{
    if size_text_fits(s) {
        Some(parse_size(s))
    } else {
        None
    }
}

/// `size_fits`.
fn size_text_fits(s: &str) -> (r: bool)
    ensures
        r == size_fits(s@),
{
    proof {
        reveal_strlit("gb");
        reveal_strlit("mb");
        reveal_strlit("kb");
        reveal_strlit("b");
        assert("gb"@ =~= seq!['g', 'b']);
        assert("mb"@ =~= seq!['m', 'b']);
        assert("kb"@ =~= seq!['k', 'b']);
        assert("b"@ =~= seq!['b']);
    }
    let t = trim_string(s);
    let l = to_lowercase(t.as_str());
    let (num, factor): (String, u64) = if let Some(num) = strip_suffix(l.as_str(), "gb") {
        (trim_string(num.as_str()), 1073741824)
    } else if let Some(num) = strip_suffix(l.as_str(), "mb") {
        (trim_string(num.as_str()), 1048576)
    } else if let Some(num) = strip_suffix(l.as_str(), "kb") {
        (trim_string(num.as_str()), 1024)
    } else if let Some(num) = strip_suffix(l.as_str(), "b") {
        (trim_string(num.as_str()), 1)
    } else {
        (l, 1)
    };
    match parse_u64(num.as_str()) {
        Some(v) => {
            proof {
                assert((v <= u64::MAX / factor) == (v * factor <= u64::MAX)) by (nonlinear_arith)
                    requires
                        factor > 0,
                ;
            }
            v <= u64::MAX / factor
        },
        None => true,
    }
}


/// With no rules, nothing is ignored.
pub proof fn law_no_rules_ignore_nothing(path: Seq<char>, size: Option<u64>)
    ensures
        !ignored_by(Seq::empty(), path, size),
{
}

/// The last rule that speaks of a path decides: a glob or regex rule that
/// matches, appended to any rules, ignores the path exactly when it is not
/// negated; a rule that does not match leaves the verdict as it was.
pub proof fn law_last_matching_rule_decides(
    rs: Seq<(Option<Seq<char>>, RuleView)>,
    section: Option<Seq<char>>,
    r: RuleView,
    path: Seq<char>,
    size: Option<u64>,
)
    ensures
        r matches RuleView::Glob(p, neg) ==> ignored_by(rs.push((section, r)), path, size) == if glob_matches_path(p, path) {
            !neg
        } else {
            ignored_by(rs, path, size)
        },
        r matches RuleView::Regex(p, neg) ==> ignored_by(rs.push((section, r)), path, size) == if regex_accepts(p, path) {
            !neg
        } else {
            ignored_by(rs, path, size)
        },
{
    assert(rs.push((section, r)).drop_last() =~= rs);
}

/// A size limit ignores every file larger than the limit, whatever came
/// before it.
pub proof fn law_size_limit_ignores_larger(
    rs: Seq<(Option<Seq<char>>, RuleView)>,
    section: Option<Seq<char>>,
    max: u64,
    path: Seq<char>,
    n: u64,
)
    requires
        n > max,
    ensures
        ignored_by(rs.push((section, RuleView::Size(max))), path, Some(n)),
{
    assert(rs.push((section, RuleView::Size(max))).drop_last() =~= rs);
}

} // verus!
