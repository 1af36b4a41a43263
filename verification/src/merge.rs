//! 3-way line merge with conflict markers.
use vstd::prelude::*;
use vstd::string::*;
use crate::text::{contains_seq, join, lines, split_lines, join_strings, to_chars, lemma_join_contains};

verus! {

/// Outcome of a 3-way merge: the merged text, with or without conflicts.
#[derive(Debug, PartialEq)]
pub enum MergeResult {
    Clean(String),
    Conflict(String),
}

/// The 3-way merge engine.
pub struct MergeEngine;

/// Marker line that opens a conflict (our side follows).
pub open spec fn ours_marker() -> Seq<char> {
    "<<<<<<< OURS"@
}

/// Marker line between the two sides of a conflict.
pub open spec fn sep_marker() -> Seq<char> {
    "======="@
}

/// Marker line that closes a conflict (after their side).
pub open spec fn theirs_marker() -> Seq<char> {
    ">>>>>>> THEIRS"@
}

/// The lines of a conflict block between `ol` and `tl`.
pub open spec fn conflict_block(ol: Seq<char>, tl: Seq<char>) -> Seq<Seq<char>> {
    seq![ours_marker(), ol, sep_marker(), tl, theirs_marker()]
}

/// The merge of `b[bi..]`, `o[oi..]`, `t[ti..]`, walking the three line
/// lists position by position (`ml` is the length of the longest list):
/// the merged lines, and whether a conflict was met.
pub open spec fn merge_from(
    b: Seq<Seq<char>>,
    o: Seq<Seq<char>>,
    t: Seq<Seq<char>>,
    bi: int,
    oi: int,
    ti: int,
    ml: int,
) -> (Seq<Seq<char>>, bool)
    decreases (ml - bi) + (o.len() - oi) + (t.len() - ti), 1int,
    when 0 <= bi <= ml && 0 <= oi <= o.len() && 0 <= ti <= t.len() && b.len() <= ml
{
    if !(bi < ml || oi < o.len() || ti < t.len()) {
        (Seq::empty(), false)
    } else {
        let bs = bi < b.len();
        let os = oi < o.len();
        let ts = ti < t.len();
        if bs && os && ts {
            let bl = b[bi];
            let ol = o[oi];
            let tl = t[ti];
            let rest = merge_from(b, o, t, bi + 1, oi + 1, ti + 1, ml);
            if bl == ol && bl == tl {
                (seq![ol] + rest.0, rest.1)
            } else if bl == tl && bl != ol {
                (seq![ol] + rest.0, rest.1)
            } else if bl == ol && bl != tl {
                (seq![tl] + rest.0, rest.1)
            } else if ol == tl {
                (seq![ol] + rest.0, rest.1)
            } else {
                (conflict_block(ol, tl) + rest.0, true)
            }
        } else if !bs && os && !ts {
            let rest = merge_from(b, o, t, bi, oi + 1, ti, ml);
            (seq![o[oi]] + rest.0, rest.1)
        } else if !bs && !os && ts {
            let rest = merge_from(b, o, t, bi, oi, ti + 1, ml);
            (seq![t[ti]] + rest.0, rest.1)
        } else if !bs && os && ts {
            let rest = merge_from(b, o, t, bi, oi + 1, ti + 1, ml);
            if o[oi] == t[ti] {
                (seq![o[oi]] + rest.0, rest.1)
            } else {
                (conflict_block(o[oi], t[ti]) + rest.0, true)
            }
        } else {
            let oi2 = if os { oi + 1 } else { oi };
            let ti2 = if ts { ti + 1 } else { ti };
            let rest = merge_from(b, o, t, bi + 1, oi2, ti2, ml);
            let mine: Seq<Seq<char>> = if os { seq![o[oi]] } else { Seq::empty() };
            let theirs: Seq<Seq<char>> = if ts { seq![t[ti]] } else { Seq::empty() };
            (mine + theirs + rest.0, rest.1)
        }
    }
}

/// Length of the longest of three line lists.
pub open spec fn max3(a: int, b: int, c: int) -> int {
    let m = if a >= b { a } else { b };
    if m >= c { m } else { c }
}

/// The merged lines of three texts and whether they conflict: a side whose
/// lines are those of the base gives way to the other side (whatever that
/// side added, changed or deleted); when both sides changed, the lines are
/// merged position by position.
pub open spec fn merge_lines(base: Seq<char>, ours: Seq<char>, theirs: Seq<char>) -> (Seq<Seq<char>>, bool) {
    let b = lines(base);
    let o = lines(ours);
    let t = lines(theirs);
    if o == b {
        (t, false)
    } else if t == b {
        (o, false)
    } else {
        merge_from(b, o, t, 0, 0, 0, max3(b.len() as int, o.len() as int, t.len() as int))
    }
}

/// The result `merge3` gives on three texts.
pub open spec fn spec_merge3(base: Seq<char>, ours: Seq<char>, theirs: Seq<char>) -> (Seq<char>, bool) {
    let (ls, conflict) = merge_lines(base, ours, theirs);
    (join(ls, "\n"@), conflict)
}

/// The text of a merge result.
pub open spec fn merge_text(r: MergeResult) -> Seq<char> {
    match r {
        MergeResult::Clean(s) => s@,
        MergeResult::Conflict(s) => s@,
    }
}

/// Whether a text holds both conflict markers.
pub open spec fn spec_has_conflicts(text: Seq<char>) -> bool {
    contains_seq(text, ours_marker()) && contains_seq(text, theirs_marker())
}

// ---------------------------------------------------------------------------
// Laws
// ---------------------------------------------------------------------------

proof fn lemma_merge_swap(
    b: Seq<Seq<char>>,
    o: Seq<Seq<char>>,
    t: Seq<Seq<char>>,
    bi: int,
    oi: int,
    ti: int,
    ml: int,
)
    requires
        0 <= bi <= ml,
        0 <= oi <= o.len(),
        0 <= ti <= t.len(),
        b.len() <= ml,
    ensures
        merge_from(b, o, t, bi, oi, ti, ml).1 == merge_from(b, t, o, bi, ti, oi, ml).1,
        !merge_from(b, o, t, bi, oi, ti, ml).1 ==> merge_from(b, o, t, bi, oi, ti, ml).0 == merge_from(
            b,
            t,
            o,
            bi,
            ti,
            oi,
            ml,
        ).0,
    decreases (ml - bi) + (o.len() - oi) + (t.len() - ti),
{
    if bi < ml || oi < o.len() || ti < t.len() {
        let bs = bi < b.len();
        let os = oi < o.len();
        let ts = ti < t.len();
        if bs && os && ts {
            lemma_merge_swap(b, o, t, bi + 1, oi + 1, ti + 1, ml);
        } else if !bs && os && !ts {
            lemma_merge_swap(b, o, t, bi, oi + 1, ti, ml);
        } else if !bs && !os && ts {
            lemma_merge_swap(b, o, t, bi, oi, ti + 1, ml);
        } else if !bs && os && ts {
            lemma_merge_swap(b, o, t, bi, oi + 1, ti + 1, ml);
        } else {
            let oi2 = if os { oi + 1 } else { oi };
            let ti2 = if ts { ti + 1 } else { ti };
            lemma_merge_swap(b, o, t, bi + 1, oi2, ti2, ml);
            assert(!(os && ts));
            let mine: Seq<Seq<char>> = if os { seq![o[oi]] } else { Seq::empty() };
            let theirs: Seq<Seq<char>> = if ts { seq![t[ti]] } else { Seq::empty() };
            assert(mine + theirs =~= theirs + mine);
        }
    }
}

/// Swapping ours and theirs does not change whether a merge conflicts, and
/// a clean merge gives the same text either way (only the order of the two
/// sides inside conflict blocks changes).
pub proof fn law_merge_symmetric(base: Seq<char>, ours: Seq<char>, theirs: Seq<char>)
    ensures
        spec_merge3(base, ours, theirs).1 == spec_merge3(base, theirs, ours).1,
        !spec_merge3(base, ours, theirs).1 ==> spec_merge3(base, ours, theirs).0 == spec_merge3(
            base,
            theirs,
            ours,
        ).0,
{
    let b = lines(base);
    let o = lines(ours);
    let t = lines(theirs);
    let ml = max3(b.len() as int, o.len() as int, t.len() as int);
    assert(ml == max3(b.len() as int, t.len() as int, o.len() as int));
    if o != b && t != b {
        lemma_merge_swap(b, o, t, 0, 0, 0, ml);
    }
}

proof fn lemma_merge_same(b: Seq<Seq<char>>, x: Seq<Seq<char>>, bi: int, xi: int, ml: int)
    requires
        0 <= bi <= ml,
        0 <= xi <= x.len(),
        b.len() <= ml,
        x.len() <= ml,
        bi == xi || bi >= b.len() || xi == x.len(),
    ensures
        merge_from(b, x, x, bi, xi, xi, ml) == (x.skip(xi), false),
    decreases (ml - bi) + 2 * (x.len() - xi),
{
    if bi < ml || xi < x.len() {
        let bs = bi < b.len();
        let xs = xi < x.len();
        if bs && xs {
            lemma_merge_same(b, x, bi + 1, xi + 1, ml);
            assert(x.skip(xi) =~= seq![x[xi]] + x.skip(xi + 1));
        } else if !bs && xs {
            lemma_merge_same(b, x, bi, xi + 1, ml);
            assert(x.skip(xi) =~= seq![x[xi]] + x.skip(xi + 1));
        } else {
            lemma_merge_same(b, x, bi + 1, xi, ml);
            assert(Seq::<Seq<char>>::empty() + Seq::<Seq<char>>::empty() + x.skip(xi) =~= x.skip(xi));
        }
    } else {
        assert(x.skip(xi) =~= Seq::<Seq<char>>::empty());
    }
}

/// Merging a text with itself as both sides gives it back, without conflict:
/// `merge3(x, x, x)` is `Clean` with the lines of `x` joined by `\n`.
pub proof fn law_merge_identical(x: Seq<char>)
    ensures
        spec_merge3(x, x, x) == (join(lines(x), "\n"@), false),
{
}

/// When both sides agree, the merge takes their text whatever the base was,
/// without conflict.
pub proof fn law_merge_sides_agree(base: Seq<char>, x: Seq<char>)
    ensures
        spec_merge3(base, x, x) == (join(lines(x), "\n"@), false),
{
    let b = lines(base);
    let l = lines(x);
    if l != b {
        lemma_merge_same(b, l, 0, 0, max3(b.len() as int, l.len() as int, l.len() as int));
        assert(l.skip(0) =~= l);
    }
}

/// When only our side changed the base, the merge takes our text without
/// conflict, deletions included: `merge3(base, ours, base)` is `Clean`
/// with the lines of `ours` joined by `\n`.
pub proof fn law_merge_ours_only(base: Seq<char>, ours: Seq<char>)
    ensures
        spec_merge3(base, ours, base) == (join(lines(ours), "\n"@), false),
{
}

/// When only their side changed the base, the merge takes their text
/// without conflict, deletions included: `merge3(base, base, theirs)` is
/// `Clean` with the lines of `theirs` joined by `\n`.
pub proof fn law_merge_theirs_only(base: Seq<char>, theirs: Seq<char>)
    ensures
        spec_merge3(base, base, theirs) == (join(lines(theirs), "\n"@), false),
{
}

proof fn lemma_merge_conflict_markers(
    b: Seq<Seq<char>>,
    o: Seq<Seq<char>>,
    t: Seq<Seq<char>>,
    bi: int,
    oi: int,
    ti: int,
    ml: int,
)
    requires
        0 <= bi <= ml,
        0 <= oi <= o.len(),
        0 <= ti <= t.len(),
        b.len() <= ml,
        merge_from(b, o, t, bi, oi, ti, ml).1,
    ensures
        merge_from(b, o, t, bi, oi, ti, ml).0.contains(ours_marker()),
        merge_from(b, o, t, bi, oi, ti, ml).0.contains(theirs_marker()),
    decreases (ml - bi) + (o.len() - oi) + (t.len() - ti),
{
    let r = merge_from(b, o, t, bi, oi, ti, ml);
    let bs = bi < b.len();
    let os = oi < o.len();
    let ts = ti < t.len();
    if bs && os && ts {
        let rest = merge_from(b, o, t, bi + 1, oi + 1, ti + 1, ml);
        if rest.1 {
            lemma_merge_conflict_markers(b, o, t, bi + 1, oi + 1, ti + 1, ml);
            let k1 = choose|k: int| 0 <= k < rest.0.len() && rest.0[k] == ours_marker();
            let k2 = choose|k: int| 0 <= k < rest.0.len() && rest.0[k] == theirs_marker();
            let pre = r.0.len() - rest.0.len();
            assert(r.0[pre + k1] == ours_marker());
            assert(r.0[pre + k2] == theirs_marker());
        } else {
            assert(r.0[0] == ours_marker());
            assert(r.0[4] == theirs_marker());
        }
    } else if !bs && os && !ts {
        let rest = merge_from(b, o, t, bi, oi + 1, ti, ml);
        lemma_merge_conflict_markers(b, o, t, bi, oi + 1, ti, ml);
        let k1 = choose|k: int| 0 <= k < rest.0.len() && rest.0[k] == ours_marker();
        let k2 = choose|k: int| 0 <= k < rest.0.len() && rest.0[k] == theirs_marker();
        assert(r.0[1 + k1] == ours_marker());
        assert(r.0[1 + k2] == theirs_marker());
    } else if !bs && !os && ts {
        let rest = merge_from(b, o, t, bi, oi, ti + 1, ml);
        lemma_merge_conflict_markers(b, o, t, bi, oi, ti + 1, ml);
        let k1 = choose|k: int| 0 <= k < rest.0.len() && rest.0[k] == ours_marker();
        let k2 = choose|k: int| 0 <= k < rest.0.len() && rest.0[k] == theirs_marker();
        assert(r.0[1 + k1] == ours_marker());
        assert(r.0[1 + k2] == theirs_marker());
    } else if !bs && os && ts {
        let rest = merge_from(b, o, t, bi, oi + 1, ti + 1, ml);
        if rest.1 {
            lemma_merge_conflict_markers(b, o, t, bi, oi + 1, ti + 1, ml);
            let k1 = choose|k: int| 0 <= k < rest.0.len() && rest.0[k] == ours_marker();
            let k2 = choose|k: int| 0 <= k < rest.0.len() && rest.0[k] == theirs_marker();
            let pre = r.0.len() - rest.0.len();
            assert(r.0[pre + k1] == ours_marker());
            assert(r.0[pre + k2] == theirs_marker());
        } else {
            assert(r.0[0] == ours_marker());
            assert(r.0[4] == theirs_marker());
        }
    } else {
        let oi2 = if os { oi + 1 } else { oi };
        let ti2 = if ts { ti + 1 } else { ti };
        let rest = merge_from(b, o, t, bi + 1, oi2, ti2, ml);
        lemma_merge_conflict_markers(b, o, t, bi + 1, oi2, ti2, ml);
        let k1 = choose|k: int| 0 <= k < rest.0.len() && rest.0[k] == ours_marker();
        let k2 = choose|k: int| 0 <= k < rest.0.len() && rest.0[k] == theirs_marker();
        let pre = r.0.len() - rest.0.len();
        assert(r.0[pre + k1] == ours_marker());
        assert(r.0[pre + k2] == theirs_marker());
    }
}

/// A conflicting merge's text holds both conflict markers, so
/// `has_conflicts` recognises it.
pub proof fn law_conflict_has_markers(base: Seq<char>, ours: Seq<char>, theirs: Seq<char>)
    requires
        spec_merge3(base, ours, theirs).1,
    ensures
        spec_has_conflicts(spec_merge3(base, ours, theirs).0),
{
    let b = lines(base);
    let o = lines(ours);
    let t = lines(theirs);
    assert(o != b && t != b);
    let ml = max3(b.len() as int, o.len() as int, t.len() as int);
    lemma_merge_conflict_markers(b, o, t, 0, 0, 0, ml);
    let ls = merge_from(b, o, t, 0, 0, 0, ml).0;
    let k1 = choose|k: int| 0 <= k < ls.len() && ls[k] == ours_marker();
    let k2 = choose|k: int| 0 <= k < ls.len() && ls[k] == theirs_marker();
    lemma_join_contains(ls, "\n"@, k1);
    lemma_join_contains(ls, "\n"@, k2);
}

/// Where no position has both sides changed in different ways, merging the
/// three equally long line lists from position `k` takes, at each
/// position, our line if we changed it and their line otherwise.
proof fn lemma_merge_positions(b: Seq<Seq<char>>, o: Seq<Seq<char>>, t: Seq<Seq<char>>, k: int)
    requires
        o.len() == b.len(),
        t.len() == b.len(),
        0 <= k <= b.len(),
        forall|i: int| k <= i < b.len() ==> o[i] == b[i] || t[i] == b[i] || o[i] == t[i],
    ensures
        merge_from(b, o, t, k, k, k, b.len() as int) == (
            Seq::new((b.len() - k) as nat, |j: int| if o[k + j] != b[k + j] { o[k + j] } else { t[k + j] }),
            false,
        ),
    decreases b.len() - k,
{
    let n = b.len() as int;
    let m = Seq::new((n - k) as nat, |j: int| if o[k + j] != b[k + j] { o[k + j] } else { t[k + j] });
    if k == n {
        assert(m =~= Seq::<Seq<char>>::empty());
    } else {
        lemma_merge_positions(b, o, t, k + 1);
        let rest = Seq::new((n - (k + 1)) as nat, |j: int| if o[k + 1 + j] != b[k + 1 + j] { o[k + 1 + j] } else { t[k + 1 + j] });
        assert(m =~= seq![m[0]] + rest);
    }
}

/// Where no position has both sides changed in different ways, a conflict
/// flag from position `k` on needs a position from `k` on where the two
/// sides and the base all differ.
proof fn lemma_merge_conflict_at(b: Seq<Seq<char>>, o: Seq<Seq<char>>, t: Seq<Seq<char>>, k: int, i: int)
    requires
        o.len() == b.len(),
        t.len() == b.len(),
        0 <= k <= i < b.len(),
        o[i] != b[i],
        t[i] != b[i],
        o[i] != t[i],
    ensures
        merge_from(b, o, t, k, k, k, b.len() as int).1,
    decreases i - k,
{
    if k < i {
        lemma_merge_conflict_at(b, o, t, k + 1, i);
    }
}

/// A three-way merge of texts with the same number of lines, where no line
/// was changed by both sides in different ways, is clean and takes every
/// change: each line that only our side changed comes out as ours, each
/// line that only their side changed comes out as theirs, and a line that
/// neither changed stays as in the base.
pub proof fn law_merge_takes_both_sides_changes(base: Seq<char>, ours: Seq<char>, theirs: Seq<char>)
    requires
        lines(ours).len() == lines(base).len(),
        lines(theirs).len() == lines(base).len(),
        forall|i: int|
            0 <= i < lines(base).len() ==> lines(ours)[i] == lines(base)[i] || lines(theirs)[i] == lines(base)[i]
                || lines(ours)[i] == lines(theirs)[i],
    ensures
        ({
            let b = lines(base);
            let o = lines(ours);
            let t = lines(theirs);
            let m = Seq::new(b.len(), |i: int| if o[i] != b[i] { o[i] } else { t[i] });
            &&& spec_merge3(base, ours, theirs) == (join(m, "\n"@), false)
            &&& forall|i: int| 0 <= i < b.len() && o[i] != b[i] ==> m[i] == o[i]
            &&& forall|i: int| 0 <= i < b.len() && t[i] != b[i] ==> m[i] == t[i]
            &&& forall|i: int| 0 <= i < b.len() && o[i] == b[i] && t[i] == b[i] ==> m[i] == b[i]
        }),
{
    let b = lines(base);
    let o = lines(ours);
    let t = lines(theirs);
    let m = Seq::new(b.len(), |i: int| if o[i] != b[i] { o[i] } else { t[i] });
    if o == b {
        assert(m =~= t);
    } else if t == b {
        assert(m =~= o);
    } else {
        lemma_merge_positions(b, o, t, 0);
        assert(max3(b.len() as int, o.len() as int, t.len() as int) == b.len());
        let m0 = Seq::new((b.len() - 0) as nat, |j: int| if o[0 + j] != b[0 + j] { o[0 + j] } else { t[0 + j] });
        assert(m0 =~= m);
    }
}

/// A three-way merge of texts with the same number of lines conflicts when
/// some line was changed by both sides in different ways.
pub proof fn law_merge_conflicts_on_rival_changes(base: Seq<char>, ours: Seq<char>, theirs: Seq<char>, i: int)
    requires
        lines(ours).len() == lines(base).len(),
        lines(theirs).len() == lines(base).len(),
        0 <= i < lines(base).len(),
        lines(ours)[i] != lines(base)[i],
        lines(theirs)[i] != lines(base)[i],
        lines(ours)[i] != lines(theirs)[i],
    ensures
        spec_merge3(base, ours, theirs).1,
{
    let b = lines(base);
    let o = lines(ours);
    let t = lines(theirs);
    assert(o[i] != b[i]);
    assert(t[i] != b[i]);
    assert(max3(b.len() as int, o.len() as int, t.len() as int) == b.len());
    lemma_merge_conflict_at(b, o, t, 0, i);
}

/// Whether two lists of lines hold the same lines.
fn lines_eq(a: &Vec<String>, b: &Vec<String>) -> (r: bool)
    ensures
        r == (a.deep_view() == b.deep_view()),
{
    if a.len() != b.len() {
        assert(a.deep_view().len() != b.deep_view().len());
        return false;
    }
    let mut i: usize = 0;
    while i < a.len()
        invariant
            i <= a@.len(),
            a@.len() == b@.len(),
            forall|j: int| 0 <= j < i ==> a.deep_view()[j] == b.deep_view()[j],
        decreases a.len() - i,
    {
        if !string_eq(&a[i], &b[i]) {
            assert(a.deep_view()[i as int] != b.deep_view()[i as int]);
            return false;
        }
        i = i + 1;
    }
    assert(a.deep_view() =~= b.deep_view());
    true
}

/// Equality of two strings by content.
pub fn string_eq(a: &String, b: &String) -> (r: bool)
    ensures
        r == (a@ == b@),
{
    a.eq(b)
}

/// Whether `needle` occurs as a contiguous piece of `s`.
pub fn contains_str(s: &str, needle: &str) -> (r: bool)
    ensures
        r == contains_seq(s@, needle@),
{
    let vs = to_chars(s);
    let vn = to_chars(needle);
    if vn.len() > vs.len() {
        assert forall|i: int|
            0 <= i && i + vn@.len() <= vs@.len() implies #[trigger] vs@.subrange(i, i + vn@.len()) != vn@ by {}
        return false;
    }
    let last = vs.len() - vn.len();
    let mut i: usize = 0;
    while i <= last
        invariant
            last + vn@.len() == vs@.len(),
            vs@.len() == vs.len(),
            vn@.len() == vn.len(),
            vs@ == s@,
            vn@ == needle@,
            forall|k: int| 0 <= k < i ==> #[trigger] vs@.subrange(k, k + vn@.len()) != vn@,
        decreases last + 1 - i,
    {
        let mut j: usize = 0;
        while j < vn.len() && vs[i + j] == vn[j]
            invariant
                i <= last,
                last + vn@.len() == vs@.len(),
                vs@.len() == vs.len(),
                vn@.len() == vn.len(),
                j <= vn@.len(),
                forall|q: int| 0 <= q < j ==> vs@[i + q] == vn@[q],
            decreases vn.len() - j,
        {
            j = j + 1;
        }
        if j == vn.len() {
            assert(vs@.subrange(i as int, i + vn@.len()) =~= vn@);
            return true;
        }
        assert(vs@.subrange(i as int, i + vn@.len())[j as int] != vn@[j as int]);
        i = i + 1;
    }
    false
}

impl MergeEngine {
    /// 3-way merge of `base` (common ancestor), `ours` and `theirs`: where
    /// one side has the base's lines, the other side's lines are taken;
    /// where both changed, the lines are merged position by position, a
    /// position where the sides differ from the base and from each other
    /// becoming a conflict block.
    pub fn merge3(base: &str, ours: &str, theirs: &str) -> (r: MergeResult)
        ensures
            merge_text(r) == spec_merge3(base@, ours@, theirs@).0,
            (r is Conflict) == spec_merge3(base@, ours@, theirs@).1,
    {
        let base_lines = split_lines(base);
        let ours_lines = split_lines(ours);
        let theirs_lines = split_lines(theirs);
        let ghost b = base_lines.deep_view();
        let ghost o = ours_lines.deep_view();
        let ghost t = theirs_lines.deep_view();
        if lines_eq(&ours_lines, &base_lines) {
            return MergeResult::Clean(join_strings(&theirs_lines, "\n"));
        }
        if lines_eq(&theirs_lines, &base_lines) {
            return MergeResult::Clean(join_strings(&ours_lines, "\n"));
        }

        let mut result: Vec<String> = Vec::new();
        let mut has_conflict = false;

        let mut max_len = base_lines.len();
        if ours_lines.len() > max_len {
            max_len = ours_lines.len();
        }
        if theirs_lines.len() > max_len {
            max_len = theirs_lines.len();
        }
        let ghost ml = max_len as int;
        assert(ml == max3(b.len() as int, o.len() as int, t.len() as int));

        let mut bi: usize = 0;
        let mut oi: usize = 0;
        let mut ti: usize = 0;
        assert(result.deep_view() =~= Seq::<Seq<char>>::empty());

        while bi < max_len || oi < ours_lines.len() || ti < theirs_lines.len()
            invariant
                b == base_lines.deep_view(),
                o == ours_lines.deep_view(),
                t == theirs_lines.deep_view(),
                b.len() <= ml,
                o.len() <= ml,
                t.len() <= ml,
                ml == max_len,
                bi <= max_len,
                oi <= ours_lines.len(),
                ti <= theirs_lines.len(),
                ({
                    let rest = merge_from(b, o, t, bi as int, oi as int, ti as int, ml);
                    &&& result.deep_view() + rest.0 == merge_from(b, o, t, 0, 0, 0, ml).0
                    &&& (has_conflict || rest.1) == merge_from(b, o, t, 0, 0, 0, ml).1
                }),
            decreases (max_len - bi) + (ours_lines.len() - oi) + (theirs_lines.len() - ti),
        {
            let ghost before = result.deep_view();
            let ghost rest_before = merge_from(b, o, t, bi as int, oi as int, ti as int, ml);
            let bs = bi < base_lines.len();
            let os = oi < ours_lines.len();
            let ts = ti < theirs_lines.len();
            if bs && os && ts {
                let bl = &base_lines[bi];
                let ol = &ours_lines[oi];
                let tl = &theirs_lines[ti];
                let b_o = string_eq(bl, ol);
                let b_t = string_eq(bl, tl);
                let o_t = string_eq(ol, tl);
                if (b_o && b_t) || (b_t && !b_o) || o_t {
                    result.push(ol.clone());
                    assert(result.deep_view() =~= before.push(o[oi as int]));
                } else if b_o && !b_t {
                    result.push(tl.clone());
                    assert(result.deep_view() =~= before.push(t[ti as int]));
                } else {
                    has_conflict = true;
                    result.push(String::from_str("<<<<<<< OURS"));
                    result.push(ol.clone());
                    result.push(String::from_str("======="));
                    result.push(tl.clone());
                    result.push(String::from_str(">>>>>>> THEIRS"));
                    assert(result.deep_view() =~= before + conflict_block(o[oi as int], t[ti as int]));
                }
                bi = bi + 1;
                oi = oi + 1;
                ti = ti + 1;
            } else if !bs && os && !ts {
                result.push(ours_lines[oi].clone());
                assert(result.deep_view() =~= before.push(o[oi as int]));
                oi = oi + 1;
            } else if !bs && !os && ts {
                result.push(theirs_lines[ti].clone());
                assert(result.deep_view() =~= before.push(t[ti as int]));
                ti = ti + 1;
            } else if !bs && os && ts {
                let ol = &ours_lines[oi];
                let tl = &theirs_lines[ti];
                if string_eq(ol, tl) {
                    result.push(ol.clone());
                    assert(result.deep_view() =~= before.push(o[oi as int]));
                } else {
                    has_conflict = true;
                    result.push(String::from_str("<<<<<<< OURS"));
                    result.push(ol.clone());
                    result.push(String::from_str("======="));
                    result.push(tl.clone());
                    result.push(String::from_str(">>>>>>> THEIRS"));
                    assert(result.deep_view() =~= before + conflict_block(o[oi as int], t[ti as int]));
                }
                oi = oi + 1;
                ti = ti + 1;
            } else {
                if os {
                    result.push(ours_lines[oi].clone());
                    oi = oi + 1;
                }
                if ts {
                    result.push(theirs_lines[ti].clone());
                    ti = ti + 1;
                }
                bi = bi + 1;
                let ghost mine: Seq<Seq<char>> = if os { seq![o[oi - 1]] } else { Seq::empty() };
                let ghost theirs_part: Seq<Seq<char>> = if ts { seq![t[ti - 1]] } else { Seq::empty() };
                assert(result.deep_view() =~= before + mine + theirs_part);
            }
            proof {
                let rest_after = merge_from(b, o, t, bi as int, oi as int, ti as int, ml);
                assert(before + rest_before.0 =~= result.deep_view() + rest_after.0);
            }
        }
        let merged = join_strings(&result, "\n");
        if has_conflict {
            MergeResult::Conflict(merged)
        } else {
            MergeResult::Clean(merged)
        }
    }

    /// Whether merged text holds both conflict markers.
    pub fn has_conflicts(text: &str) -> (r: bool)
        ensures
            r == spec_has_conflicts(text@),
    {
        contains_str(text, "<<<<<<< OURS") && contains_str(text, ">>>>>>> THEIRS")
    }
}

} // verus!
