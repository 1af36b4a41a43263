//! Myers diff for lines and words, and unified-diff hunks.
use vstd::prelude::*;
use vstd::string::*;
use crate::text::{split_lines, split_words, lines, words, decimal, push_char, push_decimal};
use crate::merge::string_eq;

verus! {

/// Kind of a diff line.
#[derive(Debug, Clone, Copy, PartialEq, Eq, Structural)]
pub enum DiffLineType {
    Context,
    Added,
    Removed,
}

/// One line of a hunk, with its line numbers on each side (1-based).
#[derive(Debug)]
pub struct DiffLine {
    pub line_type: DiffLineType,
    pub content: String,
    pub old_lineno: Option<usize>,
    pub new_lineno: Option<usize>,
}

/// A hunk of a unified diff.
#[derive(Debug)]
pub struct DiffHunk {
    pub old_start: usize,
    pub old_count: usize,
    pub new_start: usize,
    pub new_count: usize,
    pub lines: Vec<DiffLine>,
}

/// The diff engine.
pub struct DiffEngine;

impl DiffHunk {
    /// The hunk in unified-diff notation: the `@@ -a,b +c,d @@` header line,
    /// then each line behind its ` `, `+` or `-` mark.
    pub fn to_string(&self) -> (r: String)
        ensures
            r@ == hunk_text(self@),
    {
        let mut s = String::new();
        push_char(&mut s, '@');
        push_char(&mut s, '@');
        push_char(&mut s, ' ');
        push_char(&mut s, '-');
        push_decimal(&mut s, self.old_start as u64);
        push_char(&mut s, ',');
        push_decimal(&mut s, self.old_count as u64);
        push_char(&mut s, ' ');
        push_char(&mut s, '+');
        push_decimal(&mut s, self.new_start as u64);
        push_char(&mut s, ',');
        push_decimal(&mut s, self.new_count as u64);
        push_char(&mut s, ' ');
        push_char(&mut s, '@');
        push_char(&mut s, '@');
        push_char(&mut s, '\n');
        let ghost head = s@;
        let mut i: usize = 0;
        while i < self.lines.len()
            invariant
                i <= self.lines@.len(),
                s@ == head + lines_text(lines_view(self.lines@.take(i as int))),
            decreases self.lines.len() - i,
        {
            let line = &self.lines[i];
            let c = match line.line_type {
                DiffLineType::Context => ' ',
                DiffLineType::Added => '+',
                DiffLineType::Removed => '-',
            };
            push_char(&mut s, c);
            crate::text::push_str(&mut s, line.content.as_str());
            push_char(&mut s, '\n');
            proof {
                assert(lines_view(self.lines@.take(i + 1)).drop_last() =~= lines_view(self.lines@.take(i as int)));
            }
            i = i + 1;
        }
        proof {
            assert(self.lines@.take(self.lines@.len() as int) =~= self.lines@);
            assert(s@ =~= hunk_text(self@));
        }
        s
    }
}

/// One step of an edit script.
pub enum Edit {
    Equal(String),
    Insert(String),
    Delete(String),
}

// ---------------------------------------------------------------------------
// Edit scripts
// ---------------------------------------------------------------------------

/// The text an edit carries.
pub open spec fn edit_text(e: Edit) -> Seq<char> {
    match e {
        Edit::Equal(s) => s@,
        Edit::Insert(s) => s@,
        Edit::Delete(s) => s@,
    }
}

/// The items of the old side that a script walks through (equal and
/// deleted items, in order).
pub open spec fn old_side(es: Seq<Edit>) -> Seq<Seq<char>>
    decreases es.len(),
{
    if es.len() == 0 {
        Seq::empty()
    } else {
        let rest = old_side(es.drop_first());
        match es[0] {
            Edit::Insert(_) => rest,
            _ => seq![edit_text(es[0])] + rest,
        }
    }
}

/// The items of the new side that a script walks through (equal and
/// inserted items, in order).
pub open spec fn new_side(es: Seq<Edit>) -> Seq<Seq<char>>
    decreases es.len(),
{
    if es.len() == 0 {
        Seq::empty()
    } else {
        let rest = new_side(es.drop_first());
        match es[0] {
            Edit::Delete(_) => rest,
            _ => seq![edit_text(es[0])] + rest,
        }
    }
}

/// `es` is an edit script from `a` to `b`: it walks through all of `a` and
/// all of `b`, and each `Equal` step stands for an item of both.
pub open spec fn is_script(es: Seq<Edit>, a: Seq<Seq<char>>, b: Seq<Seq<char>>) -> bool {
    old_side(es) == a && new_side(es) == b
}

/// Every step of the script is an `Equal` step.
pub open spec fn all_equal(es: Seq<Edit>) -> bool {
    forall|i: int| 0 <= i < es.len() ==> (#[trigger] es[i]) is Equal
}

/// A script is no longer than its two sides together.
proof fn lemma_script_len(es: Seq<Edit>)
    ensures
        es.len() <= old_side(es).len() + new_side(es).len(),
    decreases es.len(),
{
    if es.len() > 0 {
        lemma_script_len(es.drop_first());
    }
}

proof fn lemma_sides_prepend(e: Edit, es: Seq<Edit>)
    ensures
        old_side(seq![e] + es) == match e {
            Edit::Insert(_) => old_side(es),
            _ => seq![edit_text(e)] + old_side(es),
        },
        new_side(seq![e] + es) == match e {
            Edit::Delete(_) => new_side(es),
            _ => seq![edit_text(e)] + new_side(es),
        },
{
    assert((seq![e] + es).drop_first() =~= es);
}

proof fn lemma_sides_append(a: Seq<Edit>, b: Seq<Edit>)
    ensures
        old_side(a + b) == old_side(a) + old_side(b),
        new_side(a + b) == new_side(a) + new_side(b),
    decreases a.len(),
{
    if a.len() == 0 {
        assert(a + b =~= b);
    } else {
        lemma_sides_append(a.drop_first(), b);
        assert((a + b).drop_first() =~= a.drop_first() + b);
    }
}

// ---------------------------------------------------------------------------
// The cost of a script
// ---------------------------------------------------------------------------

/// Number of insertions and deletions in a script.
pub open spec fn edit_cost(es: Seq<Edit>) -> nat
    decreases es.len(),
{
    if es.len() == 0 {
        0
    } else {
        edit_cost(es.drop_last()) + if es.last() is Equal { 0nat } else { 1nat }
    }
}

/// `es` is an edit script from `a` to `b` with no more insertions and
/// deletions than any other.
pub open spec fn shortest_script(es: Seq<Edit>, a: Seq<Seq<char>>, b: Seq<Seq<char>>) -> bool {
    &&& is_script(es, a, b)
    &&& forall|other: Seq<Edit>| #[trigger] is_script(other, a, b) ==> edit_cost(es) <= edit_cost(other)
}

proof fn lemma_cost_prepend(e: Edit, es: Seq<Edit>)
    ensures
        edit_cost(seq![e] + es) == edit_cost(es) + if e is Equal { 0nat } else { 1nat },
    decreases es.len(),
{
    if es.len() > 0 {
        lemma_cost_prepend(e, es.drop_last());
        assert((seq![e] + es).drop_last() =~= seq![e] + es.drop_last());
        assert((seq![e] + es).last() == es.last());
    } else {
        assert(seq![e] + es =~= seq![e]);
        assert(seq![e].drop_last() =~= Seq::<Edit>::empty());
        assert(edit_cost(Seq::<Edit>::empty()) == 0);
        assert(edit_cost(es) == 0);
        assert(seq![e].last() == e);
    }
}

proof fn lemma_cost_reverse(es: Seq<Edit>)
    ensures
        edit_cost(es.reverse()) == edit_cost(es),
    decreases es.len(),
{
    if es.len() > 0 {
        lemma_cost_reverse(es.drop_last());
        assert(es.reverse() =~= seq![es.last()] + es.drop_last().reverse());
        lemma_cost_prepend(es.last(), es.drop_last().reverse());
    }
}

// ---------------------------------------------------------------------------
// The Myers search, as a specification
// ---------------------------------------------------------------------------

/// Length of the run of equal items of `a[x..]` and `b[y..]`.
pub open spec fn run(a: Seq<Seq<char>>, b: Seq<Seq<char>>, x: int, y: int) -> int
    decreases a.len() - x,
{
    if 0 <= x < a.len() && 0 <= y < b.len() && a[x] == b[y] {
        1 + run(a, b, x + 1, y + 1)
    } else {
        0
    }
}

/// Diagonal `k` is visited in round `d`.
pub open spec fn in_round(d: int, k: int) -> bool {
    0 <= d && -d <= k <= d && (d - k) % 2 == 0
}

/// Whether round `d` reaches diagonal `k` by a step down (from `k + 1`)
/// rather than a step right (from `k - 1`).
pub open spec fn goes_down(a: Seq<Seq<char>>, b: Seq<Seq<char>>, d: int, k: int) -> bool
    decreases d, 0int,
{
    if d <= 0 {
        true
    } else {
        k == -d || (k != d && far(a, b, d - 1, k - 1) < far(a, b, d - 1, k + 1))
    }
}

/// Where round `d` starts on diagonal `k` (its x coordinate).
pub open spec fn start_x(a: Seq<Seq<char>>, b: Seq<Seq<char>>, d: int, k: int) -> int
    decreases d, 1int,
{
    if d <= 0 {
        0
    } else if goes_down(a, b, d, k) {
        far(a, b, d - 1, k + 1)
    } else {
        far(a, b, d - 1, k - 1) + 1
    }
}

/// The furthest x that the search reaches on diagonal `k` in round `d`.
pub open spec fn far(a: Seq<Seq<char>>, b: Seq<Seq<char>>, d: int, k: int) -> int
    decreases d, 2int,
{
    if d < 0 {
        0
    } else {
        let sx = start_x(a, b, d, k);
        sx + run(a, b, sx, sx - k)
    }
}

/// The point reached on diagonal `k` in round `d` lies at or beyond the end
/// of both sequences.
pub open spec fn reaches_end(a: Seq<Seq<char>>, b: Seq<Seq<char>>, d: int, k: int) -> bool {
    far(a, b, d, k) >= a.len() && far(a, b, d, k) - k >= b.len()
}

/// No round before `d` reached the end, and round `d` did not on the
/// diagonals below `k`.
pub open spec fn not_done_before(a: Seq<Seq<char>>, b: Seq<Seq<char>>, d: int, k: int) -> bool {
    &&& forall|d2: int, k2: int| 0 <= d2 < d && in_round(d2, k2) ==> !#[trigger] reaches_end(a, b, d2, k2)
    &&& forall|k2: int| in_round(d, k2) && k2 < k ==> !#[trigger] reaches_end(a, b, d, k2)
}

pub proof fn lemma_run(a: Seq<Seq<char>>, b: Seq<Seq<char>>, x: int, y: int)
    requires
        0 <= x,
        0 <= y,
    ensures
        run(a, b, x, y) >= 0,
        run(a, b, x, y) > 0 ==> x + run(a, b, x, y) <= a.len() && y + run(a, b, x, y) <= b.len(),
        forall|i: int| 0 <= i < run(a, b, x, y) ==> #[trigger] a[x + i] == b[y + i],
    decreases a.len() - x,
{
    if 0 <= x < a.len() && 0 <= y < b.len() && a[x] == b[y] {
        lemma_run(a, b, x + 1, y + 1);
        assert forall|i: int| 0 <= i < run(a, b, x, y) implies #[trigger] a[x + i] == b[y + i] by {
            if i > 0 {
                assert(a[(x + 1) + (i - 1)] == b[(y + 1) + (i - 1)]);
            }
        }
    }
}

proof fn lemma_run_ge(a: Seq<Seq<char>>, b: Seq<Seq<char>>, x: int, y: int, r: int)
    requires
        0 <= x,
        0 <= y,
        0 <= r,
        x + r <= a.len(),
        y + r <= b.len(),
        forall|i: int| 0 <= i < r ==> #[trigger] a[x + i] == b[y + i],
    ensures
        run(a, b, x, y) >= r,
    decreases r,
{
    if r > 0 {
        assert(a[x + 0] == b[y + 0]);
        assert(a[x] == b[y]);
        assert forall|i: int| 0 <= i < r - 1 implies #[trigger] a[(x + 1) + i] == b[(y + 1) + i] by {
            assert(a[x + (i + 1)] == b[y + (i + 1)]);
        }
        lemma_run_ge(a, b, x + 1, y + 1, r - 1);
        assert(run(a, b, x, y) == 1 + run(a, b, x + 1, y + 1));
    } else {
        lemma_run(a, b, x, y);
    }
}

proof fn lemma_run_is(a: Seq<Seq<char>>, b: Seq<Seq<char>>, x: int, y: int, r: int)
    requires
        0 <= x,
        0 <= y,
        0 <= r,
        x + r <= a.len(),
        y + r <= b.len(),
        forall|i: int| 0 <= i < r ==> #[trigger] a[x + i] == b[y + i],
        x + r == a.len() || y + r == b.len() || a[x + r] != b[y + r],
    ensures
        run(a, b, x, y) == r,
    decreases r,
{
    if r > 0 {
        assert(a[x + 0] == b[y + 0]);
        assert forall|i: int| 0 <= i < r - 1 implies #[trigger] a[(x + 1) + i] == b[(y + 1) + i] by {
            assert(a[x + (i + 1)] == b[y + (i + 1)]);
        }
        lemma_run_is(a, b, x + 1, y + 1, r - 1);
    }
}

/// The reached points lie in the quarter plane, at most `d` beyond the ends.
pub proof fn lemma_far_bounds(a: Seq<Seq<char>>, b: Seq<Seq<char>>, d: int, k: int)
    requires
        in_round(d, k),
    ensures
        0 <= start_x(a, b, d, k) <= far(a, b, d, k),
        0 <= start_x(a, b, d, k) - k <= far(a, b, d, k) - k,
        far(a, b, d, k) <= a.len() + d,
        far(a, b, d, k) - k <= b.len() + d,
        start_x(a, b, d, k) >= a.len() ==> far(a, b, d, k) == start_x(a, b, d, k),
        start_x(a, b, d, k) - k >= b.len() ==> far(a, b, d, k) == start_x(a, b, d, k),
        start_x(a, b, d, k) < a.len() && start_x(a, b, d, k) - k < b.len() ==> far(a, b, d, k) <= a.len() && far(a, b, d, k) - k <= b.len(),
    decreases d,
{
    if d > 0 {
        if goes_down(a, b, d, k) {
            lemma_far_bounds(a, b, d - 1, k + 1);
        } else {
            lemma_far_bounds(a, b, d - 1, k - 1);
        }
    }
    let sx = start_x(a, b, d, k);
    lemma_run(a, b, sx, sx - k);
}

/// Round `d` reaches at least as far on diagonal `k` as a step down from
/// round `d - 1` on `k + 1` would.
proof fn lemma_far_ge_down(a: Seq<Seq<char>>, b: Seq<Seq<char>>, d: int, k: int)
    requires
        in_round(d, k),
        d >= 1,
        k != d,
    ensures
        far(a, b, d, k) >= far(a, b, d - 1, k + 1),
{
    lemma_far_bounds(a, b, d, k);
}

/// Round `d` reaches at least as far on diagonal `k` as a step right from
/// round `d - 1` on `k - 1` would.
proof fn lemma_far_ge_right(a: Seq<Seq<char>>, b: Seq<Seq<char>>, d: int, k: int)
    requires
        in_round(d, k),
        d >= 1,
        k != -d,
    ensures
        far(a, b, d, k) >= far(a, b, d - 1, k - 1) + 1,
{
    lemma_far_bounds(a, b, d, k);
}

/// A point `j` steps beyond the end of `a` was already `j` rounds earlier
/// at or beyond that end, on a diagonal `j` lower, no lower down.
proof fn lemma_back_x(a: Seq<Seq<char>>, b: Seq<Seq<char>>, d: int, k: int, j: int)
    requires
        in_round(d, k),
        0 <= j <= far(a, b, d, k) - a.len(),
    ensures
        in_round(d - j, k - j),
        far(a, b, d - j, k - j) >= a.len(),
        far(a, b, d - j, k - j) - (k - j) >= far(a, b, d, k) - k,
    decreases d,
{
    if j > 0 {
        lemma_far_bounds(a, b, d, k);
        let x = far(a, b, d, k);
        let sx = start_x(a, b, d, k);
        assert(sx == x);
        if d == 0 {
            lemma_run(a, b, 0, 0);
        } else if goes_down(a, b, d, k) {
            assert(in_round(d - 1, k + 1));
            lemma_back_x(a, b, d - 1, k + 1, j);
            lemma_far_ge_down(a, b, d - j, k - j);
        } else {
            assert(in_round(d - 1, k - 1));
            lemma_back_x(a, b, d - 1, k - 1, j - 1);
        }
    }
}

/// A point `j` steps beyond the end of `b` was already `j` rounds earlier
/// at or beyond that end, on a diagonal `j` higher, no further left.
proof fn lemma_back_y(a: Seq<Seq<char>>, b: Seq<Seq<char>>, d: int, k: int, j: int)
    requires
        in_round(d, k),
        0 <= j <= far(a, b, d, k) - k - b.len(),
    ensures
        in_round(d - j, k + j),
        far(a, b, d - j, k + j) - (k + j) >= b.len(),
        far(a, b, d - j, k + j) >= far(a, b, d, k),
    decreases d,
{
    if j > 0 {
        lemma_far_bounds(a, b, d, k);
        let x = far(a, b, d, k);
        let sx = start_x(a, b, d, k);
        assert(sx == x);
        if d == 0 {
            lemma_run(a, b, 0, 0);
        } else if goes_down(a, b, d, k) {
            assert(in_round(d - 1, k + 1));
            lemma_back_y(a, b, d - 1, k + 1, j - 1);
        } else {
            assert(in_round(d - 1, k - 1));
            lemma_back_y(a, b, d - 1, k - 1, j);
            lemma_far_ge_right(a, b, d - j, k + j);
        }
    }
}

/// On two equal sequences the first round runs straight to the end.
proof fn lemma_identical_reaches(a: Seq<Seq<char>>)
    ensures
        far(a, a, 0, 0) == a.len(),
        reaches_end(a, a, 0, 0),
{
    assert forall|i: int| 0 <= i < a.len() implies #[trigger] a[0 + i] == a[0 + i] by {}
    lemma_run_is(a, a, 0, 0, a.len() as int);
}

/// The first point the search finds at or beyond both ends is exactly the
/// pair of ends.
pub proof fn lemma_first_end_is_exact(a: Seq<Seq<char>>, b: Seq<Seq<char>>, d: int, k: int)
    requires
        in_round(d, k),
        reaches_end(a, b, d, k),
        not_done_before(a, b, d, k),
    ensures
        far(a, b, d, k) == a.len(),
        far(a, b, d, k) - k == b.len(),
{
    let x = far(a, b, d, k);
    let y = x - k;
    if x > a.len() {
        let j = x - a.len();
        lemma_back_x(a, b, d, k, j);
        assert(reaches_end(a, b, d - j, k - j));
    }
    if y > b.len() {
        let j = y - b.len();
        lemma_back_y(a, b, d, k, j);
        assert(reaches_end(a, b, d - j, k + j));
    }
}

/// A run ends where it ends: past it, the run is empty.
proof fn lemma_run_end(a: Seq<Seq<char>>, b: Seq<Seq<char>>, x: int, y: int)
    requires
        0 <= x,
        0 <= y,
    ensures
        run(a, b, x + run(a, b, x, y), y + run(a, b, x, y)) == 0,
    decreases a.len() - x,
{
    if 0 <= x < a.len() && 0 <= y < b.len() && a[x] == b[y] {
        lemma_run_end(a, b, x + 1, y + 1);
    }
}

/// The furthest-reaching property of the search: a piece of a script that
/// walks through the first `x` items of `a` and the first `y` of `b` with
/// `c` insertions and deletions ends on a diagonal visited in round `c`,
/// and round `c` reaches at least as far on it.
proof fn lemma_path_far(a: Seq<Seq<char>>, b: Seq<Seq<char>>, p: Seq<Edit>)
    requires
        old_side(p).len() <= a.len(),
        new_side(p).len() <= b.len(),
        old_side(p) == a.take(old_side(p).len() as int),
        new_side(p) == b.take(new_side(p).len() as int),
    ensures
        in_round(edit_cost(p) as int, old_side(p).len() - new_side(p).len()),
        far(a, b, edit_cost(p) as int, old_side(p).len() - new_side(p).len()) >= old_side(p).len(),
    decreases p.len(),
{
    let c = edit_cost(p) as int;
    let x = old_side(p).len() as int;
    let y = new_side(p).len() as int;
    let k = x - y;
    if p.len() == 0 {
        lemma_run(a, b, 0, 0);
    } else {
        let q = p.drop_last();
        let e = p.last();
        assert(p =~= q + seq![e]);
        lemma_sides_append(q, seq![e]);
        lemma_sides_prepend(e, Seq::empty());
        assert(seq![e] + Seq::<Edit>::empty() =~= seq![e]);
        let qx = old_side(q).len() as int;
        let qy = new_side(q).len() as int;
        assert(old_side(q) =~= a.take(qx)) by {
            assert(old_side(p).take(qx) =~= old_side(q));
        }
        assert(new_side(q) =~= b.take(qy)) by {
            assert(new_side(p).take(qy) =~= new_side(q));
        }
        lemma_path_far(a, b, q);
        match e {
            Edit::Equal(t) => {
                assert(qx == x - 1 && qy == y - 1);
                assert(edit_cost(q) == c);
                lemma_far_bounds(a, b, c, k);
                let f = far(a, b, c, k);
                if f < x {
                    assert(f == x - 1);
                    let sx = start_x(a, b, c, k);
                    lemma_run_end(a, b, sx, sx - k);
                    assert(a[x - 1] == old_side(p)[x - 1]);
                    assert(b[y - 1] == new_side(p)[y - 1]);
                    assert(old_side(p)[x - 1] == t@);
                    assert(new_side(p)[y - 1] == t@);
                    assert(run(a, b, x - 1, y - 1) == 1 + run(a, b, x, y));
                    lemma_run(a, b, x, y);
                }
            },
            Edit::Insert(t) => {
                assert(qx == x && qy == y - 1);
                assert(edit_cost(q) == c - 1);
                assert(in_round(c - 1, k + 1));
                lemma_far_ge_down(a, b, c, k);
            },
            Edit::Delete(t) => {
                assert(qx == x - 1 && qy == y);
                assert(edit_cost(q) == c - 1);
                assert(in_round(c - 1, k - 1));
                lemma_far_ge_right(a, b, c, k);
            },
        }
    }
}

/// Every script from `a` to `b` costs at least the first round that
/// reaches the end of both.
proof fn lemma_cost_at_least(a: Seq<Seq<char>>, b: Seq<Seq<char>>, d: int, es: Seq<Edit>)
    requires
        is_script(es, a, b),
        forall|d2: int, k2: int| 0 <= d2 < d && in_round(d2, k2) ==> !#[trigger] reaches_end(a, b, d2, k2),
    ensures
        edit_cost(es) >= d,
{
    assert(a.take(a.len() as int) =~= a);
    assert(b.take(b.len() as int) =~= b);
    lemma_path_far(a, b, es);
    let c = edit_cost(es) as int;
    let k = a.len() - b.len();
    assert(reaches_end(a, b, c, k));
}

// ---------------------------------------------------------------------------
// The script the search picks
// ---------------------------------------------------------------------------

/// What an edit step says: its kind and its text.
pub enum EditView {
    Same(Seq<char>),
    Added(Seq<char>),
    Removed(Seq<char>),
}

pub open spec fn edit_view(e: Edit) -> EditView {
    match e {
        Edit::Equal(s) => EditView::Same(s@),
        Edit::Insert(s) => EditView::Added(s@),
        Edit::Delete(s) => EditView::Removed(s@),
    }
}

pub open spec fn edits_view(es: Seq<Edit>) -> Seq<EditView> {
    es.map_values(|e: Edit| edit_view(e))
}

/// `a[lo..hi]` kept.
pub open spec fn same_run(a: Seq<Seq<char>>, lo: int, hi: int) -> Seq<EditView> {
    Seq::new((hi - lo) as nat, |i: int| EditView::Same(a[lo + i]))
}

/// The script the walk back from `(x, y)` in round `d` builds, in forward
/// order: back in round 0 it keeps `a[..x]`; in a later round it keeps the
/// run of equal items back to where the round started on its diagonal,
/// takes the one deletion (a step right) or insertion (a step down) that
/// led there from round `d - 1`, and goes on from that point, stopping at
/// the start of both sequences.
#[verifier::opaque]
pub open spec fn back_script(a: Seq<Seq<char>>, b: Seq<Seq<char>>, d: int, x: int, y: int) -> Seq<EditView>
    decreases d,
{
    if d <= 0 {
        same_run(a, 0, x)
    } else {
        let k = x - y;
        let pk = if goes_down(a, b, d, k) { k + 1 } else { k - 1 };
        let px = far(a, b, d - 1, pk);
        let py = px - pk;
        let steps = if x - px <= y - py { x - px } else { y - py };
        let x1 = x - steps;
        let y1 = y - steps;
        let step: Seq<EditView> = if x1 > px {
            seq![EditView::Removed(a[x1 - 1])]
        } else if y1 > py {
            seq![EditView::Added(b[y1 - 1])]
        } else {
            Seq::empty()
        };
        let x2 = if x1 > px { x1 - 1 } else { x1 };
        let y2 = if x1 > px { y1 } else if y1 > py { y1 - 1 } else { y1 };
        let before = if x2 == 0 && y2 == 0 { Seq::empty() } else { back_script(a, b, d - 1, x2, y2) };
        before + step + same_run(a, x1, x)
    }
}

/// The first round whose search reaches the end of both sequences.
pub open spec fn first_round(a: Seq<Seq<char>>, b: Seq<Seq<char>>) -> int {
    choose|d: int|
        #![trigger reaches_end(a, b, d, a.len() - b.len())]
        0 <= d && in_round(d, a.len() - b.len()) && reaches_end(a, b, d, a.len() - b.len()) && forall|d2: int, k2: int|
            0 <= d2 < d && in_round(d2, k2) ==> !#[trigger] reaches_end(a, b, d2, k2)
}

/// The script the Myers search gives: every item of `a` removed, then every
/// item of `b` added, where one side is empty; otherwise the walk back from
/// the end of both in the first round that reaches it.
pub open spec fn myers_script(a: Seq<Seq<char>>, b: Seq<Seq<char>>) -> Seq<EditView> {
    if a.len() == 0 || b.len() == 0 {
        a.map_values(|t: Seq<char>| EditView::Removed(t)) + b.map_values(|t: Seq<char>| EditView::Added(t))
    } else {
        back_script(a, b, first_round(a, b), a.len() as int, b.len() as int)
    }
}

proof fn lemma_back_zero(a: Seq<Seq<char>>, b: Seq<Seq<char>>, x: int, y: int)
    ensures
        back_script(a, b, 0, x, y) == same_run(a, 0, x),
{
    reveal(back_script);
}

/// One round of the walk back, with its pieces given.
proof fn lemma_back_round(
    a: Seq<Seq<char>>,
    b: Seq<Seq<char>>,
    d: int,
    x0: int,
    y0: int,
    pk: int,
    px: int,
    x1: int,
    y1: int,
    x2: int,
    y2: int,
    st: Seq<EditView>,
)
    requires
        d > 0,
        pk == if goes_down(a, b, d, x0 - y0) { x0 - y0 + 1 } else { x0 - y0 - 1 },
        px == far(a, b, d - 1, pk),
        x0 - x1 == y0 - y1,
        x1 <= x0,
        x1 >= px,
        y1 >= px - pk,
        x1 == px || y1 == px - pk,
        x1 > px ==> x2 == x1 - 1 && y2 == y1 && st == seq![EditView::Removed(a[x1 - 1])],
        x1 <= px && y1 > px - pk ==> x2 == x1 && y2 == y1 - 1 && st == seq![EditView::Added(b[y1 - 1])],
        x1 <= px && y1 <= px - pk ==> x2 == x1 && y2 == y1 && st == Seq::<EditView>::empty(),
    ensures
        back_script(a, b, d, x0, y0) == (if x2 == 0 && y2 == 0 {
            Seq::<EditView>::empty()
        } else {
            back_script(a, b, d - 1, x2, y2)
        }) + st + same_run(a, x1, x0),
{
    reveal(back_script);
    let py = px - pk;
    let steps = if x0 - px <= y0 - py { x0 - px } else { y0 - py };
    assert(x1 == x0 - steps && y1 == y0 - steps);
}

/// The first round is the one that reaches the end when no earlier one did.
proof fn lemma_first_round(a: Seq<Seq<char>>, b: Seq<Seq<char>>, d: int)
    requires
        0 <= d,
        in_round(d, a.len() - b.len()),
        reaches_end(a, b, d, a.len() - b.len()),
        forall|d2: int, k2: int| 0 <= d2 < d && in_round(d2, k2) ==> !#[trigger] reaches_end(a, b, d2, k2),
    ensures
        first_round(a, b) == d,
{
    let k = a.len() - b.len();
    let f = first_round(a, b);
    assert(0 <= f && in_round(f, k) && reaches_end(a, b, f, k) && forall|d2: int, k2: int|
        0 <= d2 < f && in_round(d2, k2) ==> !#[trigger] reaches_end(a, b, d2, k2));
    if f < d {
        assert(!reaches_end(a, b, f, k));
    }
    if f > d {
        assert(!reaches_end(a, b, d, k));
    }
}

proof fn lemma_view_push_rev(es: Seq<Edit>, e: Edit)
    ensures
        edits_view(es.push(e).reverse()) == seq![edit_view(e)] + edits_view(es.reverse()),
{
    assert(edits_view(es.push(e).reverse()) =~= seq![edit_view(e)] + edits_view(es.reverse()));
}

// ---------------------------------------------------------------------------
// Hunks, as a specification
// ---------------------------------------------------------------------------

/// What a diff line says: its kind, its text and its line numbers.
pub struct LineSpec {
    pub kind: DiffLineType,
    pub text: Seq<char>,
    pub old_no: Option<int>,
    pub new_no: Option<int>,
}

/// What a hunk says.
pub struct HunkSpec {
    pub old_start: int,
    pub old_count: int,
    pub new_start: int,
    pub new_count: int,
    pub lines: Seq<LineSpec>,
}

pub open spec fn opt_int(o: Option<usize>) -> Option<int> {
    match o {
        Some(n) => Some(n as int),
        None => None,
    }
}

impl View for DiffLine {
    type V = LineSpec;

    open spec fn view(&self) -> LineSpec {
        LineSpec {
            kind: self.line_type,
            text: self.content@,
            old_no: opt_int(self.old_lineno),
            new_no: opt_int(self.new_lineno),
        }
    }
}

pub open spec fn lines_view(ls: Seq<DiffLine>) -> Seq<LineSpec> {
    ls.map_values(|l: DiffLine| l@)
}

impl View for DiffHunk {
    type V = HunkSpec;

    open spec fn view(&self) -> HunkSpec {
        HunkSpec {
            old_start: self.old_start as int,
            old_count: self.old_count as int,
            new_start: self.new_start as int,
            new_count: self.new_count as int,
            lines: lines_view(self.lines@),
        }
    }
}

pub open spec fn hunks_view(hs: Seq<DiffHunk>) -> Seq<HunkSpec> {
    hs.map_values(|h: DiffHunk| h@)
}

/// Number of lines that are not of kind `kind`.
pub open spec fn count_other(ls: Seq<LineSpec>, kind: DiffLineType) -> int
    decreases ls.len(),
{
    if ls.len() == 0 {
        0
    } else {
        count_other(ls.drop_last(), kind) + if ls.last().kind != kind { 1int } else { 0int }
    }
}

/// The hunk made of `ls`, starting at the given line numbers.
pub open spec fn close_hunk(old_start: int, new_start: int, ls: Seq<LineSpec>) -> HunkSpec {
    HunkSpec {
        old_start,
        old_count: count_other(ls, DiffLineType::Added),
        new_start,
        new_count: count_other(ls, DiffLineType::Removed),
        lines: ls,
    }
}

/// `a - b`, or 0 where that is negative.
pub open spec fn sat_sub(a: int, b: int) -> int {
    if a >= b { a - b } else { 0 }
}

/// The state of the scan that groups an edit script into hunks.
pub struct HunkScan {
    pub done: Seq<HunkSpec>,
    pub cur: Seq<LineSpec>,
    pub old_line: int,
    pub new_line: int,
    pub old_start: int,
    pub new_start: int,
    pub in_hunk: bool,
    pub trailing: int,
}

pub open spec fn scan_start() -> HunkScan {
    HunkScan {
        done: Seq::empty(),
        cur: Seq::empty(),
        old_line: 1,
        new_line: 1,
        old_start: 0,
        new_start: 0,
        in_hunk: false,
        trailing: 0,
    }
}

/// One step of the scan: a change opens a hunk (or extends the open one);
/// an equal line extends an open hunk as context, and `2 * context` equal
/// lines in a row close it.
pub open spec fn scan_step(s: HunkScan, e: Edit, context: int) -> HunkScan {
    match e {
        Edit::Equal(t) => {
            if s.in_hunk {
                let cur = s.cur.push(
                    LineSpec {
                        kind: DiffLineType::Context,
                        text: t@,
                        old_no: Some(s.old_line),
                        new_no: Some(s.new_line),
                    },
                );
                if s.trailing + 1 >= 2 * context {
                    HunkScan {
                        done: s.done.push(close_hunk(s.old_start, s.new_start, cur)),
                        cur: Seq::empty(),
                        old_line: s.old_line + 1,
                        new_line: s.new_line + 1,
                        old_start: s.old_start,
                        new_start: s.new_start,
                        in_hunk: false,
                        trailing: s.trailing + 1,
                    }
                } else {
                    HunkScan {
                        done: s.done,
                        cur,
                        old_line: s.old_line + 1,
                        new_line: s.new_line + 1,
                        old_start: s.old_start,
                        new_start: s.new_start,
                        in_hunk: true,
                        trailing: s.trailing + 1,
                    }
                }
            } else {
                HunkScan { old_line: s.old_line + 1, new_line: s.new_line + 1, ..s }
            }
        },
        Edit::Delete(t) => HunkScan {
            done: s.done,
            cur: s.cur.push(
                LineSpec {
                    kind: DiffLineType::Removed,
                    text: t@,
                    old_no: Some(s.old_line),
                    new_no: None,
                },
            ),
            old_line: s.old_line + 1,
            new_line: s.new_line,
            old_start: if s.in_hunk { s.old_start } else { sat_sub(s.old_line, context) },
            new_start: if s.in_hunk { s.new_start } else { sat_sub(s.new_line, context) },
            in_hunk: true,
            trailing: 0,
        },
        Edit::Insert(t) => HunkScan {
            done: s.done,
            cur: s.cur.push(
                LineSpec {
                    kind: DiffLineType::Added,
                    text: t@,
                    old_no: None,
                    new_no: Some(s.new_line),
                },
            ),
            old_line: s.old_line,
            new_line: s.new_line + 1,
            old_start: if s.in_hunk { s.old_start } else { sat_sub(s.old_line, context) },
            new_start: if s.in_hunk { s.new_start } else { sat_sub(s.new_line, context) },
            in_hunk: true,
            trailing: 0,
        },
    }
}

/// The scan after the whole script.
pub open spec fn scan(es: Seq<Edit>, context: int) -> HunkScan
    decreases es.len(),
{
    if es.len() == 0 {
        scan_start()
    } else {
        scan_step(scan(es.drop_last(), context), es.last(), context)
    }
}

/// The hunks of an edit script: those the scan closed, and the open one.
pub open spec fn hunks_of(es: Seq<Edit>, context: int) -> Seq<HunkSpec> {
    let s = scan(es, context);
    if s.cur.len() > 0 {
        s.done.push(close_hunk(s.old_start, s.new_start, s.cur))
    } else {
        s.done
    }
}

/// The mark in front of a diff line of each kind.
pub open spec fn line_prefix(k: DiffLineType) -> char {
    match k {
        DiffLineType::Context => ' ',
        DiffLineType::Added => '+',
        DiffLineType::Removed => '-',
    }
}

/// The lines of a hunk as text: mark, content and a newline for each.
pub open spec fn lines_text(ls: Seq<LineSpec>) -> Seq<char>
    decreases ls.len(),
{
    if ls.len() == 0 {
        Seq::empty()
    } else {
        lines_text(ls.drop_last()) + seq![line_prefix(ls.last().kind)] + ls.last().text + seq!['\n']
    }
}

/// A hunk as text: the `@@ -a,b +c,d @@` header line, then its lines.
pub open spec fn hunk_text(h: HunkSpec) -> Seq<char> {
    seq!['@', '@', ' ', '-'] + decimal(h.old_start as nat) + seq![','] + decimal(h.old_count as nat)
        + seq![' ', '+'] + decimal(h.new_start as nat) + seq![','] + decimal(h.new_count as nat)
        + seq![' ', '@', '@', '\n'] + lines_text(h.lines)
}

/// The kind and text of each step of a script.
pub open spec fn tag(e: Edit) -> (DiffLineType, Seq<char>) {
    match e {
        Edit::Equal(t) => (DiffLineType::Context, t@),
        Edit::Insert(t) => (DiffLineType::Added, t@),
        Edit::Delete(t) => (DiffLineType::Removed, t@),
    }
}

pub open spec fn tagged_view(p: (DiffLineType, String)) -> (DiffLineType, Seq<char>) {
    (p.0, p.1@)
}

pub open spec fn tagged_views(ps: Seq<(DiffLineType, String)>) -> Seq<(DiffLineType, Seq<char>)> {
    ps.map_values(|p: (DiffLineType, String)| tagged_view(p))
}

pub open spec fn tags(es: Seq<Edit>) -> Seq<(DiffLineType, Seq<char>)> {
    es.map_values(|e: Edit| tag(e))
}

/// The texts of a tagged list that belong to the old side: the context
/// and removed ones, in order.
pub open spec fn old_texts(ts: Seq<(DiffLineType, Seq<char>)>) -> Seq<Seq<char>>
    decreases ts.len(),
{
    if ts.len() == 0 {
        Seq::empty()
    } else if ts[0].0 == DiffLineType::Added {
        old_texts(ts.drop_first())
    } else {
        seq![ts[0].1] + old_texts(ts.drop_first())
    }
}

/// The texts of a tagged list that belong to the new side: the context
/// and added ones, in order.
pub open spec fn new_texts(ts: Seq<(DiffLineType, Seq<char>)>) -> Seq<Seq<char>>
    decreases ts.len(),
{
    if ts.len() == 0 {
        Seq::empty()
    } else if ts[0].0 == DiffLineType::Removed {
        new_texts(ts.drop_first())
    } else {
        seq![ts[0].1] + new_texts(ts.drop_first())
    }
}

/// Tagging the steps of an edit script loses neither side: the texts
/// tagged context or removed are, in order, the items the script takes
/// from the old side, and those tagged context or added are the items it
/// gives on the new side.
pub proof fn law_tags_keep_both_sides(es: Seq<Edit>)
    ensures
        old_texts(tags(es)) == old_side(es),
        new_texts(tags(es)) == new_side(es),
    decreases es.len(),
{
    if es.len() > 0 {
        law_tags_keep_both_sides(es.drop_first());
        assert(tags(es).drop_first() =~= tags(es.drop_first()));
        assert(tags(es)[0] == tag(es[0]));
    }
}

/// A script of equal steps opens no hunk.
proof fn lemma_all_equal_no_hunks(es: Seq<Edit>, context: int)
    requires
        all_equal(es),
    ensures
        hunks_of(es, context).len() == 0,
        scan(es, context).done.len() == 0,
        scan(es, context).cur.len() == 0,
        !scan(es, context).in_hunk,
    decreases es.len(),
{
    if es.len() > 0 {
        assert(all_equal(es.drop_last()));
        lemma_all_equal_no_hunks(es.drop_last(), context);
        assert(es.last() is Equal);
    }
}

// ---------------------------------------------------------------------------
// Laws of hunks
// ---------------------------------------------------------------------------

/// The change a diff line records: nothing for context, else its kind and text.
pub open spec fn line_change(l: LineSpec) -> Seq<(DiffLineType, Seq<char>)> {
    if l.kind == DiffLineType::Context {
        Seq::empty()
    } else {
        seq![(l.kind, l.text)]
    }
}

/// The changes recorded by a list of lines, in order.
pub open spec fn line_changes(ls: Seq<LineSpec>) -> Seq<(DiffLineType, Seq<char>)>
    decreases ls.len(),
{
    if ls.len() == 0 {
        Seq::empty()
    } else {
        line_changes(ls.drop_last()) + line_change(ls.last())
    }
}

/// The changes recorded by a list of hunks, in order.
pub open spec fn hunk_changes(hs: Seq<HunkSpec>) -> Seq<(DiffLineType, Seq<char>)>
    decreases hs.len(),
{
    if hs.len() == 0 {
        Seq::empty()
    } else {
        hunk_changes(hs.drop_last()) + line_changes(hs.last().lines)
    }
}

/// The changes of an edit script: its inserted and deleted items, in order.
pub open spec fn edit_changes(es: Seq<Edit>) -> Seq<(DiffLineType, Seq<char>)>
    decreases es.len(),
{
    if es.len() == 0 {
        Seq::empty()
    } else {
        edit_changes(es.drop_last()) + match es.last() {
            Edit::Equal(_) => Seq::empty(),
            Edit::Insert(t) => seq![(DiffLineType::Added, t@)],
            Edit::Delete(t) => seq![(DiffLineType::Removed, t@)],
        }
    }
}

proof fn lemma_line_changes_push(ls: Seq<LineSpec>, l: LineSpec)
    ensures
        line_changes(ls.push(l)) == line_changes(ls) + line_change(l),
{
    assert(ls.push(l).drop_last() =~= ls);
}

proof fn lemma_hunk_changes_push(hs: Seq<HunkSpec>, h: HunkSpec)
    ensures
        hunk_changes(hs.push(h)) == hunk_changes(hs) + line_changes(h.lines),
{
    assert(hs.push(h).drop_last() =~= hs);
}

proof fn lemma_scan_changes(es: Seq<Edit>, context: int)
    ensures
        hunk_changes(scan(es, context).done) + line_changes(scan(es, context).cur) == edit_changes(es),
    decreases es.len(),
{
    if es.len() == 0 {
        assert(hunk_changes(Seq::<HunkSpec>::empty()) + line_changes(Seq::<LineSpec>::empty()) =~= Seq::<(DiffLineType, Seq<char>)>::empty());
    } else {
        let p = es.drop_last();
        let st = scan(p, context);
        lemma_scan_changes(p, context);
        let ns = scan(es, context);
        match es.last() {
            Edit::Equal(t) => {
                if st.in_hunk {
                    let l = LineSpec { kind: DiffLineType::Context, text: t@, old_no: Some(st.old_line), new_no: Some(st.new_line) };
                    lemma_line_changes_push(st.cur, l);
                    assert(line_change(l) =~= Seq::<(DiffLineType, Seq<char>)>::empty());
                    if st.trailing + 1 >= 2 * context {
                        lemma_hunk_changes_push(st.done, close_hunk(st.old_start, st.new_start, st.cur.push(l)));
                        assert(line_changes(Seq::<LineSpec>::empty()) =~= Seq::<(DiffLineType, Seq<char>)>::empty());
                    }
                }
                assert(hunk_changes(ns.done) + line_changes(ns.cur) =~= edit_changes(es));
            },
            Edit::Delete(t) => {
                let l = LineSpec { kind: DiffLineType::Removed, text: t@, old_no: Some(st.old_line), new_no: None };
                lemma_line_changes_push(st.cur, l);
                assert(hunk_changes(ns.done) + line_changes(ns.cur) =~= edit_changes(es));
            },
            Edit::Insert(t) => {
                let l = LineSpec { kind: DiffLineType::Added, text: t@, old_no: None, new_no: Some(st.new_line) };
                lemma_line_changes_push(st.cur, l);
                assert(hunk_changes(ns.done) + line_changes(ns.cur) =~= edit_changes(es));
            },
        }
    }
}

/// The hunks record every change of the script, in order, and nothing
/// else: read one after the other, their added and removed lines are the
/// inserted and deleted items of the script.
pub proof fn law_hunks_keep_changes(es: Seq<Edit>, context: int)
    ensures
        hunk_changes(hunks_of(es, context)) == edit_changes(es),
{
    lemma_scan_changes(es, context);
    let st = scan(es, context);
    if st.cur.len() > 0 {
        lemma_hunk_changes_push(st.done, close_hunk(st.old_start, st.new_start, st.cur));
    } else {
        assert(st.cur =~= Seq::<LineSpec>::empty());
        assert(line_changes(st.cur) =~= Seq::<(DiffLineType, Seq<char>)>::empty());
        assert(hunk_changes(st.done) + line_changes(st.cur) =~= hunk_changes(st.done));
    }
}

/// A diff line agrees with the two inputs: its line numbers (1-based) point
/// at items of the sides it belongs to, and those items are its text.
pub open spec fn line_matches(l: LineSpec, a: Seq<Seq<char>>, b: Seq<Seq<char>>) -> bool {
    match l.kind {
        DiffLineType::Context => {
            &&& l.old_no matches Some(i) && 1 <= i <= a.len() && a[i - 1] == l.text
            &&& l.new_no matches Some(j) && 1 <= j <= b.len() && b[j - 1] == l.text
        },
        DiffLineType::Removed => {
            &&& l.old_no matches Some(i) && 1 <= i <= a.len() && a[i - 1] == l.text
            &&& l.new_no is None
        },
        DiffLineType::Added => {
            &&& l.old_no is None
            &&& l.new_no matches Some(j) && 1 <= j <= b.len() && b[j - 1] == l.text
        },
    }
}

pub open spec fn all_lines_match(ls: Seq<LineSpec>, a: Seq<Seq<char>>, b: Seq<Seq<char>>) -> bool {
    forall|i: int| 0 <= i < ls.len() ==> line_matches(#[trigger] ls[i], a, b)
}

pub open spec fn all_hunks_match(hs: Seq<HunkSpec>, a: Seq<Seq<char>>, b: Seq<Seq<char>>) -> bool {
    forall|i: int| 0 <= i < hs.len() ==> all_lines_match(#[trigger] hs[i].lines, a, b)
}

proof fn lemma_sides_push(p: Seq<Edit>, e: Edit)
    ensures
        old_side(p.push(e)) == match e {
            Edit::Insert(_) => old_side(p),
            _ => old_side(p).push(edit_text(e)),
        },
        new_side(p.push(e)) == match e {
            Edit::Delete(_) => new_side(p),
            _ => new_side(p).push(edit_text(e)),
        },
{
    lemma_sides_append(p, seq![e]);
    assert(p.push(e) =~= p + seq![e]);
    lemma_sides_prepend(e, Seq::empty());
    assert(seq![e] + Seq::<Edit>::empty() =~= seq![e]);
    assert(old_side(Seq::<Edit>::empty()) =~= Seq::<Seq<char>>::empty());
    assert(old_side(p) + seq![edit_text(e)] =~= old_side(p).push(edit_text(e)));
    assert(new_side(p) + seq![edit_text(e)] =~= new_side(p).push(edit_text(e)));
    assert(old_side(p) + Seq::<Seq<char>>::empty() =~= old_side(p));
    assert(new_side(p) + Seq::<Seq<char>>::empty() =~= new_side(p));
}

proof fn lemma_scan_lines(es: Seq<Edit>, a: Seq<Seq<char>>, b: Seq<Seq<char>>, context: int)
    requires
        old_side(es).is_prefix_of(a),
        new_side(es).is_prefix_of(b),
    ensures
        scan(es, context).old_line == old_side(es).len() + 1,
        scan(es, context).new_line == new_side(es).len() + 1,
        all_hunks_match(scan(es, context).done, a, b),
        all_lines_match(scan(es, context).cur, a, b),
    decreases es.len(),
{
    if es.len() > 0 {
        let p = es.drop_last();
        let e = es.last();
        assert(p.push(e) =~= es);
        lemma_sides_push(p, e);
        let st = scan(p, context);
        assert(old_side(p).is_prefix_of(a)) by {
            assert(old_side(p).len() <= old_side(es).len());
            assert forall|i: int| 0 <= i < old_side(p).len() implies #[trigger] old_side(p)[i] == a[i] by {
                assert(old_side(p)[i] == old_side(es)[i]);
            }
        }
        assert(new_side(p).is_prefix_of(b)) by {
            assert(new_side(p).len() <= new_side(es).len());
            assert forall|i: int| 0 <= i < new_side(p).len() implies #[trigger] new_side(p)[i] == b[i] by {
                assert(new_side(p)[i] == new_side(es)[i]);
            }
        }
        lemma_scan_lines(p, a, b, context);
        let ns = scan(es, context);
        match e {
            Edit::Equal(t) => {
                let l = LineSpec { kind: DiffLineType::Context, text: t@, old_no: Some(st.old_line), new_no: Some(st.new_line) };
                assert(old_side(es)[old_side(p).len() as int] == t@);
                assert(new_side(es)[new_side(p).len() as int] == t@);
                assert(line_matches(l, a, b));
                assert(all_lines_match(st.cur.push(l), a, b)) by {
                    assert forall|i: int| 0 <= i < st.cur.push(l).len() implies line_matches(#[trigger] st.cur.push(l)[i], a, b) by {
                        if i < st.cur.len() {
                            assert(st.cur.push(l)[i] == st.cur[i]);
                        }
                    }
                }
                if st.in_hunk && st.trailing + 1 >= 2 * context {
                    let h = close_hunk(st.old_start, st.new_start, st.cur.push(l));
                    assert forall|i: int| 0 <= i < st.done.push(h).len() implies all_lines_match(#[trigger] st.done.push(h)[i].lines, a, b) by {
                        if i < st.done.len() {
                            assert(st.done.push(h)[i] == st.done[i]);
                        }
                    }
                }
            },
            Edit::Delete(t) => {
                let l = LineSpec { kind: DiffLineType::Removed, text: t@, old_no: Some(st.old_line), new_no: None };
                assert(old_side(es)[old_side(p).len() as int] == t@);
                assert(line_matches(l, a, b));
                assert forall|i: int| 0 <= i < st.cur.push(l).len() implies line_matches(#[trigger] st.cur.push(l)[i], a, b) by {
                    if i < st.cur.len() {
                        assert(st.cur.push(l)[i] == st.cur[i]);
                    }
                }
            },
            Edit::Insert(t) => {
                let l = LineSpec { kind: DiffLineType::Added, text: t@, old_no: None, new_no: Some(st.new_line) };
                assert(new_side(es)[new_side(p).len() as int] == t@);
                assert(line_matches(l, a, b));
                assert forall|i: int| 0 <= i < st.cur.push(l).len() implies line_matches(#[trigger] st.cur.push(l)[i], a, b) by {
                    if i < st.cur.len() {
                        assert(st.cur.push(l)[i] == st.cur[i]);
                    }
                }
            },
        }
    }
}

/// Every line of every hunk agrees with the two inputs: a removed line is
/// the old item at its old line number, an added line the new item at its
/// new line number, and a context line both.
pub proof fn law_hunk_lines_match_inputs(es: Seq<Edit>, a: Seq<Seq<char>>, b: Seq<Seq<char>>, context: int)
    requires
        is_script(es, a, b),
    ensures
        all_hunks_match(hunks_of(es, context), a, b),
{
    assert(old_side(es).is_prefix_of(a));
    assert(new_side(es).is_prefix_of(b));
    lemma_scan_lines(es, a, b, context);
    let st = scan(es, context);
    if st.cur.len() > 0 {
        let h = close_hunk(st.old_start, st.new_start, st.cur);
        assert forall|i: int| 0 <= i < st.done.push(h).len() implies all_lines_match(#[trigger] st.done.push(h)[i].lines, a, b) by {
            if i < st.done.len() {
                assert(st.done.push(h)[i] == st.done[i]);
            }
        }
    }
}

// ---------------------------------------------------------------------------
// Executable search
// ---------------------------------------------------------------------------

proof fn lemma_deep_view_at(v: &Vec<String>, i: int)
    requires
        0 <= i < v@.len(),
    ensures
        v.deep_view().len() == v@.len(),
        v.deep_view()[i] == v@[i]@,
{
}

/// A copy of a vector of integers.
fn copy_vec(v: &Vec<i64>) -> (r: Vec<i64>)
    ensures
        r@ == v@,
{
    let mut out: Vec<i64> = Vec::new();
    let mut i: usize = 0;
    while i < v.len()
        invariant
            i <= v@.len(),
            out@ == v@.take(i as int),
        decreases v.len() - i,
    {
        out.push(v[i]);
        assert(v@.take(i + 1) =~= v@.take(i as int).push(v@[i as int]));
        i = i + 1;
    }
    assert(v@.take(v@.len() as int) =~= v@);
    out
}

/// The array `v` holds the points of round `d` (for `d < 0`: nothing).
pub open spec fn holds_round(a: Seq<Seq<char>>, b: Seq<Seq<char>>, v: Seq<i64>, off: int, d: int) -> bool {
    forall|k: int| #![trigger far(a, b, d, k)] in_round(d, k) ==> v[k + off] == far(a, b, d, k)
}

impl DiffEngine {
    /// Line diff of two texts: the lines of each (as `str::lines` splits
    /// them) are compared with the Myers search, which finds a shortest
    /// edit script (the one `myers_script` describes), and the script is
    /// grouped into hunks with three lines of context.
    pub fn diff(old: &str, new: &str) -> (r: Vec<DiffHunk>)
        requires
            lines(old@).len() + lines(new@).len() <= 0x3fff_ffff,
        ensures
            exists|es: Seq<Edit>|
                #[trigger] shortest_script(es, lines(old@), lines(new@))
                && edits_view(es) == myers_script(lines(old@), lines(new@))
                && hunks_view(r@) == hunks_of(es, 3),
            old@ == new@ ==> r@.len() == 0,
    {
        let old_lines = split_lines(old);
        let new_lines = split_lines(new);
        let edits = Self::myers_diff(&old_lines, &new_lines);
        proof {
            lemma_script_len(edits@);
            if old@ == new@ {
                lemma_all_equal_no_hunks(edits@, 3);
            }
        }
        let r = Self::build_hunks(&edits, 3);
        assert(shortest_script(edits@, lines(old@), lines(new@)));
        r
    }

    /// Word diff of two lines: the white-space separated words of each are
    /// compared with the Myers search (a shortest edit script); each step
    /// comes out with its kind.
    pub fn word_diff(old: &str, new: &str) -> (r: Vec<(DiffLineType, String)>)
        requires
            words(old@).len() + words(new@).len() <= 0x3fff_ffff,
        ensures
            exists|es: Seq<Edit>|
                #[trigger] shortest_script(es, words(old@), words(new@))
                && edits_view(es) == myers_script(words(old@), words(new@))
                && tagged_views(r@) == tags(es),
            old@ == new@ ==> forall|i: int| 0 <= i < r@.len() ==> (#[trigger] r@[i]).0 == DiffLineType::Context,
            old_texts(tagged_views(r@)) == words(old@),
            new_texts(tagged_views(r@)) == words(new@),
    {
        let old_words = split_words(old);
        let new_words = split_words(new);
        let edits = Self::myers_diff(&old_words, &new_words);
        let mut result: Vec<(DiffLineType, String)> = Vec::new();
        let mut i: usize = 0;
        while i < edits.len()
            invariant
                i <= edits@.len(),
                tagged_views(result@)
                    == tags(edits@.take(i as int)),
            decreases edits.len() - i,
        {
            let ghost before = result@;
            match &edits[i] {
                Edit::Equal(s) => {
                    result.push((DiffLineType::Context, s.clone()));
                },
                Edit::Insert(s) => {
                    result.push((DiffLineType::Added, s.clone()));
                },
                Edit::Delete(s) => {
                    result.push((DiffLineType::Removed, s.clone()));
                },
            }
            proof {
                assert(tagged_view(result@.last()) == tag(edits@[i as int]));
                assert(result@ == before.push(result@.last()));
                let rm = tagged_views(result@);
                let bm = tagged_views(before);
                let em = tags(edits@.take(i + 1));
                let pm = tags(edits@.take(i as int));
                assert(rm.len() == result@.len());
                assert(bm.len() == before.len());
                assert(pm.len() == i);
                assert(em.len() == i + 1);
                assert forall|j: int| 0 <= j < rm.len() implies rm[j] == em[j] by {
                    if j < i {
                        assert(bm[j] == pm[j]);
                    }
                }
                assert(rm =~= em);
            }
            i = i + 1;
        }
        proof {
            assert(edits@.take(edits@.len() as int) =~= edits@);
            assert(shortest_script(edits@, words(old@), words(new@)));
            law_tags_keep_both_sides(edits@);
            assert(tagged_views(result@).len() == result@.len());
            assert(tags(edits@).len() == edits@.len());
            if old@ == new@ {
                assert forall|j: int| 0 <= j < result@.len() implies (#[trigger] result@[j]).0 == DiffLineType::Context by {
                    assert(tagged_views(result@)[j]
                        == tags(edits@)[j]);
                    assert(tagged_view(result@[j]) == tag(edits@[j]));
                    assert(edits@[j] is Equal);
                }
            }
        }
        result
    }

    /// Core Myers search: a shortest edit script from `old_items` to
    /// `new_items`.
    #[verifier::rlimit(60)]
    fn myers_diff(old_items: &Vec<String>, new_items: &Vec<String>) -> (r: Vec<Edit>)
        requires
            old_items@.len() + new_items@.len() <= 0x3fff_ffff,
        ensures
            shortest_script(r@, old_items.deep_view(), new_items.deep_view()),
            old_items.deep_view() == new_items.deep_view() ==> all_equal(r@),
            edits_view(r@) == myers_script(old_items.deep_view(), new_items.deep_view()),
    {
        let ghost a = old_items.deep_view();
        let ghost b = new_items.deep_view();
        let n = old_items.len();
        let m = new_items.len();

        if n == 0 && m == 0 {
            assert(a =~= Seq::<Seq<char>>::empty());
            assert(b =~= Seq::<Seq<char>>::empty());
            let r: Vec<Edit> = Vec::new();
            assert(edit_cost(r@) == 0);
            assert(edits_view(r@) =~= myers_script(a, b));
            return r;
        }
        if n == 0 || m == 0 {
            assert(a.len() == n && b.len() == m);
            let r = Self::fallback(old_items, new_items);
            proof {
                assert forall|other: Seq<Edit>| #[trigger] is_script(other, a, b) implies edit_cost(r@) <= edit_cost(
                    other,
                ) by {
                    assert(a.take(a.len() as int) =~= a);
                    assert(b.take(b.len() as int) =~= b);
                    lemma_path_far(a, b, other);
                }
            }
            return r;
        }

        let max = n + m;
        let size = 2 * max + 1;
        let mut v: Vec<i64> = Vec::new();
        while v.len() < size
            invariant
                v@.len() <= size,
                forall|i: int| 0 <= i < v@.len() ==> v@[i] == 0,
            decreases size - v.len(),
        {
            v.push(0);
        }
        let mut trace: Vec<Vec<i64>> = Vec::new();
        let offset = max as i64;
        let ghost off = offset as int;

        let mut d: i64 = 0;
        while d <= max as i64
            invariant
                a == old_items.deep_view(),
                b == new_items.deep_view(),
                n == a.len(),
                m == b.len(),
                n >= 1,
                m >= 1,
                max == n + m,
                max <= 0x3fff_ffff,
                size == 2 * max + 1,
                off == max,
                offset == max,
                0 <= d <= max + 1,
                v@.len() == size,
                trace@.len() == d,
                d == 0 ==> forall|i: int| 0 <= i < v@.len() ==> v@[i] == 0,
                holds_round(a, b, v@, off, d - 1),
                forall|t: int| 0 <= t < d ==> (#[trigger] trace@[t])@.len() == size,
                forall|t: int| 0 <= t < d ==> holds_round(a, b, (#[trigger] trace@[t])@, off, t - 1),
                not_done_before(a, b, d as int, -d as int),
            decreases max + 1 - d,
        {
            proof {
                assert forall|k2: int| in_round(d as int, k2) && k2 < -d implies !#[trigger] reaches_end(a, b, d as int, k2) by {}
            }
            let ghost v0 = v@;
            trace.push(copy_vec(&v));
            let mut k: i64 = -d;
            while k <= d
                invariant
                    a == old_items.deep_view(),
                    b == new_items.deep_view(),
                    n == a.len(),
                    m == b.len(),
                    n >= 1,
                    m >= 1,
                    max == n + m,
                    max <= 0x3fff_ffff,
                    size == 2 * max + 1,
                    off == max,
                    offset == max,
                    0 <= d <= max,
                    -d <= k <= d + 2,
                    (k + d) % 2 == 0,
                    v@.len() == size,
                    trace@.len() == d + 1,
                    trace@[d as int]@ == v0,
                    d == 0 ==> forall|i: int| 0 <= i < v0.len() ==> v0[i] == 0,
                    holds_round(a, b, v0, off, d - 1),
                    forall|t: int| 0 <= t <= d ==> (#[trigger] trace@[t])@.len() == size,
                    forall|t: int| 0 <= t <= d ==> holds_round(a, b, (#[trigger] trace@[t])@, off, t - 1),
                    forall|j: int| #![trigger far(a, b, d as int, j)] in_round(d as int, j) && j < k ==> v@[j + off] == far(a, b, d as int, j),
                    forall|j: int| #![trigger far(a, b, d - 1, j)] in_round(d - 1, j) ==> v@[j + off] == far(a, b, d - 1, j),
                    d == 0 ==> forall|i: int| 0 <= i < v@.len() && i != off ==> v@[i] == 0,
                    not_done_before(a, b, d as int, k as int),
                decreases d + 2 - k,
            {
                let idx = (k + offset) as usize;
                proof {
                    lemma_far_bounds(a, b, d as int, k as int);
                    if d > 0 {
                        if k > -d {
                            lemma_far_bounds(a, b, d - 1, k - 1);
                        }
                        if k < d {
                            lemma_far_bounds(a, b, d - 1, k + 1);
                        }
                    }
                }
                let x: i64;
                if k == -d || (k != d && v[(k - 1 + offset) as usize] < v[(k + 1 + offset) as usize]) {
                    x = v[(k + 1 + offset) as usize];
                } else {
                    x = v[(k - 1 + offset) as usize] + 1;
                }
                proof {
                    if d > 0 {
                        assert(goes_down(a, b, d as int, k as int) == (k == -d || (k != d && v@[k - 1 + off] < v@[k + 1 + off])));
                    }
                    assert(x == start_x(a, b, d as int, k as int));
                }
                let mut xi = x;
                let mut y = x - k;
                let n_i = n as i64;
                let m_i = m as i64;
                while xi < n_i && y < m_i && string_eq(&old_items[xi as usize], &new_items[y as usize])
                    invariant
                        a == old_items.deep_view(),
                        b == new_items.deep_view(),
                        n == a.len(),
                        m == b.len(),
                        n_i == n,
                        m_i == m,
                        0 <= x <= xi,
                        y == xi - k,
                        0 <= x - k,
                        xi <= x + run(a, b, x as int, x - k),
                        xi <= n + d,
                        y <= m + d,
                        max <= 0x3fff_ffff,
                        0 <= d <= max,
                        forall|i: int| 0 <= i < xi - x ==> #[trigger] a[x + i] == b[x - k + i],
                    decreases n - xi,
                {
                    proof {
                        lemma_deep_view_at(old_items, xi as int);
                        lemma_deep_view_at(new_items, y as int);
                        assert(a[x + (xi - x)] == b[x - k + (xi - x)]);
                        lemma_run_ge(a, b, x as int, x - k, xi - x + 1);
                    }
                    xi += 1;
                    y += 1;
                }
                proof {
                    lemma_run(a, b, x as int, x - k);
                    if xi < n && y < m {
                        lemma_run_is(a, b, x as int, x - k, xi - x);
                    } else {
                        if x < n && x - k < m {
                            lemma_run_is(a, b, x as int, x - k, xi - x);
                        } else {
                            assert(run(a, b, x as int, x - k) == 0);
                        }
                    }
                    assert(xi == far(a, b, d as int, k as int));
                }
                v.set(idx, xi);
                proof {
                    assert forall|j: int| #![trigger far(a, b, d - 1, j)] in_round(d - 1, j) implies v@[j + off] == far(a, b, d - 1, j) by {
                        assert(j + off != k + off);
                    }
                }
                if (xi as usize) >= n && (y as usize) >= m {
                    proof {
                        assert(reaches_end(a, b, d as int, k as int));
                        lemma_first_end_is_exact(a, b, d as int, k as int);
                        if a == b && d > 0 {
                            lemma_identical_reaches(a);
                            assert(in_round(0, 0));
                        }
                    }
                    let r = Self::backtrack(&trace, old_items, new_items, offset, Ghost(d as int));
                    proof {
                        assert forall|other: Seq<Edit>| #[trigger] is_script(other, a, b) implies edit_cost(r@)
                            <= edit_cost(other) by {
                            lemma_cost_at_least(a, b, d as int, other);
                        }
                        assert(k == a.len() - b.len());
                        lemma_first_round(a, b, d as int);
                    }
                    return r;
                }
                proof {
                    assert(!reaches_end(a, b, d as int, k as int));
                    assert forall|k2: int| in_round(d as int, k2) && k2 < k + 2 implies !#[trigger] reaches_end(a, b, d as int, k2) by {
                        if k2 != k {
                            assert(k2 < k);
                        }
                    }
                }
                k += 2;
            }
            proof {
                assert(holds_round(a, b, v@, off, d as int)) by {
                    assert forall|j: int| #![trigger far(a, b, d as int, j)] in_round(d as int, j) implies v@[j + off] == far(a, b, d as int, j) by {
                        assert(j < k);
                    }
                }
                assert forall|d2: int, k2: int| 0 <= d2 < d + 1 && in_round(d2, k2) implies !#[trigger] reaches_end(a, b, d2, k2) by {
                    if d2 == d {
                        assert(k2 < k);
                    }
                }
            }
            d += 1;
        }
        let r = Self::fallback(old_items, new_items);
        proof {
            lemma_cost_at_least(a, b, d as int, r@);
            assert(false);
        }
        r
    }

    /// All of `old_items` deleted, then all of `new_items` inserted.
    fn fallback(old_items: &Vec<String>, new_items: &Vec<String>) -> (r: Vec<Edit>)
        ensures
            is_script(r@, old_items.deep_view(), new_items.deep_view()),
            edit_cost(r@) == old_items@.len() + new_items@.len(),
            edits_view(r@) == old_items.deep_view().map_values(|t: Seq<char>| EditView::Removed(t))
                + new_items.deep_view().map_values(|t: Seq<char>| EditView::Added(t)),
    {
        let mut result: Vec<Edit> = Vec::new();
        let mut i: usize = 0;
        while i < old_items.len()
            invariant
                i <= old_items@.len(),
                old_side(result@) == old_items.deep_view().take(i as int),
                new_side(result@) == Seq::<Seq<char>>::empty(),
                edit_cost(result@) == i,
                edits_view(result@) == old_items.deep_view().take(i as int).map_values(|t: Seq<char>| EditView::Removed(t)),
            decreases old_items.len() - i,
        {
            let ghost before = result@;
            let s = old_items[i].clone();
            let ghost sv = s@;
            result.push(Edit::Delete(s));
            proof {
                lemma_deep_view_at(old_items, i as int);
                assert(sv == old_items.deep_view()[i as int]);
                assert(result@ == before.push(result@.last()));
                assert(edit_view(result@.last()) == EditView::Removed(sv));
                assert(edits_view(result@) =~= edits_view(before).push(EditView::Removed(sv)));
                assert(old_items.deep_view().take(i + 1) =~= old_items.deep_view().take(i as int).push(sv));
                assert(edits_view(result@) =~= old_items.deep_view().take(i + 1).map_values(|t: Seq<char>| EditView::Removed(t)));
                assert(result@.drop_last() =~= before);
                lemma_sides_append(before, seq![result@.last()]);
                assert(result@ =~= before + seq![result@.last()]);
                lemma_sides_prepend(result@.last(), Seq::empty());
                assert(old_items.deep_view().take(i + 1) =~= old_items.deep_view().take(i as int) + seq![old_items[i as int]@]);
            }
            i = i + 1;
        }
        proof {
            assert(old_items.deep_view().take(old_items@.len() as int) =~= old_items.deep_view());
            assert(new_items.deep_view().take(0) =~= Seq::<Seq<char>>::empty());
            assert(edits_view(result@) =~= old_items.deep_view().map_values(|t: Seq<char>| EditView::Removed(t))
                + new_items.deep_view().take(0).map_values(|t: Seq<char>| EditView::Added(t)));
        }
        let mut j: usize = 0;
        while j < new_items.len()
            invariant
                j <= new_items@.len(),
                old_side(result@) == old_items.deep_view(),
                new_side(result@) == new_items.deep_view().take(j as int),
                edit_cost(result@) == old_items@.len() + j,
                edits_view(result@) == old_items.deep_view().map_values(|t: Seq<char>| EditView::Removed(t))
                    + new_items.deep_view().take(j as int).map_values(|t: Seq<char>| EditView::Added(t)),
            decreases new_items.len() - j,
        {
            let ghost before = result@;
            let s = new_items[j].clone();
            let ghost sv = s@;
            result.push(Edit::Insert(s));
            proof {
                lemma_deep_view_at(new_items, j as int);
                assert(sv == new_items.deep_view()[j as int]);
                assert(result@ == before.push(result@.last()));
                assert(edit_view(result@.last()) == EditView::Added(sv));
                assert(edits_view(result@) =~= edits_view(before).push(EditView::Added(sv)));
                assert(new_items.deep_view().take(j + 1) =~= new_items.deep_view().take(j as int).push(sv));
                assert(edits_view(result@) =~= old_items.deep_view().map_values(|t: Seq<char>| EditView::Removed(t))
                    + new_items.deep_view().take(j + 1).map_values(|t: Seq<char>| EditView::Added(t)));
                assert(result@.drop_last() =~= before);
                lemma_sides_append(before, seq![result@.last()]);
                assert(result@ =~= before + seq![result@.last()]);
                lemma_sides_prepend(result@.last(), Seq::empty());
                assert(old_side(before) + Seq::<Seq<char>>::empty() =~= old_side(before));
                assert(new_items.deep_view().take(j + 1) =~= new_items.deep_view().take(j as int) + seq![new_items[j as int]@]);
            }
            j = j + 1;
        }
        proof {
            assert(old_items.deep_view().take(old_items@.len() as int) =~= old_items.deep_view());
            assert(new_items.deep_view().take(new_items@.len() as int) =~= new_items.deep_view());
        }
        result
    }

    /// Walks the recorded rounds back from the end of both sequences and
    /// returns the edit script in forward order.
    #[verifier::rlimit(60)]
    fn backtrack(trace: &Vec<Vec<i64>>, old_items: &Vec<String>, new_items: &Vec<String>, offset: i64, Ghost(dd): Ghost<int>) -> (r: Vec<Edit>)
        requires
            ({
                let a = old_items.deep_view();
                let b = new_items.deep_view();
                &&& a.len() >= 1
                &&& b.len() >= 1
                &&& a.len() + b.len() <= 0x3fff_ffff
                &&& offset == a.len() + b.len()
                &&& trace@.len() == dd + 1
                &&& 0 <= dd <= offset
                &&& forall|t: int| 0 <= t <= dd ==> (#[trigger] trace@[t])@.len() == 2 * offset + 1
                &&& forall|t: int| 0 <= t <= dd ==> holds_round(a, b, (#[trigger] trace@[t])@, offset as int, t - 1)
                &&& in_round(dd, a.len() - b.len())
                &&& far(a, b, dd, a.len() - b.len()) == a.len()
            }),
        ensures
            is_script(r@, old_items.deep_view(), new_items.deep_view()),
            dd == 0 ==> all_equal(r@),
            edit_cost(r@) <= dd,
            edits_view(r@) == back_script(old_items.deep_view(), new_items.deep_view(), dd, old_items@.len() as int, new_items@.len() as int),
    {
        let ghost a = old_items.deep_view();
        let ghost b = new_items.deep_view();
        let ghost off = offset as int;
        let mut edits: Vec<Edit> = Vec::new();
        let mut x = old_items.len() as i64;
        let mut y = new_items.len() as i64;
        let mut d: usize = trace.len();
        let mut done = false;
        assert(a.subrange(x as int, a.len() as int) =~= Seq::<Seq<char>>::empty());
        assert(b.subrange(y as int, b.len() as int) =~= Seq::<Seq<char>>::empty());
        while d > 0 && !done
            invariant
                a == old_items.deep_view(),
                b == new_items.deep_view(),
                a.len() >= 1,
                b.len() >= 1,
                a.len() + b.len() <= 0x3fff_ffff,
                off == offset,
                offset == a.len() + b.len(),
                trace@.len() == dd + 1,
                0 <= dd <= offset,
                d <= dd + 1,
                forall|t: int| 0 <= t <= dd ==> (#[trigger] trace@[t])@.len() == 2 * offset + 1,
                forall|t: int| 0 <= t <= dd ==> holds_round(a, b, (#[trigger] trace@[t])@, off, t - 1),
                0 <= x <= a.len(),
                0 <= y <= b.len(),
                done ==> x == 0 && y == 0,
                !done ==> d >= 1 && in_round(d - 1, x - y) && far(a, b, d - 1, x - y) == x,
                old_side(edits@.reverse()) == a.subrange(x as int, a.len() as int),
                new_side(edits@.reverse()) == b.subrange(y as int, b.len() as int),
                dd == 0 ==> all_equal(edits@),
                edit_cost(edits@) + (if d >= 1 { d as int } else { 1int }) <= dd + 1,
                !done ==> back_script(a, b, dd, a.len() as int, b.len() as int) == back_script(a, b, d - 1, x as int, y as int)
                    + edits_view(edits@.reverse()),
                done ==> back_script(a, b, dd, a.len() as int, b.len() as int) == edits_view(edits@.reverse()),
            decreases d,
        {
            let ghost c0 = edit_cost(edits@);
            let ghost x0 = x as int;
            let ghost y0 = y as int;
            let ghost tail0 = edits_view(edits@.reverse());
            let ghost whole = back_script(a, b, dd, a.len() as int, b.len() as int);
            let di = d - 1;
            let v = &trace[di];
            let k = x - y;
            let d_i64 = di as i64;
            let ghost kk = k as int;
            proof {
                lemma_far_bounds(a, b, di as int, kk);
            }
            if di == 0 {
                proof {
                    assert(kk == 0);
                    lemma_run(a, b, 0, 0);
                }
                while x > 0 && y > 0
                    invariant
                        a == old_items.deep_view(),
                        b == new_items.deep_view(),
                        0 <= x <= a.len(),
                        a.len() + b.len() <= 0x3fff_ffff,
                        0 <= y <= b.len(),
                        dd == 0 ==> all_equal(edits@),
                        x == y,
                        x <= run(a, b, 0, 0),
                        forall|i: int| 0 <= i < run(a, b, 0, 0) ==> #[trigger] a[0 + i] == b[0 + i],
                        old_side(edits@.reverse()) == a.subrange(x as int, a.len() as int),
                        new_side(edits@.reverse()) == b.subrange(y as int, b.len() as int),
                        edit_cost(edits@) == c0,
                        0 <= x <= x0,
                        edits_view(edits@.reverse()) == same_run(a, x as int, x0) + tail0,
                        whole == back_script(a, b, 0, x0, y0) + tail0,
                    decreases x,
                {
                    x -= 1;
                    y -= 1;
                    let s = old_items[x as usize].clone();
                    proof {
                        assert(a[0 + x] == b[0 + x]);
                        lemma_deep_view_at(old_items, x as int);
                        assert(s@ == a[x as int]);
                    }
                    Self::push_edit(&mut edits, Edit::Equal(s), Ghost(a), Ghost(b), Ghost(x as int), Ghost(y as int), 0);
                    proof {
                        assert(seq![EditView::Same(a[x as int])] + same_run(a, x + 1, x0) =~= same_run(a, x as int, x0));
                    }
                }
                proof {
                    assert(x == 0);
                    lemma_back_zero(a, b, x0, y0);
                    assert(same_run(a, 0, x0) + tail0 == whole);
                }
                done = true;
            } else {
                let prev_k: i64;
                let k_minus_1_idx = (k - 1 + offset) as usize;
                let k_plus_1_idx = (k + 1 + offset) as usize;
                proof {
                    assert(in_round(di - 1, kk - 1) || kk == -(di as int));
                    assert(in_round(di - 1, kk + 1) || kk == di);
                    if kk != -(di as int) {
                        assert(v@[kk - 1 + off] == far(a, b, di - 1, kk - 1));
                    }
                    if kk != di {
                        assert(v@[kk + 1 + off] == far(a, b, di - 1, kk + 1));
                    }
                }
                if k == -d_i64
                    || (k != d_i64
                        && k_minus_1_idx < v.len()
                        && k_plus_1_idx < v.len()
                        && v[k_minus_1_idx] < v[k_plus_1_idx])
                {
                    prev_k = k + 1;
                } else {
                    prev_k = k - 1;
                }
                let down = prev_k == k + 1;
                proof {
                    assert(down == goes_down(a, b, di as int, kk));
                    assert(in_round(di - 1, prev_k as int));
                    lemma_far_bounds(a, b, di - 1, prev_k as int);
                }
                let prev_k_idx = (prev_k + offset) as usize;
                if prev_k_idx >= v.len() {
                    proof {
                        assert(false);
                    }
                    done = true;
                } else {
                    let prev_x = v[prev_k_idx];
                    let prev_y = prev_x - prev_k;
                    let ghost sx = start_x(a, b, di as int, kk);
                    proof {
                        assert(prev_x == far(a, b, di - 1, prev_k as int));
                        if down {
                            assert(sx == prev_x);
                        } else {
                            assert(sx == prev_x + 1);
                        }
                        lemma_run(a, b, sx, sx - kk);
                    }
                    while x > prev_x && y > prev_y
                        invariant
                            a == old_items.deep_view(),
                            b == new_items.deep_view(),
                            0 <= x <= a.len(),
                            0 <= y <= b.len(),
                            a.len() + b.len() <= 0x3fff_ffff,
                            x - y == kk,
                            sx <= x,
                            sx - kk <= y,
                            x <= sx + run(a, b, sx, sx - kk),
                            sx >= 0,
                            sx - kk >= 0,
                            down ==> sx == prev_x,
                            !down ==> sx == prev_x + 1,
                            prev_y == prev_x - prev_k,
                            prev_k == if down { kk + 1 } else { kk - 1 },
                            forall|i: int| 0 <= i < run(a, b, sx, sx - kk) ==> #[trigger] a[sx + i] == b[sx - kk + i],
                            old_side(edits@.reverse()) == a.subrange(x as int, a.len() as int),
                            new_side(edits@.reverse()) == b.subrange(y as int, b.len() as int),
                            edit_cost(edits@) == c0,
                            x <= x0,
                            x0 - x == y0 - y,
                            edits_view(edits@.reverse()) == same_run(a, x as int, x0) + tail0,
                            whole == back_script(a, b, di as int, x0, y0) + tail0,
                        decreases x,
                    {
                        proof {
                            if down {
                            } else {
                                assert(x > sx) by {
                                    if x == sx {
                                        assert(y == prev_y);
                                    }
                                }
                            }
                        }
                        x -= 1;
                        y -= 1;
                        let s = old_items[x as usize].clone();
                        proof {
                            assert(a[sx + (x - sx)] == b[sx - kk + (x - sx)]);
                            lemma_deep_view_at(old_items, x as int);
                        assert(s@ == a[x as int]);
                        }
                        Self::push_edit(&mut edits, Edit::Equal(s), Ghost(a), Ghost(b), Ghost(x as int), Ghost(y as int), 0);
                        proof {
                            assert(seq![EditView::Same(a[x as int])] + same_run(a, x + 1, x0) =~= same_run(a, x as int, x0));
                        }
                    }
                    proof {
                        if down {
                            assert(x == prev_x && y == prev_y + 1);
                        } else {
                            assert(x == prev_x + 1 && y == prev_y);
                        }
                    }
                    let ghost x1 = x as int;
                    let ghost y1 = y as int;
                    let ghost mid = edits_view(edits@.reverse());
                    if x > prev_x {
                        x -= 1;
                        let s = old_items[x as usize].clone();
                        proof {
                            lemma_deep_view_at(old_items, x as int);
                        }
                        Self::push_edit(&mut edits, Edit::Delete(s), Ghost(a), Ghost(b), Ghost(x as int), Ghost(y as int), 1);
                    } else if y > prev_y {
                        y -= 1;
                        let s = new_items[y as usize].clone();
                        proof {
                            lemma_deep_view_at(new_items, y as int);
                        }
                        Self::push_edit(&mut edits, Edit::Insert(s), Ghost(a), Ghost(b), Ghost(x as int), Ghost(y as int), 2);
                    }
                    if x == 0 && y == 0 {
                        done = true;
                    }
                    proof {
                        let st: Seq<EditView> = if x1 > prev_x {
                            seq![EditView::Removed(a[x1 - 1])]
                        } else if y1 > prev_y {
                            seq![EditView::Added(b[y1 - 1])]
                        } else {
                            Seq::empty()
                        };
                        assert(edits_view(edits@.reverse()) =~= st + mid);
                        assert(edits_view(edits@.reverse()) =~= st + same_run(a, x1, x0) + tail0);
                        assert(goes_down(a, b, di as int, x0 - y0) == down);
                        assert(far(a, b, di - 1, prev_k as int) == prev_x);
                        lemma_back_round(a, b, di as int, x0, y0, prev_k as int, prev_x as int, x1, y1, x as int, y as int, st);
                        if x == 0 && y == 0 {
                            assert(whole =~= edits_view(edits@.reverse()));
                        } else {
                            assert(whole =~= back_script(a, b, di - 1, x as int, y as int) + edits_view(edits@.reverse()));
                        }
                    }
                }
            }
            d = d - 1;
        }
        proof {
            if !done {
                assert(d == 0);
            }
            assert(a.subrange(0, a.len() as int) =~= a);
            assert(b.subrange(0, b.len() as int) =~= b);
        }
        let mut out: Vec<Edit> = Vec::new();
        let ghost rev = edits@.reverse();
        proof {
            lemma_cost_reverse(edits@);
            if dd == 0 {
                assert forall|i: int| 0 <= i < rev.len() implies (#[trigger] rev[i]) is Equal by {
                    assert(rev[i] == edits@[edits@.len() - 1 - i]);
                }
            }
        }
        while edits.len() > 0
            invariant
                out@ + edits@.reverse() == rev,
            decreases edits.len(),
        {
            let ghost before = edits@;
            let e = edits.pop().unwrap();
            out.push(e);
            assert(before.reverse() =~= seq![e] + edits@.reverse());
            assert(out@ + edits@.reverse() =~= rev);
        }
        assert(out@ =~= rev);
        proof {
            assert(done);
            assert(a.len() == old_items@.len() && b.len() == new_items@.len());
        }
        out
    }

    /// Number of lines in `lines` that are not of kind `kind`.
    fn count_other_lines(lines: &Vec<DiffLine>, kind: DiffLineType) -> (r: usize)
        ensures
            r == count_other(lines_view(lines@), kind),
    {
        let mut c: usize = 0;
        let mut i: usize = 0;
        while i < lines.len()
            invariant
                i <= lines@.len(),
                c <= i,
                c == count_other(lines_view(lines@.take(i as int)), kind),
            decreases lines.len() - i,
        {
            proof {
                assert(lines_view(lines@.take(i + 1)).drop_last() =~= lines_view(lines@.take(i as int)));
            }
            if lines[i].line_type != kind {
                c = c + 1;
            }
            i = i + 1;
        }
        proof {
            assert(lines@.take(lines@.len() as int) =~= lines@);
        }
        c
    }

    /// The hunk made of `lines`.
    fn close_hunk(old_start: usize, new_start: usize, lines: Vec<DiffLine>) -> (h: DiffHunk)
        ensures
            h@ == close_hunk(old_start as int, new_start as int, lines_view(lines@)),
    {
        let old_count = Self::count_other_lines(&lines, DiffLineType::Added);
        let new_count = Self::count_other_lines(&lines, DiffLineType::Removed);
        DiffHunk { old_start, old_count, new_start, new_count, lines }
    }

    /// Groups an edit script into hunks: a change opens a hunk, equal lines
    /// inside it are kept as context, and `2 * context` of them in a row
    /// close it.
    fn build_hunks(edits: &Vec<Edit>, context: usize) -> (r: Vec<DiffHunk>)
        requires
            edits@.len() + 2 <= usize::MAX,
            2 * context <= usize::MAX,
        ensures
            hunks_view(r@) == hunks_of(edits@, context as int),
    {
        let mut hunks: Vec<DiffHunk> = Vec::new();
        let mut current_lines: Vec<DiffLine> = Vec::new();
        let mut old_line: usize = 1;
        let mut new_line: usize = 1;
        let mut hunk_old_start: usize = 0;
        let mut hunk_new_start: usize = 0;
        let mut in_hunk = false;
        let mut trailing_context: usize = 0;
        let mut i: usize = 0;
        proof {
            assert(edits@.take(0) =~= Seq::<Edit>::empty());
            assert(hunks_view(hunks@) =~= Seq::<HunkSpec>::empty());
            assert(lines_view(current_lines@) =~= Seq::<LineSpec>::empty());
        }
        while i < edits.len()
            invariant
                i <= edits@.len(),
                edits@.len() + 2 <= usize::MAX,
                2 * context <= usize::MAX,
                old_line <= i + 1,
                new_line <= i + 1,
                trailing_context <= i,
                hunks_view(hunks@) == scan(edits@.take(i as int), context as int).done,
                lines_view(current_lines@) == scan(edits@.take(i as int), context as int).cur,
                old_line == scan(edits@.take(i as int), context as int).old_line,
                new_line == scan(edits@.take(i as int), context as int).new_line,
                hunk_old_start == scan(edits@.take(i as int), context as int).old_start,
                hunk_new_start == scan(edits@.take(i as int), context as int).new_start,
                in_hunk == scan(edits@.take(i as int), context as int).in_hunk,
                trailing_context == scan(edits@.take(i as int), context as int).trailing,
            decreases edits.len() - i,
        {
            let ghost pre = edits@.take(i as int);
            let ghost st = scan(pre, context as int);
            proof {
                assert(edits@.take(i + 1).drop_last() =~= pre);
                assert(edits@.take(i + 1).last() == edits@[i as int]);
            }
            let ghost hv0 = hunks_view(hunks@);
            let ghost lv0 = lines_view(current_lines@);
            match &edits[i] {
                Edit::Equal(s) => {
                    if in_hunk {
                        trailing_context = trailing_context + 1;
                        current_lines.push(DiffLine {
                            line_type: DiffLineType::Context,
                            content: s.clone(),
                            old_lineno: Some(old_line),
                            new_lineno: Some(new_line),
                        });
                        proof {
                            assert(lines_view(current_lines@) =~= lv0.push(current_lines@.last()@));
                        }
                        if trailing_context >= context * 2 {
                            let h = Self::close_hunk(hunk_old_start, hunk_new_start, current_lines);
                            hunks.push(h);
                            proof {
                                assert(hunks_view(hunks@) =~= hv0.push(h@));
                            }
                            current_lines = Vec::new();
                            proof {
                                assert(lines_view(current_lines@) =~= Seq::<LineSpec>::empty());
                            }
                            in_hunk = false;
                        }
                    }
                    old_line = old_line + 1;
                    new_line = new_line + 1;
                },
                Edit::Delete(s) => {
                    trailing_context = 0;
                    if !in_hunk {
                        in_hunk = true;
                        hunk_old_start = if old_line >= context { old_line - context } else { 0 };
                        hunk_new_start = if new_line >= context { new_line - context } else { 0 };
                    }
                    current_lines.push(DiffLine {
                        line_type: DiffLineType::Removed,
                        content: s.clone(),
                        old_lineno: Some(old_line),
                        new_lineno: None,
                    });
                    proof {
                        assert(lines_view(current_lines@) =~= lv0.push(current_lines@.last()@));
                    }
                    old_line = old_line + 1;
                },
                Edit::Insert(s) => {
                    trailing_context = 0;
                    if !in_hunk {
                        in_hunk = true;
                        hunk_old_start = if old_line >= context { old_line - context } else { 0 };
                        hunk_new_start = if new_line >= context { new_line - context } else { 0 };
                    }
                    current_lines.push(DiffLine {
                        line_type: DiffLineType::Added,
                        content: s.clone(),
                        old_lineno: None,
                        new_lineno: Some(new_line),
                    });
                    proof {
                        assert(lines_view(current_lines@) =~= lv0.push(current_lines@.last()@));
                    }
                    new_line = new_line + 1;
                },
            }
            i = i + 1;
        }
        proof {
            assert(edits@.take(edits@.len() as int) =~= edits@);
        }
        if current_lines.len() > 0 {
            let ghost hv0 = hunks_view(hunks@);
            let h = Self::close_hunk(hunk_old_start, hunk_new_start, current_lines);
            hunks.push(h);
            proof {
                assert(hunks_view(hunks@) =~= hv0.push(h@));
            }
        }
        hunks
    }

    /// Pushes an edit that extends the script backwards from `(x, y)`:
    /// `kind` 0 is an equal item, 1 a deleted one, 2 an inserted one.
    fn push_edit(edits: &mut Vec<Edit>, e: Edit, Ghost(a): Ghost<Seq<Seq<char>>>, Ghost(b): Ghost<Seq<Seq<char>>>, Ghost(x): Ghost<int>, Ghost(y): Ghost<int>, kind: u8)
        requires
            0 <= x <= a.len(),
            0 <= y <= b.len(),
            kind == 0 ==> x < a.len() && y < b.len() && e == Edit::Equal(e->Equal_0) && edit_text(e) == a[x] && a[x] == b[y]
                && old_side(old(edits)@.reverse()) == a.subrange(x + 1, a.len() as int)
                && new_side(old(edits)@.reverse()) == b.subrange(y + 1, b.len() as int),
            kind == 1 ==> x < a.len() && e == Edit::Delete(e->Delete_0) && edit_text(e) == a[x]
                && old_side(old(edits)@.reverse()) == a.subrange(x + 1, a.len() as int)
                && new_side(old(edits)@.reverse()) == b.subrange(y, b.len() as int),
            kind == 2 ==> y < b.len() && e == Edit::Insert(e->Insert_0) && edit_text(e) == b[y]
                && old_side(old(edits)@.reverse()) == a.subrange(x, a.len() as int)
                && new_side(old(edits)@.reverse()) == b.subrange(y + 1, b.len() as int),
            kind <= 2,
        ensures
            old_side(final(edits)@.reverse()) == a.subrange(x, a.len() as int),
            new_side(final(edits)@.reverse()) == b.subrange(y, b.len() as int),
            final(edits)@ == old(edits)@.push(e),
            edit_cost(final(edits)@) == edit_cost(old(edits)@) + if kind == 0 { 0int } else { 1int },
            edits_view(final(edits)@.reverse()) == seq![
                if kind == 0 {
                    EditView::Same(a[x])
                } else if kind == 1 {
                    EditView::Removed(a[x])
                } else {
                    EditView::Added(b[y])
                },
            ] + edits_view(old(edits)@.reverse()),
    {
        let ghost before = edits@;
        let ghost e0 = e;
        edits.push(e);
        proof {
            lemma_view_push_rev(before, e0);
            assert(edits@.drop_last() =~= before);
            assert(edits@.reverse() =~= seq![e0] + before.reverse());
            lemma_sides_prepend(e0, before.reverse());
            if x < a.len() {
                assert(a.subrange(x, a.len() as int) =~= seq![a[x]] + a.subrange(x + 1, a.len() as int));
            }
            if y < b.len() {
                assert(b.subrange(y, b.len() as int) =~= seq![b[y]] + b.subrange(y + 1, b.len() as int));
            }
            if x < a.len() {
            }
        }
    }
}

} // verus!
