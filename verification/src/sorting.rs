//! Stable insertion order: the order a stable sort leaves a sequence in.
use vstd::prelude::*;

verus! {

/// Where `e` goes into `s`: before the first item that `e` must precede,
/// after all the others.
pub open spec fn insert_pos<T>(s: Seq<T>, e: T, lt: spec_fn(T, T) -> bool) -> int
    decreases s.len(),
{
    if s.len() == 0 {
        0
    } else if lt(e, s[0]) {
        0
    } else {
        1 + insert_pos(s.drop_first(), e, lt)
    }
}

/// The items of `s` sorted by `lt`, items that tie keeping their order:
/// each item in turn goes after every earlier item it need not precede.
pub open spec fn stable_sorted<T>(s: Seq<T>, lt: spec_fn(T, T) -> bool) -> Seq<T>
    decreases s.len(),
{
    if s.len() == 0 {
        Seq::empty()
    } else {
        let done = stable_sorted(s.drop_last(), lt);
        done.insert(insert_pos(done, s.last(), lt), s.last())
    }
}

/// The position found by a scan that stops at the first item `e` must
/// precede is `insert_pos`.
pub proof fn lemma_insert_pos<T>(s: Seq<T>, e: T, lt: spec_fn(T, T) -> bool, p: int)
    requires
        0 <= p <= s.len(),
        forall|j: int| 0 <= j < p ==> !lt(e, #[trigger] s[j]),
        p == s.len() || lt(e, s[p]),
    ensures
        insert_pos(s, e, lt) == p,
    decreases s.len(),
{
    if s.len() > 0 && p > 0 {
        assert(!lt(e, s[0]));
        assert forall|j: int| 0 <= j < p - 1 implies !lt(e, #[trigger] s.drop_first()[j]) by {
            assert(s.drop_first()[j] == s[j + 1]);
        }
        if p < s.len() {
            assert(s.drop_first()[p - 1] == s[p]);
        }
        lemma_insert_pos(s.drop_first(), e, lt, p - 1);
    }
}

proof fn lemma_insert_pos_bounds<T>(s: Seq<T>, e: T, lt: spec_fn(T, T) -> bool)
    ensures
        0 <= insert_pos(s, e, lt) <= s.len(),
    decreases s.len(),
{
    if s.len() > 0 && !lt(e, s[0]) {
        lemma_insert_pos_bounds(s.drop_first(), e, lt);
    }
}

/// A stable sort keeps every item, as often as it occurs.
pub proof fn lemma_stable_sorted_multiset<T>(s: Seq<T>, lt: spec_fn(T, T) -> bool)
    ensures
        stable_sorted(s, lt).to_multiset() == s.to_multiset(),
        stable_sorted(s, lt).len() == s.len(),
    decreases s.len(),
{
    broadcast use vstd::seq_lib::group_to_multiset_ensures;
    if s.len() > 0 {
        let done = stable_sorted(s.drop_last(), lt);
        lemma_stable_sorted_multiset(s.drop_last(), lt);
        lemma_insert_pos_bounds(done, s.last(), lt);
        vstd::seq_lib::to_multiset_insert(done, insert_pos(done, s.last(), lt), s.last());
        assert(s =~= s.drop_last().push(s.last()));
        vstd::seq_lib::to_multiset_build(s.drop_last(), s.last());
    }
}

} // verus!
