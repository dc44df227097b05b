//! Small general facts about sequences that the pipeline's proofs lean
//! on: filters and multiset counts.

use vstd::prelude::*;

verus! {

/// A filter that accepts everything changes nothing.
pub proof fn lemma_filter_all_true<A>(s: Seq<A>, pred: spec_fn(A) -> bool)
    requires
        forall|i: int| 0 <= i < s.len() ==> pred(#[trigger] s[i]),
    ensures
        s.filter(pred) == s,
    decreases s.len(),
{
    reveal(Seq::filter);
    if s.len() > 0 {
        assert(forall|i: int| 0 <= i < s.len() - 1 ==> s.drop_last()[i] == s[i]);
        lemma_filter_all_true(s.drop_last(), pred);
        assert(s.filter(pred) =~= s);
    }
}

/// Two positions holding the same value put its multiset count at two or
/// more.
pub proof fn lemma_two_indices_count<A>(s: Seq<A>, i: int, j: int)
    requires
        0 <= i < j < s.len(),
        s[i] == s[j],
    ensures
        s.to_multiset().count(s[i]) >= 2,
{
    s.to_multiset_ensures();
    vstd::seq_lib::to_multiset_remove(s, i);
    let t = s.remove(i);
    t.to_multiset_ensures();
    assert(t[j - 1] == s[j]);
    assert(t.contains(s[j]));
    assert(t.to_multiset().count(s[j]) > 0);
    assert(t.to_multiset() == s.to_multiset().remove(s[i]));
}

/// A multiset count of two or more names two positions.
pub proof fn lemma_count_ge_two<A>(s: Seq<A>, v: A)
    requires
        s.to_multiset().count(v) >= 2,
    ensures
        exists|i: int, j: int| #![trigger s[i], s[j]] 0 <= i < j < s.len() && s[i] == v && s[j] == v,
{
    s.to_multiset_ensures();
    assert(s.contains(v));
    let i = choose|i: int| 0 <= i < s.len() && s[i] == v;
    vstd::seq_lib::to_multiset_remove(s, i);
    let t = s.remove(i);
    t.to_multiset_ensures();
    assert(t.to_multiset().count(v) >= 1);
    assert(t.contains(v));
    let m = choose|m: int| 0 <= m < t.len() && t[m] == v;
    if m < i {
        assert(s[m] == v);
        assert(0 <= m < i < s.len() && s[m] == v && s[i] == v);
    } else {
        assert(s[m + 1] == v);
        assert(0 <= i < m + 1 < s.len() && s[i] == v && s[m + 1] == v);
    }
}

/// Two positions of `s` have counterparts at two distinct positions of
/// any multiset-equal sequence `t`.
pub proof fn lemma_two_positions_from_multiset<A>(s: Seq<A>, t: Seq<A>, i: int, j: int) -> (m: (
    int,
    int,
))
    requires
        s.to_multiset() == t.to_multiset(),
        0 <= i < j < s.len(),
    ensures
        0 <= m.0 < t.len(),
        0 <= m.1 < t.len(),
        m.0 != m.1,
        t[m.0] == s[i],
        t[m.1] == s[j],
{
    s.to_multiset_ensures();
    t.to_multiset_ensures();
    if s[i] == s[j] {
        lemma_two_indices_count(s, i, j);
        lemma_count_ge_two(t, s[i]);
        let (a, b) = choose|a: int, b: int|
            #![trigger t[a], t[b]]
            0 <= a < b < t.len() && t[a] == s[i] && t[b] == s[i];
        (a, b)
    } else {
        assert(s.contains(s[i]) && s.contains(s[j]));
        assert(s.to_multiset().count(s[i]) > 0 && s.to_multiset().count(s[j]) > 0);
        assert(t.to_multiset().count(s[i]) > 0 && t.to_multiset().count(s[j]) > 0);
        assert(t.contains(s[i]) && t.contains(s[j]));
        let a = choose|a: int| 0 <= a < t.len() && t[a] == s[i];
        let b = choose|b: int| 0 <= b < t.len() && t[b] == s[j];
        (a, b)
    }
}

} // verus!
