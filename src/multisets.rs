//! Facts linking sequences, their multisets and multiset filters.
use vstd::multiset::{group_multiset_axioms, Multiset};
use vstd::prelude::*;
use vstd::seq_lib::group_to_multiset_ensures;

verus! {

/// Filtering a multiset after inserting `x` is inserting `x` after filtering, when `x` passes.
pub proof fn lemma_insert_filter<A>(m: Multiset<A>, x: A, g: spec_fn(A) -> bool)
    ensures
        m.insert(x).filter(g) == if g(x) {
            m.filter(g).insert(x)
        } else {
            m.filter(g)
        },
{
    broadcast use group_multiset_axioms;

    if g(x) {
        assert(m.insert(x).filter(g) =~= m.filter(g).insert(x));
    } else {
        assert(m.insert(x).filter(g) =~= m.filter(g));
    }
}

/// The multiset of `s[a..b]` grows by `s[a - 1]` when the range is extended to the front.
pub proof fn lemma_subrange_extend_front<A>(s: Seq<A>, a: int, b: int)
    requires
        0 < a <= b <= s.len(),
    ensures
        s.subrange(a - 1, b).to_multiset() == s.subrange(a, b).to_multiset().insert(s[a - 1]),
{
    broadcast use group_multiset_axioms, group_to_multiset_ensures;

    let t = s.subrange(a - 1, b);
    assert(t.remove(0) =~= s.subrange(a, b));
    assert(t.contains(t[0]));
    assert(t.to_multiset() =~= t.remove(0).to_multiset().insert(s[a - 1]));
}

/// The multiset of `s[a..b]` grows by `s[b]` when the range is extended to the back.
pub proof fn lemma_subrange_extend_back<A>(s: Seq<A>, a: int, b: int)
    requires
        0 <= a <= b < s.len(),
    ensures
        s.subrange(a, b + 1).to_multiset() == s.subrange(a, b).to_multiset().insert(s[b]),
{
    broadcast use group_to_multiset_ensures;

    assert(s.subrange(a, b + 1) =~= s.subrange(a, b).push(s[b]));
}

/// When `g` holds exactly on the positions `a..b` of `s`, the multiset of `s[a..b]` is the
/// multiset of `s` filtered by `g`.
pub proof fn lemma_segment_is_filter<A>(s: Seq<A>, a: int, b: int, g: spec_fn(A) -> bool)
    requires
        0 <= a <= b <= s.len(),
        forall|i: int| 0 <= i < s.len() ==> (#[trigger] g(s[i]) <==> a <= i < b),
    ensures
        s.subrange(a, b).to_multiset() == s.to_multiset().filter(g),
    decreases s.len(),
{
    broadcast use group_multiset_axioms, group_to_multiset_ensures;

    if s.len() == 0 {
        assert(s.subrange(a, b) =~= Seq::<A>::empty());
        assert(s.to_multiset().filter(g) =~= Multiset::empty());
    } else {
        let n = s.len() - 1;
        let p = s.drop_last();
        let x = s[n];
        assert(s =~= p.push(x));
        assert(g(s[n]) <==> a <= n < b);
        lemma_insert_filter(p.to_multiset(), x, g);
        if b == s.len() && a < b {
            lemma_segment_is_filter(p, a, b - 1, g);
            assert(s.subrange(a, b) =~= p.subrange(a, b - 1).push(x));
        } else if b == s.len() {
            lemma_segment_is_filter(p, n, n, g);
            assert(s.subrange(a, b) =~= p.subrange(n, n));
        } else {
            lemma_segment_is_filter(p, a, b, g);
            assert(s.subrange(a, b) =~= p.subrange(a, b));
        }
    }
}

/// Filtering by `g` after filtering by `h` is filtering by both.
pub proof fn lemma_filter_filter<A>(m: Multiset<A>, h: spec_fn(A) -> bool, g: spec_fn(A) -> bool)
    ensures
        m.filter(h).filter(g) == m.filter(|x: A| h(x) && g(x)),
{
    broadcast use group_multiset_axioms;

    assert(m.filter(h).filter(g) =~= m.filter(|x: A| h(x) && g(x)));
}

} // verus!
