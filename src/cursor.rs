//! The cursor: the spans that overlap a window which moves back and forth in time.
use crate::multisets::{
    lemma_filter_filter, lemma_insert_filter, lemma_segment_is_filter, lemma_subrange_extend_back,
    lemma_subrange_extend_front,
};
use crate::order::{lemma_time_order, time_le};
use crate::sorting::{sort_by_end, sort_by_start, sorted_by_end, sorted_by_start};
use crate::span::{end_reaches, lemma_end_reaches_monotone, MaybeInfinite, Span};
use vstd::laws_cmp::obeys_cmp;
use vstd::multiset::{group_multiset_axioms, Multiset};
use vstd::prelude::*;
use vstd::seq_lib::group_to_multiset_ensures;

verus! {

/// The spans of `spans` that overlap the window `[low, high]`.
pub open spec fn overlapping<T: Ord + Copy, Id: Copy>(
    spans: Multiset<Span<T, Id>>,
    low: T,
    high: T,
) -> Multiset<Span<T, Id>> {
    spans.filter(|s: Span<T, Id>| s.active_in(low, high))
}

/// `k` splits `s` into the spans that start at or before `high` and those that start after.
pub open spec fn splits_starts<T: Ord + Copy, Id: Copy>(s: Seq<Span<T, Id>>, k: int, high: T) -> bool {
    &&& 0 <= k <= s.len()
    &&& forall|i: int| 0 <= i < s.len() ==> (time_le(#[trigger] s[i].start, high) <==> i < k)
}

/// `k` splits `s` into the spans that end before `low` and those that reach `low`.
pub open spec fn splits_ends<T: Ord + Copy, Id: Copy>(s: Seq<Span<T, Id>>, k: int, low: T) -> bool {
    &&& 0 <= k <= s.len()
    &&& forall|i: int| 0 <= i < s.len() ==> (end_reaches(#[trigger] s[i].end, low) <==> k <= i)
}

/// A cursor allows for efficiently scanning through a collection of overlapping intervals (which
/// we call "spans"). It is optimized for the case where you need to repeatedly move the current
/// position by a little bit in either direction; in this case, the complexity is O(n + log m),
/// where `n` is the number of "active" spans that overlap the times you're interested in and `m`
/// is the total number of spans.
#[derive(Debug)]
pub struct Cursor<T: Ord + Copy, Id: Copy + Eq> {
    // Spans, ordered by their start times.
    spans_start: Vec<Span<T, Id>>,
    // Spans, ordered by their end times.
    spans_end: Vec<Span<T, Id>>,
    // The set of active spans (unordered). This is the set of spans that have a non-zero
    // intersection with the current interval.
    active: Vec<Span<T, Id>>,
    // An interval of times, inclusive of both ends.
    current: (T, T),
    // The index (into `spans_start`) of the first element having `start > current.1`.
    next_start_idx: usize,
    // The index (into `spans_end`) of the first element with `end >= current.0`. Note that this
    // is an active element (unlike with next_start_idx).
    next_end_idx: usize,
}

impl<T: Ord + Copy, Id: Copy + Eq> Cursor<T, Id> {
    /// All the spans that the cursor was made with.
    pub closed spec fn spans(&self) -> Multiset<Span<T, Id>> {
        self.spans_start@.to_multiset()
    }

    /// The current window `(low, high)`.
    pub closed spec fn window(&self) -> (T, T) {
        self.current
    }

    /// The active spans, in the order in which the cursor holds them.
    pub closed spec fn active_seq(&self) -> Seq<Span<T, Id>> {
        self.active@
    }

    /// The active spans, without order.
    pub open spec fn active_set(&self) -> Multiset<Span<T, Id>> {
        self.active_seq().to_multiset()
    }

    /// The two sorted copies of the spans and the two positions into them agree with the window.
    pub closed spec fn layout_wf(&self) -> bool {
        &&& self.spans_end@.to_multiset() == self.spans_start@.to_multiset()
        &&& sorted_by_start(self.spans_start@)
        &&& sorted_by_end(self.spans_end@)
        &&& splits_starts(self.spans_start@, self.next_start_idx as int, self.current.1)
        &&& splits_ends(self.spans_end@, self.next_end_idx as int, self.current.0)
    }

    /// The cursor's invariant: the active spans are exactly those that overlap the window.
    pub open spec fn wf(&self) -> bool {
        &&& obeys_cmp::<T>()
        &&& time_le(self.window().0, self.window().1)
        &&& forall|s: Span<T, Id>| #[trigger] self.spans().count(s) > 0 ==> s.wf()
        &&& self.active_set() == overlapping(self.spans(), self.window().0, self.window().1)
        &&& self.layout_wf()
    }

    /// `self` is what moving `prev` to the window `[low, high]` leaves.
    pub open spec fn advanced_from(&self, prev: &Self, low: T, high: T) -> bool {
        &&& self.wf()
        &&& self.spans() == prev.spans()
        &&& self.window() == (low, high)
        &&& self.active_set() == overlapping(prev.spans(), low, high)
    }

    /// No span is active, and none starts after the window.
    pub open spec fn finished(&self) -> bool {
        &&& self.active_seq().len() == 0
        &&& forall|s: Span<T, Id>| #[trigger]
            self.spans().count(s) > 0 ==> time_le(s.start, self.window().1)
    }

    // Resets next_start_idx to the first index with sp.start > current.1.
    fn reset_next_start_idx(&mut self)
        requires
            obeys_cmp::<T>(),
            sorted_by_start(old(self).spans_start@),
        ensures
            splits_starts(final(self).spans_start@, final(self).next_start_idx as int, final(self).current.1),
            final(self).spans_start == old(self).spans_start,
            final(self).spans_end == old(self).spans_end,
            final(self).active == old(self).active,
            final(self).current == old(self).current,
            final(self).next_end_idx == old(self).next_end_idx,
    {
        let cur = self.current.1;
        let ghost s = self.spans_start@;
        let mut lo: usize = 0;
        let mut hi: usize = self.spans_start.len();
        while lo < hi
            invariant
                obeys_cmp::<T>(),
                s == self.spans_start@,
                sorted_by_start(s),
                0 <= lo <= hi <= s.len(),
                forall|i: int| 0 <= i < lo ==> time_le(#[trigger] s[i].start, cur),
                forall|i: int| hi <= i < s.len() ==> !time_le(#[trigger] s[i].start, cur),
            decreases hi - lo,
        {
            proof {
                lemma_time_order::<T>();
            }
            let mid = lo + (hi - lo) / 2;
            if self.spans_start[mid].start <= cur {
                assert(time_le(s[mid as int].start, cur));
                assert forall|i: int| 0 <= i < mid + 1 implies time_le(#[trigger] s[i].start, cur) by {
                    assert(time_le(s[i].start, s[mid as int].start));
                }
                lo = mid + 1;
            } else {
                assert forall|i: int| mid <= i < s.len() implies !time_le(#[trigger] s[i].start, cur) by {
                    assert(time_le(s[mid as int].start, s[i].start));
                }
                hi = mid;
            }
        }
        self.next_start_idx = lo;
    }

    // Resets next_end_idx to the first index with sp.end >= current.0.
    fn reset_next_end_idx(&mut self)
        requires
            obeys_cmp::<T>(),
            sorted_by_end(old(self).spans_end@),
        ensures
            splits_ends(final(self).spans_end@, final(self).next_end_idx as int, final(self).current.0),
            final(self).spans_start == old(self).spans_start,
            final(self).spans_end == old(self).spans_end,
            final(self).active == old(self).active,
            final(self).current == old(self).current,
            final(self).next_start_idx == old(self).next_start_idx,
    {
        let cur = self.current.0;
        let ghost s = self.spans_end@;
        let mut lo: usize = 0;
        let mut hi: usize = self.spans_end.len();
        while lo < hi
            invariant
                obeys_cmp::<T>(),
                s == self.spans_end@,
                sorted_by_end(s),
                0 <= lo <= hi <= s.len(),
                forall|i: int| 0 <= i < lo ==> !end_reaches(#[trigger] s[i].end, cur),
                forall|i: int| hi <= i < s.len() ==> end_reaches(#[trigger] s[i].end, cur),
            decreases hi - lo,
        {
            let mid = lo + (hi - lo) / 2;
            if MaybeInfinite::from_end(self.spans_end[mid].end).reaches(cur) {
                assert forall|i: int| mid <= i < s.len() implies end_reaches(#[trigger] s[i].end, cur) by {
                    lemma_end_reaches_monotone(s[mid as int].end, s[i].end, cur, cur);
                }
                hi = mid;
            } else {
                assert forall|i: int| 0 <= i < mid + 1 implies !end_reaches(#[trigger] s[i].end, cur) by {
                    lemma_end_reaches_monotone(s[i].end, s[mid as int].end, cur, cur);
                }
                lo = mid + 1;
            }
        }
        self.next_end_idx = lo;
    }

    /// Creates a new cursor for the given set of spans, and initializes its current position to
    /// be the interval `[start_time, end_time]` (inclusive of both ends).
    pub fn new(spans: Vec<Span<T, Id>>, start_time: T, end_time: T) -> (r: Cursor<T, Id>)
        requires
            obeys_cmp::<T>(),
            time_le(start_time, end_time),
            forall|i: int| 0 <= i < spans@.len() ==> #[trigger] spans@[i].wf(),
        ensures
            r.wf(),
            r.spans() == spans@.to_multiset(),
            r.window() == (start_time, end_time),
            r.active_set() == overlapping(spans@.to_multiset(), start_time, end_time),
    {
        let ghost input = spans@;
        let mut spans_start = spans;
        let mut spans_end = copy_spans(&spans_start);
        sort_by_start(&mut spans_start);
        sort_by_end(&mut spans_end);
        let ghost s = spans_start@;

        let mut active: Vec<Span<T, Id>> = Vec::new();
        let mut i: usize = 0;
        proof {
            broadcast use group_multiset_axioms, group_to_multiset_ensures;

            assert(s.subrange(0, 0) =~= Seq::<Span<T, Id>>::empty());
            assert(active@ =~= Seq::<Span<T, Id>>::empty());
            assert(Seq::<Span<T, Id>>::empty().to_multiset().filter(
                |x: Span<T, Id>| x.active_in(start_time, end_time),
            ) =~= Multiset::empty());
        }
        while i < spans_start.len()
            invariant
                obeys_cmp::<T>(),
                s == spans_start@,
                sorted_by_start(s),
                0 <= i <= s.len(),
                forall|j: int| 0 <= j < i ==> time_le(#[trigger] s[j].start, end_time),
                active@.to_multiset() == s.subrange(0, i as int).to_multiset().filter(
                    |x: Span<T, Id>| x.active_in(start_time, end_time),
                ),
            ensures
                0 <= i <= s.len(),
                forall|j: int| 0 <= j < i ==> time_le(#[trigger] s[j].start, end_time),
                i < s.len() ==> !time_le(s[i as int].start, end_time),
                active@.to_multiset() == s.subrange(0, i as int).to_multiset().filter(
                    |x: Span<T, Id>| x.active_in(start_time, end_time),
                ),
            decreases s.len() - i,
        {
            proof {
                lemma_time_order::<T>();
            }
            let sp = spans_start[i];
            if sp.start > end_time {
                break;
            }
            proof {
                broadcast use group_to_multiset_ensures;

                lemma_subrange_extend_back(s, 0, i as int);
                lemma_insert_filter(
                    s.subrange(0, i as int).to_multiset(),
                    sp,
                    |x: Span<T, Id>| x.active_in(start_time, end_time),
                );
            }
            if MaybeInfinite::from_end(sp.end).reaches(start_time) {
                active.push(sp);
            }
            i += 1;
        }
        proof {
            broadcast use group_multiset_axioms;

            lemma_time_order::<T>();
            let pred = |x: Span<T, Id>| x.active_in(start_time, end_time);
            let started = |x: Span<T, Id>| time_le(x.start, end_time);
            assert forall|j: int| 0 <= j < s.len() implies (#[trigger] started(s[j]) <==> 0 <= j
                < i) by {
                if j >= i {
                    assert(time_le(s[i as int].start, s[j].start));
                }
            }
            lemma_segment_is_filter(s, 0, i as int, started);
            lemma_filter_filter(s.to_multiset(), started, pred);
            assert(s.to_multiset().filter(|x: Span<T, Id>| started(x) && pred(x))
                =~= s.to_multiset().filter(pred));
        }

        let mut ret = Cursor {
            spans_start,
            spans_end,
            active,
            next_start_idx: i,
            next_end_idx: 0,
            current: (start_time, end_time),
        };
        ret.reset_next_end_idx();
        proof {
            broadcast use group_to_multiset_ensures;

            assert forall|x: Span<T, Id>| #[trigger] ret.spans().count(x) > 0 implies x.wf() by {
                assert(input.contains(x));
                let j = choose|j: int| 0 <= j < input.len() && input[j] == x;
                assert(input[j].wf());
            }
            assert forall|j: int| 0 <= j < s.len() implies (time_le(#[trigger] s[j].start, end_time)
                <==> j < i) by {
                lemma_time_order::<T>();
                if j >= i {
                    assert(time_le(s[i as int].start, s[j].start));
                }
            }
        }
        ret
    }

    /// Moves the window to `[start_time, end_time]`. Spans enter from the start-ordered copy when
    /// the window's high end grows, and from the end-ordered copy when its low end goes back;
    /// otherwise the position into that copy is searched afresh. Spans that no longer overlap
    /// the window then leave.
    pub fn advance_to(&mut self, start_time: T, end_time: T)
        requires
            old(self).wf(),
            time_le(start_time, end_time),
        ensures
            final(self).wf(),
            final(self).spans() == old(self).spans(),
            final(self).window() == (start_time, end_time),
            final(self).active_set() == overlapping(old(self).spans(), start_time, end_time),
    {
        let ghost spans = self.spans();
        let ghost ss = self.spans_start@;
        let ghost se = self.spans_end@;
        let ghost a0 = self.active@.to_multiset();
        let ghost nsi0 = self.next_start_idx as int;
        let ghost nei0 = self.next_end_idx as int;
        let (old_start, old_end) = self.current;
        self.current = (start_time, end_time);
        proof {
            lemma_time_order::<T>();
        }

        // Spans that started after the old window and by the end of the new one enter.
        if end_time > old_end {
            proof {
                broadcast use group_multiset_axioms, group_to_multiset_ensures;

                assert(ss.subrange(nsi0, nsi0) =~= Seq::<Span<T, Id>>::empty());
                assert(a0.add(Seq::<Span<T, Id>>::empty().to_multiset()) =~= a0);
            }
            while self.next_start_idx < self.spans_start.len()
                invariant
                    obeys_cmp::<T>(),
                    self.spans_start@ == ss,
                    self.spans_end@ == se,
                    self.current == (start_time, end_time),
                    self.next_end_idx == nei0,
                    0 <= nsi0 <= self.next_start_idx <= ss.len(),
                    forall|i: int|
                        nsi0 <= i < self.next_start_idx ==> time_le(#[trigger] ss[i].start, end_time),
                    self.active@.to_multiset() == a0.add(
                        ss.subrange(nsi0, self.next_start_idx as int).to_multiset(),
                    ),
                ensures
                    nsi0 <= self.next_start_idx <= ss.len(),
                    forall|i: int|
                        nsi0 <= i < self.next_start_idx ==> time_le(#[trigger] ss[i].start, end_time),
                    self.next_start_idx < ss.len() ==> !time_le(
                        ss[self.next_start_idx as int].start,
                        end_time,
                    ),
                    self.active@.to_multiset() == a0.add(
                        ss.subrange(nsi0, self.next_start_idx as int).to_multiset(),
                    ),
                decreases ss.len() - self.next_start_idx,
            {
                proof {
                    lemma_time_order::<T>();
                }
                let sp = self.spans_start[self.next_start_idx];
                if sp.start <= end_time {
                    proof {
                        broadcast use group_multiset_axioms, group_to_multiset_ensures;

                        lemma_subrange_extend_back(ss, nsi0, self.next_start_idx as int);
                        assert(a0.add(ss.subrange(nsi0, self.next_start_idx as int).to_multiset()).insert(sp)
                            =~= a0.add(ss.subrange(nsi0, self.next_start_idx as int).to_multiset().insert(sp)));
                    }
                    self.active.push(sp);
                    self.next_start_idx += 1;
                } else {
                    break;
                }
            }
            proof {
                let k = self.next_start_idx as int;
                assert forall|i: int| 0 <= i < ss.len() implies (time_le(#[trigger] ss[i].start, end_time)
                    <==> i < k) by {
                    if i >= k {
                        assert(time_le(ss[k].start, ss[i].start));
                    } else if i < nsi0 {
                        assert(time_le(old_end, end_time));
                    }
                }
                let entering = |x: Span<T, Id>|
                    !time_le(x.start, old_end) && time_le(x.start, end_time);
                assert forall|i: int| 0 <= i < ss.len() implies (#[trigger] entering(ss[i]) <==> nsi0
                    <= i < k) by {
                    assert(time_le(ss[i].start, old_end) <==> i < nsi0);
                }
                lemma_segment_is_filter(ss, nsi0, k, entering);
            }
        } else {
            self.reset_next_start_idx();
            proof {
                broadcast use group_multiset_axioms;

                assert(time_le(end_time, old_end));
                assert forall|x: Span<T, Id>|
                    !(!time_le(x.start, old_end) && #[trigger] time_le(x.start, end_time)) by {
                    if time_le(x.start, end_time) {
                        assert(time_le(x.start, old_end));
                    }
                }
                assert(spans.filter(
                    |x: Span<T, Id>| !time_le(x.start, old_end) && time_le(x.start, end_time),
                ) =~= Multiset::empty());
                assert(a0.add(Multiset::empty()) =~= a0);
            }
        }
        let ghost a1 = self.active@.to_multiset();
        let ghost nsi1 = self.next_start_idx;
        assert(a1 == a0.add(
            spans.filter(|x: Span<T, Id>| !time_le(x.start, old_end) && time_le(x.start, end_time)),
        ));
        assert(splits_starts(ss, nsi1 as int, end_time));

        // Spans that ended before the old window and not before the new one enter.
        if start_time < old_start {
            proof {
                broadcast use group_multiset_axioms, group_to_multiset_ensures;

                assert(se.subrange(nei0, nei0) =~= Seq::<Span<T, Id>>::empty());
                assert(a1.add(Seq::<Span<T, Id>>::empty().to_multiset()) =~= a1);
            }
            while self.next_end_idx > 0
                invariant
                    obeys_cmp::<T>(),
                    self.spans_start@ == ss,
                    self.spans_end@ == se,
                    self.current == (start_time, end_time),
                    self.next_start_idx == nsi1,
                    0 <= self.next_end_idx <= nei0 <= se.len(),
                    forall|i: int|
                        self.next_end_idx <= i < nei0 ==> end_reaches(#[trigger] se[i].end, start_time),
                    self.active@.to_multiset() == a1.add(
                        se.subrange(self.next_end_idx as int, nei0).to_multiset(),
                    ),
                ensures
                    0 <= self.next_end_idx <= nei0,
                    forall|i: int|
                        self.next_end_idx <= i < nei0 ==> end_reaches(#[trigger] se[i].end, start_time),
                    self.next_end_idx > 0 ==> !end_reaches(
                        se[self.next_end_idx - 1].end,
                        start_time,
                    ),
                    self.active@.to_multiset() == a1.add(
                        se.subrange(self.next_end_idx as int, nei0).to_multiset(),
                    ),
                decreases self.next_end_idx,
            {
                let sp = self.spans_end[self.next_end_idx - 1];
                if MaybeInfinite::from_end(sp.end).reaches(start_time) {
                    proof {
                        broadcast use group_multiset_axioms, group_to_multiset_ensures;

                        lemma_subrange_extend_front(se, self.next_end_idx as int, nei0);
                        assert(a1.add(se.subrange(self.next_end_idx as int, nei0).to_multiset()).insert(sp)
                            =~= a1.add(se.subrange(self.next_end_idx as int, nei0).to_multiset().insert(sp)));
                    }
                    self.active.push(sp);
                    self.next_end_idx -= 1;
                } else {
                    break;
                }
            }
            proof {
                broadcast use group_to_multiset_ensures;

                let k = self.next_end_idx as int;
                assert(time_le(start_time, old_start));
                assert forall|i: int| 0 <= i < se.len() implies (end_reaches(#[trigger] se[i].end, start_time)
                    <==> k <= i) by {
                    if i < k {
                        lemma_end_reaches_monotone(se[i].end, se[k - 1].end, start_time, start_time);
                    } else if i >= nei0 {
                        lemma_end_reaches_monotone(se[i].end, se[i].end, start_time, old_start);
                    }
                }
                let leaving = |x: Span<T, Id>|
                    end_reaches(x.end, start_time) && !end_reaches(x.end, old_start);
                assert forall|i: int| 0 <= i < se.len() implies (#[trigger] leaving(se[i]) <==> k <= i
                    < nei0) by {
                    assert(end_reaches(se[i].end, old_start) <==> nei0 <= i);
                }
                lemma_segment_is_filter(se, k, nei0, leaving);
            }
        } else {
            self.reset_next_end_idx();
            proof {
                broadcast use group_multiset_axioms;

                assert(time_le(old_start, start_time));
                assert forall|x: Span<T, Id>|
                    !(#[trigger] end_reaches(x.end, start_time) && !end_reaches(x.end, old_start)) by {
                    lemma_end_reaches_monotone(x.end, x.end, old_start, start_time);
                }
                assert(spans.filter(
                    |x: Span<T, Id>| end_reaches(x.end, start_time) && !end_reaches(x.end, old_start),
                ) =~= Multiset::empty());
                assert(a1.add(Multiset::empty()) =~= a1);
            }
        }
        let ghost a2 = self.active@.to_multiset();
        assert(a2 == a1.add(
            spans.filter(
                |x: Span<T, Id>| end_reaches(x.end, start_time) && !end_reaches(x.end, old_start),
            ),
        ));
        assert(splits_ends(se, self.next_end_idx as int, start_time));

        // Spans that no longer overlap the window leave.
        let ghost gathered = self.active@;
        let mut kept: Vec<Span<T, Id>> = Vec::new();
        let mut i: usize = 0;
        proof {
            broadcast use group_multiset_axioms, group_to_multiset_ensures;

            assert(gathered.subrange(0, 0) =~= Seq::<Span<T, Id>>::empty());
            assert(kept@ =~= Seq::<Span<T, Id>>::empty());
            assert(Seq::<Span<T, Id>>::empty().to_multiset().filter(
                |x: Span<T, Id>| x.active_in(start_time, end_time),
            ) =~= Multiset::empty());
        }
        while i < self.active.len()
            invariant
                obeys_cmp::<T>(),
                self.active@ == gathered,
                0 <= i <= gathered.len(),
                kept@.to_multiset() == gathered.subrange(0, i as int).to_multiset().filter(
                    |x: Span<T, Id>| x.active_in(start_time, end_time),
                ),
            decreases gathered.len() - i,
        {
            let sp = self.active[i];
            proof {
                broadcast use group_to_multiset_ensures;

                lemma_subrange_extend_back(gathered, 0, i as int);
                lemma_insert_filter(
                    gathered.subrange(0, i as int).to_multiset(),
                    sp,
                    |x: Span<T, Id>| x.active_in(start_time, end_time),
                );
            }
            if sp.is_active(start_time, end_time) {
                kept.push(sp);
            }
            i += 1;
        }
        self.active = kept;
        proof {
            assert(gathered.subrange(0, i as int) =~= gathered);
            lemma_window_move(spans, old_start, old_end, start_time, end_time);
        }
    }

    /// A cursor without spans, at the window `[time, time]`.
    pub fn empty(time: T) -> (r: Cursor<T, Id>)
        requires
            obeys_cmp::<T>(),
        ensures
            r.wf(),
            r.spans() == Multiset::<Span<T, Id>>::empty(),
            r.window() == (time, time),
            r.active_seq() == Seq::<Span<T, Id>>::empty(),
    {
        let r = Cursor {
            spans_start: Vec::new(),
            spans_end: Vec::new(),
            active: Vec::new(),
            next_start_idx: 0,
            next_end_idx: 0,
            current: (time, time),
        };
        proof {
            broadcast use group_multiset_axioms, group_to_multiset_ensures;

            lemma_time_order::<T>();
            assert(r.spans() =~= Multiset::empty());
            assert(r.active_set() =~= overlapping(r.spans(), time, time));
        }
        r
    }

    /// The current window `(low, high)`.
    pub fn current(&self) -> (r: (T, T))
        ensures
            r == self.window(),
    {
        self.current
    }

    /// The identifiers of the active spans.
    pub fn active_ids(&self) -> (r: Vec<Id>)
        ensures
            r@ == self.active_seq().map_values(|s: Span<T, Id>| s.id),
    {
        let mut r: Vec<Id> = Vec::new();
        let mut i: usize = 0;
        while i < self.active.len()
            invariant
                0 <= i <= self.active@.len(),
                r@ == self.active@.subrange(0, i as int).map_values(|s: Span<T, Id>| s.id),
            decreases self.active@.len() - i,
        {
            r.push(self.active[i].id);
            i += 1;
            assert(r@ =~= self.active@.subrange(0, i as int).map_values(|s: Span<T, Id>| s.id));
        }
        assert(self.active@.subrange(0, i as int) =~= self.active@);
        r
    }

    /// Copies of the active spans.
    pub fn active_spans(&self) -> (r: Vec<Span<T, Id>>)
        ensures
            r@ == self.active_seq(),
    {
        copy_spans(&self.active)
    }

    /// Whether no span is active and no span is left to start after the window.
    pub fn is_finished(&self) -> (r: bool)
        requires
            self.wf(),
        ensures
            r == self.finished(),
    {
        proof {
            broadcast use group_to_multiset_ensures;

            let s = self.spans_start@;
            if self.next_start_idx < s.len() {
                assert(self.spans().count(s[self.next_start_idx as int]) > 0);
            } else {
                assert forall|x: Span<T, Id>| #[trigger] self.spans().count(x) > 0 implies time_le(
                    x.start,
                    self.window().1,
                ) by {
                    assert(s.contains(x));
                }
            }
        }
        self.active.len() == 0 && self.next_start_idx == self.spans_start.len()
    }
}

/// Moving the window from `[old_low, old_high]` to `[low, high]`: the spans that overlapped the
/// old window, with those that started in `(old_high, high]` and those that ended in
/// `[low, old_low)`, hold every span that overlaps the new window exactly once.
proof fn lemma_window_move<T: Ord + Copy, Id: Copy>(
    spans: Multiset<Span<T, Id>>,
    old_low: T,
    old_high: T,
    low: T,
    high: T,
)
    requires
        obeys_cmp::<T>(),
        time_le(old_low, old_high),
        time_le(low, high),
        forall|s: Span<T, Id>| #[trigger] spans.count(s) > 0 ==> s.wf(),
    ensures
        overlapping(spans, old_low, old_high).add(
            spans.filter(|x: Span<T, Id>| !time_le(x.start, old_high) && time_le(x.start, high)),
        ).add(
            spans.filter(
                |x: Span<T, Id>| end_reaches(x.end, low) && !end_reaches(x.end, old_low),
            ),
        ).filter(|x: Span<T, Id>| x.active_in(low, high)) == overlapping(spans, low, high),
{
    broadcast use group_multiset_axioms;

    lemma_time_order::<T>();
    let lhs = overlapping(spans, old_low, old_high).add(
        spans.filter(|x: Span<T, Id>| !time_le(x.start, old_high) && time_le(x.start, high)),
    ).add(
        spans.filter(|x: Span<T, Id>| end_reaches(x.end, low) && !end_reaches(x.end, old_low)),
    ).filter(|x: Span<T, Id>| x.active_in(low, high));
    assert forall|x: Span<T, Id>| lhs.count(x) == overlapping(spans, low, high).count(x) by {
        if spans.count(x) > 0 && x.active_in(low, high) && !time_le(x.start, old_high) {
            assert(x.wf());
            if !end_reaches(x.end, old_low) {
                let e = x.end.unwrap();
                assert(time_le(x.start, e));
                assert(time_le(e, old_low));
                assert(time_le(x.start, old_low));
            }
        }
    }
    assert(lhs =~= overlapping(spans, low, high));
}

/// A copy of `v`.
fn copy_spans<T: Ord + Copy, Id: Copy>(v: &Vec<Span<T, Id>>) -> (r: Vec<Span<T, Id>>)
    ensures
        r@ == v@,
{
    let mut r: Vec<Span<T, Id>> = Vec::new();
    let mut i: usize = 0;
    while i < v.len()
        invariant
            0 <= i <= v@.len(),
            r@ == v@.subrange(0, i as int),
        decreases v@.len() - i,
    {
        r.push(v[i]);
        i += 1;
        assert(r@ =~= v@.subrange(0, i as int));
    }
    assert(v@.subrange(0, i as int) =~= v@);
    r
}

} // verus!
