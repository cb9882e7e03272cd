//! Laws of the cursor, stated over its model and proved.
use crate::cursor::Cursor;
use crate::order::{lemma_time_order, time_le};
use crate::span::Span;
use vstd::multiset::{group_multiset_axioms, Multiset};
use vstd::prelude::*;
use vstd::seq_lib::group_to_multiset_ensures;

verus! {

/// A span is active exactly when it is one of the cursor's spans and overlaps the window, and it
/// is active as many times as it was given.
pub proof fn lemma_active_iff_overlaps<T: Ord + Copy, Id: Copy + Eq>(c: &Cursor<T, Id>)
    requires
        c.wf(),
    ensures
        forall|s: Span<T, Id>| #[trigger]
            c.active_set().count(s) == if s.active_in(c.window().0, c.window().1) {
                c.spans().count(s)
            } else {
                0
            },
        forall|s: Span<T, Id>| #[trigger]
            c.active_set().contains(s) <==> c.spans().contains(s) && s.active_in(
                c.window().0,
                c.window().1,
            ),
{
    broadcast use group_multiset_axioms;

}

/// The identifiers and the spans that the cursor hands out agree in number, and the identifiers
/// are exactly those of the spans.
pub proof fn lemma_ids_agree_with_spans<T: Ord + Copy, Id: Copy + Eq>(
    c: &Cursor<T, Id>,
    ids: Seq<Id>,
    spans: Seq<Span<T, Id>>,
)
    requires
        ids == c.active_seq().map_values(|s: Span<T, Id>| s.id),
        spans == c.active_seq(),
    ensures
        ids.len() == spans.len(),
        forall|id: Id| #[trigger]
            ids.contains(id) <==> exists|i: int| 0 <= i < spans.len() && spans[i].id == id,
{
    assert forall|id: Id| #[trigger] ids.contains(id) implies exists|i: int|
        0 <= i < spans.len() && spans[i].id == id by {
        let j = choose|j: int| 0 <= j < ids.len() && ids[j] == id;
        assert(spans[j].id == id);
    }
    assert forall|id: Id|
        (exists|i: int| 0 <= i < spans.len() && spans[i].id == id) implies #[trigger] ids.contains(
        id,
    ) by {
        let j = choose|j: int| 0 <= j < spans.len() && spans[j].id == id;
        assert(ids[j] == id);
    }
}

/// Moving a cursor to the window that it already has leaves its active spans as they were.
pub proof fn lemma_advance_to_current_keeps_active<T: Ord + Copy, Id: Copy + Eq>(
    c: &Cursor<T, Id>,
    d: &Cursor<T, Id>,
)
    requires
        c.wf(),
        d.advanced_from(c, c.window().0, c.window().1),
    ensures
        d.active_set() == c.active_set(),
{
}

/// Moving a cursor to another window and straight back gives back the active spans it had.
pub proof fn lemma_move_and_back<T: Ord + Copy, Id: Copy + Eq>(
    c: &Cursor<T, Id>,
    d: &Cursor<T, Id>,
    e: &Cursor<T, Id>,
    low: T,
    high: T,
)
    requires
        c.wf(),
        d.advanced_from(c, low, high),
        e.advanced_from(d, c.window().0, c.window().1),
    ensures
        e.active_set() == c.active_set(),
{
}

/// Once the window lies after the end of every span, which excludes open-ended spans, the
/// cursor is finished.
pub proof fn lemma_finished_past_every_end<T: Ord + Copy, Id: Copy + Eq>(c: &Cursor<T, Id>)
    requires
        c.wf(),
        forall|s: Span<T, Id>| #[trigger]
            c.spans().count(s) > 0 ==> s.end.is_some() && !time_le(c.window().0, s.end.unwrap()),
    ensures
        c.finished(),
{
    broadcast use group_multiset_axioms, group_to_multiset_ensures;

    lemma_time_order::<T>();
    let (low, high) = c.window();
    assert forall|s: Span<T, Id>| #[trigger] c.spans().count(s) > 0 implies time_le(
        s.start,
        high,
    ) by {
        assert(s.wf());
        assert(time_le(s.start, s.end.unwrap()));
        assert(time_le(s.end.unwrap(), low));
    }
    assert forall|s: Span<T, Id>| c.active_set().count(s) == 0 by {
        if c.spans().count(s) > 0 {
            assert(!s.active_in(low, high));
        }
    }
    assert(c.active_set() =~= Multiset::empty());
    assert(c.active_seq().len() == c.active_set().len());
}

/// While an open-ended span has started by the end of the window, the cursor is not finished.
pub proof fn lemma_open_span_keeps_unfinished<T: Ord + Copy, Id: Copy + Eq>(
    c: &Cursor<T, Id>,
    s: Span<T, Id>,
)
    requires
        c.wf(),
        c.spans().count(s) > 0,
        s.end.is_none(),
        time_le(s.start, c.window().1),
    ensures
        !c.finished(),
{
    broadcast use group_multiset_axioms, group_to_multiset_ensures;

    assert(c.active_set().count(s) > 0);
}

/// Cursors made from the same spans in any two orders, and at the same window, have the same
/// active spans. As moving keeps the spans and sets the window, this holds after any sequence
/// of moves made on both.
pub proof fn lemma_order_independent<T: Ord + Copy, Id: Copy + Eq>(
    a: Seq<Span<T, Id>>,
    b: Seq<Span<T, Id>>,
    c: &Cursor<T, Id>,
    d: &Cursor<T, Id>,
)
    requires
        a.to_multiset() == b.to_multiset(),
        c.wf(),
        d.wf(),
        c.spans() == a.to_multiset(),
        d.spans() == b.to_multiset(),
        c.window() == d.window(),
    ensures
        c.active_set() == d.active_set(),
{
}

} // verus!
