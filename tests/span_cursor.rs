use span_cursor::{Cursor, Span};

fn cursor(intervals: &[(i32, Option<i32>)], start_time: i32, end_time: i32) -> Cursor<i32, usize> {
    let spans = intervals
        .iter()
        .enumerate()
        .map(|(id, &(start, end))| Span { start, end, id })
        .collect::<Vec<_>>();

    Cursor::new(spans, start_time, end_time)
}

fn sorted(mut ids: Vec<usize>) -> Vec<usize> {
    ids.sort();
    ids
}

const SPANS: [(i32, Option<i32>); 4] = [(0, None), (3, Some(5)), (4, Some(10)), (5, Some(7))];

#[test]
fn forward() {
    let mut c = cursor(&SPANS, 0, 1);
    assert_eq!(c.active_ids(), vec![0]);

    c.advance_to(1, 4);
    assert_eq!(c.active_ids(), vec![0, 1, 2]);

    c.advance_to(5, 6);
    assert_eq!(c.active_ids(), vec![0, 1, 2, 3]);

    c.advance_to(6, 7);
    assert_eq!(c.active_ids(), vec![0, 2, 3]);
}

#[test]
fn backward() {
    let mut c = cursor(&SPANS, 11, 11);
    assert_eq!(c.active_ids(), vec![0]);

    c.advance_to(10, 11);
    assert_eq!(c.active_ids(), vec![0, 2]);

    c.advance_to(8, 12);
    assert_eq!(c.active_ids(), vec![0, 2]);

    c.advance_to(6, 8);
    assert_eq!(c.active_ids(), vec![0, 2, 3]);

    c.advance_to(0, 2);
    assert_eq!(c.active_ids(), vec![0]);

    c.advance_to(0, 0);
    assert_eq!(c.active_ids(), vec![0]);
}

#[test]
fn backward_to_early_window_drops_later_spans() {
    let mut c = cursor(&SPANS, 11, 11);
    c.advance_to(10, 11);
    assert_eq!(sorted(c.active_ids()), vec![0, 2]);
    c.advance_to(8, 12);
    assert_eq!(sorted(c.active_ids()), vec![0, 2]);
    c.advance_to(0, 2);
    assert_eq!(c.active_ids(), vec![0]);
}

#[test]
fn empty_cursor_is_finished() {
    for t in [-5, 0, 7, i32::MAX] {
        let c: Cursor<i32, usize> = Cursor::empty(t);
        assert!(c.is_finished());
        assert!(c.active_ids().is_empty());
        assert!(c.active_spans().is_empty());
        assert_eq!(c.current(), (t, t));
    }
}

#[test]
fn new_without_spans_is_finished() {
    let c = cursor(&[], 3, 9);
    assert!(c.is_finished());
    assert!(c.active_ids().is_empty());
}

#[test]
fn current_follows_moves() {
    let mut c = cursor(&SPANS, 2, 3);
    assert_eq!(c.current(), (2, 3));
    c.advance_to(-4, 20);
    assert_eq!(c.current(), (-4, 20));
    c.advance_to(8, 8);
    assert_eq!(c.current(), (8, 8));
}

#[test]
fn is_active_checks_overlap() {
    let closed = Span { start: 3, end: Some(5), id: 1usize };
    assert!(closed.is_active(5, 9));
    assert!(closed.is_active(0, 3));
    assert!(closed.is_active(4, 4));
    assert!(!closed.is_active(6, 9));
    assert!(!closed.is_active(0, 2));

    let open = Span { start: 3, end: None, id: 0usize };
    assert!(open.is_active(1000, 2000));
    assert!(!open.is_active(0, 2));
}

#[test]
fn ids_and_spans_agree() {
    let mut c = cursor(&SPANS, 1, 4);
    let spans = c.active_spans();
    let ids = c.active_ids();
    assert_eq!(spans.len(), ids.len());
    assert_eq!(spans.iter().map(|sp| sp.id).collect::<Vec<_>>(), ids);
    assert_eq!(spans[1], Span { start: 3, end: Some(5), id: 1 });

    c.advance_to(6, 7);
    let spans = c.active_spans();
    assert_eq!(spans.iter().map(|sp| sp.id).collect::<Vec<_>>(), c.active_ids());
}

#[test]
fn advancing_to_current_window_changes_nothing() {
    let mut c = cursor(&SPANS, 4, 6);
    let before = sorted(c.active_ids());
    assert_eq!(before, vec![0, 1, 2, 3]);
    let (low, high) = c.current();
    c.advance_to(low, high);
    assert_eq!(sorted(c.active_ids()), before);
}

#[test]
fn moving_forward_and_back_restores_active() {
    let mut c = cursor(&SPANS, 1, 3);
    let before = sorted(c.active_ids());
    assert_eq!(before, vec![0, 1]);
    c.advance_to(8, 9);
    assert_eq!(sorted(c.active_ids()), vec![0, 2]);
    c.advance_to(1, 3);
    assert_eq!(sorted(c.active_ids()), before);
}

#[test]
fn finished_after_every_end() {
    let mut c = cursor(&[(3, Some(5)), (4, Some(10)), (5, Some(7))], 0, 1);
    assert!(!c.is_finished());
    c.advance_to(6, 6);
    assert!(!c.is_finished());
    c.advance_to(11, 11);
    assert!(c.is_finished());
    assert!(c.active_ids().is_empty());
}

#[test]
fn open_span_keeps_cursor_unfinished() {
    let mut c = cursor(&SPANS, 0, 1);
    c.advance_to(100, 100);
    assert!(!c.is_finished());
    assert_eq!(c.active_ids(), vec![0]);
    c.advance_to(10_000, 20_000);
    assert!(!c.is_finished());
}

#[test]
fn spans_not_yet_started_keep_cursor_unfinished() {
    let c = cursor(&[(5, Some(6))], 0, 1);
    assert!(c.active_ids().is_empty());
    assert!(!c.is_finished());
}

#[test]
fn order_of_spans_does_not_matter() {
    let a = [(0, None), (3, Some(5)), (4, Some(10)), (5, Some(7))];
    let spans_a: Vec<Span<i32, usize>> =
        a.iter().enumerate().map(|(id, &(start, end))| Span { start, end, id }).collect();
    let mut spans_b = spans_a.clone();
    spans_b.reverse();
    spans_b.swap(0, 2);

    let mut c = Cursor::new(spans_a, 0, 1);
    let mut d = Cursor::new(spans_b, 0, 1);
    for (low, high) in [(0, 1), (1, 4), (5, 6), (6, 7), (2, 3), (11, 11), (0, 0)] {
        c.advance_to(low, high);
        d.advance_to(low, high);
        assert_eq!(sorted(c.active_ids()), sorted(d.active_ids()));
    }
}

#[test]
fn unsorted_input_is_sorted_by_start() {
    // Given in descending order of start: a forward walk over unsorted spans would stop at once.
    let mut c = cursor(&[(8, Some(9)), (6, Some(7)), (2, Some(3))], 0, 0);
    assert!(c.active_ids().is_empty());
    c.advance_to(0, 6);
    assert_eq!(sorted(c.active_ids()), vec![1, 2]);
    c.advance_to(0, 9);
    assert_eq!(sorted(c.active_ids()), vec![0, 1, 2]);
}

#[test]
fn unsorted_input_is_sorted_by_end() {
    // Given in ascending order of end: a backward walk needs them sorted the other way round
    // from the cursor's position, and an open end sorts last.
    let mut c = cursor(&[(0, Some(1)), (0, Some(4)), (0, None), (0, Some(6))], 20, 20);
    assert_eq!(c.active_ids(), vec![2]);
    c.advance_to(5, 20);
    assert_eq!(sorted(c.active_ids()), vec![2, 3]);
    c.advance_to(2, 20);
    assert_eq!(sorted(c.active_ids()), vec![1, 2, 3]);
    c.advance_to(0, 20);
    assert_eq!(sorted(c.active_ids()), vec![0, 1, 2, 3]);
}

#[test]
fn duplicate_spans_are_both_active() {
    let mut c = cursor(&[(2, Some(4)), (2, Some(4)), (2, Some(4))], 0, 0);
    assert!(c.active_ids().is_empty());
    c.advance_to(3, 3);
    assert_eq!(sorted(c.active_ids()), vec![0, 1, 2]);
    c.advance_to(5, 5);
    assert!(c.active_ids().is_empty());
    c.advance_to(4, 4);
    assert_eq!(sorted(c.active_ids()), vec![0, 1, 2]);
}

#[test]
fn equal_starts_and_window_edges() {
    let mut c = cursor(&[(5, Some(5)), (5, Some(8)), (5, None)], 5, 5);
    assert_eq!(sorted(c.active_ids()), vec![0, 1, 2]);
    c.advance_to(6, 6);
    assert_eq!(sorted(c.active_ids()), vec![1, 2]);
    c.advance_to(4, 4);
    assert!(c.active_ids().is_empty());
    c.advance_to(8, 8);
    assert_eq!(sorted(c.active_ids()), vec![1, 2]);
}

#[test]
fn extreme_times() {
    let mut c = cursor(&[(i32::MIN, Some(i32::MIN)), (i32::MAX, None)], i32::MIN, i32::MIN);
    assert_eq!(c.active_ids(), vec![0]);
    c.advance_to(i32::MIN, i32::MAX);
    assert_eq!(sorted(c.active_ids()), vec![0, 1]);
    c.advance_to(i32::MAX, i32::MAX);
    assert_eq!(c.active_ids(), vec![1]);
}
