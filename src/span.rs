//! Spans: time intervals, possibly open on the right, each carrying an identifier.
use crate::order::{lemma_time_order, time_le};
use vstd::laws_cmp::obeys_cmp;
use vstd::prelude::*;

verus! {

/// A time interval `[start, end]`, inclusive of both ends. An absent `end` means that the
/// interval extends forever.
#[derive(Clone, Copy, Debug, PartialEq)]
pub struct Span<T: Ord + Copy, Id: Copy> {
    pub start: T,
    pub end: Option<T>,
    pub id: Id,
}

/// Whether an end (absent meaning infinite) lies at or after time `t`.
pub open spec fn end_reaches<T: Ord>(end: Option<T>, t: T) -> bool {
    match end {
        Some(e) => time_le(t, e),
        None => true,
    }
}

/// The order on ends, in which an absent end comes after every present one.
pub open spec fn end_le<T: Ord>(a: Option<T>, b: Option<T>) -> bool {
    match (a, b) {
        (_, None) => true,
        (None, Some(_)) => false,
        (Some(x), Some(y)) => time_le(x, y),
    }
}

/// An end that reaches a time also reaches every earlier time, and a later end reaches every
/// time that an earlier one does.
pub proof fn lemma_end_reaches_monotone<T: Ord>(e: Option<T>, f: Option<T>, a: T, b: T)
    requires
        obeys_cmp::<T>(),
    ensures
        time_le(a, b) && end_reaches(e, b) ==> end_reaches(e, a),
        end_le(e, f) && end_reaches(e, a) ==> end_reaches(f, a),
{
    lemma_time_order::<T>();
}

impl<T: Ord + Copy, Id: Copy> Span<T, Id> {
    /// The span really is an interval: its end, if any, does not come before its start.
    pub open spec fn wf(self) -> bool {
        end_reaches(self.end, self.start)
    }

    /// The span overlaps the window `[low, high]`.
    pub open spec fn active_in(self, low: T, high: T) -> bool {
        time_le(self.start, high) && end_reaches(self.end, low)
    }

    /// A span is active if its time interval overlaps with `[start_time, end_time]`.
    pub fn is_active(&self, start_time: T, end_time: T) -> (r: bool)
        requires
            obeys_cmp::<T>(),
        ensures
            r == self.active_in(start_time, end_time),
    {
        proof {
            lemma_time_order::<T>();
        }
        self.start <= end_time && MaybeInfinite::from_end(self.end).reaches(start_time)
    }
}

/// An end of a span as a value: `Finite(t)` or `Infinite`, the latter after every finite one.
pub enum MaybeInfinite<T> {
    Finite(T),
    Infinite,
}

impl<T: Ord + Copy> MaybeInfinite<T> {
    /// The optional end that this value stands for.
    pub open spec fn as_end(self) -> Option<T> {
        match self {
            MaybeInfinite::Finite(t) => Some(t),
            MaybeInfinite::Infinite => None,
        }
    }

    /// The end that `x` stands for, `None` meaning infinite.
    pub fn from_end(x: Option<T>) -> (r: MaybeInfinite<T>)
        ensures
            r.as_end() == x,
    {
        match x {
            Some(t) => MaybeInfinite::Finite(t),
            None => MaybeInfinite::Infinite,
        }
    }

    /// Whether this end lies at or after time `t`.
    pub fn reaches(&self, t: T) -> (r: bool)
        requires
            obeys_cmp::<T>(),
        ensures
            r == end_reaches(self.as_end(), t),
    {
        proof {
            lemma_time_order::<T>();
        }
        match self {
            MaybeInfinite::Finite(x) => t <= *x,
            MaybeInfinite::Infinite => true,
        }
    }

    /// Whether this end comes at or before `other`.
    pub fn le(&self, other: &MaybeInfinite<T>) -> (r: bool)
        requires
            obeys_cmp::<T>(),
        ensures
            r == end_le(self.as_end(), other.as_end()),
    {
        proof {
            lemma_time_order::<T>();
        }
        match (self, other) {
            (_, MaybeInfinite::Infinite) => true,
            (MaybeInfinite::Infinite, MaybeInfinite::Finite(_)) => false,
            (MaybeInfinite::Finite(x), MaybeInfinite::Finite(y)) => *x <= *y,
        }
    }
}

} // verus!
