use vstd::prelude::*;

verus! {

/// A half-open time interval `[start, end)`.
#[derive(Clone, Copy, PartialEq, Eq, Structural, Debug)]
pub struct Window {
    pub start: i64,
    pub end: i64,
}

/// Whether time `t` lies in the window.
pub open spec fn in_window(t: i64, w: Window) -> bool {
    w.start <= t && t < w.end
}

/// Whether time `t` lies in an optional window; no window admits every time.
pub open spec fn covers(w: Option<Window>, t: i64) -> bool {
    match w {
        Some(w) => in_window(t, w),
        None => true,
    }
}

pub open spec fn spec_max(a: i64, b: i64) -> i64 {
    if a >= b { a } else { b }
}

pub open spec fn spec_min(a: i64, b: i64) -> i64 {
    if a <= b { a } else { b }
}

/// The intersection of two windows.
pub open spec fn spec_intersect(a: Window, b: Window) -> Window {
    Window { start: spec_max(a.start, b.start), end: spec_min(a.end, b.end) }
}

/// The intersection of an optional inner window with an outer one.
pub open spec fn spec_restrict(inner: Option<Window>, outer: Window) -> Window {
    match inner {
        Some(w) => spec_intersect(w, outer),
        None => outer,
    }
}

impl Window {
    pub fn new(start: i64, end: i64) -> (r: Window)
        ensures
            r.start == start,
            r.end == end,
    {
        Window { start, end }
    }

    /// Whether the window holds no time at all.
    pub fn is_empty(&self) -> (r: bool)
        ensures
            r == (self.start >= self.end),
            r == (forall|t: i64| !in_window(t, *self)),
    {
        if self.start >= self.end {
            true
        } else {
            assert(in_window(self.start, *self));
            false
        }
    }

    pub fn contains(&self, t: i64) -> (r: bool)
        ensures
            r == in_window(t, *self),
    {
        self.start <= t && t < self.end
    }

    /// `[max(a.start, b.start), min(a.end, b.end))`
    pub fn intersect(&self, other: &Window) -> (r: Window)
        ensures
            r == spec_intersect(*self, *other),
            forall|t: i64| in_window(t, r) == (in_window(t, *self) && in_window(t, *other)),
    {
        let start = if self.start >= other.start { self.start } else { other.start };
        let end = if self.end <= other.end { self.end } else { other.end };
        Window { start, end }
    }
}

/// Whether time `t` lies in an optional window.
pub fn covers_time(w: Option<Window>, t: i64) -> (r: bool)
    ensures
        r == covers(w, t),
{
    match w {
        Some(w) => w.contains(t),
        None => true,
    }
}

/// The window that a query actually runs in: the pointer's own window, if any,
/// intersected with the view's.
pub fn actual_window(inner: Option<Window>, outer: Window) -> (r: Window)
    ensures
        r == spec_restrict(inner, outer),
        forall|t: i64| in_window(t, r) == (covers(inner, t) && in_window(t, outer)),
{
    match inner {
        Some(w) => w.intersect(&outer),
        None => outer,
    }
}

/// Window intersection is associative: restricting `[a, b)` by `[c, d)` is the
/// window `[max(a, c), min(b, d))`, and the order in which three windows are
/// intersected does not matter.
pub proof fn lemma_intersect_associative(x: Window, y: Window, z: Window)
    ensures
        spec_intersect(spec_intersect(x, y), z) == spec_intersect(x, spec_intersect(y, z)),
        spec_intersect(x, y) == (Window {
            start: spec_max(x.start, y.start),
            end: spec_min(x.end, y.end),
        }),
{
}

} // verus!
