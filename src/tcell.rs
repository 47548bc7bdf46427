use vstd::prelude::*;
use crate::window::{Window, covers};

verus! {

/// Whether a history is in time order.
pub open spec fn sorted_by_time<V>(s: Seq<(i64, V)>) -> bool {
    forall|i: int, j: int| 0 <= i < j < s.len() ==> s[i].0 <= s[j].0
}

/// Whether some entry of the history lies in the window.
pub open spec fn active_in<V>(s: Seq<(i64, V)>, w: Option<Window>) -> bool {
    exists|i: int| 0 <= i < s.len() && covers(w, #[trigger] s[i].0)
}

/// The history with `(t, v)` placed after every entry at or before `t` and before
/// every later one.
pub open spec fn placed_at<V>(old_s: Seq<(i64, V)>, new_s: Seq<(i64, V)>, p: int, t: i64, v: V) -> bool {
    &&& 0 <= p <= old_s.len()
    &&& new_s == old_s.insert(p, (t, v))
    &&& forall|j: int| 0 <= j < p ==> #[trigger] old_s[j].0 <= t
    &&& forall|j: int| p <= j < old_s.len() ==> #[trigger] old_s[j].0 > t
}

/// The position after every entry at or before `t`, in a time-ordered history.
pub open spec fn pos_after<V>(s: Seq<(i64, V)>, t: i64) -> int
    decreases s.len(),
{
    if s.len() == 0 {
        0
    } else if s.last().0 <= t {
        s.len() as int
    } else {
        pos_after(s.drop_last(), t)
    }
}

/// The history with `(t, v)` placed after every entry at or before `t`.
pub open spec fn insert_sorted<V>(s: Seq<(i64, V)>, t: i64, v: V) -> Seq<(i64, V)> {
    s.insert(pos_after(s, t), (t, v))
}

/// The only position that splits a history into entries at or before `t` and
/// later ones is `pos_after`.
pub proof fn lemma_pos_after<V>(s: Seq<(i64, V)>, p: int, t: i64)
    requires
        0 <= p <= s.len(),
        forall|j: int| 0 <= j < p ==> #[trigger] s[j].0 <= t,
        forall|j: int| p <= j < s.len() ==> #[trigger] s[j].0 > t,
    ensures
        pos_after(s, t) == p,
    decreases s.len(),
{
    if s.len() > 0 {
        let d = s.drop_last();
        if s.last().0 <= t {
            assert(p == s.len()) by {
                if p < s.len() {
                    assert(s[s.len() - 1].0 > t);
                }
            }
        } else {
            assert(p < s.len()) by {
                if p == s.len() {
                    assert(s[s.len() - 1].0 <= t);
                }
            }
            assert forall|j: int| 0 <= j < p implies #[trigger] d[j].0 <= t by {
                assert(d[j] == s[j]);
            }
            assert forall|j: int| p <= j < d.len() implies #[trigger] d[j].0 > t by {
                assert(d[j] == s[j]);
            }
            lemma_pos_after(d, p, t);
        }
    }
}

/// A value that remembers every `(time, value)` it was assigned, in time order;
/// entries at equal times keep the order in which they were set.
pub struct TCell<V> {
    entries: Vec<(i64, V)>,
}

impl<V> TCell<V> {
    pub closed spec fn view(&self) -> Seq<(i64, V)> {
        self.entries@
    }

    pub open spec fn wf(&self) -> bool {
        sorted_by_time(self.view())
    }

    pub fn new() -> (r: TCell<V>)
        ensures
            r.wf(),
            r.view() == Seq::<(i64, V)>::empty(),
    {
        TCell { entries: Vec::new() }
    }

    /// A history holding the single entry `(t, v)`.
    pub fn from_entry(t: i64, v: V) -> (r: TCell<V>)
        ensures
            r.wf(),
            r.view() == seq![(t, v)],
    {
        let mut entries: Vec<(i64, V)> = Vec::new();
        entries.push((t, v));
        TCell { entries }
    }

    pub fn len(&self) -> (r: usize)
        ensures
            r == self.view().len(),
    {
        self.entries.len()
    }

    pub fn entry(&self, i: usize) -> (r: &(i64, V))
        requires
            i < self.view().len(),
        ensures
            *r == self.view()[i as int],
    {
        &self.entries[i]
    }

    /// Records that `v` was observed at `t`.
    pub fn set(&mut self, t: i64, v: V)
        requires
            old(self).wf(),
        ensures
            final(self).wf(),
            exists|p: int| placed_at(old(self).view(), final(self).view(), p, t, v),
            final(self).view() == insert_sorted(old(self).view(), t, v),
            forall|w: Option<Window>|
                #[trigger] active_in(final(self).view(), w) == (active_in(old(self).view(), w) || covers(w, t)),
    {
        let n = self.entries.len();
        let mut p: usize = n;
        while p > 0 && self.entries[p - 1].0 > t
            invariant
                p <= n,
                n == self.entries.len(),
                self.entries@ == old(self).entries@,
                sorted_by_time(self.entries@),
                forall|j: int| p <= j < n ==> #[trigger] self.entries@[j].0 > t,
            decreases p,
        {
            p = p - 1;
        }
        let ghost s0 = self.entries@;
        assert forall|j: int| 0 <= j < p implies #[trigger] s0[j].0 <= t by {
            if p > 0 {
                assert(s0[p - 1].0 <= t);
            }
        }
        self.entries.insert(p, (t, v));
        let ghost s1 = self.entries@;
        assert(placed_at(s0, s1, p as int, t, v));
        proof { lemma_pos_after(s0, p as int, t); }
        assert(s0 == old(self).view());
        assert(s1 == self.view());
        assert forall|i: int, j: int| 0 <= i < j < s1.len() implies s1[i].0 <= s1[j].0 by {
            if i < p && j < p {
                assert(s1[i] == s0[i] && s1[j] == s0[j]);
            } else if i < p && j == p {
                assert(s1[i] == s0[i]);
            } else if i < p {
                assert(s1[i] == s0[i] && s1[j] == s0[j - 1]);
            } else if i == p {
                assert(s1[j] == s0[j - 1]);
            } else {
                assert(s1[i] == s0[i - 1] && s1[j] == s0[j - 1]);
            }
        }
        assert forall|w: Option<Window>|
            #[trigger] active_in(self.view(), w) == (active_in(old(self).view(), w) || covers(w, t)) by {
            if active_in(s0, w) {
                let i = choose|i: int| 0 <= i < s0.len() && covers(w, #[trigger] s0[i].0);
                if i < p {
                    assert(s1[i] == s0[i]);
                } else {
                    assert(s1[i + 1] == s0[i]);
                }
            }
            if covers(w, t) {
                assert(s1[p as int].0 == t);
            }
            if active_in(s1, w) {
                let i = choose|i: int| 0 <= i < s1.len() && covers(w, #[trigger] s1[i].0);
                if i < p {
                    assert(s1[i] == s0[i]);
                } else if i > p {
                    assert(s1[i] == s0[i - 1]);
                }
            }
        }
    }

    /// Whether some entry lies in the window.
    pub fn active(&self, w: Option<Window>) -> (r: bool)
        ensures
            r == active_in(self.view(), w),
    {
        let mut i: usize = 0;
        while i < self.entries.len()
            invariant
                i <= self.entries.len(),
                forall|j: int| 0 <= j < i ==> !covers(w, #[trigger] self.entries@[j].0),
            decreases self.entries.len() - i,
        {
            if crate::window::covers_time(w, self.entries[i].0) {
                return true;
            }
            i = i + 1;
        }
        false
    }

    /// The position of the earliest entry inside the window, if any.
    pub fn first_in(&self, w: Option<Window>) -> (r: Option<usize>)
        requires
            self.wf(),
        ensures
            r.is_some() == active_in(self.view(), w),
            r matches Some(j) ==> j < self.view().len() && covers(w, self.view()[j as int].0),
            r matches Some(j) ==> forall|k: int|
                0 <= k < self.view().len() && covers(w, #[trigger] self.view()[k].0) ==> self.view()[j as int].0 <= self.view()[k].0,
    {
        let mut i: usize = 0;
        while i < self.entries.len()
            invariant
                i <= self.entries.len(),
                self.wf(),
                forall|j: int| 0 <= j < i ==> !covers(w, #[trigger] self.entries@[j].0),
            decreases self.entries.len() - i,
        {
            if crate::window::covers_time(w, self.entries[i].0) {
                assert forall|k: int|
                    0 <= k < self.view().len() && covers(w, #[trigger] self.view()[k].0) implies self.view()[i as int].0
                    <= self.view()[k].0 by {
                    if k >= i {
                        assert(self.entries@[i as int].0 <= self.entries@[k].0);
                    }
                }
                return Some(i);
            }
            i = i + 1;
        }
        None
    }
}

} // verus!
