use vstd::prelude::*;
use crate::window::{Window, covers};
use crate::tcell::{TCell, active_in};

verus! {

/// What an adjacency entry points at: an edge record of this shard, or a vertex
/// that lives in another shard, by its global id.
#[derive(Clone, Copy, PartialEq, Eq, Structural, Debug)]
pub enum EdgeRef {
    Local(usize),
    Remote(u64),
}

/// One neighbour of a vertex, with the times at which it was seen.
pub struct AdjEntry {
    pub nbr: u64,
    pub cell: TCell<EdgeRef>,
}

/// Whether the neighbour ids rise strictly and every cell is a non-empty history.
pub open spec fn entries_wf(s: Seq<AdjEntry>) -> bool {
    &&& forall|i: int, j: int| 0 <= i < j < s.len() ==> #[trigger] s[i].nbr < #[trigger] s[j].nbr
    &&& forall|i: int| 0 <= i < s.len() ==> (#[trigger] s[i]).cell.wf() && s[i].cell.view().len() > 0
}

/// Whether entry `i` holds a time inside the window.
pub open spec fn entry_active(s: Seq<AdjEntry>, i: int, w: Option<Window>) -> bool {
    active_in(s[i].cell.view(), w)
}

/// The neighbours seen at some time inside the window.
pub open spec fn nbrs_of(s: Seq<AdjEntry>, w: Option<Window>) -> Set<u64> {
    Set::new(|n: u64| exists|i: int| 0 <= i < s.len() && #[trigger] s[i].nbr == n && entry_active(s, i, w))
}

/// The neighbours seen in any window are among the finitely many of the sequence.
pub proof fn lemma_nbrs_finite(s: Seq<AdjEntry>, w: Option<Window>)
    ensures
        nbrs_of(s, w).finite(),
{
    let all = s.map_values(|e: AdjEntry| e.nbr).to_set();
    vstd::seq_lib::seq_to_set_is_finite(s.map_values(|e: AdjEntry| e.nbr));
    assert forall|n: u64| nbrs_of(s, w).contains(n) implies all.contains(n) by {
        let i = choose|i: int| 0 <= i < s.len() && #[trigger] s[i].nbr == n && entry_active(s, i, w);
        assert(s.map_values(|e: AdjEntry| e.nbr)[i] == n);
    }
    vstd::set_lib::lemma_len_subset(nbrs_of(s, w), all);
}

/// `x` names a neighbour of the sequence, a time inside the window at which it was
/// seen, no earlier such time, and the reference recorded with it.
pub open spec fn earliest_edge(s: Seq<AdjEntry>, x: (u64, EdgeRef, i64), w: Option<Window>) -> bool {
    exists|k: int|
        0 <= k < s.len() && #[trigger] s[k].nbr == x.0
        && s[k].cell.view().contains((x.2, x.1))
        && covers(w, x.2)
        && (forall|m: int| 0 <= m < s[k].cell.view().len()
            && covers(w, #[trigger] s[k].cell.view()[m].0) ==> x.2 <= s[k].cell.view()[m].0)
}

/// For one vertex and one direction, the neighbours tagged with the times at which
/// each was seen, ordered by neighbour id.
pub struct TAdjSet {
    entries: Vec<AdjEntry>,
}

impl TAdjSet {
    pub closed spec fn view(&self) -> Seq<AdjEntry> {
        self.entries@
    }

    pub open spec fn wf(&self) -> bool {
        entries_wf(self.view())
    }

    /// The neighbours seen inside the window.
    pub open spec fn nbrs(&self, w: Option<Window>) -> Set<u64> {
        nbrs_of(self.view(), w)
    }

    pub fn new() -> (r: TAdjSet)
        ensures
            r.wf(),
            forall|w: Option<Window>| #[trigger] r.nbrs(w) == Set::<u64>::empty(),
    {
        let r = TAdjSet { entries: Vec::new() };
        assert forall|w: Option<Window>| #[trigger] r.nbrs(w) == Set::<u64>::empty() by {
            assert(r.nbrs(w) =~= Set::<u64>::empty());
        }
        r
    }

    /// Records that `nbr` was seen at `t`, through `e`.
    pub fn push(&mut self, t: i64, nbr: u64, e: EdgeRef)
        requires
            old(self).wf(),
        ensures
            final(self).wf(),
            forall|w: Option<Window>|
                #[trigger] final(self).nbrs(w) == (if covers(w, t) {
                    old(self).nbrs(w).insert(nbr)
                } else {
                    old(self).nbrs(w)
                }),
    {
        let n = self.entries.len();
        let mut i: usize = 0;
        while i < n && self.entries[i].nbr < nbr
            invariant
                i <= n,
                n == self.entries.len(),
                self.entries@ == old(self).entries@,
                forall|j: int| 0 <= j < i ==> #[trigger] self.entries@[j].nbr < nbr,
            decreases n - i,
        {
            i = i + 1;
        }
        let ghost s0 = self.entries@;
        if i < n && self.entries[i].nbr == nbr {
            let mut entry = self.entries.remove(i);
            let ghost c0 = entry.cell.view();
            entry.cell.set(t, e);
            self.entries.insert(i, entry);
            let ghost s1 = self.entries@;
            assert(s1 == s0.update(i as int, s1[i as int]));
            assert forall|a: int, b: int| 0 <= a < b < s1.len() implies #[trigger] s1[a].nbr
                < #[trigger] s1[b].nbr by {
                assert(s0[a].nbr < s0[b].nbr);
            }
            assert forall|a: int| 0 <= a < s1.len() implies (#[trigger] s1[a]).cell.wf()
                && s1[a].cell.view().len() > 0 by {
                if a == i {
                    let p = choose|p: int| crate::tcell::placed_at(c0, s1[a].cell.view(), p, t, e);
                    assert(s1[a].cell.view().len() == c0.len() + 1);
                }
            }
            assert forall|w: Option<Window>|
                #[trigger] self.nbrs(w) == (if covers(w, t) {
                    old(self).nbrs(w).insert(nbr)
                } else {
                    old(self).nbrs(w)
                }) by {
                assert(entry_active(s1, i as int, w) == (entry_active(s0, i as int, w) || covers(w, t)));
                assert forall|m: u64| #[trigger] nbrs_of(s1, w).contains(m) implies (if covers(w, t) {
                    nbrs_of(s0, w).insert(nbr)
                } else {
                    nbrs_of(s0, w)
                }).contains(m) by {
                    let k = choose|k: int| 0 <= k < s1.len() && #[trigger] s1[k].nbr == m && entry_active(s1, k, w);
                    if k != i {
                        assert(s0[k] == s1[k]);
                    }
                }
                assert forall|m: u64| (if covers(w, t) {
                    nbrs_of(s0, w).insert(nbr)
                } else {
                    nbrs_of(s0, w)
                }).contains(m) implies #[trigger] nbrs_of(s1, w).contains(m) by {
                    if m == nbr && covers(w, t) {
                        assert(s1[i as int].nbr == m && entry_active(s1, i as int, w));
                    } else {
                        let k = choose|k: int| 0 <= k < s0.len() && #[trigger] s0[k].nbr == m && entry_active(s0, k, w);
                        if k != i {
                            assert(s0[k] == s1[k]);
                        }
                        assert(s1[k].nbr == m && entry_active(s1, k, w));
                    }
                }
                assert(nbrs_of(s1, w) =~= (if covers(w, t) {
                    nbrs_of(s0, w).insert(nbr)
                } else {
                    nbrs_of(s0, w)
                }));
            }
        } else {
            let entry = AdjEntry { nbr, cell: TCell::from_entry(t, e) };
            self.entries.insert(i, entry);
            let ghost s1 = self.entries@;
            assert forall|a: int, b: int| 0 <= a < b < s1.len() implies #[trigger] s1[a].nbr
                < #[trigger] s1[b].nbr by {
                if b < i {
                    assert(s0[a].nbr < s0[b].nbr);
                } else if b == i {
                    assert(s0[a].nbr < nbr);
                } else if a < i {
                    assert(s0[a].nbr < s0[b - 1].nbr || b - 1 == i);
                    assert(s0[i as int].nbr > nbr);
                    assert(s0[a].nbr < nbr);
                } else if a == i {
                    assert(s0[i as int].nbr > nbr);
                    assert(i == b - 1 || s0[i as int].nbr < s0[b - 1].nbr);
                } else {
                    assert(s0[a - 1].nbr < s0[b - 1].nbr);
                }
            }
            assert forall|a: int| 0 <= a < s1.len() implies (#[trigger] s1[a]).cell.wf()
                && s1[a].cell.view().len() > 0 by {
                if a < i {
                    assert(s1[a] == s0[a]);
                } else if a > i {
                    assert(s1[a] == s0[a - 1]);
                }
            }
            assert forall|w: Option<Window>|
                #[trigger] self.nbrs(w) == (if covers(w, t) {
                    old(self).nbrs(w).insert(nbr)
                } else {
                    old(self).nbrs(w)
                }) by {
                assert(entry_active(s1, i as int, w) == covers(w, t)) by {
                    if covers(w, t) {
                        assert(s1[i as int].cell.view()[0].0 == t);
                    }
                }
                assert forall|m: u64| #[trigger] nbrs_of(s1, w).contains(m) implies (if covers(w, t) {
                    nbrs_of(s0, w).insert(nbr)
                } else {
                    nbrs_of(s0, w)
                }).contains(m) by {
                    let k = choose|k: int| 0 <= k < s1.len() && #[trigger] s1[k].nbr == m && entry_active(s1, k, w);
                    if k < i {
                        assert(s0[k] == s1[k]);
                    } else if k > i {
                        assert(s0[k - 1] == s1[k]);
                    }
                }
                assert forall|m: u64| (if covers(w, t) {
                    nbrs_of(s0, w).insert(nbr)
                } else {
                    nbrs_of(s0, w)
                }).contains(m) implies #[trigger] nbrs_of(s1, w).contains(m) by {
                    if m == nbr && covers(w, t) {
                        assert(s1[i as int].nbr == m && entry_active(s1, i as int, w));
                    } else {
                        let k = choose|k: int| 0 <= k < s0.len() && #[trigger] s0[k].nbr == m && entry_active(s0, k, w);
                        if k < i {
                            assert(s0[k] == s1[k]);
                            assert(s1[k].nbr == m && entry_active(s1, k, w));
                        } else {
                            assert(s0[k] == s1[k + 1]);
                            assert(s1[k + 1].nbr == m && entry_active(s1, k + 1, w));
                        }
                    }
                }
                assert(nbrs_of(s1, w) =~= (if covers(w, t) {
                    nbrs_of(s0, w).insert(nbr)
                } else {
                    nbrs_of(s0, w)
                }));
            }
        }
    }

    /// The neighbours seen inside the window, in ascending id order, each once.
    pub fn neighbours(&self, w: Option<Window>) -> (r: Vec<u64>)
        requires
            self.wf(),
        ensures
            r@.no_duplicates(),
            r@.to_set() == self.nbrs(w),
    {
        let ghost s = self.entries@;
        let mut r: Vec<u64> = Vec::new();
        let mut i: usize = 0;
        while i < self.entries.len()
            invariant
                i <= self.entries.len(),
                s == self.entries@,
                entries_wf(s),
                r@.no_duplicates(),
                r@.to_set() == Set::new(|n: u64| exists|k: int| 0 <= k < i && #[trigger] s[k].nbr == n && entry_active(s, k, w)),
            decreases self.entries.len() - i,
        {
            let ghost r0 = r@;
            if self.entries[i].cell.active(w) {
                let nb = self.entries[i].nbr;
                assert(!r0.to_set().contains(nb)) by {
                    if r0.to_set().contains(nb) {
                        let k = choose|k: int| 0 <= k < i && #[trigger] s[k].nbr == nb && entry_active(s, k, w);
                        assert(s[k].nbr < s[i as int].nbr);
                    }
                }
                assert forall|j: int| 0 <= j < r0.len() implies #[trigger] r0[j] != nb by {
                    assert(r0.to_set().contains(r0[j]));
                }
                r.push(nb);
                assert(r@.to_set() =~= Set::new(|n: u64| exists|k: int| 0 <= k < i + 1 && #[trigger] s[k].nbr == n && entry_active(s, k, w))) by {
                    assert(r@ == r0.push(nb));
                    assert forall|n: u64| #[trigger] r@.to_set().contains(n) implies exists|k: int| 0 <= k < i + 1 && #[trigger] s[k].nbr == n && entry_active(s, k, w) by {
                        let j = choose|j: int| 0 <= j < r@.len() && r@[j] == n;
                        if j < r0.len() {
                            assert(r0.to_set().contains(n));
                        } else {
                            assert(s[i as int].nbr == n && entry_active(s, i as int, w));
                        }
                    }
                    assert forall|n: u64| (exists|k: int| 0 <= k < i + 1 && #[trigger] s[k].nbr == n && entry_active(s, k, w)) implies #[trigger] r@.to_set().contains(n) by {
                        let k = choose|k: int| 0 <= k < i + 1 && #[trigger] s[k].nbr == n && entry_active(s, k, w);
                        if k < i {
                            assert(r0.to_set().contains(n));
                            let j = choose|j: int| 0 <= j < r0.len() && r0[j] == n;
                            assert(r@[j] == n);
                        } else {
                            assert(r@[r0.len() as int] == n);
                        }
                    }
                }
            } else {
                assert(Set::new(|n: u64| exists|k: int| 0 <= k < i && #[trigger] s[k].nbr == n && entry_active(s, k, w)) =~= Set::new(|n: u64| exists|k: int| 0 <= k < i + 1 && #[trigger] s[k].nbr == n && entry_active(s, k, w)));
            }
            i = i + 1;
        }
        assert(r@.to_set() =~= self.nbrs(w));
        r
    }

    /// The number of neighbours seen inside the window.
    pub fn degree(&self, w: Option<Window>) -> (r: usize)
        requires
            self.wf(),
        ensures
            r == self.nbrs(w).len(),
            self.nbrs(w).finite(),
    {
        let v = self.neighbours(w);
        proof {
            v@.unique_seq_to_set();
        }
        v.len()
    }

    /// For each neighbour seen inside the window, in ascending id order: its id,
    /// the reference recorded with its earliest time inside the window, and that time.
    pub fn edges(&self, w: Option<Window>) -> (r: Vec<(u64, EdgeRef, i64)>)
        requires
            self.wf(),
        ensures
            r@.map_values(|x: (u64, EdgeRef, i64)| x.0).no_duplicates(),
            r@.map_values(|x: (u64, EdgeRef, i64)| x.0).to_set() == self.nbrs(w),
            forall|j: int| 0 <= j < r@.len() ==> #[trigger] earliest_edge(self.view(), r@[j], w),
    {
        let ghost s = self.entries@;
        let mut r: Vec<(u64, EdgeRef, i64)> = Vec::new();
        let mut i: usize = 0;
        while i < self.entries.len()
            invariant
                i <= self.entries.len(),
                s == self.entries@,
                s == self.view(),
                entries_wf(s),
                r@.map_values(|x: (u64, EdgeRef, i64)| x.0).no_duplicates(),
                forall|j: int| 0 <= j < r@.len() ==> #[trigger] earliest_edge(s, r@[j], w),
                r@.map_values(|x: (u64, EdgeRef, i64)| x.0).to_set() == Set::new(|n: u64| exists|k: int| 0 <= k < i && #[trigger] s[k].nbr == n && entry_active(s, k, w)),
            decreases self.entries.len() - i,
        {
            let ghost r0 = r@;
            let ghost m0 = r0.map_values(|x: (u64, EdgeRef, i64)| x.0);
            match self.entries[i].cell.first_in(w) {
                Some(p) => {
                    let nb = self.entries[i].nbr;
                    let (t, e) = *self.entries[i].cell.entry(p);
                    assert(s[i as int].cell.view()[p as int] == (t, e));
                    assert(!m0.to_set().contains(nb)) by {
                        if m0.to_set().contains(nb) {
                            let k = choose|k: int| 0 <= k < i && #[trigger] s[k].nbr == nb && entry_active(s, k, w);
                            assert(s[k].nbr < s[i as int].nbr);
                        }
                    }
                    assert forall|j: int| 0 <= j < m0.len() implies #[trigger] m0[j] != nb by {
                        assert(m0.to_set().contains(m0[j]));
                    }
                    r.push((nb, e, t));
                    let ghost m1 = r@.map_values(|x: (u64, EdgeRef, i64)| x.0);
                    assert(m1 =~= m0.push(nb));
                    assert(earliest_edge(s, (nb, e, t), w)) by {
                        assert(s[i as int].cell.view().contains((t, e)));
                    }
                    assert forall|j: int| 0 <= j < r@.len() implies #[trigger] earliest_edge(s, r@[j], w) by {
                        if j < r0.len() {
                            assert(r@[j] == r0[j]);
                        }
                    }
                    assert(m1.to_set() =~= Set::new(|n: u64| exists|k: int| 0 <= k < i + 1 && #[trigger] s[k].nbr == n && entry_active(s, k, w))) by {
                        assert forall|n: u64| #[trigger] m1.to_set().contains(n) implies exists|k: int| 0 <= k < i + 1 && #[trigger] s[k].nbr == n && entry_active(s, k, w) by {
                            let j = choose|j: int| 0 <= j < m1.len() && m1[j] == n;
                            if j < m0.len() {
                                assert(m0[j] == n);
                                assert(m0.to_set().contains(n));
                            } else {
                                assert(s[i as int].nbr == n && entry_active(s, i as int, w));
                            }
                        }
                        assert forall|n: u64| (exists|k: int| 0 <= k < i + 1 && #[trigger] s[k].nbr == n && entry_active(s, k, w)) implies #[trigger] m1.to_set().contains(n) by {
                            let k = choose|k: int| 0 <= k < i + 1 && #[trigger] s[k].nbr == n && entry_active(s, k, w);
                            if k < i {
                                assert(m0.to_set().contains(n));
                                let j = choose|j: int| 0 <= j < m0.len() && m0[j] == n;
                                assert(m1[j] == n);
                            } else {
                                assert(m1[m0.len() as int] == n);
                            }
                        }
                    }
                },
                None => {
                    assert(Set::new(|n: u64| exists|k: int| 0 <= k < i && #[trigger] s[k].nbr == n && entry_active(s, k, w)) =~= Set::new(|n: u64| exists|k: int| 0 <= k < i + 1 && #[trigger] s[k].nbr == n && entry_active(s, k, w)));
                },
            }
            i = i + 1;
        }
        assert(r@.map_values(|x: (u64, EdgeRef, i64)| x.0).to_set() =~= self.nbrs(w));
        r
    }
}

} // verus!
