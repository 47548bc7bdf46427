use vstd::prelude::*;
use crate::GraphError;
use crate::window::{Window, covers};
use crate::tcell::{TCell, sorted_by_time, insert_sorted};

verus! {

/// A property value: a tagged scalar. Floating-point values are carried as their
/// IEEE 754 bit patterns.
#[derive(Clone, PartialEq, Debug)]
pub enum Prop {
    Str(String),
    I32(i32),
    I64(i64),
    U32(u32),
    U64(u64),
    F32(u32),
    F64(u64),
    Bool(bool),
}

/// The variant tag of a value.
pub open spec fn kind(p: Prop) -> nat {
    match p {
        Prop::Str(_) => 0,
        Prop::I32(_) => 1,
        Prop::I64(_) => 2,
        Prop::U32(_) => 3,
        Prop::U64(_) => 4,
        Prop::F32(_) => 5,
        Prop::F64(_) => 6,
        Prop::Bool(_) => 7,
    }
}

impl Prop {
    pub fn kind(&self) -> (r: u8)
        ensures
            r as nat == kind(*self),
    {
        match self {
            Prop::Str(_) => 0,
            Prop::I32(_) => 1,
            Prop::I64(_) => 2,
            Prop::U32(_) => 3,
            Prop::U64(_) => 4,
            Prop::F32(_) => 5,
            Prop::F64(_) => 6,
            Prop::Bool(_) => 7,
        }
    }

    /// An equal copy of the value.
    pub fn copy_of(&self) -> (r: Prop)
        ensures
            r == *self,
    {
        match self {
            Prop::Str(s) => Prop::Str(s.clone()),
            Prop::I32(x) => Prop::I32(*x),
            Prop::I64(x) => Prop::I64(*x),
            Prop::U32(x) => Prop::U32(*x),
            Prop::U64(x) => Prop::U64(*x),
            Prop::F32(x) => Prop::F32(*x),
            Prop::F64(x) => Prop::F64(*x),
            Prop::Bool(x) => Prop::Bool(*x),
        }
    }
}

/// The entries of a history that lie in the window, in their order.
pub open spec fn history_in(s: Seq<(i64, Prop)>, w: Option<Window>) -> Seq<(i64, Prop)> {
    s.filter(|e: (i64, Prop)| covers(w, e.0))
}

/// Whether every entry of a history has the variant tag `k`.
pub open spec fn all_of_kind(s: Seq<(i64, Prop)>, k: nat) -> bool {
    forall|i: int| 0 <= i < s.len() ==> kind(#[trigger] s[i].1) == k
}

/// The history of one property: a temporal cell whose variant is fixed by its
/// first write.
pub struct TProp {
    cell: TCell<Prop>,
}

impl TProp {
    pub closed spec fn view(&self) -> Seq<(i64, Prop)> {
        self.cell.view()
    }

    /// The variant every value of this property has.
    pub closed spec fn kind(&self) -> nat {
        kind(self.cell.view()[0].1)
    }

    pub closed spec fn wf(&self) -> bool {
        &&& self.cell.wf()
        &&& self.cell.view().len() > 0
        &&& all_of_kind(self.cell.view(), self.kind())
    }

    pub fn new(t: i64, v: Prop) -> (r: TProp)
        ensures
            r.wf(),
            r.view() == seq![(t, v)],
            r.kind() == kind(v),
    {
        TProp { cell: TCell::from_entry(t, v) }
    }

    pub fn kind_tag(&self) -> (r: u8)
        requires
            self.wf(),
        ensures
            r as nat == self.kind(),
    {
        self.cell.entry(0).1.kind()
    }

    /// Records `v` at `t`; a value of another variant is refused and nothing changes.
    pub fn set(&mut self, t: i64, v: Prop) -> (r: Result<(), GraphError>)
        requires
            old(self).wf(),
        ensures
            final(self).wf(),
            final(self).kind() == old(self).kind(),
            r is Err <==> kind(v) != old(self).kind(),
            r is Err ==> r == Err::<(), GraphError>(GraphError::PropTypeMismatch) && final(self).view() == old(self).view(),
            r is Ok ==> exists|p: int| crate::tcell::placed_at(old(self).view(), final(self).view(), p, t, v),
            r is Ok ==> final(self).view() == insert_sorted(old(self).view(), t, v),
    {
        if v.kind() != self.kind_tag() {
            return Err(GraphError::PropTypeMismatch);
        }
        let ghost k = self.kind();
        let ghost s0 = self.cell.view();
        self.cell.set(t, v);
        let ghost s1 = self.cell.view();
        let ghost p = choose|p: int| crate::tcell::placed_at(s0, s1, p, t, v);
        assert(crate::tcell::placed_at(s0, s1, p, t, v));
        assert(s0 == old(self).view());
        assert(s1 == self.view());
        assert(all_of_kind(s1, k)) by {
            assert forall|i: int| 0 <= i < s1.len() implies kind(#[trigger] s1[i].1) == k by {
                if i < p {
                    assert(s1[i] == s0[i]);
                } else if i > p {
                    assert(s1[i] == s0[i - 1]);
                }
            }
        }
        assert(self.kind() == k) by {
            if p == 0 {
                assert(s1[0].1 == v);
            } else {
                assert(s1[0] == s0[0]);
            }
        }
        Ok(())
    }

    /// The values recorded inside the window, in time order.
    pub fn history(&self, w: Option<Window>) -> (r: Vec<(i64, Prop)>)
        requires
            self.wf(),
        ensures
            r@ == history_in(self.view(), w),
            sorted_by_time(r@),
    {
        let ghost s = self.cell.view();
        let mut r: Vec<(i64, Prop)> = Vec::new();
        let mut i: usize = 0;
        while i < self.cell.len()
            invariant
                i <= s.len(),
                s == self.cell.view(),
                r@ == history_in(s.take(i as int), w),
            decreases s.len() - i,
        {
            let e = self.cell.entry(i);
            proof {
                reveal(Seq::filter);
                assert(s.take(i + 1).drop_last() =~= s.take(i as int));
                assert(s.take(i + 1).last() == s[i as int]);
            }
            if crate::window::covers_time(w, e.0) {
                r.push((e.0, e.1.copy_of()));
            }
            i = i + 1;
        }
        assert(s.take(s.len() as int) =~= s);
        proof {
            lemma_history_in_sorted(s, w, i64::MAX);
        }
        r
    }
}

/// A time-ordered history keeps its order when restricted to a window, and keeps
/// any upper bound on its times.
pub proof fn lemma_history_in_sorted(s: Seq<(i64, Prop)>, w: Option<Window>, bound: i64)
    requires
        sorted_by_time(s),
        forall|k: int| 0 <= k < s.len() ==> #[trigger] s[k].0 <= bound,
    ensures
        sorted_by_time(history_in(s, w)),
        forall|i: int| 0 <= i < history_in(s, w).len() ==> #[trigger] history_in(s, w)[i].0 <= bound,
    decreases s.len(),
{
    reveal(Seq::filter);
    if s.len() > 0 {
        let d = s.drop_last();
        let last = s[s.len() - 1];
        assert(sorted_by_time(d));
        assert forall|k: int| 0 <= k < d.len() implies #[trigger] d[k].0 <= last.0 by {
            assert(d[k] == s[k]);
        }
        lemma_history_in_sorted(d, w, last.0);
        let h = history_in(d, w);
        if covers(w, last.0) {
            assert(history_in(s, w) == h.push(last));
            assert forall|a: int, b: int| 0 <= a < b < history_in(s, w).len() implies history_in(s, w)[a].0
                <= history_in(s, w)[b].0 by {
                assert(history_in(s, w)[a] == h[a]);
                if b < h.len() {
                    assert(history_in(s, w)[b] == h[b]);
                }
            }
            assert forall|i: int| 0 <= i < history_in(s, w).len() implies #[trigger] history_in(s, w)[i].0 <= bound by {
                if i < h.len() {
                    assert(history_in(s, w)[i] == h[i]);
                }
            }
        } else {
            assert(history_in(s, w) == h);
        }
    } else {
        assert(history_in(s, w).len() == 0);
    }
}

/// A property of an entity under its name.
pub struct NamedProp {
    pub name: String,
    pub prop: TProp,
}

/// Whether some property of the sequence has the name.
pub open spec fn has_name(s: Seq<NamedProp>, n: Seq<char>) -> bool {
    exists|k: int| 0 <= k < s.len() && (#[trigger] s[k]).name@ == n
}

/// Whether every update of `list` agrees in variant with what its name already
/// holds and with the earlier updates of the same name.
pub open spec fn compatible(s: Seq<NamedProp>, list: Seq<(String, Prop)>) -> bool {
    forall|i: int| #![trigger list[i]] 0 <= i < list.len() ==> {
        &&& forall|k: int| 0 <= k < s.len() && (#[trigger] s[k]).name@ == list[i].0@ ==> s[k].prop.kind() == kind(list[i].1)
        &&& forall|j: int| 0 <= j < i && (#[trigger] list[j]).0@ == list[i].0@ ==> kind(list[j].1) == kind(list[i].1)
    }
}

/// Whether some update of the list has the name.
pub open spec fn names_in(list: Seq<(String, Prop)>, n: Seq<char>) -> bool {
    exists|i: int| 0 <= i < list.len() && (#[trigger] list[i]).0@ == n
}

/// Whether the sequence records, under the update's name, its value at `t`.
pub open spec fn recorded(s: Seq<NamedProp>, x: (String, Prop), t: i64) -> bool {
    exists|k: int| 0 <= k < s.len() && (#[trigger] s[k]).name@ == x.0@ && s[k].prop.view().contains((t, x.1))
}

/// The history `h` after the updates of `list` that have the name `n` are placed
/// in it, in list order, all at time `t`.
pub open spec fn hist_after(h: Seq<(i64, Prop)>, t: i64, list: Seq<(String, Prop)>, n: Seq<char>) -> Seq<(i64, Prop)>
    decreases list.len(),
{
    if list.len() == 0 {
        h
    } else {
        let h0 = hist_after(h, t, list.drop_last(), n);
        if list.last().0@ == n { insert_sorted(h0, t, list.last().1) } else { h0 }
    }
}

/// The history of the property with the name; empty where there is none.
pub open spec fn hist_named(s: Seq<NamedProp>, n: Seq<char>) -> Seq<(i64, Prop)> {
    if has_name(s, n) {
        s[choose|k: int| 0 <= k < s.len() && (#[trigger] s[k]).name@ == n].prop.view()
    } else {
        Seq::empty()
    }
}

/// Every property of `s1` holds what its name held in `s0` with the updates of
/// `list` of that name placed at `t`.
pub open spec fn applied(s0: Seq<NamedProp>, s1: Seq<NamedProp>, t: i64, list: Seq<(String, Prop)>) -> bool {
    forall|k: int| 0 <= k < s1.len() ==> (#[trigger] s1[k]).prop.view() == hist_after(hist_named(s0, s1[k].name@), t, list, s1[k].name@)
}

/// With distinct names, the history under a name is that of the property holding it.
proof fn lemma_hist_named(s: Seq<NamedProp>, q: int)
    requires
        0 <= q < s.len(),
        forall|a: int, b: int| 0 <= a < b < s.len() ==> (#[trigger] s[a]).name@ != (#[trigger] s[b]).name@,
    ensures
        hist_named(s, s[q].name@) == s[q].prop.view(),
{
    let n = s[q].name@;
    assert(has_name(s, n));
    let k = choose|k: int| 0 <= k < s.len() && (#[trigger] s[k]).name@ == n;
    if k != q {
        if k < q {
            assert(s[k].name@ != s[q].name@);
        } else {
            assert(s[q].name@ != s[k].name@);
        }
    }
}

/// Updates of other names leave a history as it is.
proof fn lemma_hist_after_other(h: Seq<(i64, Prop)>, t: i64, list: Seq<(String, Prop)>, n: Seq<char>)
    requires
        !names_in(list, n),
    ensures
        hist_after(h, t, list, n) == h,
    decreases list.len(),
{
    if list.len() > 0 {
        assert(!names_in(list.drop_last(), n)) by {
            if names_in(list.drop_last(), n) {
                let i = choose|i: int| 0 <= i < list.drop_last().len() && (#[trigger] list.drop_last()[i]).0@ == n;
                assert(list[i] == list.drop_last()[i]);
            }
        }
        lemma_hist_after_other(h, t, list.drop_last(), n);
        assert(list[list.len() - 1].0@ != n);
    }
}

/// The named properties of one vertex or edge; names are distinct.
pub struct PropSet {
    entries: Vec<NamedProp>,
}

/// Every time and value a history held, it still holds after an entry is placed.
proof fn lemma_placed_keeps(s0: Seq<(i64, Prop)>, s1: Seq<(i64, Prop)>, p: int, t: i64, v: Prop)
    requires
        crate::tcell::placed_at(s0, s1, p, t, v),
    ensures
        forall|x: (i64, Prop)| s0.contains(x) ==> s1.contains(x),
        s1.contains((t, v)),
{
    assert(s1[p] == (t, v));
    assert forall|x: (i64, Prop)| s0.contains(x) implies s1.contains(x) by {
        let k = choose|k: int| 0 <= k < s0.len() && s0[k] == x;
        if k < p {
            assert(s1[k] == x);
        } else {
            assert(s1[k + 1] == x);
        }
    }
}

impl PropSet {
    pub closed spec fn view(&self) -> Seq<NamedProp> {
        self.entries@
    }

    pub open spec fn wf(&self) -> bool {
        &&& forall|a: int, b: int| 0 <= a < b < self.view().len() ==> (#[trigger] self.view()[a]).name@ != (#[trigger] self.view()[b]).name@
        &&& forall|a: int| 0 <= a < self.view().len() ==> (#[trigger] self.view()[a]).prop.wf()
    }

    pub fn new() -> (r: PropSet)
        ensures
            r.wf(),
            r.view().len() == 0,
    {
        PropSet { entries: Vec::new() }
    }

    /// The position of the property with the name, if any.
    pub fn find(&self, name: &String) -> (r: Option<usize>)
        ensures
            r.is_some() == has_name(self.view(), name@),
            r matches Some(k) ==> k < self.view().len() && self.view()[k as int].name@ == name@,
    {
        let mut k: usize = 0;
        while k < self.entries.len()
            invariant
                k <= self.entries.len(),
                forall|j: int| 0 <= j < k ==> (#[trigger] self.entries@[j]).name@ != name@,
            decreases self.entries.len() - k,
        {
            if self.entries[k].name == *name {
                return Some(k);
            }
            k = k + 1;
        }
        None
    }

    /// Whether `list` can be applied without a variant mismatch.
    pub fn check(&self, list: &Vec<(String, Prop)>) -> (r: bool)
        requires
            self.wf(),
        ensures
            r == compatible(self.view(), list@),
    {
        let mut i: usize = 0;
        while i < list.len()
            invariant
                i <= list.len(),
                self.wf(),
                forall|i2: int| #![trigger list@[i2]] 0 <= i2 < i ==> {
                    &&& forall|k: int| 0 <= k < self.view().len() && (#[trigger] self.view()[k]).name@ == list@[i2].0@ ==> self.view()[k].prop.kind() == kind(list@[i2].1)
                    &&& forall|j: int| 0 <= j < i2 && (#[trigger] list@[j]).0@ == list@[i2].0@ ==> kind(list@[j].1) == kind(list@[i2].1)
                },
            decreases list.len() - i,
        {
            let kd = list[i].1.kind();
            match self.find(&list[i].0) {
                Some(k) => {
                    if self.entries[k].prop.kind_tag() != kd {
                        return false;
                    }
                    assert forall|k2: int| 0 <= k2 < self.view().len() && (#[trigger] self.view()[k2]).name@ == list@[i as int].0@ implies self.view()[k2].prop.kind() == kind(list@[i as int].1) by {
                        if k2 != k {
                            assert(self.view()[k2].name@ != self.view()[k as int].name@);
                        }
                    }
                },
                None => {},
            }
            let mut j: usize = 0;
            while j < i
                invariant
                    j <= i,
                    i < list.len(),
                    kd as nat == kind(list@[i as int].1),
                    forall|j2: int| 0 <= j2 < j && (#[trigger] list@[j2]).0@ == list@[i as int].0@ ==> kind(list@[j2].1) == kind(list@[i as int].1),
                decreases i - j,
            {
                if list[j].0 == list[i].0 && list[j].1.kind() != kd {
                    return false;
                }
                j = j + 1;
            }
            i = i + 1;
        }
        true
    }

    /// Records every update of `list` at `t`, or none of them when one of them has
    /// a variant other than its name already holds.
    pub fn apply(&mut self, t: i64, list: &Vec<(String, Prop)>) -> (r: Result<(), GraphError>)
        requires
            old(self).wf(),
        ensures
            final(self).wf(),
            r is Err <==> !compatible(old(self).view(), list@),
            r is Err ==> r == Err::<(), GraphError>(GraphError::PropTypeMismatch) && final(self).view() == old(self).view(),
            r is Ok ==> forall|n: Seq<char>| #[trigger] has_name(final(self).view(), n) == (has_name(old(self).view(), n) || names_in(list@, n)),
            r is Ok ==> forall|i: int| 0 <= i < list@.len() ==> #[trigger] recorded(final(self).view(), list@[i], t),
            r is Ok ==> forall|k: int| 0 <= k < old(self).view().len() && !names_in(list@, (#[trigger] old(self).view()[k]).name@) ==> final(self).view()[k] == old(self).view()[k],
            r is Ok ==> applied(old(self).view(), final(self).view(), t, list@),
    {
        if !self.check(list) {
            return Err(GraphError::PropTypeMismatch);
        }
        let ghost s0 = self.entries@;
        assert(applied(s0, s0, t, list@.take(0))) by {
            assert forall|q: int| 0 <= q < s0.len() implies (#[trigger] s0[q]).prop.view() == hist_after(hist_named(s0, s0[q].name@), t, list@.take(0), s0[q].name@) by {
                lemma_hist_named(s0, q);
            }
        }
        let mut i: usize = 0;
        while i < list.len()
            invariant
                i <= list.len(),
                self.wf(),
                s0.len() <= self.entries@.len(),
                compatible(self.view(), list@),
                forall|n: Seq<char>| #[trigger] has_name(self.view(), n) == (has_name(s0, n) || names_in(list@.take(i as int), n)),
                forall|i2: int| 0 <= i2 < i ==> #[trigger] recorded(self.view(), list@[i2], t),
                forall|k: int| 0 <= k < s0.len() && !names_in(list@.take(i as int), (#[trigger] s0[k]).name@) ==> self.view()[k] == s0[k],
                applied(s0, self.view(), t, list@.take(i as int)),
                forall|a: int, b: int| 0 <= a < b < s0.len() ==> (#[trigger] s0[a]).name@ != (#[trigger] s0[b]).name@,
            decreases list.len() - i,
        {
            let ghost c0 = self.entries@;
            let name = &list[i].0;
            let v = list[i].1.copy_of();
            assert(list@.take(i + 1) == list@.take(i as int).push(list@[i as int]));
            match self.find(name) {
                Some(k) => {
                    let mut entry = self.entries.remove(k);
                    let ghost h0 = entry.prop.view();
                    let ghost vv = v;
                    let res = entry.prop.set(t, v);
                    assert(res is Ok);
                    let ghost h1 = entry.prop.view();
                    assert(exists|p: int| crate::tcell::placed_at(h0, h1, p, t, vv));
                    let ghost pp = choose|p: int| crate::tcell::placed_at(h0, h1, p, t, vv);
                    proof { lemma_placed_keeps(h0, h1, pp, t, vv); }
                    self.entries.insert(k, entry);
                    let ghost c1 = self.entries@;
                    assert(c1 == c0.update(k as int, c1[k as int]));
                    assert(c1[k as int].name@ == c0[k as int].name@);
                    assert(c1[k as int].prop.kind() == c0[k as int].prop.kind());
                    assert forall|a: int, b: int| 0 <= a < b < c1.len() implies (#[trigger] c1[a]).name@ != (#[trigger] c1[b]).name@ by {
                        assert(c0[a].name@ != c0[b].name@);
                    }
                    assert forall|n: Seq<char>| #[trigger] has_name(c1, n) == has_name(c0, n) by {
                        if has_name(c0, n) {
                            let q = choose|q: int| 0 <= q < c0.len() && (#[trigger] c0[q]).name@ == n;
                            assert(c1[q].name@ == n);
                        }
                        if has_name(c1, n) {
                            let q = choose|q: int| 0 <= q < c1.len() && (#[trigger] c1[q]).name@ == n;
                            assert(c0[q].name@ == n);
                        }
                    }
                    assert forall|n: Seq<char>| #[trigger] has_name(c1, n) == (has_name(s0, n) || names_in(list@.take(i + 1), n)) by {
                        if names_in(list@.take(i + 1), n) && !names_in(list@.take(i as int), n) {
                            assert(c0[k as int].name@ == n);
                        }
                        if names_in(list@.take(i as int), n) {
                            let q = choose|q: int| 0 <= q < i && (#[trigger] list@.take(i as int)[q]).0@ == n;
                            assert(list@.take(i + 1)[q] == list@.take(i as int)[q]);
                        }
                    }
                    assert forall|i2: int| 0 <= i2 < i + 1 implies #[trigger] recorded(c1, list@[i2], t) by {
                        if i2 == i {
                            assert(c1[k as int].name@ == list@[i2].0@ && c1[k as int].prop.view().contains((t, list@[i2].1)));
                        } else {
                            assert(recorded(c0, list@[i2], t));
                            let q = choose|q: int| 0 <= q < c0.len()
                                && (#[trigger] c0[q]).name@ == list@[i2].0@ && c0[q].prop.view().contains((t, list@[i2].1));
                            assert(c1[q].name@ == list@[i2].0@ && c1[q].prop.view().contains((t, list@[i2].1)));
                        }
                    }
                    assert forall|q: int| 0 <= q < s0.len() && !names_in(list@.take(i + 1), (#[trigger] s0[q]).name@) implies c1[q] == s0[q] by {
                        if names_in(list@.take(i as int), s0[q].name@) {
                            let z = choose|z: int| 0 <= z < i && (#[trigger] list@.take(i as int)[z]).0@ == s0[q].name@;
                            assert(list@.take(i + 1)[z] == list@.take(i as int)[z]);
                        }
                        assert(c0[q] == s0[q]);
                        if q == k {
                            assert(list@.take(i + 1)[i as int].0@ == c0[k as int].name@);
                        }
                    }
                    assert(applied(s0, c1, t, list@.take(i + 1))) by {
                        let tk = list@.take(i + 1);
                        assert(tk.drop_last() =~= list@.take(i as int));
                        assert(tk.last() == list@[i as int]);
                        assert forall|q: int| 0 <= q < c1.len() implies (#[trigger] c1[q]).prop.view() == hist_after(hist_named(s0, c1[q].name@), t, tk, c1[q].name@) by {
                            if q == k {
                                assert(c0[q].prop.view() == hist_after(hist_named(s0, c0[q].name@), t, list@.take(i as int), c0[q].name@));
                            } else {
                                assert(c1[q] == c0[q]);
                                assert(c0[q].name@ != c0[k as int].name@);
                            }
                        }
                    }
                },
                None => {
                    let entry = NamedProp { name: name.clone(), prop: TProp::new(t, v) };
                    self.entries.push(entry);
                    let ghost c1 = self.entries@;
                    assert(c1 == c0.push(c1[c0.len() as int]));
                    assert forall|a: int, b: int| 0 <= a < b < c1.len() implies (#[trigger] c1[a]).name@ != (#[trigger] c1[b]).name@ by {
                        if b < c0.len() {
                            assert(c0[a].name@ != c0[b].name@);
                        } else {
                            assert(c0[a] == c1[a]);
                        }
                    }
                    assert(compatible(c1, list@)) by {
                        assert forall|i2: int, q: int| 0 <= i2 < list@.len() && 0 <= q < c1.len() && (#[trigger] c1[q]).name@ == (#[trigger] list@[i2]).0@ implies c1[q].prop.kind() == kind(list@[i2].1) by {
                            if q == c0.len() {
                                if i2 < i {
                                    assert(list@[i2].0@ == list@[i as int].0@);
                                } else if i2 > i {
                                    assert(list@[i as int].0@ == list@[i2].0@);
                                }
                            } else {
                                assert(c0[q] == c1[q]);
                            }
                        }
                    }
                    assert forall|n: Seq<char>| #[trigger] has_name(c1, n) == (has_name(s0, n) || names_in(list@.take(i + 1), n)) by {
                        if has_name(c0, n) {
                            let q = choose|q: int| 0 <= q < c0.len() && (#[trigger] c0[q]).name@ == n;
                            assert(c1[q].name@ == n);
                        }
                        if has_name(c1, n) {
                            let q = choose|q: int| 0 <= q < c1.len() && (#[trigger] c1[q]).name@ == n;
                            if q < c0.len() {
                                assert(c0[q].name@ == n);
                            } else {
                                assert(list@.take(i + 1)[i as int].0@ == n);
                            }
                        }
                        if names_in(list@.take(i + 1), n) && !names_in(list@.take(i as int), n) {
                            assert(c1[c0.len() as int].name@ == n);
                        }
                        if names_in(list@.take(i as int), n) {
                            let q = choose|q: int| 0 <= q < i && (#[trigger] list@.take(i as int)[q]).0@ == n;
                            assert(list@.take(i + 1)[q] == list@.take(i as int)[q]);
                        }
                    }
                    assert forall|i2: int| 0 <= i2 < i + 1 implies #[trigger] recorded(c1, list@[i2], t) by {
                        if i2 == i {
                            assert(c1[c0.len() as int].prop.view()[0] == (t, list@[i2].1));
                            assert(c1[c0.len() as int].name@ == list@[i2].0@ && c1[c0.len() as int].prop.view().contains((t, list@[i2].1)));
                        } else {
                            assert(recorded(c0, list@[i2], t));
                            let q = choose|q: int| 0 <= q < c0.len()
                                && (#[trigger] c0[q]).name@ == list@[i2].0@ && c0[q].prop.view().contains((t, list@[i2].1));
                            assert(c1[q] == c0[q]);
                            assert(c1[q].name@ == list@[i2].0@ && c1[q].prop.view().contains((t, list@[i2].1)));
                        }
                    }
                    assert forall|q: int| 0 <= q < s0.len() && !names_in(list@.take(i + 1), (#[trigger] s0[q]).name@) implies c1[q] == s0[q] by {
                        if names_in(list@.take(i as int), s0[q].name@) {
                            let z = choose|z: int| 0 <= z < i && (#[trigger] list@.take(i as int)[z]).0@ == s0[q].name@;
                            assert(list@.take(i + 1)[z] == list@.take(i as int)[z]);
                        }
                        assert(c0[q] == s0[q]);
                    }
                    assert(applied(s0, c1, t, list@.take(i + 1))) by {
                        let tk = list@.take(i + 1);
                        let n = list@[i as int].0@;
                        assert(tk.drop_last() =~= list@.take(i as int));
                        assert(tk.last() == list@[i as int]);
                        assert(!has_name(c0, n));
                        assert(!has_name(s0, n) && !names_in(list@.take(i as int), n));
                        lemma_hist_after_other(Seq::<(i64, Prop)>::empty(), t, list@.take(i as int), n);
                        assert forall|q: int| 0 <= q < c1.len() implies (#[trigger] c1[q]).prop.view() == hist_after(hist_named(s0, c1[q].name@), t, tk, c1[q].name@) by {
                            if q < c0.len() {
                                assert(c1[q] == c0[q]);
                                assert(c0[q].prop.view() == hist_after(hist_named(s0, c0[q].name@), t, list@.take(i as int), c0[q].name@));
                                if c0[q].name@ == n {
                                    assert(has_name(c0, n));
                                }
                            } else {
                                assert(c1[q].name@ == n);
                                assert(c1[q].prop.view() == seq![(t, list@[i as int].1)]);
                                assert(hist_named(s0, n) == Seq::<(i64, Prop)>::empty());
                                assert(insert_sorted(Seq::<(i64, Prop)>::empty(), t, list@[i as int].1) =~= seq![(t, list@[i as int].1)]);
                            }
                        }
                    }
                },
            }
            i = i + 1;
        }
        assert(list@.take(list@.len() as int) == list@);
        Ok(())
    }

    /// The history of the named property inside the window, or `None` when no
    /// property has that name.
    pub fn history(&self, name: &String, w: Option<Window>) -> (r: Option<Vec<(i64, Prop)>>)
        requires
            self.wf(),
        ensures
            r.is_some() == has_name(self.view(), name@),
            r matches Some(h) ==> exists|k: int| 0 <= k < self.view().len()
                && (#[trigger] self.view()[k]).name@ == name@ && h@ == history_in(self.view()[k].prop.view(), w),
    {
        match self.find(name) {
            Some(k) => {
                let h = self.entries[k].prop.history(w);
                assert(self.view()[k as int].name@ == name@);
                Some(h)
            },
            None => None,
        }
    }
}

} // verus!
