use vstd::prelude::*;
use crate::{Direction, GraphError};
use crate::window::{Window, covers};
use crate::tadjset::{TAdjSet, EdgeRef, earliest_edge};
use crate::props::{Prop, PropSet, NamedProp, compatible, recorded, applied, has_name, history_in};

verus! {

/// One vertex of a shard: its global id, the times of its events, its properties
/// and its outgoing and incoming adjacency.
pub struct VertexRec {
    pub gid: u64,
    pub times: Vec<i64>,
    pub props: PropSet,
    pub out_adj: TAdjSet,
    pub in_adj: TAdjSet,
}

/// One directed edge whose source lives in this shard, with its properties.
pub struct EdgeRec {
    pub src: u64,
    pub dst: u64,
    pub props: PropSet,
}

pub open spec fn vertex_wf(v: VertexRec) -> bool {
    &&& v.times@.len() > 0
    &&& v.props.wf()
    &&& v.out_adj.wf()
    &&& v.in_adj.wf()
}

/// Whether some event time of the vertex lies in the window.
pub open spec fn vertex_active(v: VertexRec, w: Option<Window>) -> bool {
    exists|k: int| 0 <= k < v.times@.len() && covers(w, #[trigger] v.times@[k])
}

pub open spec fn unique_gids(vs: Seq<VertexRec>) -> bool {
    forall|a: int, b: int| 0 <= a < b < vs.len() ==> (#[trigger] vs[a]).gid != (#[trigger] vs[b]).gid
}

pub open spec fn seq_has(vs: Seq<VertexRec>, g: u64) -> bool {
    exists|j: int| 0 <= j < vs.len() && (#[trigger] vs[j]).gid == g
}

pub open spec fn seq_active(vs: Seq<VertexRec>, g: u64, w: Option<Window>) -> bool {
    exists|j: int| 0 <= j < vs.len() && (#[trigger] vs[j]).gid == g && vertex_active(vs[j], w)
}

pub open spec fn seq_out(vs: Seq<VertexRec>, g: u64, w: Option<Window>) -> Set<u64> {
    Set::new(|n: u64| exists|j: int| 0 <= j < vs.len() && (#[trigger] vs[j]).gid == g && vs[j].out_adj.nbrs(w).contains(n))
}

pub open spec fn seq_in(vs: Seq<VertexRec>, g: u64, w: Option<Window>) -> Set<u64> {
    Set::new(|n: u64| exists|j: int| 0 <= j < vs.len() && (#[trigger] vs[j]).gid == g && vs[j].in_adj.nbrs(w).contains(n))
}

/// With distinct ids, what the store says of a vertex is what its record says.
pub proof fn lemma_at(vs: Seq<VertexRec>, p: int)
    requires
        unique_gids(vs),
        0 <= p < vs.len(),
    ensures
        seq_has(vs, vs[p].gid),
        forall|w: Option<Window>| #[trigger] seq_active(vs, vs[p].gid, w) == vertex_active(vs[p], w),
        forall|w: Option<Window>| #[trigger] seq_out(vs, vs[p].gid, w) == vs[p].out_adj.nbrs(w),
        forall|w: Option<Window>| #[trigger] seq_in(vs, vs[p].gid, w) == vs[p].in_adj.nbrs(w),
{
    let g = vs[p].gid;
    assert forall|j: int| 0 <= j < vs.len() && (#[trigger] vs[j]).gid == g implies j == p by {
        if j < p {
            assert(vs[j].gid != vs[p].gid);
        } else if j > p {
            assert(vs[p].gid != vs[j].gid);
        }
    }
    assert forall|w: Option<Window>| #[trigger] seq_out(vs, g, w) == vs[p].out_adj.nbrs(w) by {
        assert(seq_out(vs, g, w) =~= vs[p].out_adj.nbrs(w));
    }
    assert forall|w: Option<Window>| #[trigger] seq_in(vs, g, w) == vs[p].in_adj.nbrs(w) by {
        assert(seq_in(vs, g, w) =~= vs[p].in_adj.nbrs(w));
    }
}

/// Changing or appending the record at `p` leaves what the store says of every
/// other vertex as it was.
pub proof fn lemma_frame(v0: Seq<VertexRec>, v1: Seq<VertexRec>, p: int)
    requires
        unique_gids(v0),
        unique_gids(v1),
        0 <= p < v1.len(),
        v1.len() == v0.len() || (v1.len() == v0.len() + 1 && p == v0.len()),
        p < v0.len() ==> v1[p].gid == v0[p].gid,
        forall|j: int| 0 <= j < v0.len() && j != p ==> #[trigger] v1[j] == v0[j],
    ensures
        forall|g: u64| g != v1[p].gid ==> #[trigger] seq_has(v1, g) == seq_has(v0, g),
        forall|g: u64, w: Option<Window>| g != v1[p].gid ==> #[trigger] seq_active(v1, g, w) == seq_active(v0, g, w),
        forall|g: u64, w: Option<Window>| g != v1[p].gid ==> #[trigger] seq_out(v1, g, w) == seq_out(v0, g, w),
        forall|g: u64, w: Option<Window>| g != v1[p].gid ==> #[trigger] seq_in(v1, g, w) == seq_in(v0, g, w),
        forall|j: int| 0 <= j < v0.len() ==> #[trigger] v1[j].gid == v0[j].gid,
{
    let gp = v1[p].gid;
    assert forall|j: int| 0 <= j < v0.len() implies #[trigger] v1[j].gid == v0[j].gid by {
        if j != p {
            assert(v1[j] == v0[j]);
        }
    }
    assert forall|g: u64| g != gp implies #[trigger] seq_has(v1, g) == seq_has(v0, g) by {
        if seq_has(v1, g) {
            let j = choose|j: int| 0 <= j < v1.len() && (#[trigger] v1[j]).gid == g;
            assert(v0[j] == v1[j]);
        }
        if seq_has(v0, g) {
            let j = choose|j: int| 0 <= j < v0.len() && (#[trigger] v0[j]).gid == g;
            assert(v0[j] == v1[j]);
        }
    }
    assert forall|g: u64, w: Option<Window>| g != gp implies #[trigger] seq_active(v1, g, w) == seq_active(v0, g, w) by {
        if seq_active(v1, g, w) {
            let j = choose|j: int| 0 <= j < v1.len() && (#[trigger] v1[j]).gid == g && vertex_active(v1[j], w);
            assert(v0[j] == v1[j]);
        }
        if seq_active(v0, g, w) {
            let j = choose|j: int| 0 <= j < v0.len() && (#[trigger] v0[j]).gid == g && vertex_active(v0[j], w);
            assert(v0[j] == v1[j]);
        }
    }
    assert forall|g: u64, w: Option<Window>| g != gp implies #[trigger] seq_out(v1, g, w) == seq_out(v0, g, w) by {
        assert forall|n: u64| seq_out(v1, g, w).contains(n) == seq_out(v0, g, w).contains(n) by {
            if seq_out(v1, g, w).contains(n) {
                let j = choose|j: int| 0 <= j < v1.len() && (#[trigger] v1[j]).gid == g && v1[j].out_adj.nbrs(w).contains(n);
                assert(v0[j] == v1[j]);
            }
            if seq_out(v0, g, w).contains(n) {
                let j = choose|j: int| 0 <= j < v0.len() && (#[trigger] v0[j]).gid == g && v0[j].out_adj.nbrs(w).contains(n);
                assert(v0[j] == v1[j]);
            }
        }
        assert(seq_out(v1, g, w) =~= seq_out(v0, g, w));
    }
    assert forall|g: u64, w: Option<Window>| g != gp implies #[trigger] seq_in(v1, g, w) == seq_in(v0, g, w) by {
        assert forall|n: u64| seq_in(v1, g, w).contains(n) == seq_in(v0, g, w).contains(n) by {
            if seq_in(v1, g, w).contains(n) {
                let j = choose|j: int| 0 <= j < v1.len() && (#[trigger] v1[j]).gid == g && v1[j].in_adj.nbrs(w).contains(n);
                assert(v0[j] == v1[j]);
            }
            if seq_in(v0, g, w).contains(n) {
                let j = choose|j: int| 0 <= j < v0.len() && (#[trigger] v0[j]).gid == g && v0[j].in_adj.nbrs(w).contains(n);
                assert(v0[j] == v1[j]);
            }
        }
        assert(seq_in(v1, g, w) =~= seq_in(v0, g, w));
    }
}

/// The record at `p` is the vertex `g`, kept or appended, with one more event at `t`:
/// the store then says of `g` what it said, with that event added, and what the
/// record's adjacency says.
pub proof fn lemma_touched(v0: Seq<VertexRec>, v1: Seq<VertexRec>, p: int, g: u64, t: i64)
    requires
        unique_gids(v0),
        unique_gids(v1),
        0 <= p < v1.len(),
        v1[p].gid == g,
        v1.len() == v0.len() || (v1.len() == v0.len() + 1 && p == v0.len() && !seq_has(v0, g)),
        p < v0.len() ==> v0[p].gid == g && v1[p].times@ == v0[p].times@.push(t),
        p == v0.len() ==> v1[p].times@ == seq![t],
        forall|j: int| 0 <= j < v0.len() && j != p ==> #[trigger] v1[j] == v0[j],
    ensures
        forall|h: u64| #[trigger] seq_has(v1, h) == (seq_has(v0, h) || h == g),
        forall|h: u64, w: Option<Window>| #[trigger] seq_active(v1, h, w) == (seq_active(v0, h, w) || (h == g && covers(w, t))),
        forall|h: u64, w: Option<Window>| h != g ==> #[trigger] seq_out(v1, h, w) == seq_out(v0, h, w),
        forall|h: u64, w: Option<Window>| h != g ==> #[trigger] seq_in(v1, h, w) == seq_in(v0, h, w),
        forall|w: Option<Window>| #[trigger] seq_out(v1, g, w) == v1[p].out_adj.nbrs(w),
        forall|w: Option<Window>| #[trigger] seq_in(v1, g, w) == v1[p].in_adj.nbrs(w),
        forall|w: Option<Window>| #[trigger] seq_out(v0, g, w) == (if p < v0.len() { v0[p].out_adj.nbrs(w) } else { Set::<u64>::empty() }),
        forall|w: Option<Window>| #[trigger] seq_in(v0, g, w) == (if p < v0.len() { v0[p].in_adj.nbrs(w) } else { Set::<u64>::empty() }),
        forall|j: int| 0 <= j < v0.len() ==> #[trigger] v1[j].gid == v0[j].gid,
{
    lemma_frame(v0, v1, p);
    lemma_at(v1, p);
    assert forall|w: Option<Window>| #[trigger] vertex_active(v1[p], w) == ((p < v0.len() && vertex_active(v0[p], w)) || covers(w, t)) by {
        let n0 = v1[p].times@.len() - 1;
        assert(v1[p].times@[n0] == t);
        if p < v0.len() {
            if vertex_active(v0[p], w) {
                let k = choose|k: int| 0 <= k < v0[p].times@.len() && covers(w, #[trigger] v0[p].times@[k]);
                assert(v1[p].times@[k] == v0[p].times@[k]);
            }
            if vertex_active(v1[p], w) {
                let k = choose|k: int| 0 <= k < v1[p].times@.len() && covers(w, #[trigger] v1[p].times@[k]);
                if k < n0 {
                    assert(v1[p].times@[k] == v0[p].times@[k]);
                }
            }
        }
    }
    if p < v0.len() {
        lemma_at(v0, p);
    } else {
        assert forall|w: Option<Window>| #[trigger] seq_out(v0, g, w) == Set::<u64>::empty() by {
            assert(seq_out(v0, g, w) =~= Set::<u64>::empty());
        }
        assert forall|w: Option<Window>| #[trigger] seq_in(v0, g, w) == Set::<u64>::empty() by {
            assert(seq_in(v0, g, w) =~= Set::<u64>::empty());
        }
        assert forall|w: Option<Window>| !(#[trigger] seq_active(v0, g, w)) by {}
    }
    assert forall|h: u64| #[trigger] seq_has(v1, h) == (seq_has(v0, h) || h == g) by {
        if h == g && p < v0.len() {
            assert(v0[p].gid == g);
        }
    }
    assert forall|h: u64, w: Option<Window>| #[trigger] seq_active(v1, h, w) == (seq_active(v0, h, w) || (h == g && covers(w, t))) by {
        if h == g {
            assert(seq_active(v1, g, w) == vertex_active(v1[p], w));
            assert(vertex_active(v1[p], w) == ((p < v0.len() && vertex_active(v0[p], w)) || covers(w, t)));
            if p < v0.len() {
                assert(seq_active(v0, g, w) == vertex_active(v0[p], w));
            } else {
                assert(!seq_active(v0, g, w));
            }
        }
    }
}

/// The neighbours of a vertex in a direction inside the window; both directions
/// give the union.
pub open spec fn nbrs_dir(out_set: Set<u64>, in_set: Set<u64>, dir: Direction) -> Set<u64> {
    match dir {
        Direction::OUT => out_set,
        Direction::IN => in_set,
        Direction::BOTH => out_set.union(in_set),
    }
}

/// The ids that `v` holds and `a` does not, in `v`'s order.
fn append_missing(a: &mut Vec<u64>, v: &Vec<u64>)
    requires
        old(a)@.no_duplicates(),
    ensures
        final(a)@.no_duplicates(),
        final(a)@.to_set() == old(a)@.to_set().union(v@.to_set()),
        old(a)@.is_prefix_of(final(a)@),
{
    let ghost a0 = a@;
    let mut i: usize = 0;
    while i < v.len()
        invariant
            i <= v.len(),
            a@.no_duplicates(),
            a@.to_set() == a0.to_set().union(v@.take(i as int).to_set()),
            a0.is_prefix_of(a@),
        decreases v.len() - i,
    {
        let x = v[i];
        let mut found = false;
        let mut k: usize = 0;
        while k < a.len()
            invariant
                k <= a.len(),
                found == (exists|q: int| 0 <= q < k && #[trigger] a@[q] == x),
            decreases a.len() - k,
        {
            if a[k] == x {
                found = true;
            }
            k = k + 1;
        }
        let ghost a1 = a@;
        if !found {
            a.push(x);
            assert forall|p: int, q: int| 0 <= p < q < a@.len() implies a@[p] != a@[q] by {
                if q == a1.len() {
                    assert(a@[p] == a1[p]);
                } else {
                    assert(a@[p] == a1[p] && a@[q] == a1[q]);
                }
            }
        }
        assert(v@.take(i + 1) == v@.take(i as int).push(x));
        assert(a@.to_set() =~= a0.to_set().union(v@.take(i + 1).to_set())) by {
            assert forall|y: u64| a@.to_set().contains(y) == a0.to_set().union(v@.take(i + 1).to_set()).contains(y) by {
                if found {
                    assert(a1.contains(x));
                }
                if a@.to_set().contains(y) {
                    let q = choose|q: int| 0 <= q < a@.len() && a@[q] == y;
                    if q < a1.len() {
                        assert(a1[q] == y);
                        assert(a1.to_set().contains(y));
                    } else {
                        assert(v@.take(i + 1)[i as int] == y);
                    }
                }
                let vt1 = v@.take(i + 1);
                if vt1.to_set().contains(y) {
                    let q = choose|q: int| 0 <= q < vt1.len() && vt1[q] == y;
                    if q < i {
                        assert(v@.take(i as int)[q] == y);
                        assert(v@.take(i as int).to_set().contains(y));
                        assert(a1.to_set().contains(y));
                        let z = choose|z: int| 0 <= z < a1.len() && a1[z] == y;
                        assert(a@[z] == y);
                    } else if !found {
                        assert(a@[a1.len() as int] == y);
                    } else {
                        let z = choose|z: int| 0 <= z < a1.len() && a1[z] == x;
                        assert(a@[z] == y);
                    }
                }
                if a0.to_set().contains(y) {
                    let q = choose|q: int| 0 <= q < a0.len() && a0[q] == y;
                    assert(a@[q] == y);
                }
            }
        }
        i = i + 1;
    }
    assert(v@.take(v@.len() as int) == v@);
}

/// The number of out-neighbours inside the window, summed over the records.
pub open spec fn sum_out(vs: Seq<VertexRec>, w: Option<Window>) -> nat
    decreases vs.len(),
{
    if vs.len() == 0 {
        0
    } else {
        sum_out(vs.drop_last(), w) + vs.last().out_adj.nbrs(w).len()
    }
}

/// Whether an incident edge in the direction `IN` duplicates one of the `OUT`
/// list, that is, names the same neighbour through the same reference.
pub open spec fn seen_out(o: Seq<(u64, EdgeRef, i64)>, x: (u64, EdgeRef, i64)) -> bool {
    exists|k: int| 0 <= k < o.len() && (#[trigger] o[k]).0 == x.0 && o[k].1 == x.1
}

/// The incident edges in both directions: the outgoing ones, then the incoming
/// ones that do not duplicate an outgoing one (a self-loop).
pub open spec fn edges_both(o: Seq<(u64, EdgeRef, i64)>, i: Seq<(u64, EdgeRef, i64)>) -> Seq<(u64, EdgeRef, i64)> {
    o + i.filter(|x: (u64, EdgeRef, i64)| !seen_out(o, x))
}

/// Whether some event time of the shard equals `t`.
pub open spec fn has_time(vs: Seq<VertexRec>, t: i64) -> bool {
    exists|j: int, k: int| 0 <= j < vs.len() && 0 <= k < vs[j].times@.len() && #[trigger] vs[j].times@[k] == t
}

/// The incident edges of a vertex record in a direction inside the window: for
/// `OUT` and `IN`, one per neighbour with its earliest time there and the reference
/// recorded with it; for `BOTH`, the outgoing ones, then the incoming ones that do
/// not repeat an outgoing one.
pub open spec fn incident_edges(v: VertexRec, dir: Direction, w: Option<Window>, r: Seq<(u64, EdgeRef, i64)>) -> bool {
    &&& dir == Direction::OUT ==> r.map_values(|x: (u64, EdgeRef, i64)| x.0).to_set() == v.out_adj.nbrs(w)
        && r.map_values(|x: (u64, EdgeRef, i64)| x.0).no_duplicates()
        && forall|j: int| 0 <= j < r.len() ==> #[trigger] earliest_edge(v.out_adj.view(), r[j], w)
    &&& dir == Direction::IN ==> r.map_values(|x: (u64, EdgeRef, i64)| x.0).to_set() == v.in_adj.nbrs(w)
        && r.map_values(|x: (u64, EdgeRef, i64)| x.0).no_duplicates()
        && forall|j: int| 0 <= j < r.len() ==> #[trigger] earliest_edge(v.in_adj.view(), r[j], w)
    &&& dir == Direction::BOTH ==> exists|o: Seq<(u64, EdgeRef, i64)>, i: Seq<(u64, EdgeRef, i64)>|
        #[trigger] edges_both(o, i) == r
        && (forall|j: int| 0 <= j < o.len() ==> #[trigger] earliest_edge(v.out_adj.view(), o[j], w))
        && (forall|j: int| 0 <= j < i.len() ==> #[trigger] earliest_edge(v.in_adj.view(), i[j], w))
        && o.map_values(|x: (u64, EdgeRef, i64)| x.0).to_set() == v.out_adj.nbrs(w)
        && i.map_values(|x: (u64, EdgeRef, i64)| x.0).to_set() == v.in_adj.nbrs(w)
}

/// The number of in-neighbours inside the window, summed over the records.
pub open spec fn sum_in(vs: Seq<VertexRec>, w: Option<Window>) -> nat
    decreases vs.len(),
{
    if vs.len() == 0 {
        0
    } else {
        sum_in(vs.drop_last(), w) + vs.last().in_adj.nbrs(w).len()
    }
}

/// The edges counted in a direction: out-neighbours, in-neighbours, or both
/// counts added.
pub open spec fn sum_dir(vs: Seq<VertexRec>, w: Option<Window>, dir: Direction) -> nat {
    match dir {
        Direction::OUT => sum_out(vs, w),
        Direction::IN => sum_in(vs, w),
        Direction::BOTH => sum_in(vs, w) + sum_out(vs, w),
    }
}

/// `x`, or the largest `usize` where `x` does not fit.
pub open spec fn cap(x: nat) -> nat {
    if x <= usize::MAX { x } else { usize::MAX as nat }
}

/// The pairs `(g, n)` with `n` an out-neighbour inside the window of one of the
/// first `j` records, `g` being its id.
pub open spec fn out_pairs(vs: Seq<VertexRec>, w: Option<Window>, j: int) -> Set<(u64, u64)> {
    Set::new(|p: (u64, u64)| exists|q: int| 0 <= q < j && (#[trigger] vs[q]).gid == p.0 && vs[q].out_adj.nbrs(w).contains(p.1))
}

/// The pairs `(n, g)` with `n` an in-neighbour inside the window of one of the
/// first `j` records, `g` being its id.
pub open spec fn in_pairs(vs: Seq<VertexRec>, w: Option<Window>, j: int) -> Set<(u64, u64)> {
    Set::new(|p: (u64, u64)| exists|q: int| 0 <= q < j && (#[trigger] vs[q]).gid == p.1 && vs[q].in_adj.nbrs(w).contains(p.0))
}

/// Summing the out-degrees of the first `j` records counts the pairs they give,
/// and likewise for in-degrees.
pub proof fn lemma_pairs_count(vs: Seq<VertexRec>, w: Option<Window>, j: int)
    requires
        unique_gids(vs),
        0 <= j <= vs.len(),
    ensures
        out_pairs(vs, w, j).finite(),
        out_pairs(vs, w, j).len() == sum_out(vs.take(j), w),
        in_pairs(vs, w, j).finite(),
        in_pairs(vs, w, j).len() == sum_in(vs.take(j), w),
    decreases j,
{
    if j == 0 {
        assert(out_pairs(vs, w, 0) =~= Set::<(u64, u64)>::empty());
        assert(in_pairs(vs, w, 0) =~= Set::<(u64, u64)>::empty());
        assert(vs.take(0) =~= Seq::<VertexRec>::empty());
    } else {
        lemma_pairs_count(vs, w, j - 1);
        assert(vs.take(j).drop_last() =~= vs.take(j - 1));
        assert(vs.take(j).last() == vs[j - 1]);
        let x = vs[j - 1].gid;
        let no = vs[j - 1].out_adj.nbrs(w);
        let ni = vs[j - 1].in_adj.nbrs(w);
        crate::tadjset::lemma_nbrs_finite(vs[j - 1].out_adj.view(), w);
        crate::tadjset::lemma_nbrs_finite(vs[j - 1].in_adj.view(), w);
        let fo = |b: u64| (x, b);
        let fi = |a: u64| (a, x);
        vstd::set_lib::lemma_map_size(no, no.map(fo), fo);
        vstd::set_lib::lemma_map_size(ni, ni.map(fi), fi);
        let po = out_pairs(vs, w, j - 1);
        let pi = in_pairs(vs, w, j - 1);
        assert forall|p: (u64, u64)| #[trigger] out_pairs(vs, w, j).contains(p) == (po + no.map(fo)).contains(p) by {
            if out_pairs(vs, w, j).contains(p) {
                let q = choose|q: int| 0 <= q < j && (#[trigger] vs[q]).gid == p.0 && vs[q].out_adj.nbrs(w).contains(p.1);
                if q == j - 1 {
                    assert(fo(p.1) == p);
                }
            }
            if no.map(fo).contains(p) {
                let b = choose|b: u64| no.contains(b) && fo(b) == p;
                assert(vs[j - 1].gid == p.0 && vs[j - 1].out_adj.nbrs(w).contains(p.1));
            }
        }
        assert(out_pairs(vs, w, j) =~= po + no.map(fo));
        assert(po.disjoint(no.map(fo))) by {
            assert forall|p: (u64, u64)| po.contains(p) implies !no.map(fo).contains(p) by {
                let q = choose|q: int| 0 <= q < j - 1 && (#[trigger] vs[q]).gid == p.0 && vs[q].out_adj.nbrs(w).contains(p.1);
                assert(vs[q].gid != vs[j - 1].gid);
            }
        }
        vstd::set_lib::lemma_set_disjoint_lens(po, no.map(fo));
        assert forall|p: (u64, u64)| #[trigger] in_pairs(vs, w, j).contains(p) == (pi + ni.map(fi)).contains(p) by {
            if in_pairs(vs, w, j).contains(p) {
                let q = choose|q: int| 0 <= q < j && (#[trigger] vs[q]).gid == p.1 && vs[q].in_adj.nbrs(w).contains(p.0);
                if q == j - 1 {
                    assert(fi(p.0) == p);
                }
            }
            if ni.map(fi).contains(p) {
                let a = choose|a: u64| ni.contains(a) && fi(a) == p;
                assert(vs[j - 1].gid == p.1 && vs[j - 1].in_adj.nbrs(w).contains(p.0));
            }
        }
        assert(in_pairs(vs, w, j) =~= pi + ni.map(fi));
        assert(pi.disjoint(ni.map(fi))) by {
            assert forall|p: (u64, u64)| pi.contains(p) implies !ni.map(fi).contains(p) by {
                let q = choose|q: int| 0 <= q < j - 1 && (#[trigger] vs[q]).gid == p.1 && vs[q].in_adj.nbrs(w).contains(p.0);
                assert(vs[q].gid != vs[j - 1].gid);
            }
        }
        vstd::set_lib::lemma_set_disjoint_lens(pi, ni.map(fi));
    }
}

/// A single-writer store of vertices, their properties and their time-indexed
/// adjacency. A vertex's position in the store (its pid) never changes.
pub struct TemporalGraph {
    vertices: Vec<VertexRec>,
    edges: Vec<EdgeRec>,
}

impl TemporalGraph {
    pub closed spec fn vs(&self) -> Seq<VertexRec> {
        self.vertices@
    }

    pub closed spec fn es(&self) -> Seq<EdgeRec> {
        self.edges@
    }

    pub open spec fn wf(&self) -> bool {
        &&& unique_gids(self.vs())
        &&& forall|a: int| 0 <= a < self.vs().len() ==> vertex_wf(#[trigger] self.vs()[a])
        &&& forall|a: int, b: int| 0 <= a < b < self.es().len() ==>
            ((#[trigger] self.es()[a]).src, self.es()[a].dst) != ((#[trigger] self.es()[b]).src, self.es()[b].dst)
        &&& forall|a: int| 0 <= a < self.es().len() ==> (#[trigger] self.es()[a]).props.wf()
    }

    /// Whether the vertex lives in this shard.
    pub open spec fn has_vertex(&self, g: u64) -> bool {
        seq_has(self.vs(), g)
    }

    /// The global ids of the vertices of this shard.
    pub open spec fn gids(&self) -> Set<u64> {
        Set::new(|g: u64| self.has_vertex(g))
    }

    /// Whether the vertex had an event inside the window.
    pub open spec fn active(&self, g: u64, w: Option<Window>) -> bool {
        seq_active(self.vs(), g, w)
    }

    /// The vertex's out-neighbours seen inside the window.
    pub open spec fn out_nbrs(&self, g: u64, w: Option<Window>) -> Set<u64> {
        seq_out(self.vs(), g, w)
    }

    /// The vertex's in-neighbours seen inside the window.
    pub open spec fn in_nbrs(&self, g: u64, w: Option<Window>) -> Set<u64> {
        seq_in(self.vs(), g, w)
    }

    /// The pid of a vertex of this shard.
    pub open spec fn pid(&self, g: u64) -> int {
        choose|j: int| 0 <= j < self.vs().len() && (#[trigger] self.vs()[j]).gid == g
    }

    /// The properties of the vertex; none where it does not live here.
    pub open spec fn vprops(&self, g: u64) -> Seq<NamedProp> {
        if self.has_vertex(g) { self.vs()[self.pid(g)].props.view() } else { Seq::empty() }
    }

    /// Whether an edge from `src` to `dst` is recorded here.
    pub open spec fn has_edge(&self, src: u64, dst: u64) -> bool {
        exists|e: int| 0 <= e < self.es().len() && (#[trigger] self.es()[e]).src == src && self.es()[e].dst == dst
    }

    /// The position of a recorded edge.
    pub open spec fn eid(&self, src: u64, dst: u64) -> int {
        choose|e: int| 0 <= e < self.es().len() && (#[trigger] self.es()[e]).src == src && self.es()[e].dst == dst
    }

    /// The properties of the edge; none where it is not recorded here.
    pub open spec fn eprops(&self, src: u64, dst: u64) -> Seq<NamedProp> {
        if self.has_edge(src, dst) { self.es()[self.eid(src, dst)].props.view() } else { Seq::empty() }
    }

    /// With distinct endpoint pairs, the record holding an edge is its position.
    pub proof fn lemma_eid(&self, src: u64, dst: u64, e: int)
        requires
            self.wf(),
            0 <= e < self.es().len(),
            self.es()[e].src == src && self.es()[e].dst == dst,
        ensures
            self.has_edge(src, dst),
            self.eid(src, dst) == e,
            self.eprops(src, dst) == self.es()[e].props.view(),
    {
        assert(self.es()[e].src == src);
        let q = self.eid(src, dst);
        if q != e {
            if q < e {
                assert((self.es()[q].src, self.es()[q].dst) != (self.es()[e].src, self.es()[e].dst));
            } else {
                assert((self.es()[e].src, self.es()[e].dst) != (self.es()[q].src, self.es()[q].dst));
            }
        }
    }

    /// The position of the edge from `src` to `dst`, if it is recorded here.
    pub fn find_edge(&self, src: u64, dst: u64) -> (r: Option<usize>)
        ensures
            r.is_some() == self.has_edge(src, dst),
            r matches Some(e) ==> e < self.es().len() && self.es()[e as int].src == src && self.es()[e as int].dst == dst,
    {
        let mut e: usize = 0;
        while e < self.edges.len()
            invariant
                e <= self.edges.len(),
                forall|k: int| 0 <= k < e ==> !((#[trigger] self.edges@[k]).src == src && self.edges@[k].dst == dst),
            decreases self.edges.len() - e,
        {
            if self.edges[e].src == src && self.edges[e].dst == dst {
                assert(self.es()[e as int].src == src);
                return Some(e);
            }
            e = e + 1;
        }
        None
    }

    /// With distinct ids, the record holding a vertex is its pid.
    pub proof fn lemma_pid(&self, g: u64, j: int)
        requires
            self.wf(),
            0 <= j < self.vs().len(),
            self.vs()[j].gid == g,
        ensures
            self.has_vertex(g),
            self.pid(g) == j,
            self.vprops(g) == self.vs()[j].props.view(),
    {
        assert(self.vs()[j].gid == g);
        let q = self.pid(g);
        if q != j {
            if q < j {
                assert(self.vs()[q].gid != self.vs()[j].gid);
            } else {
                assert(self.vs()[j].gid != self.vs()[q].gid);
            }
        }
    }

    pub fn new() -> (r: TemporalGraph)
        ensures
            r.wf(),
            r.vs().len() == 0,
            r.es().len() == 0,
    {
        TemporalGraph { vertices: Vec::new(), edges: Vec::new() }
    }

    /// The number of vertices of the shard.
    pub fn len(&self) -> (r: usize)
        ensures
            r == self.vs().len(),
    {
        self.vertices.len()
    }

    /// The pid of the vertex, if it lives here.
    pub fn find_vertex(&self, gid: u64) -> (r: Option<usize>)
        ensures
            r.is_some() == self.has_vertex(gid),
            r matches Some(j) ==> j < self.vs().len() && self.vs()[j as int].gid == gid,
    {
        let mut j: usize = 0;
        while j < self.vertices.len()
            invariant
                j <= self.vertices.len(),
                forall|k: int| 0 <= k < j ==> (#[trigger] self.vertices@[k]).gid != gid,
            decreases self.vertices.len() - j,
        {
            if self.vertices[j].gid == gid {
                assert(self.vs()[j as int].gid == gid);
                return Some(j);
            }
            j = j + 1;
        }
        None
    }

    /// Records an event of the vertex at `t`, allocating its pid on first sight.
    fn touch_vertex(&mut self, t: i64, gid: u64) -> (r: usize)
        requires
            old(self).wf(),
        ensures
            final(self).wf(),
            r < final(self).vs().len(),
            final(self).vs()[r as int].gid == gid,
            final(self).es() == old(self).es(),
            final(self).vs().len() == old(self).vs().len() || (final(self).vs().len() == old(self).vs().len() + 1 && !old(self).has_vertex(gid)),
            forall|j: int| 0 <= j < old(self).vs().len() && j != r ==> #[trigger] final(self).vs()[j] == old(self).vs()[j],
            r < old(self).vs().len() ==> old(self).vs()[r as int].gid == gid,
            r < old(self).vs().len() ==> final(self).vs()[r as int].props == old(self).vs()[r as int].props
                && final(self).vs()[r as int].out_adj == old(self).vs()[r as int].out_adj
                && final(self).vs()[r as int].in_adj == old(self).vs()[r as int].in_adj
                && final(self).vs()[r as int].times@ == old(self).vs()[r as int].times@.push(t),
            r >= old(self).vs().len() ==> final(self).vs()[r as int].props.view().len() == 0
                && final(self).vs()[r as int].times@ == seq![t]
                && (forall|w: Option<Window>| #[trigger] final(self).vs()[r as int].out_adj.nbrs(w) == Set::<u64>::empty())
                && (forall|w: Option<Window>| #[trigger] final(self).vs()[r as int].in_adj.nbrs(w) == Set::<u64>::empty()),
    {
        let r = match self.find_vertex(gid) {
            Some(j) => {
                let ghost v0 = self.vs();
                self.vertices[j].times.push(t);
                let ghost v1 = self.vs();
                assert(v1 == v0.update(j as int, v1[j as int]));
                assert forall|a: int, b: int| 0 <= a < b < v1.len() implies (#[trigger] v1[a]).gid != (#[trigger] v1[b]).gid by {
                    assert(v0[a].gid != v0[b].gid);
                }
                assert forall|a: int| 0 <= a < v1.len() implies vertex_wf(#[trigger] v1[a]) by {
                    assert(vertex_wf(v0[a]));
                }
                j
            },
            None => {
                let ghost v0 = self.vs();
                let mut times: Vec<i64> = Vec::new();
                times.push(t);
                let rec = VertexRec { gid, times, props: PropSet::new(), out_adj: TAdjSet::new(), in_adj: TAdjSet::new() };
                self.vertices.push(rec);
                let ghost v1 = self.vs();
                assert(v1 == v0.push(v1[v0.len() as int]));
                assert forall|a: int, b: int| 0 <= a < b < v1.len() implies (#[trigger] v1[a]).gid != (#[trigger] v1[b]).gid by {
                    if b < v0.len() {
                        assert(v0[a].gid != v0[b].gid);
                    } else {
                        assert(v1[a] == v0[a]);
                    }
                }
                assert forall|a: int| 0 <= a < v1.len() implies vertex_wf(#[trigger] v1[a]) by {
                    if a < v0.len() {
                        assert(vertex_wf(v0[a]));
                    }
                }
                assert(v1[v0.len() as int].times@ =~= seq![t]);
                self.vertices.len() - 1
            },
        };
        proof {
            let e0 = old(self).es();
            assert(self.es() == e0);
            assert forall|a: int, b: int| 0 <= a < b < e0.len() implies ((#[trigger] e0[a]).src, e0[a].dst) != ((#[trigger] e0[b]).src, e0[b].dst) by {
                assert(old(self).wf());
            }
            assert forall|a: int| 0 <= a < e0.len() implies (#[trigger] e0[a]).props.wf() by {
                assert(old(self).wf());
            }
        }
        r
    }

    /// Records an event of the vertex at `t` with its property updates; when an
    /// update's variant differs from its property's, nothing is recorded.
    pub fn add_vertex(&mut self, t: i64, gid: u64, props: &Vec<(String, Prop)>) -> (r: Result<(), GraphError>)
        requires
            old(self).wf(),
        ensures
            final(self).wf(),
            r is Err <==> !compatible(old(self).vprops(gid), props@),
            r is Err ==> r == Err::<(), GraphError>(GraphError::PropTypeMismatch) && final(self).vs() == old(self).vs() && final(self).es() == old(self).es(),
            r is Ok ==> final(self).es() == old(self).es(),
            r is Ok ==> forall|g: u64| #[trigger] final(self).has_vertex(g) == (old(self).has_vertex(g) || g == gid),
            r is Ok ==> forall|g: u64, w: Option<Window>| #[trigger] final(self).active(g, w) == (old(self).active(g, w) || (g == gid && covers(w, t))),
            r is Ok ==> forall|g: u64, w: Option<Window>| #[trigger] final(self).out_nbrs(g, w) == old(self).out_nbrs(g, w),
            r is Ok ==> forall|g: u64, w: Option<Window>| #[trigger] final(self).in_nbrs(g, w) == old(self).in_nbrs(g, w),
            r is Ok ==> forall|i: int| 0 <= i < props@.len() ==> #[trigger] recorded(final(self).vprops(gid), props@[i], t),
            r is Ok ==> applied(old(self).vprops(gid), final(self).vprops(gid), t, props@),
            r is Ok ==> forall|j: int| 0 <= j < old(self).vs().len() ==> #[trigger] final(self).vs()[j].gid == old(self).vs()[j].gid,
            old(self).vs().len() <= final(self).vs().len(),
    {
        let ok = match self.find_vertex(gid) {
            Some(j) => {
                proof {
                    lemma_at(self.vs(), j as int);
                    self.lemma_pid(gid, j as int);
                }
                self.vertices[j].props.check(props)
            },
            None => {
                let empty = PropSet::new();
                assert(empty.view() =~= Seq::<NamedProp>::empty());
                empty.check(props)
            },
        };
        if !ok {
            return Err(GraphError::PropTypeMismatch);
        }
        let ghost v0 = self.vs();
        let j = self.touch_vertex(t, gid);
        let ghost v1 = self.vs();
        proof {
            if j < v0.len() {
                old(self).lemma_pid(gid, j as int);
            } else {
                assert(v1[j as int].props.view() =~= Seq::<NamedProp>::empty());
            }
        }
        let res = self.vertices[j].props.apply(t, props);
        let ghost v2 = self.vs();
        assert(res is Ok);
        assert(v2 == v1.update(j as int, v2[j as int]));
        assert(unique_gids(v2)) by {
            assert forall|a: int, b: int| 0 <= a < b < v2.len() implies (#[trigger] v2[a]).gid != (#[trigger] v2[b]).gid by {
                assert(v1[a].gid != v1[b].gid);
            }
        }
        assert forall|a: int| 0 <= a < v2.len() implies vertex_wf(#[trigger] v2[a]) by {
            assert(vertex_wf(v1[a]));
        }
        proof {
            lemma_touched(v0, v2, j as int, gid, t);
            lemma_at(v2, j as int);
            assert forall|g: u64, w: Option<Window>| #[trigger] self.out_nbrs(g, w) == old(self).out_nbrs(g, w) by {
                if g == gid && j < v0.len() {
                    assert(v2[j as int].out_adj == v0[j as int].out_adj);
                }
            }
            assert forall|g: u64, w: Option<Window>| #[trigger] self.in_nbrs(g, w) == old(self).in_nbrs(g, w) by {
                if g == gid && j < v0.len() {
                    assert(v2[j as int].in_adj == v0[j as int].in_adj);
                }
            }
            assert(self.has_vertex(gid));
            let q = self.pid(gid);
            assert(q == j) by {
                if q != j {
                    assert(v2[q].gid != v2[j as int].gid);
                }
            }
            let e0 = old(self).es();
            assert forall|a: int, b: int| 0 <= a < b < e0.len() implies ((#[trigger] e0[a]).src, e0[a].dst) != ((#[trigger] e0[b]).src, e0[b].dst) by {
                assert(old(self).wf());
            }
            assert forall|a: int| 0 <= a < e0.len() implies (#[trigger] e0[a]).props.wf() by {
                assert(old(self).wf());
            }
        }
        Ok(())
    }

    /// Records the edge from `src`, which lives here, to `dst` at `t`, with its
    /// property updates; nothing is recorded when an update's variant differs.
    fn record_out(&mut self, t: i64, src: u64, dst: u64, props: &Vec<(String, Prop)>) -> (r: Result<usize, GraphError>)
        requires
            old(self).wf(),
        ensures
            final(self).wf(),
            r is Err <==> !compatible(old(self).eprops(src, dst), props@),
            r is Err ==> r == Err::<usize, GraphError>(GraphError::PropTypeMismatch) && final(self).vs() == old(self).vs() && final(self).es() == old(self).es(),
            r is Ok ==> forall|g: u64| #[trigger] final(self).has_vertex(g) == (old(self).has_vertex(g) || g == src),
            r is Ok ==> forall|g: u64, w: Option<Window>| #[trigger] final(self).active(g, w) == (old(self).active(g, w) || (g == src && covers(w, t))),
            r is Ok ==> forall|g: u64, w: Option<Window>| #[trigger] final(self).out_nbrs(g, w) == (if g == src && covers(w, t) {
                old(self).out_nbrs(g, w).insert(dst)
            } else {
                old(self).out_nbrs(g, w)
            }),
            r is Ok ==> forall|g: u64, w: Option<Window>| #[trigger] final(self).in_nbrs(g, w) == old(self).in_nbrs(g, w),
            r is Ok ==> forall|i: int| 0 <= i < props@.len() ==> #[trigger] recorded(final(self).eprops(src, dst), props@[i], t),
            r is Ok ==> applied(old(self).eprops(src, dst), final(self).eprops(src, dst), t, props@),
            r is Ok ==> forall|a: u64, b: u64| (a, b) != (src, dst) ==> #[trigger] final(self).eprops(a, b) == old(self).eprops(a, b),
            r is Ok ==> forall|g: u64| #[trigger] final(self).vprops(g) == old(self).vprops(g),
            r is Ok ==> forall|j: int| 0 <= j < old(self).vs().len() ==> #[trigger] final(self).vs()[j].gid == old(self).vs()[j].gid,
            r matches Ok(e) ==> e < final(self).es().len(),
            old(self).vs().len() <= final(self).vs().len(),
    {
        let found = self.find_edge(src, dst);
        let ok = match found {
            Some(e) => {
                proof { self.lemma_eid(src, dst, e as int); }
                self.edges[e].props.check(props)
            },
            None => {
                let empty = PropSet::new();
                assert(empty.view() =~= Seq::<NamedProp>::empty());
                empty.check(props)
            },
        };
        if !ok {
            return Err(GraphError::PropTypeMismatch);
        }
        let ghost e0 = self.es();
        let e = match found {
            Some(e) => e,
            None => {
                self.edges.push(EdgeRec { src, dst, props: PropSet::new() });
                self.edges.len() - 1
            },
        };
        let ghost e1 = self.es();
        assert(e1[e as int].props.view() == (if e < e0.len() { e0[e as int].props.view() } else { Seq::<NamedProp>::empty() })) by {
            if e >= e0.len() {
                assert(e1[e as int].props.view() =~= Seq::<NamedProp>::empty());
            }
        }
        let res = self.edges[e].props.apply(t, props);
        assert(res is Ok);
        let ghost e2 = self.es();
        assert(e2 == e1.update(e as int, e2[e as int]));
        assert(e1.len() == e0.len() || (e1.len() == e0.len() + 1 && e1 == e0.push(e1[e0.len() as int])));
        assert forall|a: int, b: int| 0 <= a < b < e2.len() implies ((#[trigger] e2[a]).src, e2[a].dst) != ((#[trigger] e2[b]).src, e2[b].dst) by {
            if b < e0.len() {
                assert(e0[a] == e1[a] && e0[b] == e1[b]);
                assert(old(self).wf());
            } else {
                assert(e0[a] == e1[a]);
            }
        }
        assert forall|a: int| 0 <= a < e2.len() implies (#[trigger] e2[a]).props.wf() by {
            if a < e0.len() {
                assert(e0[a] == e1[a]);
                assert(old(self).wf());
            }
        }
        let ghost v0 = self.vs();
        let p = self.touch_vertex(t, src);
        let ghost v1 = self.vs();
        self.vertices[p].out_adj.push(t, dst, EdgeRef::Local(e));
        let ghost v2 = self.vs();
        assert(v2 == v1.update(p as int, v2[p as int]));
        assert(unique_gids(v2)) by {
            assert forall|a: int, b: int| 0 <= a < b < v2.len() implies (#[trigger] v2[a]).gid != (#[trigger] v2[b]).gid by {
                assert(v1[a].gid != v1[b].gid);
            }
        }
        assert forall|a: int| 0 <= a < v2.len() implies vertex_wf(#[trigger] v2[a]) by {
            assert(vertex_wf(v1[a]));
        }
        proof {
            lemma_touched(v0, v2, p as int, src, t);
            assert forall|g: u64, w: Option<Window>| #[trigger] self.out_nbrs(g, w) == (if g == src && covers(w, t) {
                old(self).out_nbrs(g, w).insert(dst)
            } else {
                old(self).out_nbrs(g, w)
            }) by {
                if g == src {
                    if p >= v0.len() {
                        assert(v1[p as int].out_adj.nbrs(w) == Set::<u64>::empty());
                    }
                }
            }
            assert forall|g: u64, w: Option<Window>| #[trigger] self.in_nbrs(g, w) == old(self).in_nbrs(g, w) by {
                if g == src {
                    if p >= v0.len() {
                        assert(v1[p as int].in_adj.nbrs(w) == Set::<u64>::empty());
                    }
                }
            }
            self.lemma_eid(src, dst, e as int);
            assert forall|a: u64, b: u64| (a, b) != (src, dst) implies #[trigger] self.eprops(a, b) == old(self).eprops(a, b) by {
                if old(self).has_edge(a, b) {
                    let q = old(self).eid(a, b);
                    assert(q != e);
                    assert(e2[q] == e0[q]);
                    self.lemma_eid(a, b, q);
                }
                if self.has_edge(a, b) {
                    let q = self.eid(a, b);
                    assert(q != e);
                    assert(e2[q] == e0[q]);
                    old(self).lemma_eid(a, b, q);
                }
            }
            assert forall|g: u64| #[trigger] self.vprops(g) == old(self).vprops(g) by {
                if g == src {
                    self.lemma_pid(g, p as int);
                    if p < v0.len() {
                        old(self).lemma_pid(g, p as int);
                    } else {
                        assert(v2[p as int].props.view() =~= Seq::<NamedProp>::empty());
                    }
                } else if old(self).has_vertex(g) {
                    let q = old(self).pid(g);
                    assert(v2[q] == v0[q]);
                    self.lemma_pid(g, q);
                }
            }
        }
        Ok(e)
    }

    /// Records, at `t`, that `src` reached `dst`, which lives here, through `eref`.
    fn record_in(&mut self, t: i64, src: u64, dst: u64, eref: EdgeRef)
        requires
            old(self).wf(),
        ensures
            final(self).wf(),
            final(self).es() == old(self).es(),
            forall|g: u64| #[trigger] final(self).has_vertex(g) == (old(self).has_vertex(g) || g == dst),
            forall|g: u64, w: Option<Window>| #[trigger] final(self).active(g, w) == (old(self).active(g, w) || (g == dst && covers(w, t))),
            forall|g: u64, w: Option<Window>| #[trigger] final(self).in_nbrs(g, w) == (if g == dst && covers(w, t) {
                old(self).in_nbrs(g, w).insert(src)
            } else {
                old(self).in_nbrs(g, w)
            }),
            forall|g: u64, w: Option<Window>| #[trigger] final(self).out_nbrs(g, w) == old(self).out_nbrs(g, w),
            forall|a: u64, b: u64| #[trigger] final(self).eprops(a, b) == old(self).eprops(a, b),
            forall|g: u64| #[trigger] final(self).vprops(g) == old(self).vprops(g),
            forall|j: int| 0 <= j < old(self).vs().len() ==> #[trigger] final(self).vs()[j].gid == old(self).vs()[j].gid,
            old(self).vs().len() <= final(self).vs().len(),
    {
        let ghost v0 = self.vs();
        let p = self.touch_vertex(t, dst);
        let ghost v1 = self.vs();
        self.vertices[p].in_adj.push(t, src, eref);
        let ghost v2 = self.vs();
        assert(v2 == v1.update(p as int, v2[p as int]));
        assert(unique_gids(v2)) by {
            assert forall|a: int, b: int| 0 <= a < b < v2.len() implies (#[trigger] v2[a]).gid != (#[trigger] v2[b]).gid by {
                assert(v1[a].gid != v1[b].gid);
            }
        }
        assert forall|a: int| 0 <= a < v2.len() implies vertex_wf(#[trigger] v2[a]) by {
            assert(vertex_wf(v1[a]));
        }
        proof {
            lemma_touched(v0, v2, p as int, dst, t);
            assert forall|g: u64, w: Option<Window>| #[trigger] self.in_nbrs(g, w) == (if g == dst && covers(w, t) {
                old(self).in_nbrs(g, w).insert(src)
            } else {
                old(self).in_nbrs(g, w)
            }) by {
                if g == dst {
                    if p >= v0.len() {
                        assert(v1[p as int].in_adj.nbrs(w) == Set::<u64>::empty());
                    }
                }
            }
            assert forall|g: u64, w: Option<Window>| #[trigger] self.out_nbrs(g, w) == old(self).out_nbrs(g, w) by {
                if g == dst {
                    if p >= v0.len() {
                        assert(v1[p as int].out_adj.nbrs(w) == Set::<u64>::empty());
                    }
                }
            }
            assert(self.es() == old(self).es());
            assert forall|a: u64, b: u64| #[trigger] self.eprops(a, b) == old(self).eprops(a, b) by {
                assert(self.has_edge(a, b) == old(self).has_edge(a, b));
            }
            assert forall|g: u64| #[trigger] self.vprops(g) == old(self).vprops(g) by {
                if g == dst {
                    self.lemma_pid(g, p as int);
                    if p < v0.len() {
                        old(self).lemma_pid(g, p as int);
                    } else {
                        assert(v2[p as int].props.view() =~= Seq::<NamedProp>::empty());
                    }
                } else if old(self).has_vertex(g) {
                    let q = old(self).pid(g);
                    assert(v2[q] == v0[q]);
                    self.lemma_pid(g, q);
                }
            }
        }
    }

    /// Whether the vertex lives here.
    pub fn contains_vertex(&self, gid: u64) -> (r: bool)
        ensures
            r == self.has_vertex(gid),
    {
        self.find_vertex(gid).is_some()
    }

    /// Whether the vertex had an event inside the window.
    pub fn contains_vertex_window(&self, gid: u64, w: Option<Window>) -> (r: bool)
        requires
            self.wf(),
        ensures
            r == self.active(gid, w),
    {
        match self.find_vertex(gid) {
            Some(j) => {
                proof { lemma_at(self.vs(), j as int); }
                let times = &self.vertices[j].times;
                let mut k: usize = 0;
                while k < times.len()
                    invariant
                        k <= times.len(),
                        j < self.vs().len(),
                        times@ == self.vs()[j as int].times@,
                        self.vs()[j as int].gid == gid,
                        forall|q: int| 0 <= q < k ==> !covers(w, #[trigger] times@[q]),
                    decreases times.len() - k,
                {
                    if crate::window::covers_time(w, times[k]) {
                        assert(covers(w, self.vs()[j as int].times@[k as int]));
                        assert(vertex_active(self.vs()[j as int], w));
                        assert(self.vs()[j as int].gid == gid);
                        assert(seq_active(self.vs(), gid, w));
                        return true;
                    }
                    k = k + 1;
                }
                assert(!vertex_active(self.vs()[j as int], w));
                assert(seq_active(self.vs(), gid, w) == vertex_active(self.vs()[j as int], w));
                false
            },
            None => false,
        }
    }

    /// The neighbours of the vertex in the direction inside the window, each once.
    pub fn neighbours(&self, gid: u64, dir: Direction, w: Option<Window>) -> (r: Vec<u64>)
        requires
            self.wf(),
        ensures
            r@.no_duplicates(),
            r@.to_set() == nbrs_dir(self.out_nbrs(gid, w), self.in_nbrs(gid, w), dir),
    {
        match self.find_vertex(gid) {
            Some(j) => {
                proof { lemma_at(self.vs(), j as int); }
                let v = &self.vertices[j];
                match dir {
                    Direction::OUT => v.out_adj.neighbours(w),
                    Direction::IN => v.in_adj.neighbours(w),
                    Direction::BOTH => {
                        let mut r = v.out_adj.neighbours(w);
                        let i = v.in_adj.neighbours(w);
                        append_missing(&mut r, &i);
                        r
                    },
                }
            },
            None => {
                assert(self.out_nbrs(gid, w) =~= Set::<u64>::empty());
                assert(self.in_nbrs(gid, w) =~= Set::<u64>::empty());
                let r: Vec<u64> = Vec::new();
                assert(r@.to_set() =~= Set::<u64>::empty());
                r
            },
        }
    }

    /// The number of neighbours of the vertex in the direction inside the window.
    pub fn degree(&self, gid: u64, dir: Direction, w: Option<Window>) -> (r: usize)
        requires
            self.wf(),
        ensures
            r == nbrs_dir(self.out_nbrs(gid, w), self.in_nbrs(gid, w), dir).len(),
            nbrs_dir(self.out_nbrs(gid, w), self.in_nbrs(gid, w), dir).finite(),
    {
        let v = self.neighbours(gid, dir, w);
        proof {
            v@.unique_seq_to_set();
        }
        v.len()
    }

    /// The ids of the vertices with an event inside the window, in pid order.
    pub fn vertices_window(&self, w: Option<Window>) -> (r: Vec<u64>)
        requires
            self.wf(),
        ensures
            r@ == self.vs().map_values(|v: VertexRec| v.gid).filter(|g: u64| self.active(g, w)),
            r@.no_duplicates(),
            r@.to_set() == Set::new(|g: u64| self.active(g, w)),
    {
        let ghost vs = self.vs();
        let mut r: Vec<u64> = Vec::new();
        let mut j: usize = 0;
        while j < self.vertices.len()
            invariant
                j <= self.vertices.len(),
                vs == self.vs(),
                self.wf(),
                r@.no_duplicates(),
                r@ == vs.map_values(|v: VertexRec| v.gid).take(j as int).filter(|g: u64| self.active(g, w)),
                r@.to_set() == Set::new(|g: u64| exists|q: int| 0 <= q < j && (#[trigger] vs[q]).gid == g && vertex_active(vs[q], w)),
            decreases self.vertices.len() - j,
        {
            let g = self.vertices[j].gid;
            let ghost r0 = r@;
            let act = self.contains_vertex_window(g, w);
            proof {
                lemma_at(vs, j as int);
                let ids = vs.map_values(|v: VertexRec| v.gid);
                reveal(Seq::filter);
                assert(ids.take(j + 1).drop_last() =~= ids.take(j as int));
                assert(ids.take(j + 1).last() == g);
            }
            if act {
                assert(!r0.to_set().contains(g)) by {
                    if r0.to_set().contains(g) {
                        let q = choose|q: int| 0 <= q < j && (#[trigger] vs[q]).gid == g && vertex_active(vs[q], w);
                        assert(vs[q].gid != vs[j as int].gid);
                    }
                }
                r.push(g);
                assert forall|p: int, q: int| 0 <= p < q < r@.len() implies r@[p] != r@[q] by {
                    if q == r0.len() {
                        assert(r@[p] == r0[p]);
                        assert(r0.to_set().contains(r0[p]));
                    } else {
                        assert(r@[p] == r0[p] && r@[q] == r0[q]);
                    }
                }
            }
            assert(r@.to_set() =~= Set::new(|g2: u64| exists|q: int| 0 <= q < j + 1 && (#[trigger] vs[q]).gid == g2 && vertex_active(vs[q], w))) by {
                assert forall|g2: u64| r@.to_set().contains(g2) == (exists|q: int| 0 <= q < j + 1 && (#[trigger] vs[q]).gid == g2 && vertex_active(vs[q], w)) by {
                    if r@.to_set().contains(g2) {
                        let z = choose|z: int| 0 <= z < r@.len() && r@[z] == g2;
                        if z < r0.len() {
                            assert(r0[z] == g2);
                            assert(r0.to_set().contains(g2));
                        } else {
                            assert(vs[j as int].gid == g2 && vertex_active(vs[j as int], w));
                        }
                    }
                    if exists|q: int| 0 <= q < j + 1 && (#[trigger] vs[q]).gid == g2 && vertex_active(vs[q], w) {
                        let q = choose|q: int| 0 <= q < j + 1 && (#[trigger] vs[q]).gid == g2 && vertex_active(vs[q], w);
                        if q < j {
                            assert(r0.to_set().contains(g2));
                            let z = choose|z: int| 0 <= z < r0.len() && r0[z] == g2;
                            assert(r@[z] == g2);
                        } else {
                            assert(act);
                            assert(r@[r0.len() as int] == g2);
                        }
                    }
                }
            }
            j = j + 1;
        }
        assert(r@.to_set() =~= Set::new(|g: u64| self.active(g, w)));
        assert(vs.map_values(|v: VertexRec| v.gid).take(vs.len() as int) =~= vs.map_values(|v: VertexRec| v.gid));
        r
    }

    /// The history of the vertex's named property inside the window; `None` when
    /// the vertex does not live here or never had that property.
    pub fn property_history(&self, gid: u64, name: &String, w: Option<Window>) -> (r: Option<Vec<(i64, Prop)>>)
        requires
            self.wf(),
        ensures
            r.is_some() == has_name(self.vprops(gid), name@),
            r matches Some(h) ==> exists|k: int| 0 <= k < self.vprops(gid).len()
                && (#[trigger] self.vprops(gid)[k]).name@ == name@ && h@ == history_in(self.vprops(gid)[k].prop.view(), w),
    {
        match self.find_vertex(gid) {
            Some(j) => {
                proof { self.lemma_pid(gid, j as int); }
                self.vertices[j].props.history(name, w)
            },
            None => None,
        }
    }

    /// The history of the edge's named property inside the window; `None` when the
    /// edge is not recorded here or never had that property.
    pub fn edge_property_history(&self, src: u64, dst: u64, name: &String, w: Option<Window>) -> (r: Option<Vec<(i64, Prop)>>)
        requires
            self.wf(),
        ensures
            r.is_some() == has_name(self.eprops(src, dst), name@),
            r matches Some(h) ==> exists|k: int| 0 <= k < self.eprops(src, dst).len()
                && (#[trigger] self.eprops(src, dst)[k]).name@ == name@ && h@ == history_in(self.eprops(src, dst)[k].prop.view(), w),
    {
        match self.find_edge(src, dst) {
            Some(e) => {
                proof { self.lemma_eid(src, dst, e as int); }
                self.edges[e].props.history(name, w)
            },
            None => None,
        }
    }

    /// Records the edge from `src` to `dst` at `t`, both of which live here.
    pub fn add_edge(&mut self, t: i64, src: u64, dst: u64, props: &Vec<(String, Prop)>) -> (r: Result<(), GraphError>)
        requires
            old(self).wf(),
        ensures
            final(self).wf(),
            r is Err <==> !compatible(old(self).eprops(src, dst), props@),
            r is Err ==> r == Err::<(), GraphError>(GraphError::PropTypeMismatch) && final(self).vs() == old(self).vs() && final(self).es() == old(self).es(),
            r is Ok ==> forall|g: u64| #[trigger] final(self).has_vertex(g) == (old(self).has_vertex(g) || g == src || g == dst),
            r is Ok ==> forall|g: u64, w: Option<Window>| #[trigger] final(self).active(g, w) == (old(self).active(g, w) || ((g == src || g == dst) && covers(w, t))),
            r is Ok ==> forall|g: u64, w: Option<Window>| #[trigger] final(self).out_nbrs(g, w) == (if g == src && covers(w, t) {
                old(self).out_nbrs(g, w).insert(dst)
            } else {
                old(self).out_nbrs(g, w)
            }),
            r is Ok ==> forall|g: u64, w: Option<Window>| #[trigger] final(self).in_nbrs(g, w) == (if g == dst && covers(w, t) {
                old(self).in_nbrs(g, w).insert(src)
            } else {
                old(self).in_nbrs(g, w)
            }),
            r is Ok ==> forall|i: int| 0 <= i < props@.len() ==> #[trigger] recorded(final(self).eprops(src, dst), props@[i], t),
            r is Ok ==> applied(old(self).eprops(src, dst), final(self).eprops(src, dst), t, props@),
            r is Ok ==> forall|a: u64, b: u64| (a, b) != (src, dst) ==> #[trigger] final(self).eprops(a, b) == old(self).eprops(a, b),
            r is Ok ==> forall|g: u64| #[trigger] final(self).vprops(g) == old(self).vprops(g),
    {
        match self.record_out(t, src, dst, props) {
            Ok(e) => {
                self.record_in(t, src, dst, EdgeRef::Local(e));
                Ok(())
            },
            Err(err) => Err(err),
        }
    }

    /// Records the edge from `src`, which lives here, to `dst`, which lives in
    /// another shard, at `t`.
    pub fn add_edge_remote_out(&mut self, t: i64, src: u64, dst: u64, props: &Vec<(String, Prop)>) -> (r: Result<(), GraphError>)
        requires
            old(self).wf(),
        ensures
            final(self).wf(),
            r is Err <==> !compatible(old(self).eprops(src, dst), props@),
            r is Err ==> r == Err::<(), GraphError>(GraphError::PropTypeMismatch) && final(self).vs() == old(self).vs() && final(self).es() == old(self).es(),
            r is Ok ==> forall|g: u64| #[trigger] final(self).has_vertex(g) == (old(self).has_vertex(g) || g == src),
            r is Ok ==> forall|g: u64, w: Option<Window>| #[trigger] final(self).active(g, w) == (old(self).active(g, w) || (g == src && covers(w, t))),
            r is Ok ==> forall|g: u64, w: Option<Window>| #[trigger] final(self).out_nbrs(g, w) == (if g == src && covers(w, t) {
                old(self).out_nbrs(g, w).insert(dst)
            } else {
                old(self).out_nbrs(g, w)
            }),
            r is Ok ==> forall|g: u64, w: Option<Window>| #[trigger] final(self).in_nbrs(g, w) == old(self).in_nbrs(g, w),
            r is Ok ==> forall|i: int| 0 <= i < props@.len() ==> #[trigger] recorded(final(self).eprops(src, dst), props@[i], t),
            r is Ok ==> applied(old(self).eprops(src, dst), final(self).eprops(src, dst), t, props@),
            r is Ok ==> forall|a: u64, b: u64| (a, b) != (src, dst) ==> #[trigger] final(self).eprops(a, b) == old(self).eprops(a, b),
            r is Ok ==> forall|g: u64| #[trigger] final(self).vprops(g) == old(self).vprops(g),
    {
        match self.record_out(t, src, dst, props) {
            Ok(_) => Ok(()),
            Err(err) => Err(err),
        }
    }

    /// Records the edge from `src`, which lives in another shard, to `dst`, which
    /// lives here, at `t`.
    pub fn add_edge_remote_into(&mut self, t: i64, src: u64, dst: u64)
        requires
            old(self).wf(),
        ensures
            final(self).wf(),
            forall|g: u64| #[trigger] final(self).has_vertex(g) == (old(self).has_vertex(g) || g == dst),
            forall|g: u64, w: Option<Window>| #[trigger] final(self).active(g, w) == (old(self).active(g, w) || (g == dst && covers(w, t))),
            forall|g: u64, w: Option<Window>| #[trigger] final(self).in_nbrs(g, w) == (if g == dst && covers(w, t) {
                old(self).in_nbrs(g, w).insert(src)
            } else {
                old(self).in_nbrs(g, w)
            }),
            forall|g: u64, w: Option<Window>| #[trigger] final(self).out_nbrs(g, w) == old(self).out_nbrs(g, w),
            forall|a: u64, b: u64| #[trigger] final(self).eprops(a, b) == old(self).eprops(a, b),
            forall|g: u64| #[trigger] final(self).vprops(g) == old(self).vprops(g),
    {
        self.record_in(t, src, dst, EdgeRef::Remote(src));
    }

    /// The shard's ids are as many as its records.
    pub proof fn lemma_gids_len(&self)
        requires
            self.wf(),
        ensures
            self.gids().finite(),
            self.gids().len() == self.vs().len(),
    {
        let ids = self.vs().map_values(|v: VertexRec| v.gid);
        assert(ids.no_duplicates()) by {
            assert forall|a: int, b: int| 0 <= a < b < ids.len() implies ids[a] != ids[b] by {
                assert(self.vs()[a].gid != self.vs()[b].gid);
            }
        }
        ids.unique_seq_to_set();
        assert(ids.to_set() =~= self.gids()) by {
            assert forall|g: u64| ids.to_set().contains(g) == self.gids().contains(g) by {
                if self.has_vertex(g) {
                    let j = choose|j: int| 0 <= j < self.vs().len() && (#[trigger] self.vs()[j]).gid == g;
                    assert(ids[j] == g);
                }
                if ids.to_set().contains(g) {
                    let j = choose|j: int| 0 <= j < ids.len() && ids[j] == g;
                    assert(self.vs()[j].gid == g);
                }
            }
        }
    }

    /// The number of vertices of the shard.
    pub fn local_n_vertices(&self) -> (r: usize)
        requires
            self.wf(),
        ensures
            r == self.gids().len(),
            self.gids().finite(),
    {
        proof { self.lemma_gids_len(); }
        self.vertices.len()
    }

    /// The out-neighbour and in-neighbour counts inside the window, each summed
    /// over the vertices of the shard; the largest `usize` where a sum does not fit.
    fn degree_sums(&self, w: Option<Window>) -> (r: (usize, usize))
        requires
            self.wf(),
        ensures
            r.0 == cap(sum_out(self.vs(), w)),
            r.1 == cap(sum_in(self.vs(), w)),
    {
        let ghost vs = self.vs();
        let mut outs: usize = 0;
        let mut ins: usize = 0;
        let mut j: usize = 0;
        while j < self.vertices.len()
            invariant
                j <= vs.len(),
                vs == self.vs(),
                self.wf(),
                outs == cap(sum_out(vs.take(j as int), w)),
                ins == cap(sum_in(vs.take(j as int), w)),
            decreases vs.len() - j,
        {
            let d = self.vertices[j].out_adj.degree(w);
            let e = self.vertices[j].in_adj.degree(w);
            assert(vs.take(j + 1).drop_last() =~= vs.take(j as int));
            assert(vs.take(j + 1).last() == vs[j as int]);
            outs = outs.saturating_add(d);
            ins = ins.saturating_add(e);
            j = j + 1;
        }
        assert(vs.take(vs.len() as int) =~= vs);
        (outs, ins)
    }

    /// The number of edges of the shard seen inside the window in the direction:
    /// out-neighbours summed over its vertices, in-neighbours likewise, or for both
    /// directions the two sums added; the largest `usize` where it does not fit.
    pub fn local_n_edges_window(&self, w: Option<Window>, dir: Direction) -> (r: usize)
        requires
            self.wf(),
        ensures
            r == cap(sum_dir(self.vs(), w, dir)),
    {
        let (outs, ins) = self.degree_sums(w);
        match dir {
            Direction::OUT => outs,
            Direction::IN => ins,
            Direction::BOTH => ins.saturating_add(outs),
        }
    }

    /// The number of edges of the shard in the direction, over all time.
    pub fn local_n_edges(&self, dir: Direction) -> (r: usize)
        requires
            self.wf(),
        ensures
            r == cap(sum_dir(self.vs(), None, dir)),
            dir == Direction::BOTH ==> r == cap(sum_in(self.vs(), None) + sum_out(self.vs(), None)),
    {
        self.local_n_edges_window(None, dir)
    }

    /// The incident edges of the vertex in the direction inside the window: for
    /// each neighbour, the reference recorded with its earliest time in the window,
    /// and that time.
    pub fn edges(&self, gid: u64, dir: Direction, w: Option<Window>) -> (r: Vec<(u64, EdgeRef, i64)>)
        requires
            self.wf(),
        ensures
            !self.has_vertex(gid) ==> r@.len() == 0,
            self.has_vertex(gid) ==> incident_edges(self.vs()[self.pid(gid)], dir, w, r@),
    {
        match self.find_vertex(gid) {
            Some(p) => {
                proof { self.lemma_pid(gid, p as int); }
                let v = &self.vertices[p];
                match dir {
                    Direction::OUT => v.out_adj.edges(w),
                    Direction::IN => v.in_adj.edges(w),
                    Direction::BOTH => {
                        let o = v.out_adj.edges(w);
                        let i = v.in_adj.edges(w);
                        let r = merge_edges(o, &i);
                        r
                    },
                }
            },
            None => Vec::new(),
        }
    }

    /// The earliest and latest event times of the shard, if it holds any vertex.
    pub fn time_bounds(&self) -> (r: Option<(i64, i64)>)
        requires
            self.wf(),
        ensures
            r is None <==> self.vs().len() == 0,
            r is None ==> forall|t: i64| !has_time(self.vs(), t),
            r matches Some((lo, hi)) ==> has_time(self.vs(), lo) && has_time(self.vs(), hi)
                && forall|t: i64| has_time(self.vs(), t) ==> lo <= t && t <= hi,
    {
        let ghost vs = self.vs();
        let mut best: Option<(i64, i64)> = None;
        let mut j: usize = 0;
        while j < self.vertices.len()
            invariant
                j <= vs.len(),
                vs == self.vs(),
                self.wf(),
                best is None <==> j == 0,
                best matches Some((lo, hi)) ==> has_time(vs, lo) && has_time(vs, hi),
                best matches Some((lo, hi)) ==> forall|q: int, k: int| 0 <= q < j && 0 <= k < vs[q].times@.len() ==> lo <= #[trigger] vs[q].times@[k] && vs[q].times@[k] <= hi,
            decreases vs.len() - j,
        {
            let times = &self.vertices[j].times;
            assert(crate::tgraph::vertex_wf(vs[j as int]));
            let mut k: usize = 0;
            while k < times.len()
                invariant
                    k <= times@.len(),
                    j < vs.len(),
                    times@ == vs[j as int].times@,
                    times@.len() > 0,
                    best is None <==> (j == 0 && k == 0),
                    best matches Some((lo, hi)) ==> has_time(vs, lo) && has_time(vs, hi),
                    best matches Some((lo, hi)) ==> forall|q: int, m: int| 0 <= q < j && 0 <= m < vs[q].times@.len() ==> lo <= #[trigger] vs[q].times@[m] && vs[q].times@[m] <= hi,
                    best matches Some((lo, hi)) ==> forall|m: int| 0 <= m < k ==> lo <= #[trigger] times@[m] && times@[m] <= hi,
                decreases times@.len() - k,
            {
                let t = times[k];
                assert(vs[j as int].times@[k as int] == t);
                assert(has_time(vs, t));
                best = match best {
                    None => Some((t, t)),
                    Some((lo, hi)) => Some((if t < lo { t } else { lo }, if t > hi { t } else { hi })),
                };
                k = k + 1;
            }
            j = j + 1;
        }
        proof {
            if let Some((lo, hi)) = best {
                assert forall|t: i64| has_time(vs, t) implies lo <= t && t <= hi by {
                    let (q, m) = choose|q: int, m: int| 0 <= q < vs.len() && 0 <= m < vs[q].times@.len() && #[trigger] vs[q].times@[m] == t;
                }
            }
        }
        best
    }

    /// The degree of the vertex in the direction inside the window, with both
    /// directions counted as the in-degree plus the out-degree.
    pub open spec fn dir_degree(&self, g: u64, w: Option<Window>, dir: Direction) -> nat {
        match dir {
            Direction::OUT => self.out_nbrs(g, w).len(),
            Direction::IN => self.in_nbrs(g, w).len(),
            Direction::BOTH => self.in_nbrs(g, w).len() + self.out_nbrs(g, w).len(),
        }
    }

    /// The degrees of the listed vertices, summed.
    pub open spec fn degree_total(&self, ids: Seq<u64>, w: Option<Window>, dir: Direction) -> nat
        decreases ids.len(),
    {
        if ids.len() == 0 {
            0
        } else {
            self.degree_total(ids.drop_last(), w, dir) + self.dir_degree(ids.last(), w, dir)
        }
    }

    proof fn lemma_degree_total_prefix(&self, j: int, w: Option<Window>, dir: Direction)
        requires
            self.wf(),
            0 <= j <= self.vs().len(),
        ensures
            sum_dir(self.vs().take(j), w, dir) == self.degree_total(self.vs().map_values(|v: VertexRec| v.gid).take(j), w, dir),
        decreases j,
    {
        let vs = self.vs();
        let ids = vs.map_values(|v: VertexRec| v.gid);
        if j == 0 {
            assert(vs.take(0) =~= Seq::<VertexRec>::empty());
            assert(ids.take(0) =~= Seq::<u64>::empty());
        } else {
            self.lemma_degree_total_prefix(j - 1, w, dir);
            assert(vs.take(j).drop_last() =~= vs.take(j - 1));
            assert(ids.take(j).drop_last() =~= ids.take(j - 1));
            assert(vs.take(j).last() == vs[j - 1]);
            assert(ids.take(j).last() == vs[j - 1].gid);
            lemma_at(vs, j - 1);
        }
    }

    /// Each edge count of the shard is the sum, over its vertices in pid order, of
    /// their degrees in that direction inside the window.
    pub proof fn lemma_edge_counts_are_degree_sums(&self, w: Option<Window>, dir: Direction)
        requires
            self.wf(),
        ensures
            sum_dir(self.vs(), w, dir) == self.degree_total(self.vs().map_values(|v: VertexRec| v.gid), w, dir),
    {
        self.lemma_degree_total_prefix(self.vs().len() as int, w, dir);
        assert(self.vs().take(self.vs().len() as int) =~= self.vs());
        assert(self.vs().map_values(|v: VertexRec| v.gid).take(self.vs().len() as int) =~= self.vs().map_values(|v: VertexRec| v.gid));
    }

    /// Where every out-neighbour relation of the shard is matched by the reverse
    /// in-neighbour relation, as in a shard that holds both ends of every edge, the
    /// shard counts as many incoming edges as outgoing ones.
    pub proof fn lemma_in_count_equals_out_count(&self, w: Option<Window>)
        requires
            self.wf(),
            forall|a: u64, b: u64| #[trigger] self.out_nbrs(a, w).contains(b) == #[trigger] self.in_nbrs(b, w).contains(a),
        ensures
            sum_in(self.vs(), w) == sum_out(self.vs(), w),
    {
        let vs = self.vs();
        lemma_pairs_count(vs, w, vs.len() as int);
        assert(vs.take(vs.len() as int) =~= vs);
        assert forall|p: (u64, u64)| out_pairs(vs, w, vs.len() as int).contains(p) == in_pairs(vs, w, vs.len() as int).contains(p) by {
            assert(out_pairs(vs, w, vs.len() as int).contains(p) == self.out_nbrs(p.0, w).contains(p.1));
            assert(in_pairs(vs, w, vs.len() as int).contains(p) == self.in_nbrs(p.1, w).contains(p.0));
        }
        assert(out_pairs(vs, w, vs.len() as int) =~= in_pairs(vs, w, vs.len() as int));
    }
}

/// The outgoing incident edges, then the incoming ones that do not name the same
/// neighbour through the same reference.
fn merge_edges(o: Vec<(u64, EdgeRef, i64)>, i: &Vec<(u64, EdgeRef, i64)>) -> (r: Vec<(u64, EdgeRef, i64)>)
    ensures
        r@ == edges_both(o@, i@),
{
    let ghost o0 = o@;
    let mut tail: Vec<(u64, EdgeRef, i64)> = Vec::new();
    let mut k: usize = 0;
    while k < i.len()
        invariant
            k <= i@.len(),
            o@ == o0,
            tail@ == i@.take(k as int).filter(|x: (u64, EdgeRef, i64)| !seen_out(o0, x)),
        decreases i@.len() - k,
    {
        let x = i[k];
        let mut dup = false;
        let mut q: usize = 0;
        while q < o.len()
            invariant
                q <= o@.len(),
                o@ == o0,
                dup == (exists|z: int| 0 <= z < q && (#[trigger] o0[z]).0 == x.0 && o0[z].1 == x.1),
            decreases o@.len() - q,
        {
            if o[q].0 == x.0 && o[q].1 == x.1 {
                dup = true;
            }
            q = q + 1;
        }
        proof {
            reveal(Seq::filter);
            assert(i@.take(k + 1).drop_last() =~= i@.take(k as int));
            assert(i@.take(k + 1).last() == x);
        }
        if !dup {
            tail.push(x);
        }
        k = k + 1;
    }
    assert(i@.take(i@.len() as int) =~= i@);
    let mut r = o;
    r.append(&mut tail);
    r
}

} // verus!
