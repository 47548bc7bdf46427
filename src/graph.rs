use vstd::prelude::*;
use crate::{Direction, GraphError};
use crate::window::{Window, covers};
use crate::props::{Prop, NamedProp, compatible, recorded, applied, has_name, history_in};
use crate::tgraph::{TemporalGraph, VertexRec, cap, sum_dir, sum_in, incident_edges, nbrs_dir, sum_out, seq_active, seq_has, has_time};
use crate::tadjset::EdgeRef;

verus! {

/// The shard that owns a vertex.
pub open spec fn shard_of(gid: u64, n: nat) -> nat {
    (gid % (n as u64)) as nat
}

/// The out-neighbours inside the window, summed over all vertices of the shards.
pub open spec fn total_out(shards: Seq<TemporalGraph>, w: Option<Window>) -> nat
    decreases shards.len(),
{
    if shards.len() == 0 {
        0
    } else {
        total_out(shards.drop_last(), w) + sum_out(shards.last().vs(), w)
    }
}

/// The numbers of vertices of the shards, summed.
pub open spec fn vertex_counts(shards: Seq<TemporalGraph>) -> nat
    decreases shards.len(),
{
    if shards.len() == 0 {
        0
    } else {
        vertex_counts(shards.drop_last()) + shards.last().gids().len()
    }
}

/// The ids of a shard's vertices, in pid order.
pub open spec fn shard_ids(sh: TemporalGraph) -> Seq<u64> {
    sh.vs().map_values(|v: VertexRec| v.gid)
}

/// The ids of all vertices, shard by shard.
pub open spec fn all_ids(shards: Seq<TemporalGraph>) -> Seq<u64>
    decreases shards.len(),
{
    if shards.len() == 0 {
        Seq::empty()
    } else {
        all_ids(shards.drop_last()) + shard_ids(shards.last())
    }
}

/// Filters whose conditions agree on every element give the same sequence.
pub proof fn lemma_filter_agree(s: Seq<u64>, p: spec_fn(u64) -> bool, q: spec_fn(u64) -> bool)
    requires
        forall|i: int| 0 <= i < s.len() ==> p(#[trigger] s[i]) == q(s[i]),
    ensures
        s.filter(p) == s.filter(q),
    decreases s.len(),
{
    reveal(Seq::filter);
    if s.len() > 0 {
        let d = s.drop_last();
        assert forall|i: int| 0 <= i < d.len() implies p(#[trigger] d[i]) == q(d[i]) by {
            assert(d[i] == s[i]);
        }
        lemma_filter_agree(d, p, q);
        assert(p(s[s.len() - 1]) == q(s[s.len() - 1]));
    }
}

/// `x`, or the largest `usize` where `x` does not fit.
pub open spec fn capped(x: nat) -> nat {
    if x <= usize::MAX { x } else { usize::MAX as nat }
}

/// A graph spread over independent shards; each vertex lives in the shard its id
/// is routed to.
pub struct Graph {
    shards: Vec<TemporalGraph>,
}

impl Graph {
    pub closed spec fn shards(&self) -> Seq<TemporalGraph> {
        self.shards@
    }

    pub open spec fn n(&self) -> nat {
        self.shards().len()
    }

    /// The shard that owns the vertex.
    pub open spec fn home(&self, g: u64) -> TemporalGraph {
        self.shards()[shard_of(g, self.n()) as int]
    }

    pub open spec fn wf(&self) -> bool {
        &&& 1 <= self.n() <= u64::MAX
        &&& forall|i: int| 0 <= i < self.n() ==> (#[trigger] self.shards()[i]).wf()
        &&& forall|i: int, g: u64| 0 <= i < self.n() && #[trigger] self.shards()[i].has_vertex(g) ==> shard_of(g, self.n()) == i
    }

    /// Whether the graph holds the vertex.
    pub open spec fn has_vertex(&self, g: u64) -> bool {
        self.home(g).has_vertex(g)
    }

    /// Whether the vertex had an event inside the window.
    pub open spec fn active(&self, g: u64, w: Option<Window>) -> bool {
        self.home(g).active(g, w)
    }

    /// The vertex's out-neighbours seen inside the window.
    pub open spec fn out_nbrs(&self, g: u64, w: Option<Window>) -> Set<u64> {
        self.home(g).out_nbrs(g, w)
    }

    /// The vertex's in-neighbours seen inside the window.
    pub open spec fn in_nbrs(&self, g: u64, w: Option<Window>) -> Set<u64> {
        self.home(g).in_nbrs(g, w)
    }

    /// The neighbours of the vertex in the direction inside the window.
    pub open spec fn nbrs(&self, g: u64, dir: Direction, w: Option<Window>) -> Set<u64> {
        nbrs_dir(self.out_nbrs(g, w), self.in_nbrs(g, w), dir)
    }

    /// The properties of the vertex.
    pub open spec fn vprops(&self, g: u64) -> Seq<NamedProp> {
        self.home(g).vprops(g)
    }

    /// The properties of the edge, held with its source.
    pub open spec fn eprops(&self, src: u64, dst: u64) -> Seq<NamedProp> {
        self.home(src).eprops(src, dst)
    }

    /// An empty graph of `num_shards` shards.
    pub fn new(num_shards: usize) -> (r: Graph)
        requires
            1 <= num_shards <= u64::MAX,
        ensures
            r.wf(),
            r.n() == num_shards,
            forall|g: u64| !(#[trigger] r.has_vertex(g)),
            forall|g: u64, w: Option<Window>| !(#[trigger] r.active(g, w)),
            forall|g: u64, w: Option<Window>| #[trigger] r.out_nbrs(g, w) == Set::<u64>::empty(),
            forall|g: u64, w: Option<Window>| #[trigger] r.in_nbrs(g, w) == Set::<u64>::empty(),
            r.edges_symmetric(),
    {
        let mut shards: Vec<TemporalGraph> = Vec::new();
        let mut i: usize = 0;
        while i < num_shards
            invariant
                i <= num_shards,
                shards@.len() == i,
                forall|k: int| 0 <= k < i ==> (#[trigger] shards@[k]).wf() && shards@[k].vs().len() == 0,
            decreases num_shards - i,
        {
            shards.push(TemporalGraph::new());
            i = i + 1;
        }
        let r = Graph { shards };
        assert forall|k: int, g: u64| 0 <= k < r.n() && #[trigger] r.shards()[k].has_vertex(g) implies shard_of(g, r.n()) == k by {
            let j = choose|j: int| 0 <= j < r.shards()[k].vs().len() && (#[trigger] r.shards()[k].vs()[j]).gid == g;
        }
        assert forall|g: u64| !(#[trigger] r.has_vertex(g)) by {
            let k = shard_of(g, r.n()) as int;
            if r.has_vertex(g) {
                let j = choose|j: int| 0 <= j < r.shards()[k].vs().len() && (#[trigger] r.shards()[k].vs()[j]).gid == g;
            }
        }
        assert forall|g: u64, w: Option<Window>| !(#[trigger] r.active(g, w)) by {
            let k = shard_of(g, r.n()) as int;
            assert(r.shards()[k].vs().len() == 0);
        }
        assert forall|g: u64, w: Option<Window>| #[trigger] r.out_nbrs(g, w) == Set::<u64>::empty() by {
            let k = shard_of(g, r.n()) as int;
            assert(r.shards()[k].vs().len() == 0);
            assert(r.out_nbrs(g, w) =~= Set::<u64>::empty());
        }
        assert forall|g: u64, w: Option<Window>| #[trigger] r.in_nbrs(g, w) == Set::<u64>::empty() by {
            let k = shard_of(g, r.n()) as int;
            assert(r.shards()[k].vs().len() == 0);
            assert(r.in_nbrs(g, w) =~= Set::<u64>::empty());
        }
        r
    }

    /// The number of shards.
    pub fn num_shards(&self) -> (r: usize)
        ensures
            r == self.n(),
    {
        self.shards.len()
    }

    /// The shard that owns the vertex.
    pub fn shard_index(&self, gid: u64) -> (r: usize)
        requires
            self.wf(),
        ensures
            r == shard_of(gid, self.n()),
            r < self.n(),
    {
        let n = self.shards.len() as u64;
        (gid % n) as usize
    }

    /// Whether two graphs hold the same records.
    pub open spec fn same_records(&self, other: &Graph) -> bool {
        &&& self.n() == other.n()
        &&& forall|i: int| 0 <= i < self.n() ==> (#[trigger] self.shards()[i]).vs() == other.shards()[i].vs()
            && self.shards()[i].es() == other.shards()[i].es()
    }

    /// Records an event of the vertex at `t` with its property updates; when an
    /// update's variant differs from its property's, nothing is recorded.
    fn add_vertex_records(&mut self, t: i64, gid: u64, props: &Vec<(String, Prop)>) -> (r: Result<(), GraphError>)
        requires
            old(self).wf(),
        ensures
            final(self).wf(),
            final(self).n() == old(self).n(),
            r is Err <==> !compatible(old(self).vprops(gid), props@),
            r is Err ==> r == Err::<(), GraphError>(GraphError::PropTypeMismatch) && final(self).same_records(old(self)),
            r is Ok ==> forall|g: u64| #[trigger] final(self).has_vertex(g) == (old(self).has_vertex(g) || g == gid),
            r is Ok ==> forall|g: u64, w: Option<Window>| #[trigger] final(self).active(g, w) == (old(self).active(g, w) || (g == gid && covers(w, t))),
            r is Ok ==> forall|g: u64, w: Option<Window>| #[trigger] final(self).out_nbrs(g, w) == old(self).out_nbrs(g, w),
            r is Ok ==> forall|g: u64, w: Option<Window>| #[trigger] final(self).in_nbrs(g, w) == old(self).in_nbrs(g, w),
            r is Ok ==> forall|i: int| 0 <= i < props@.len() ==> #[trigger] recorded(final(self).vprops(gid), props@[i], t),
            r is Ok ==> applied(old(self).vprops(gid), final(self).vprops(gid), t, props@),
    {
        let i = self.shard_index(gid);
        let ghost s0 = self.shards();
        let r = self.shards[i].add_vertex(t, gid, props);
        let ghost s1 = self.shards();
        assert(s1 == s0.update(i as int, s1[i as int]));
        let ghost n = self.n();
        assert forall|k: int| 0 <= k < n implies (#[trigger] s1[k]).wf() by {
            if k != i {
                assert(s1[k] == s0[k]);
            }
        }
        assert forall|k: int, g: u64| 0 <= k < n && #[trigger] s1[k].has_vertex(g) implies shard_of(g, n) == k by {
            if k != i {
                assert(s1[k] == s0[k]);
            } else if g != gid {
                assert(s0[k].has_vertex(g));
            }
        }
        proof {
            if r is Err {
                assert forall|k: int| 0 <= k < n implies (#[trigger] s1[k]).vs() == s0[k].vs() && s1[k].es() == s0[k].es() by {
                    if k != i {
                        assert(s1[k] == s0[k]);
                    }
                }
            }
        }
        r
    }

    /// Records the edge from `src` to `dst` at `t` with its property updates, and
    /// both endpoints' events at `t`. The source's shard holds the edge and its
    /// properties; the destination's shard records the incoming side. When an
    /// update's variant differs from its property's, nothing is recorded.
    fn add_edge_records(&mut self, t: i64, src: u64, dst: u64, props: &Vec<(String, Prop)>) -> (r: Result<(), GraphError>)
        requires
            old(self).wf(),
        ensures
            final(self).wf(),
            final(self).n() == old(self).n(),
            r is Err <==> !compatible(old(self).eprops(src, dst), props@),
            r is Err ==> r == Err::<(), GraphError>(GraphError::PropTypeMismatch) && final(self).same_records(old(self)),
            r is Ok ==> forall|g: u64| #[trigger] final(self).has_vertex(g) == (old(self).has_vertex(g) || g == src || g == dst),
            r is Ok ==> forall|g: u64, w: Option<Window>| #[trigger] final(self).active(g, w) == (old(self).active(g, w) || ((g == src || g == dst) && covers(w, t))),
            r is Ok ==> forall|g: u64, w: Option<Window>| #[trigger] final(self).out_nbrs(g, w) == (if g == src && covers(w, t) {
                old(self).out_nbrs(g, w).insert(dst)
            } else {
                old(self).out_nbrs(g, w)
            }),
            r is Ok ==> forall|g: u64, w: Option<Window>| #[trigger] final(self).in_nbrs(g, w) == (if g == dst && covers(w, t) {
                old(self).in_nbrs(g, w).insert(src)
            } else {
                old(self).in_nbrs(g, w)
            }),
            r is Ok ==> forall|i: int| 0 <= i < props@.len() ==> #[trigger] recorded(final(self).eprops(src, dst), props@[i], t),
            r is Ok ==> applied(old(self).eprops(src, dst), final(self).eprops(src, dst), t, props@),
            r is Ok ==> forall|a: u64, b: u64| (a, b) != (src, dst) ==> #[trigger] final(self).eprops(a, b) == old(self).eprops(a, b),
            r is Ok ==> forall|g: u64| #[trigger] final(self).vprops(g) == old(self).vprops(g),
    {
        let i = self.shard_index(src);
        let j = self.shard_index(dst);
        let ghost n = self.n();
        let ghost s0 = self.shards();
        if i == j {
            let r = self.shards[i].add_edge(t, src, dst, props);
            let ghost s1 = self.shards();
            assert(s1 == s0.update(i as int, s1[i as int]));
            assert forall|k: int| 0 <= k < n implies (#[trigger] s1[k]).wf() by {
                if k != i {
                    assert(s1[k] == s0[k]);
                }
            }
            assert forall|k: int, g: u64| 0 <= k < n && #[trigger] s1[k].has_vertex(g) implies shard_of(g, n) == k by {
                if k != i {
                    assert(s1[k] == s0[k]);
                } else if g != src && g != dst {
                    assert(s0[k].has_vertex(g));
                }
            }
            proof {
                if r is Err {
                    assert forall|k: int| 0 <= k < n implies (#[trigger] s1[k]).vs() == s0[k].vs() && s1[k].es() == s0[k].es() by {
                        if k != i {
                            assert(s1[k] == s0[k]);
                        }
                    }
                } else {
                    assert forall|a: u64, b: u64| (a, b) != (src, dst) implies #[trigger] self.eprops(a, b) == old(self).eprops(a, b) by {
                        if shard_of(a, n) != i {
                            assert(s1[shard_of(a, n) as int] == s0[shard_of(a, n) as int]);
                        }
                    }
                }
            }
            r
        } else {
            let r = self.shards[i].add_edge_remote_out(t, src, dst, props);
            let ghost s1 = self.shards();
            assert(s1 == s0.update(i as int, s1[i as int]));
            match r {
                Err(e) => {
                    assert forall|k: int| 0 <= k < n implies (#[trigger] s1[k]).wf() by {
                        if k != i {
                            assert(s1[k] == s0[k]);
                        }
                    }
                    assert forall|k: int, g: u64| 0 <= k < n && #[trigger] s1[k].has_vertex(g) implies shard_of(g, n) == k by {
                        if k != i {
                            assert(s1[k] == s0[k]);
                        } else {
                            assert(s0[k].has_vertex(g));
                        }
                    }
                    assert forall|k: int| 0 <= k < n implies (#[trigger] s1[k]).vs() == s0[k].vs() && s1[k].es() == s0[k].es() by {
                        if k != i {
                            assert(s1[k] == s0[k]);
                        }
                    }
                    return Err(e);
                },
                Ok(()) => {},
            }
            self.shards[j].add_edge_remote_into(t, src, dst);
            let ghost s2 = self.shards();
            assert(s2 == s1.update(j as int, s2[j as int]));
            assert forall|k: int| 0 <= k < n implies (#[trigger] s2[k]).wf() by {
                if k != i && k != j {
                    assert(s2[k] == s0[k]);
                }
            }
            assert forall|k: int, g: u64| 0 <= k < n && #[trigger] s2[k].has_vertex(g) implies shard_of(g, n) == k by {
                if k != i && k != j {
                    assert(s2[k] == s0[k]);
                } else if k == i {
                    if g != src {
                        assert(s0[k].has_vertex(g));
                    }
                } else {
                    if g != dst {
                        assert(s1[k].has_vertex(g));
                        assert(s0[k].has_vertex(g));
                    }
                }
            }
            proof {
                assert forall|g: u64| #[trigger] self.has_vertex(g) == (old(self).has_vertex(g) || g == src || g == dst) by {
                    let k = shard_of(g, n) as int;
                    if k != i && k != j {
                        assert(s2[k] == s0[k]);
                    }
                }
                assert forall|g: u64, w: Option<Window>| #[trigger] self.active(g, w) == (old(self).active(g, w) || ((g == src || g == dst) && covers(w, t))) by {
                    let k = shard_of(g, n) as int;
                    if k != i && k != j {
                        assert(s2[k] == s0[k]);
                    }
                }
                assert forall|g: u64, w: Option<Window>| #[trigger] self.out_nbrs(g, w) == (if g == src && covers(w, t) {
                    old(self).out_nbrs(g, w).insert(dst)
                } else {
                    old(self).out_nbrs(g, w)
                }) by {
                    let k = shard_of(g, n) as int;
                    if k != i && k != j {
                        assert(s2[k] == s0[k]);
                    }
                }
                assert forall|g: u64, w: Option<Window>| #[trigger] self.in_nbrs(g, w) == (if g == dst && covers(w, t) {
                    old(self).in_nbrs(g, w).insert(src)
                } else {
                    old(self).in_nbrs(g, w)
                }) by {
                    let k = shard_of(g, n) as int;
                    if k != i && k != j {
                        assert(s2[k] == s0[k]);
                    }
                }
                assert forall|a: u64, b: u64| (a, b) != (src, dst) implies #[trigger] self.eprops(a, b) == old(self).eprops(a, b) by {
                    let k = shard_of(a, n) as int;
                    if k != i && k != j {
                        assert(s2[k] == s0[k]);
                    }
                }
                assert forall|g: u64| #[trigger] self.vprops(g) == old(self).vprops(g) by {
                    let k = shard_of(g, n) as int;
                    if k != i && k != j {
                        assert(s2[k] == s0[k]);
                    }
                }
            }
            Ok(())
        }
    }

    /// The vertices seen by shards before `k` inside the window.
    pub open spec fn active_before(&self, k: int, w: Option<Window>) -> Set<u64> {
        Set::new(|g: u64| exists|q: int| 0 <= q < k && #[trigger] self.shards()[q].active(g, w))
    }

    /// A vertex is seen only by the shard that owns it.
    pub proof fn lemma_active_home(&self, k: int, g: u64, w: Option<Window>)
        requires
            self.wf(),
            0 <= k < self.n(),
            self.shards()[k].active(g, w),
        ensures
            shard_of(g, self.n()) == k,
            self.active(g, w),
    {
        let vs = self.shards()[k].vs();
        let j = choose|j: int| 0 <= j < vs.len() && (#[trigger] vs[j]).gid == g && crate::tgraph::vertex_active(vs[j], w);
        assert(seq_has(vs, g));
        assert(self.shards()[k].has_vertex(g));
    }

    /// Whether the graph holds the vertex.
    pub fn contains_vertex(&self, gid: u64) -> (r: bool)
        requires
            self.wf(),
        ensures
            r == self.has_vertex(gid),
    {
        let i = self.shard_index(gid);
        self.shards[i].contains_vertex(gid)
    }

    /// Whether the vertex had an event inside the window.
    pub fn contains_vertex_window(&self, gid: u64, w: Option<Window>) -> (r: bool)
        requires
            self.wf(),
        ensures
            r == self.active(gid, w),
    {
        let i = self.shard_index(gid);
        self.shards[i].contains_vertex_window(gid, w)
    }

    /// The neighbours of the vertex in the direction inside the window, each once.
    pub fn neighbours(&self, gid: u64, dir: Direction, w: Option<Window>) -> (r: Vec<u64>)
        requires
            self.wf(),
        ensures
            r@.no_duplicates(),
            r@.to_set() == self.nbrs(gid, dir, w),
    {
        let i = self.shard_index(gid);
        self.shards[i].neighbours(gid, dir, w)
    }

    /// The number of neighbours of the vertex in the direction inside the window.
    pub fn degree(&self, gid: u64, dir: Direction, w: Option<Window>) -> (r: usize)
        requires
            self.wf(),
        ensures
            r == self.nbrs(gid, dir, w).len(),
            self.nbrs(gid, dir, w).finite(),
    {
        let i = self.shard_index(gid);
        self.shards[i].degree(gid, dir, w)
    }

    /// The ids of the vertices with an event inside the window, shard by shard and
    /// in pid order within a shard.
    pub fn vertices_window(&self, w: Option<Window>) -> (r: Vec<u64>)
        requires
            self.wf(),
        ensures
            r@ == all_ids(self.shards()).filter(|g: u64| self.active(g, w)),
            r@.no_duplicates(),
            r@.to_set() == Set::new(|g: u64| self.active(g, w)),
    {
        let mut r: Vec<u64> = Vec::new();
        let mut k: usize = 0;
        while k < self.shards.len()
            invariant
                k <= self.n(),
                self.wf(),
                r@.no_duplicates(),
                r@ == all_ids(self.shards().take(k as int)).filter(|g: u64| self.active(g, w)),
                r@.to_set() == self.active_before(k as int, w),
            decreases self.n() - k,
        {
            let ghost r0 = r@;
            let mut l = self.shards[k].vertices_window(w);
            let ghost l0 = l@;
            r.append(&mut l);
            proof {
                let sh = self.shards()[k as int];
                let pre = self.shards().take(k + 1);
                assert(pre.drop_last() =~= self.shards().take(k as int));
                assert(pre.last() == sh);
                let a = all_ids(self.shards().take(k as int));
                let b = shard_ids(sh);
                assert(all_ids(pre) == a + b);
                let gp = |g: u64| self.active(g, w);
                let sp = |g: u64| sh.active(g, w);
                Seq::filter_distributes_over_add(a, b, gp);
                assert forall|i: int| 0 <= i < b.len() implies gp(#[trigger] b[i]) == sp(b[i]) by {
                    assert(sh.vs()[i].gid == b[i]);
                    assert(seq_has(sh.vs(), b[i]));
                    assert(sh.has_vertex(b[i]));
                    assert(shard_of(b[i], self.n()) == k);
                }
                lemma_filter_agree(b, gp, sp);
                assert(r@ == all_ids(pre).filter(gp));
                assert forall|a: int, b: int| 0 <= a < b < r@.len() implies r@[a] != r@[b] by {
                    if b >= r0.len() && a < r0.len() {
                        assert(r@[a] == r0[a]);
                        assert(r@[b] == l0[b - r0.len()]);
                        assert(r0.to_set().contains(r0[a]));
                        let q = choose|q: int| 0 <= q < k && #[trigger] self.shards()[q].active(r0[a], w);
                        self.lemma_active_home(q, r0[a], w);
                        assert(l0.to_set().contains(l0[b - r0.len()]));
                        self.lemma_active_home(k as int, l0[b - r0.len()], w);
                    } else if a >= r0.len() {
                        assert(r@[a] == l0[a - r0.len()]);
                        assert(r@[b] == l0[b - r0.len()]);
                    } else {
                        assert(r@[a] == r0[a]);
                        assert(r@[b] == r0[b]);
                    }
                }
                assert(r@.to_set() =~= self.active_before(k + 1, w)) by {
                    assert forall|g: u64| r@.to_set().contains(g) == self.active_before(k + 1, w).contains(g) by {
                        if r@.to_set().contains(g) {
                            let z = choose|z: int| 0 <= z < r@.len() && r@[z] == g;
                            if z < r0.len() {
                                assert(r0[z] == g);
                                assert(r0.to_set().contains(g));
                                let q = choose|q: int| 0 <= q < k && #[trigger] self.shards()[q].active(g, w);
                            } else {
                                assert(l0[z - r0.len()] == g);
                                assert(l0.to_set().contains(g));
                            }
                        }
                        if self.active_before(k + 1, w).contains(g) {
                            let q = choose|q: int| 0 <= q < k + 1 && #[trigger] self.shards()[q].active(g, w);
                            if q < k {
                                assert(self.active_before(k as int, w).contains(g));
                                let z = choose|z: int| 0 <= z < r0.len() && r0[z] == g;
                                assert(r@[z] == g);
                            } else {
                                assert(l0.to_set().contains(g));
                                let z = choose|z: int| 0 <= z < l0.len() && l0[z] == g;
                                assert(r@[r0.len() + z] == g);
                            }
                        }
                    }
                }
            }
            k = k + 1;
        }
        proof {
            assert(self.shards().take(self.n() as int) =~= self.shards());
            assert(r@.to_set() =~= Set::new(|g: u64| self.active(g, w))) by {
                assert forall|g: u64| r@.to_set().contains(g) == self.active(g, w) by {
                    if r@.to_set().contains(g) {
                        let q = choose|q: int| 0 <= q < self.n() && #[trigger] self.shards()[q].active(g, w);
                        self.lemma_active_home(q, g, w);
                    }
                    if self.active(g, w) {
                        let q = shard_of(g, self.n()) as int;
                        assert(self.shards()[q].active(g, w));
                    }
                }
            }
        }
        r
    }

    /// The number of vertices of the graph.
    pub fn num_vertices(&self) -> (r: usize)
        requires
            self.wf(),
        ensures
            r == Set::new(|g: u64| self.has_vertex(g)).len(),
            Set::new(|g: u64| self.has_vertex(g)).finite(),
    {
        let v = self.vertices_window(None);
        proof {
            v@.unique_seq_to_set();
            assert(Set::new(|g: u64| self.active(g, None)) =~= Set::new(|g: u64| self.has_vertex(g))) by {
                assert forall|g: u64| self.active(g, None) == self.has_vertex(g) by {
                    self.lemma_active_none(g);
                }
            }
        }
        v.len()
    }

    /// Every vertex has at least one event, so with no window being seen is being held.
    pub proof fn lemma_active_none(&self, g: u64)
        requires
            self.wf(),
        ensures
            self.active(g, None) == self.has_vertex(g),
    {
        let k = shard_of(g, self.n()) as int;
        let vs = self.shards()[k].vs();
        if self.has_vertex(g) {
            let j = choose|j: int| 0 <= j < vs.len() && (#[trigger] vs[j]).gid == g;
            assert(crate::tgraph::vertex_wf(vs[j]));
            assert(covers(None, vs[j].times@[0]));
            assert(seq_active(vs, g, None));
        }
        if self.active(g, None) {
            let j = choose|j: int| 0 <= j < vs.len() && (#[trigger] vs[j]).gid == g && crate::tgraph::vertex_active(vs[j], None);
            assert(seq_has(vs, g));
        }
    }

    /// The history of the vertex's named property inside the window; `None` when
    /// the graph does not hold the vertex or it never had that property.
    pub fn property_history(&self, gid: u64, name: &String, w: Option<Window>) -> (r: Option<Vec<(i64, Prop)>>)
        requires
            self.wf(),
        ensures
            r.is_some() == has_name(self.vprops(gid), name@),
            r matches Some(h) ==> exists|k: int| 0 <= k < self.vprops(gid).len()
                && (#[trigger] self.vprops(gid)[k]).name@ == name@ && h@ == history_in(self.vprops(gid)[k].prop.view(), w),
    {
        let i = self.shard_index(gid);
        self.shards[i].property_history(gid, name, w)
    }

    /// The history of the edge's named property inside the window; `None` when the
    /// graph does not hold the edge or it never had that property.
    pub fn edge_property_history(&self, src: u64, dst: u64, name: &String, w: Option<Window>) -> (r: Option<Vec<(i64, Prop)>>)
        requires
            self.wf(),
        ensures
            r.is_some() == has_name(self.eprops(src, dst), name@),
            r matches Some(h) ==> exists|k: int| 0 <= k < self.eprops(src, dst).len()
                && (#[trigger] self.eprops(src, dst)[k]).name@ == name@ && h@ == history_in(self.eprops(src, dst)[k].prop.view(), w),
    {
        let i = self.shard_index(src);
        self.shards[i].edge_property_history(src, dst, name, w)
    }

    /// Whether some event of the graph happened at `t`.
    pub open spec fn has_time(&self, t: i64) -> bool {
        exists|i: int| 0 <= i < self.n() && #[trigger] has_time(self.shards()[i].vs(), t)
    }

    /// The number of vertices of one shard.
    pub fn local_n_vertices(&self, i: usize) -> (r: usize)
        requires
            self.wf(),
            i < self.n(),
        ensures
            r == self.shards()[i as int].gids().len(),
            self.shards()[i as int].gids().finite(),
    {
        self.shards[i].local_n_vertices()
    }

    /// The number of out-neighbours inside the window, summed over all vertices:
    /// each edge seen in the window counted once, with its source.
    pub fn num_edges_window(&self, w: Option<Window>) -> (r: usize)
        requires
            self.wf(),
        ensures
            r == capped(total_out(self.shards(), w)),
    {
        let mut total: usize = 0;
        let mut k: usize = 0;
        while k < self.shards.len()
            invariant
                k <= self.n(),
                self.wf(),
                total == capped(total_out(self.shards().take(k as int), w)),
            decreases self.n() - k,
        {
            let d = self.shards[k].local_n_edges_window(w, Direction::OUT);
            assert(self.shards().take(k + 1).drop_last() =~= self.shards().take(k as int));
            assert(self.shards().take(k + 1).last() == self.shards()[k as int]);
            total = total.saturating_add(d);
            k = k + 1;
        }
        assert(self.shards().take(self.n() as int) =~= self.shards());
        total
    }

    /// The number of edges of the graph.
    pub fn num_edges(&self) -> (r: usize)
        requires
            self.wf(),
        ensures
            r == capped(total_out(self.shards(), None)),
    {
        self.num_edges_window(None)
    }

    /// The earliest and latest event times over all shards.
    fn time_bounds(&self) -> (r: Option<(i64, i64)>)
        requires
            self.wf(),
        ensures
            r is None <==> forall|t: i64| !self.has_time(t),
            r matches Some((lo, hi)) ==> self.has_time(lo) && self.has_time(hi)
                && forall|t: i64| self.has_time(t) ==> lo <= t && t <= hi,
    {
        let mut best: Option<(i64, i64)> = None;
        let mut k: usize = 0;
        while k < self.shards.len()
            invariant
                k <= self.n(),
                self.wf(),
                best is None <==> forall|q: int, t: i64| 0 <= q < k ==> !#[trigger] has_time(self.shards()[q].vs(), t),
                best matches Some((lo, hi)) ==> self.has_time(lo) && self.has_time(hi),
                best matches Some((lo, hi)) ==> forall|q: int, t: i64| 0 <= q < k && #[trigger] has_time(self.shards()[q].vs(), t) ==> lo <= t && t <= hi,
            decreases self.n() - k,
        {
            let b = self.shards[k].time_bounds();
            best = match (best, b) {
                (None, b) => b,
                (Some(x), None) => Some(x),
                (Some((lo, hi)), Some((l2, h2))) => Some((if l2 < lo { l2 } else { lo }, if h2 > hi { h2 } else { hi })),
            };
            k = k + 1;
        }
        proof {
            if best is None {
                assert forall|t: i64| !self.has_time(t) by {
                    if self.has_time(t) {
                        let q = choose|q: int| 0 <= q < self.n() && #[trigger] has_time(self.shards()[q].vs(), t);
                    }
                }
            } else {
                assert forall|t: i64| self.has_time(t) implies best->Some_0.0 <= t && t <= best->Some_0.1 by {
                    let q = choose|q: int| 0 <= q < self.n() && #[trigger] has_time(self.shards()[q].vs(), t);
                }
            }
        }
        best
    }

    /// The earliest time of any recorded event.
    pub fn earliest_time(&self) -> (r: Option<i64>)
        requires
            self.wf(),
        ensures
            r is None <==> forall|t: i64| !self.has_time(t),
            r matches Some(lo) ==> self.has_time(lo) && forall|t: i64| self.has_time(t) ==> lo <= t,
    {
        match self.time_bounds() {
            Some((lo, _)) => Some(lo),
            None => None,
        }
    }

    /// The latest time of any recorded event.
    pub fn latest_time(&self) -> (r: Option<i64>)
        requires
            self.wf(),
        ensures
            r is None <==> forall|t: i64| !self.has_time(t),
            r matches Some(hi) ==> self.has_time(hi) && forall|t: i64| self.has_time(t) ==> t <= hi,
    {
        match self.time_bounds() {
            Some((_, hi)) => Some(hi),
            None => None,
        }
    }

    /// The incident edges of the vertex in the direction inside the window, as its
    /// shard gives them.
    pub fn edges(&self, gid: u64, dir: Direction, w: Option<Window>) -> (r: Vec<(u64, EdgeRef, i64)>)
        requires
            self.wf(),
        ensures
            !self.has_vertex(gid) ==> r@.len() == 0,
            self.has_vertex(gid) ==> incident_edges(self.home(gid).vs()[self.home(gid).pid(gid)], dir, w, r@),
            dir != Direction::BOTH ==> r@.map_values(|x: (u64, EdgeRef, i64)| x.0).to_set() == self.nbrs(gid, dir, w)
                && r@.map_values(|x: (u64, EdgeRef, i64)| x.0).no_duplicates(),
    {
        let i = self.shard_index(gid);
        let r = self.shards[i].edges(gid, dir, w);
        proof {
            let sh = self.shards()[i as int];
            if sh.has_vertex(gid) {
                crate::tgraph::lemma_at(sh.vs(), sh.pid(gid));
            } else {
                assert(sh.out_nbrs(gid, w) =~= Set::<u64>::empty());
                assert(sh.in_nbrs(gid, w) =~= Set::<u64>::empty());
                assert(r@.map_values(|x: (u64, EdgeRef, i64)| x.0) =~= Seq::<u64>::empty());
            }
        }
        r
    }

    /// The neighbour sets of every vertex are finite.
    pub proof fn lemma_nbrs_finite(&self, x: u64, w: Option<Window>)
        requires
            self.wf(),
        ensures
            self.out_nbrs(x, w).finite(),
            self.in_nbrs(x, w).finite(),
    {
        let vs = self.home(x).vs();
        assert(self.home(x).wf());
        if self.has_vertex(x) {
            let p = self.home(x).pid(x);
            crate::tgraph::lemma_at(vs, p);
            crate::tadjset::lemma_nbrs_finite(vs[p].out_adj.view(), w);
            crate::tadjset::lemma_nbrs_finite(vs[p].in_adj.view(), w);
        } else {
            assert(self.out_nbrs(x, w) =~= Set::<u64>::empty());
            assert(self.in_nbrs(x, w) =~= Set::<u64>::empty());
        }
    }

    /// In any window, a vertex has at most as many neighbours in both directions
    /// as out-neighbours and in-neighbours together, and exactly as many when no
    /// neighbour is both.
    pub proof fn lemma_both_degree_bound(&self, x: u64, w: Option<Window>)
        requires
            self.wf(),
        ensures
            self.nbrs(x, Direction::BOTH, w).len() <= self.nbrs(x, Direction::OUT, w).len() + self.nbrs(x, Direction::IN, w).len(),
            (self.nbrs(x, Direction::BOTH, w).len() == self.nbrs(x, Direction::OUT, w).len() + self.nbrs(x, Direction::IN, w).len())
                <==> self.out_nbrs(x, w).disjoint(self.in_nbrs(x, w)),
    {
        self.lemma_nbrs_finite(x, w);
        let a = self.out_nbrs(x, w);
        let b = self.in_nbrs(x, w);
        let d = b.difference(a);
        assert(a.union(b) =~= a + d);
        vstd::set_lib::lemma_len_subset(d, b);
        assert(a.disjoint(d));
        vstd::set_lib::lemma_set_disjoint_lens(a, d);
        if a.disjoint(b) {
            assert(d =~= b);
        } else {
            let y = choose|y: u64| a.contains(y) && b.contains(y);
            assert(d.subset_of(b.remove(y)));
            vstd::set_lib::lemma_len_subset(d, b.remove(y));
        }
    }

    /// An empty window holds no event: no vertex is seen in it, no vertex has a
    /// neighbour in it, and every property history restricted to it is empty.
    pub proof fn lemma_empty_window(&self, w: Window)
        requires
            self.wf(),
            w.start >= w.end,
        ensures
            forall|x: u64| !(#[trigger] self.active(x, Some(w))),
            forall|x: u64| #[trigger] self.out_nbrs(x, Some(w)) == Set::<u64>::empty(),
            forall|x: u64| #[trigger] self.in_nbrs(x, Some(w)) == Set::<u64>::empty(),
            forall|s: Seq<(i64, Prop)>| #[trigger] history_in(s, Some(w)).len() == 0,
            forall|x: u64, dir: Direction| #[trigger] self.nbrs(x, dir, Some(w)) == Set::<u64>::empty(),
    {
        assert forall|x: u64| #[trigger] self.out_nbrs(x, Some(w)) == Set::<u64>::empty() by {
            assert(self.out_nbrs(x, Some(w)) =~= Set::<u64>::empty());
        }
        assert forall|x: u64| #[trigger] self.in_nbrs(x, Some(w)) == Set::<u64>::empty() by {
            assert(self.in_nbrs(x, Some(w)) =~= Set::<u64>::empty());
        }
        assert forall|x: u64, dir: Direction| #[trigger] self.nbrs(x, dir, Some(w)) == Set::<u64>::empty() by {
            assert(self.out_nbrs(x, Some(w)) =~= Set::<u64>::empty());
            assert(self.in_nbrs(x, Some(w)) =~= Set::<u64>::empty());
            assert(self.nbrs(x, dir, Some(w)) =~= Set::<u64>::empty());
        }
        assert forall|s: Seq<(i64, Prop)>| #[trigger] history_in(s, Some(w)).len() == 0 by {
            broadcast use vstd::seq_lib::group_filter_ensures;
            if history_in(s, Some(w)).len() > 0 {
                assert(covers(Some(w), history_in(s, Some(w))[0].0));
            }
        }
    }

    /// The vertices held by shards before `k`.
    pub open spec fn held_before(&self, k: int) -> Set<u64> {
        Set::new(|g: u64| exists|q: int| 0 <= q < k && #[trigger] self.shards()[q].has_vertex(g))
    }

    proof fn lemma_held_prefix(&self, k: int)
        requires
            self.wf(),
            0 <= k <= self.n(),
        ensures
            self.held_before(k).finite(),
            self.held_before(k).len() == vertex_counts(self.shards().take(k)),
        decreases k,
    {
        if k == 0 {
            assert(self.held_before(0) =~= Set::<u64>::empty());
            assert(self.shards().take(0) =~= Seq::<TemporalGraph>::empty());
        } else {
            self.lemma_held_prefix(k - 1);
            let sh = self.shards()[k - 1];
            assert(sh.wf());
            sh.lemma_gids_len();
            let a = self.held_before(k - 1);
            assert(self.held_before(k) =~= a + sh.gids());
            assert(a.disjoint(sh.gids())) by {
                assert forall|g: u64| a.contains(g) implies !sh.gids().contains(g) by {
                    let q = choose|q: int| 0 <= q < k - 1 && #[trigger] self.shards()[q].has_vertex(g);
                }
            }
            vstd::set_lib::lemma_set_disjoint_lens(a, sh.gids());
            assert(self.shards().take(k).drop_last() =~= self.shards().take(k - 1));
            assert(self.shards().take(k).last() == sh);
        }
    }

    /// Sharding partitions the vertices: no two shards hold the same id, and the
    /// shards' vertex counts add up to the number of vertices of the graph.
    pub proof fn lemma_shards_partition(&self)
        requires
            self.wf(),
        ensures
            forall|i: int, j: int| 0 <= i < self.n() && 0 <= j < self.n() && i != j ==>
                (#[trigger] self.shards()[i]).gids().disjoint((#[trigger] self.shards()[j]).gids()),
            vertex_counts(self.shards()) == Set::new(|g: u64| self.has_vertex(g)).len(),
    {
        assert forall|i: int, j: int| 0 <= i < self.n() && 0 <= j < self.n() && i != j implies
            (#[trigger] self.shards()[i]).gids().disjoint((#[trigger] self.shards()[j]).gids()) by {
            assert forall|g: u64| self.shards()[i].gids().contains(g) implies !self.shards()[j].gids().contains(g) by {
                assert(self.shards()[i].has_vertex(g));
            }
        }
        self.lemma_held_prefix(self.n() as int);
        assert(self.shards().take(self.n() as int) =~= self.shards());
        assert(self.held_before(self.n() as int) =~= Set::new(|g: u64| self.has_vertex(g))) by {
            assert forall|g: u64| self.held_before(self.n() as int).contains(g) == self.has_vertex(g) by {
                if self.has_vertex(g) {
                    let q = shard_of(g, self.n()) as int;
                    assert(self.shards()[q].has_vertex(g));
                }
            }
        }
    }

    /// The out-degrees inside the window of the listed vertices, summed.
    pub open spec fn degree_sum(&self, ids: Seq<u64>, w: Option<Window>) -> nat
        decreases ids.len(),
    {
        if ids.len() == 0 {
            0
        } else {
            self.degree_sum(ids.drop_last(), w) + self.out_nbrs(ids.last(), w).len()
        }
    }

    proof fn lemma_degree_sum_append(&self, a: Seq<u64>, b: Seq<u64>, w: Option<Window>)
        ensures
            self.degree_sum(a + b, w) == self.degree_sum(a, w) + self.degree_sum(b, w),
        decreases b.len(),
    {
        if b.len() == 0 {
            assert(a + b =~= a);
        } else {
            self.lemma_degree_sum_append(a, b.drop_last(), w);
            assert((a + b).drop_last() =~= a + b.drop_last());
            assert((a + b).last() == b.last());
        }
    }

    proof fn lemma_shard_degree_sum(&self, k: int, j: int, w: Option<Window>)
        requires
            self.wf(),
            0 <= k < self.n(),
            0 <= j <= self.shards()[k].vs().len(),
        ensures
            sum_out(self.shards()[k].vs().take(j), w) == self.degree_sum(shard_ids(self.shards()[k]).take(j), w),
        decreases j,
    {
        let sh = self.shards()[k];
        let vs = sh.vs();
        let ids = shard_ids(sh);
        if j == 0 {
            assert(vs.take(0) =~= Seq::<VertexRec>::empty());
            assert(ids.take(0) =~= Seq::<u64>::empty());
        } else {
            self.lemma_shard_degree_sum(k, j - 1, w);
            assert(vs.take(j).drop_last() =~= vs.take(j - 1));
            assert(ids.take(j).drop_last() =~= ids.take(j - 1));
            let g = vs[j - 1].gid;
            assert(ids.take(j).last() == g);
            assert(sh.wf());
            crate::tgraph::lemma_at(vs, j - 1);
            assert(sh.has_vertex(g));
            assert(shard_of(g, self.n()) == k);
        }
    }

    proof fn lemma_total_out_prefix(&self, k: int, w: Option<Window>)
        requires
            self.wf(),
            0 <= k <= self.n(),
        ensures
            total_out(self.shards().take(k), w) == self.degree_sum(all_ids(self.shards().take(k)), w),
            all_ids(self.shards().take(k)).no_duplicates(),
            all_ids(self.shards().take(k)).to_set() == self.held_before(k),
        decreases k,
    {
        let pre = self.shards().take(k);
        if k == 0 {
            assert(pre =~= Seq::<TemporalGraph>::empty());
            assert(all_ids(pre).to_set() =~= self.held_before(0));
        } else {
            self.lemma_total_out_prefix(k - 1, w);
            let sh = self.shards()[k - 1];
            assert(pre.drop_last() =~= self.shards().take(k - 1));
            assert(pre.last() == sh);
            let a = all_ids(self.shards().take(k - 1));
            let b = shard_ids(sh);
            assert(all_ids(pre) == a + b);
            self.lemma_shard_degree_sum(k - 1, sh.vs().len() as int, w);
            assert(sh.vs().take(sh.vs().len() as int) =~= sh.vs());
            assert(b.take(b.len() as int) =~= b);
            self.lemma_degree_sum_append(a, b, w);
            assert(sh.wf());
            assert(b.no_duplicates()) by {
                assert forall|x: int, y: int| 0 <= x < y < b.len() implies b[x] != b[y] by {
                    assert(sh.vs()[x].gid != sh.vs()[y].gid);
                }
            }
            assert forall|x: int| 0 <= x < b.len() implies #[trigger] sh.has_vertex(b[x]) by {
                assert(sh.vs()[x].gid == b[x]);
            }
            assert forall|x: int, y: int| 0 <= x < y < (a + b).len() implies (a + b)[x] != (a + b)[y] by {
                if x < a.len() && y >= a.len() {
                    assert(a.to_set().contains(a[x]));
                    let q = choose|q: int| 0 <= q < k - 1 && #[trigger] self.shards()[q].has_vertex(a[x]);
                    assert(sh.has_vertex(b[y - a.len()]));
                } else if x >= a.len() {
                    assert((a + b)[x] == b[x - a.len()] && (a + b)[y] == b[y - a.len()]);
                }
            }
            assert((a + b).to_set() =~= self.held_before(k)) by {
                assert forall|g: u64| (a + b).to_set().contains(g) == self.held_before(k).contains(g) by {
                    if (a + b).to_set().contains(g) {
                        let z = choose|z: int| 0 <= z < (a + b).len() && (a + b)[z] == g;
                        if z < a.len() {
                            assert(a.to_set().contains(g));
                            let q = choose|q: int| 0 <= q < k - 1 && #[trigger] self.shards()[q].has_vertex(g);
                        } else {
                            assert(sh.has_vertex(b[z - a.len()]));
                        }
                    }
                    if self.held_before(k).contains(g) {
                        let q = choose|q: int| 0 <= q < k && #[trigger] self.shards()[q].has_vertex(g);
                        if q < k - 1 {
                            assert(self.held_before(k - 1).contains(g));
                            let z = choose|z: int| 0 <= z < a.len() && a[z] == g;
                            assert((a + b)[z] == g);
                        } else {
                            let j = choose|j: int| 0 <= j < sh.vs().len() && (#[trigger] sh.vs()[j]).gid == g;
                            assert((a + b)[a.len() + j] == g);
                        }
                    }
                }
            }
        }
    }

    /// The out-degrees inside the window of all vertices, each listed once, sum to
    /// the number of edges seen in the window: an edge is counted once, with its
    /// source.
    pub proof fn lemma_out_degrees_sum_to_edges(&self, w: Option<Window>)
        requires
            self.wf(),
        ensures
            all_ids(self.shards()).no_duplicates(),
            all_ids(self.shards()).to_set() == Set::new(|g: u64| self.has_vertex(g)),
            self.degree_sum(all_ids(self.shards()), w) == total_out(self.shards(), w),
    {
        self.lemma_total_out_prefix(self.n() as int, w);
        assert(self.shards().take(self.n() as int) =~= self.shards());
        assert(self.held_before(self.n() as int) =~= Set::new(|g: u64| self.has_vertex(g))) by {
            assert forall|g: u64| self.held_before(self.n() as int).contains(g) == self.has_vertex(g) by {
                if self.has_vertex(g) {
                    let q = shard_of(g, self.n()) as int;
                    assert(self.shards()[q].has_vertex(g));
                }
            }
        }
    }

    /// The history of the vertex's named property inside the window, or the
    /// reason there is none: the vertex is not held, or never had that property.
    pub fn property_history_strict(&self, gid: u64, name: &String, w: Option<Window>) -> (r: Result<Vec<(i64, Prop)>, GraphError>)
        requires
            self.wf(),
        ensures
            !self.has_vertex(gid) ==> r == Err::<Vec<(i64, Prop)>, GraphError>(GraphError::UnknownVertex),
            self.has_vertex(gid) && !has_name(self.vprops(gid), name@) ==> r == Err::<Vec<(i64, Prop)>, GraphError>(GraphError::UnknownProperty),
            r is Ok <==> has_name(self.vprops(gid), name@),
            r matches Ok(h) ==> exists|k: int| 0 <= k < self.vprops(gid).len()
                && (#[trigger] self.vprops(gid)[k]).name@ == name@ && h@ == history_in(self.vprops(gid)[k].prop.view(), w),
    {
        if !self.contains_vertex(gid) {
            assert(self.vprops(gid) =~= Seq::<NamedProp>::empty());
            return Err(GraphError::UnknownVertex);
        }
        match self.property_history(gid, name, w) {
            Some(h) => Ok(h),
            None => Err(GraphError::UnknownProperty),
        }
    }

    /// The number of edges of shard `i` seen inside the window in the direction.
    pub fn local_n_edges_window(&self, i: usize, w: Option<Window>, dir: Direction) -> (r: usize)
        requires
            self.wf(),
            i < self.n(),
        ensures
            r == cap(sum_dir(self.shards()[i as int].vs(), w, dir)),
    {
        self.shards[i].local_n_edges_window(w, dir)
    }

    /// The number of edges of shard `i` in the direction, over all time.
    pub fn local_n_edges(&self, i: usize, dir: Direction) -> (r: usize)
        requires
            self.wf(),
            i < self.n(),
        ensures
            r == cap(sum_dir(self.shards()[i as int].vs(), None, dir)),
    {
        self.shards[i].local_n_edges(dir)
    }

    /// Whether every out-neighbour relation is matched by the reverse in-neighbour
    /// relation, in every window.
    pub open spec fn edges_symmetric(&self) -> bool {
        forall|a: u64, b: u64, w: Option<Window>| #[trigger] self.out_nbrs(a, w).contains(b) == #[trigger] self.in_nbrs(b, w).contains(a)
    }

    proof fn lemma_same_records_symmetric(&self, other: &Graph)
        requires
            self.wf(),
            self.same_records(other),
            other.edges_symmetric(),
        ensures
            self.edges_symmetric(),
    {
        assert forall|a: u64, b: u64, w: Option<Window>| #[trigger] self.out_nbrs(a, w).contains(b) == #[trigger] self.in_nbrs(b, w).contains(a) by {
            let ka = shard_of(a, self.n()) as int;
            let kb = shard_of(b, self.n()) as int;
            assert(0 <= ka < self.n() && 0 <= kb < self.n());
            assert(self.shards()[ka].vs() == other.shards()[ka].vs());
            assert(self.shards()[kb].vs() == other.shards()[kb].vs());
            assert(other.out_nbrs(a, w).contains(b) == other.in_nbrs(b, w).contains(a));
        }
    }

    /// Records an event of the vertex at `t` with its property updates; when an
    /// update's variant differs from its property's, nothing is recorded.
    pub fn add_vertex(&mut self, t: i64, gid: u64, props: &Vec<(String, Prop)>) -> (r: Result<(), GraphError>)
        requires
            old(self).wf(),
        ensures
            final(self).wf(),
            final(self).n() == old(self).n(),
            r is Err <==> !compatible(old(self).vprops(gid), props@),
            r is Err ==> r == Err::<(), GraphError>(GraphError::PropTypeMismatch) && final(self).same_records(old(self)),
            r is Ok ==> forall|g: u64| #[trigger] final(self).has_vertex(g) == (old(self).has_vertex(g) || g == gid),
            r is Ok ==> forall|g: u64, w: Option<Window>| #[trigger] final(self).active(g, w) == (old(self).active(g, w) || (g == gid && covers(w, t))),
            r is Ok ==> forall|g: u64, w: Option<Window>| #[trigger] final(self).out_nbrs(g, w) == old(self).out_nbrs(g, w),
            r is Ok ==> forall|g: u64, w: Option<Window>| #[trigger] final(self).in_nbrs(g, w) == old(self).in_nbrs(g, w),
            r is Ok ==> forall|i: int| 0 <= i < props@.len() ==> #[trigger] recorded(final(self).vprops(gid), props@[i], t),
            r is Ok ==> applied(old(self).vprops(gid), final(self).vprops(gid), t, props@),
            old(self).edges_symmetric() ==> final(self).edges_symmetric(),
    {
        let r = self.add_vertex_records(t, gid, props);
        proof {
            if old(self).edges_symmetric() {
                if r is Ok {
                    assert forall|a: u64, b: u64, w: Option<Window>| #[trigger] self.out_nbrs(a, w).contains(b) == #[trigger] self.in_nbrs(b, w).contains(a) by {
                        assert(old(self).out_nbrs(a, w).contains(b) == old(self).in_nbrs(b, w).contains(a));
                    }
                } else {
                    self.lemma_same_records_symmetric(old(self));
                }
            }
        }
        r
    }

    /// Records the edge from `src` to `dst` at `t` with its property updates, and
    /// both endpoints' events at `t`. The source's shard holds the edge and its
    /// properties; the destination's shard records the incoming side. When an
    /// update's variant differs from its property's, nothing is recorded.
    pub fn add_edge(&mut self, t: i64, src: u64, dst: u64, props: &Vec<(String, Prop)>) -> (r: Result<(), GraphError>)
        requires
            old(self).wf(),
        ensures
            final(self).wf(),
            final(self).n() == old(self).n(),
            r is Err <==> !compatible(old(self).eprops(src, dst), props@),
            r is Err ==> r == Err::<(), GraphError>(GraphError::PropTypeMismatch) && final(self).same_records(old(self)),
            r is Ok ==> forall|g: u64| #[trigger] final(self).has_vertex(g) == (old(self).has_vertex(g) || g == src || g == dst),
            r is Ok ==> forall|g: u64, w: Option<Window>| #[trigger] final(self).active(g, w) == (old(self).active(g, w) || ((g == src || g == dst) && covers(w, t))),
            r is Ok ==> forall|g: u64, w: Option<Window>| #[trigger] final(self).out_nbrs(g, w) == (if g == src && covers(w, t) {
                old(self).out_nbrs(g, w).insert(dst)
            } else {
                old(self).out_nbrs(g, w)
            }),
            r is Ok ==> forall|g: u64, w: Option<Window>| #[trigger] final(self).in_nbrs(g, w) == (if g == dst && covers(w, t) {
                old(self).in_nbrs(g, w).insert(src)
            } else {
                old(self).in_nbrs(g, w)
            }),
            r is Ok ==> forall|i: int| 0 <= i < props@.len() ==> #[trigger] recorded(final(self).eprops(src, dst), props@[i], t),
            r is Ok ==> applied(old(self).eprops(src, dst), final(self).eprops(src, dst), t, props@),
            r is Ok ==> forall|a: u64, b: u64| (a, b) != (src, dst) ==> #[trigger] final(self).eprops(a, b) == old(self).eprops(a, b),
            r is Ok ==> forall|g: u64| #[trigger] final(self).vprops(g) == old(self).vprops(g),
            old(self).edges_symmetric() ==> final(self).edges_symmetric(),
    {
        let r = self.add_edge_records(t, src, dst, props);
        proof {
            if old(self).edges_symmetric() {
                if r is Ok {
                    assert forall|a: u64, b: u64, w: Option<Window>| #[trigger] self.out_nbrs(a, w).contains(b) == #[trigger] self.in_nbrs(b, w).contains(a) by {
                        assert(old(self).out_nbrs(a, w).contains(b) == old(self).in_nbrs(b, w).contains(a));
                    }
                } else {
                    self.lemma_same_records_symmetric(old(self));
                }
            }
        }
        r
    }

    /// A graph of one shard holds both ends of every edge there, so its shard
    /// counts as many incoming edges as outgoing ones, in every window.
    pub proof fn lemma_single_shard_in_equals_out(&self, w: Option<Window>)
        requires
            self.wf(),
            self.n() == 1,
            self.edges_symmetric(),
        ensures
            sum_in(self.shards()[0].vs(), w) == sum_out(self.shards()[0].vs(), w),
            sum_dir(self.shards()[0].vs(), w, Direction::BOTH) == 2 * sum_out(self.shards()[0].vs(), w),
    {
        let sh = self.shards()[0];
        assert forall|x: u64| shard_of(x, 1) == 0 by {
            assert(x % 1u64 == 0) by (bit_vector);
        }
        assert forall|a: u64, b: u64| #[trigger] sh.out_nbrs(a, w).contains(b) == #[trigger] sh.in_nbrs(b, w).contains(a) by {
            assert(shard_of(a, 1) == 0 && shard_of(b, 1) == 0);
            assert(self.out_nbrs(a, w).contains(b) == self.in_nbrs(b, w).contains(a));
        }
        sh.lemma_in_count_equals_out_count(w);
    }
}

} // verus!
