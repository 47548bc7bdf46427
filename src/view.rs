use vstd::prelude::*;
use crate::Direction;
use crate::window::{Window, spec_intersect};
use crate::tadjset::EdgeRef;
use crate::tgraph::incident_edges;
use crate::props::{Prop, has_name, history_in};
use crate::graph::{Graph, all_ids, capped, total_out};

verus! {

/// A vertex seen through a view: its global id and the window, if any, that its
/// queries are restricted to.
pub struct VertexView<'a> {
    pub graph: &'a Graph,
    pub gid: u64,
    pub window: Option<Window>,
}

/// A marker for what neighbour traversals offer.
pub trait NeighboursIteratorInterface {}

/// The vertices of a graph, or of a window of it, ready to be listed.
pub struct Vertices<'a> {
    pub graph: &'a Graph,
    pub window: Option<Window>,
}

impl<'a> Vertices<'a> {
    /// Handles on the vertices, each once and seen through the window: with no
    /// window all vertices, else those with an event inside it.
    pub fn iter(&self) -> (r: Vec<VertexView<'a>>)
        requires
            self.graph.wf(),
        ensures
            forall|i: int| 0 <= i < r@.len() ==> (#[trigger] r@[i]).graph == self.graph && r@[i].window == self.window,
            ids_of(r@) == all_ids(self.graph.shards()).filter(|g: u64| self.graph.active(g, self.window)),
            ids_of(r@).no_duplicates(),
            ids_of(r@).to_set() == Set::new(|g: u64| self.graph.active(g, self.window)),
    {
        let v = self.graph.vertices_window(self.window);
        let r = views_of(self.graph, v, self.window);
        assert(ids_of(r@) =~= v@);
        r
    }
}

/// A read-only face of a graph restricted to a window.
pub struct WindowedView<'a> {
    pub graph: &'a Graph,
    pub window: Window,
}

/// Handles on the given ids, all seen through the same graph and window.
fn views_of<'a>(graph: &'a Graph, ids: Vec<u64>, w: Option<Window>) -> (r: Vec<VertexView<'a>>)
    ensures
        r@.len() == ids@.len(),
        forall|i: int| 0 <= i < r@.len() ==> (#[trigger] r@[i]).gid == ids@[i] && r@[i].graph == graph && r@[i].window == w,
{
    let mut r: Vec<VertexView<'a>> = Vec::new();
    let mut i: usize = 0;
    while i < ids.len()
        invariant
            i <= ids@.len(),
            r@.len() == i,
            forall|k: int| 0 <= k < i ==> (#[trigger] r@[k]).gid == ids@[k] && r@[k].graph == graph && r@[k].window == w,
        decreases ids@.len() - i,
    {
        r.push(VertexView { graph, gid: ids[i], window: w });
        i = i + 1;
    }
    r
}

/// The ids of the handles, in order.
pub fn ids(vs: &Vec<VertexView>) -> (r: Vec<u64>)
    ensures
        r@.len() == vs@.len(),
        forall|i: int| 0 <= i < r@.len() ==> #[trigger] r@[i] == vs@[i].gid,
{
    let mut r: Vec<u64> = Vec::new();
    let mut i: usize = 0;
    while i < vs.len()
        invariant
            i <= vs@.len(),
            r@.len() == i,
            forall|k: int| 0 <= k < i ==> #[trigger] r@[k] == vs@[k].gid,
        decreases vs@.len() - i,
    {
        r.push(vs[i].gid);
        i = i + 1;
    }
    r
}

impl Graph {
    /// A view of the graph restricted to `[start, end)`.
    pub fn window(&self, start: i64, end: i64) -> (r: WindowedView<'_>)
        ensures
            r.graph == self,
            r.window == (Window { start, end }),
    {
        WindowedView { graph: self, window: Window::new(start, end) }
    }

    /// A handle on the vertex, if the graph holds it.
    pub fn vertex(&self, gid: u64) -> (r: Option<VertexView<'_>>)
        requires
            self.wf(),
        ensures
            r.is_some() == self.has_vertex(gid),
            r matches Some(v) ==> v.gid == gid && v.graph == self && v.window == None::<Window>,
    {
        if self.contains_vertex(gid) {
            Some(VertexView { graph: self, gid, window: None })
        } else {
            None
        }
    }

    /// All vertices of the graph.
    pub fn vertices(&self) -> (r: Vertices<'_>)
        ensures
            r.graph == self,
            r.window == None::<Window>,
    {
        Vertices { graph: self, window: None }
    }
}

/// The ids of a sequence of handles.
pub open spec fn ids_of(vs: Seq<VertexView>) -> Seq<u64> {
    vs.map_values(|v: VertexView| v.gid)
}

impl<'a> WindowedView<'a> {
    /// The view further restricted to `[start, end)`: its window is the
    /// intersection of both.
    pub fn window(&self, start: i64, end: i64) -> (r: WindowedView<'a>)
        ensures
            r.graph == self.graph,
            r.window == spec_intersect(self.window, Window { start, end }),
    {
        WindowedView { graph: self.graph, window: self.window.intersect(&Window::new(start, end)) }
    }

    /// Whether the vertex had an event inside the view's window.
    pub fn contains_vertex(&self, gid: u64) -> (r: bool)
        requires
            self.graph.wf(),
        ensures
            r == self.graph.active(gid, Some(self.window)),
    {
        self.graph.contains_vertex_window(gid, Some(self.window))
    }

    /// A handle on the vertex, if it had an event inside the view's window.
    pub fn vertex(&self, gid: u64) -> (r: Option<VertexView<'a>>)
        requires
            self.graph.wf(),
        ensures
            r.is_some() == self.graph.active(gid, Some(self.window)),
            r matches Some(v) ==> v.gid == gid && v.graph == self.graph && v.window == Some(self.window),
    {
        if self.contains_vertex(gid) {
            Some(VertexView { graph: self.graph, gid, window: Some(self.window) })
        } else {
            None
        }
    }

    /// The vertices with an event inside the view's window.
    pub fn vertices(&self) -> (r: Vertices<'a>)
        ensures
            r.graph == self.graph,
            r.window == Some(self.window),
    {
        Vertices { graph: self.graph, window: Some(self.window) }
    }

    /// The number of edges seen inside the view's window, each counted once with
    /// its source.
    pub fn n_edges(&self) -> (r: usize)
        requires
            self.graph.wf(),
        ensures
            r == capped(total_out(self.graph.shards(), Some(self.window))),
    {
        self.graph.num_edges_window(Some(self.window))
    }

    /// The number of vertices with an event inside the view's window.
    pub fn n_nodes(&self) -> (r: usize)
        requires
            self.graph.wf(),
        ensures
            r == Set::new(|g: u64| self.graph.active(g, Some(self.window))).len(),
            Set::new(|g: u64| self.graph.active(g, Some(self.window))).finite(),
    {
        let v = self.graph.vertices_window(Some(self.window));
        proof {
            v@.unique_seq_to_set();
        }
        v.len()
    }
}

impl<'a> VertexView<'a> {
    pub fn id(&self) -> (r: u64)
        ensures
            r == self.gid,
    {
        self.gid
    }

    /// The number of neighbours in the direction inside the handle's window.
    pub fn degree(&self, dir: Direction) -> (r: usize)
        requires
            self.graph.wf(),
        ensures
            r == self.graph.nbrs(self.gid, dir, self.window).len(),
    {
        self.graph.degree(self.gid, dir, self.window)
    }

    pub fn out_degree(&self) -> (r: usize)
        requires
            self.graph.wf(),
        ensures
            r == self.graph.out_nbrs(self.gid, self.window).len(),
    {
        self.graph.degree(self.gid, Direction::OUT, self.window)
    }

    pub fn in_degree(&self) -> (r: usize)
        requires
            self.graph.wf(),
        ensures
            r == self.graph.in_nbrs(self.gid, self.window).len(),
    {
        self.graph.degree(self.gid, Direction::IN, self.window)
    }

    /// Handles on the neighbours in the direction inside the handle's window, each
    /// once, seen through the same window.
    pub fn neighbours(&self, dir: Direction) -> (r: Vec<VertexView<'a>>)
        requires
            self.graph.wf(),
        ensures
            forall|i: int| 0 <= i < r@.len() ==> (#[trigger] r@[i]).graph == self.graph && r@[i].window == self.window,
            ids_of(r@).no_duplicates(),
            ids_of(r@).to_set() == self.graph.nbrs(self.gid, dir, self.window),
    {
        let v = self.graph.neighbours(self.gid, dir, self.window);
        let r = views_of(self.graph, v, self.window);
        assert(ids_of(r@) =~= v@);
        r
    }

    pub fn out_neighbours(&self) -> (r: Vec<VertexView<'a>>)
        requires
            self.graph.wf(),
        ensures
            forall|i: int| 0 <= i < r@.len() ==> (#[trigger] r@[i]).graph == self.graph && r@[i].window == self.window,
            ids_of(r@).no_duplicates(),
            ids_of(r@).to_set() == self.graph.out_nbrs(self.gid, self.window),
    {
        self.neighbours(Direction::OUT)
    }

    pub fn in_neighbours(&self) -> (r: Vec<VertexView<'a>>)
        requires
            self.graph.wf(),
        ensures
            forall|i: int| 0 <= i < r@.len() ==> (#[trigger] r@[i]).graph == self.graph && r@[i].window == self.window,
            ids_of(r@).no_duplicates(),
            ids_of(r@).to_set() == self.graph.in_nbrs(self.gid, self.window),
    {
        self.neighbours(Direction::IN)
    }

    /// The history of the vertex's named property inside the handle's window.
    pub fn property_history(&self, name: &String) -> (r: Option<Vec<(i64, Prop)>>)
        requires
            self.graph.wf(),
        ensures
            r.is_some() == has_name(self.graph.vprops(self.gid), name@),
            r matches Some(h) ==> exists|k: int| 0 <= k < self.graph.vprops(self.gid).len()
                && (#[trigger] self.graph.vprops(self.gid)[k]).name@ == name@
                && h@ == history_in(self.graph.vprops(self.gid)[k].prop.view(), self.window),
    {
        self.graph.property_history(self.gid, name, self.window)
    }

    /// The incident edges in the direction inside the handle's window.
    pub fn edges(&self, dir: Direction) -> (r: Vec<(u64, EdgeRef, i64)>)
        requires
            self.graph.wf(),
        ensures
            !self.graph.has_vertex(self.gid) ==> r@.len() == 0,
            self.graph.has_vertex(self.gid) ==> incident_edges(self.graph.home(self.gid).vs()[self.graph.home(self.gid).pid(self.gid)], dir, self.window, r@),
            dir != Direction::BOTH ==> r@.map_values(|x: (u64, EdgeRef, i64)| x.0).to_set() == self.graph.nbrs(self.gid, dir, self.window)
                && r@.map_values(|x: (u64, EdgeRef, i64)| x.0).no_duplicates(),
    {
        self.graph.edges(self.gid, dir, self.window)
    }
}

} // verus!
