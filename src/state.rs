use vstd::prelude::*;
use crate::GraphError;
use crate::graph::Graph;
use crate::view::WindowedView;

verus! {

/// A dense column of one value per vertex, fixed once built.
pub struct StateVec<T> {
    values: Vec<T>,
}

impl<T> StateVec<T> {
    pub closed spec fn view(&self) -> Seq<T> {
        self.values@
    }

    /// A column of `n` copies of `value`.
    pub fn full(value: T, n: usize) -> (r: StateVec<T>)
        where
            T: Copy,
        ensures
            r.view() == Seq::new(n as nat, |i: int| value),
    {
        let mut values: Vec<T> = Vec::new();
        let mut i: usize = 0;
        while i < n
            invariant
                i <= n,
                values@ == Seq::new(i as nat, |k: int| value),
            decreases n - i,
        {
            values.push(value);
            i = i + 1;
            assert(values@ =~= Seq::new(i as nat, |k: int| value));
        }
        StateVec { values }
    }

    /// A column of `n` absent values.
    pub fn empty(n: usize) -> (r: StateVec<Option<T>>)
        ensures
            r.view() == Seq::new(n as nat, |i: int| None::<T>),
    {
        let mut values: Vec<Option<T>> = Vec::new();
        let mut i: usize = 0;
        while i < n
            invariant
                i <= n,
                values@ == Seq::new(i as nat, |k: int| None::<T>),
            decreases n - i,
        {
            values.push(None);
            i = i + 1;
            assert(values@ =~= Seq::new(i as nat, |k: int| None::<T>));
        }
        StateVec { values }
    }

    /// The column holding `values` when there are `n` of them.
    pub fn from_values(values: Vec<T>, n: usize) -> (r: Result<StateVec<T>, GraphError>)
        ensures
            r is Ok <==> values@.len() == n,
            r matches Ok(s) ==> s.view() == values@,
            r is Err ==> r == Err::<StateVec<T>, GraphError>(GraphError::StateSizeError),
    {
        if values.len() == n {
            Ok(StateVec { values })
        } else {
            Err(GraphError::StateSizeError)
        }
    }

    pub fn len(&self) -> (r: usize)
        ensures
            r == self.view().len(),
    {
        self.values.len()
    }

    pub fn get(&self, i: usize) -> (r: &T)
        requires
            i < self.view().len(),
        ensures
            *r == self.view()[i as int],
    {
        &self.values[i]
    }
}

impl Graph {
    /// The number of vertices, the length of every state column of the graph.
    pub fn n_nodes(&self) -> (r: usize)
        requires
            self.wf(),
        ensures
            r == Set::new(|g: u64| self.has_vertex(g)).len(),
    {
        self.num_vertices()
    }

    /// A column with no value for any vertex.
    pub fn new_empty_state<T>(&self) -> (r: StateVec<Option<T>>)
        requires
            self.wf(),
        ensures
            r.view() == Seq::new(Set::new(|g: u64| self.has_vertex(g)).len(), |i: int| None::<T>),
    {
        StateVec::<T>::empty(self.n_nodes())
    }

    /// A column with `value` for every vertex.
    pub fn new_full_state<T: Copy>(&self, value: T) -> (r: StateVec<T>)
        requires
            self.wf(),
        ensures
            r.view() == Seq::new(Set::new(|g: u64| self.has_vertex(g)).len(), |i: int| value),
    {
        StateVec::full(value, self.n_nodes())
    }

    /// The column of `values`, refused unless there is one for each vertex.
    pub fn new_state_from<T>(&self, values: Vec<T>) -> (r: Result<StateVec<T>, GraphError>)
        requires
            self.wf(),
        ensures
            r is Ok <==> values@.len() == Set::new(|g: u64| self.has_vertex(g)).len(),
            r matches Ok(s) ==> s.view() == values@,
            r is Err ==> r == Err::<StateVec<T>, GraphError>(GraphError::StateSizeError),
    {
        StateVec::from_values(values, self.n_nodes())
    }
}

impl<'a> WindowedView<'a> {
    /// A column with no value for any vertex of the view.
    pub fn new_empty_state<T>(&self) -> (r: StateVec<Option<T>>)
        requires
            self.graph.wf(),
        ensures
            r.view() == Seq::new(Set::new(|g: u64| self.graph.active(g, Some(self.window))).len(), |i: int| None::<T>),
    {
        StateVec::<T>::empty(self.n_nodes())
    }

    /// A column with `value` for every vertex of the view.
    pub fn new_full_state<T: Copy>(&self, value: T) -> (r: StateVec<T>)
        requires
            self.graph.wf(),
        ensures
            r.view() == Seq::new(Set::new(|g: u64| self.graph.active(g, Some(self.window))).len(), |i: int| value),
    {
        StateVec::full(value, self.n_nodes())
    }

    /// The column of `values`, refused unless there is one for each vertex of the
    /// view.
    pub fn new_state_from<T>(&self, values: Vec<T>) -> (r: Result<StateVec<T>, GraphError>)
        requires
            self.graph.wf(),
        ensures
            r is Ok <==> values@.len() == Set::new(|g: u64| self.graph.active(g, Some(self.window))).len(),
            r matches Ok(s) ==> s.view() == values@,
            r is Err ==> r == Err::<StateVec<T>, GraphError>(GraphError::StateSizeError),
    {
        StateVec::from_values(values, self.n_nodes())
    }
}

/// A windowed view decorated with named state columns, one entry per vertex of
/// the view. A column, once attached, does not change; a later column of the
/// same name hides an earlier one.
pub struct StatefulView<'a, T> {
    pub base: WindowedView<'a>,
    pub columns: Vec<(String, StateVec<T>)>,
}

impl<'a> WindowedView<'a> {
    /// The view with the column attached under `name`; refused unless the column
    /// has one entry for each vertex of the view.
    pub fn with_state<T>(&self, name: String, column: StateVec<T>) -> (r: Result<StatefulView<'a, T>, GraphError>)
        requires
            self.graph.wf(),
        ensures
            r is Ok <==> column.view().len() == Set::new(|g: u64| self.graph.active(g, Some(self.window))).len(),
            r is Err ==> r == Err::<StatefulView<'a, T>, GraphError>(GraphError::StateSizeError),
            r matches Ok(v) ==> v.base.graph == self.graph && v.base.window == self.window && v.cols().len() == 1 && v.cols()[0].0@ == name@ && v.cols()[0].1.view() == column.view(),
    {
        if column.len() != self.n_nodes() {
            return Err(GraphError::StateSizeError);
        }
        let mut columns: Vec<(String, StateVec<T>)> = Vec::new();
        columns.push((name, column));
        Ok(StatefulView { base: WindowedView { graph: self.graph, window: self.window }, columns })
    }
}

impl<'a, T> StatefulView<'a, T> {
    pub open spec fn cols(&self) -> Seq<(String, StateVec<T>)> {
        self.columns@
    }

    /// The view with one more column attached under `name`; refused unless the
    /// column has one entry for each vertex of the view.
    pub fn with_state(self, name: String, column: StateVec<T>) -> (r: Result<StatefulView<'a, T>, GraphError>)
        requires
            self.base.graph.wf(),
        ensures
            r is Ok <==> column.view().len() == Set::new(|g: u64| self.base.graph.active(g, Some(self.base.window))).len(),
            r is Err ==> r == Err::<StatefulView<'a, T>, GraphError>(GraphError::StateSizeError),
            r matches Ok(v) ==> v.base == self.base && v.cols().len() == self.cols().len() + 1
                && (forall|k: int| 0 <= k < self.cols().len() ==> #[trigger] v.cols()[k] == self.cols()[k])
                && v.cols().last().0@ == name@ && v.cols().last().1.view() == column.view(),
    {
        if column.len() != self.base.n_nodes() {
            return Err(GraphError::StateSizeError);
        }
        let mut s = self;
        s.columns.push((name, column));
        Ok(s)
    }

    /// The column last attached under `name`, if any.
    pub fn get_state(&self, name: &String) -> (r: Option<&StateVec<T>>)
        ensures
            r.is_some() == exists|k: int| 0 <= k < self.cols().len() && (#[trigger] self.cols()[k]).0@ == name@,
            r matches Some(c) ==> exists|k: int| 0 <= k < self.cols().len() && (#[trigger] self.cols()[k]).0@ == name@
                && *c == self.cols()[k].1
                && forall|j: int| k < j < self.cols().len() ==> (#[trigger] self.cols()[j]).0@ != name@,
    {
        let mut k: usize = self.columns.len();
        while k > 0
            invariant
                k <= self.cols().len(),
                forall|j: int| k <= j < self.cols().len() ==> (#[trigger] self.cols()[j]).0@ != name@,
            decreases k,
        {
            k = k - 1;
            if self.columns[k].0 == *name {
                assert(self.cols()[k as int].0@ == name@);
                return Some(&self.columns[k].1);
            }
        }
        None
    }
}

} // verus!
