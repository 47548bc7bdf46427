use docbrown::props::{Prop, PropSet, TProp};
use docbrown::tadjset::{EdgeRef, TAdjSet};
use docbrown::tcell::TCell;
use docbrown::tgraph::TemporalGraph;
use docbrown::window::{actual_window, covers_time, Window};
use docbrown::{Direction, GraphError};

#[test]
fn cell_keeps_time_order_and_submission_order() {
    let mut c: TCell<u8> = TCell::new();
    c.set(5, 1);
    c.set(3, 2);
    c.set(5, 3);
    c.set(4, 4);
    let got: Vec<(i64, u8)> = (0..c.len()).map(|i| *c.entry(i)).collect();
    assert_eq!(got, vec![(3, 2), (4, 4), (5, 1), (5, 3)]);
    assert!(c.active(Some(Window::new(4, 5))));
    assert!(!c.active(Some(Window::new(6, 9))));
    assert!(c.active(None));
    assert_eq!(c.first_in(Some(Window::new(4, 9))), Some(1));
    assert_eq!(c.first_in(Some(Window::new(0, 3))), None);
}

#[test]
fn adjacency_lists_each_neighbour_once_in_id_order() {
    let mut a = TAdjSet::new();
    a.push(3, 9, EdgeRef::Local(0));
    a.push(1, 4, EdgeRef::Remote(4));
    a.push(2, 9, EdgeRef::Local(0));
    a.push(8, 6, EdgeRef::Local(1));
    assert_eq!(a.neighbours(None), vec![4, 6, 9]);
    assert_eq!(a.degree(None), 3);
    assert_eq!(a.neighbours(Some(Window::new(2, 4))), vec![9]);
    assert_eq!(a.degree(Some(Window::new(5, 5))), 0);
    let e = a.edges(Some(Window::new(0, 4)));
    assert_eq!(e, vec![(4, EdgeRef::Remote(4), 1), (9, EdgeRef::Local(0), 2)]);
}

#[test]
fn typed_property_refuses_other_variant() {
    let mut p = TProp::new(1, Prop::I32(1));
    assert_eq!(p.set(2, Prop::I32(2)), Ok(()));
    assert_eq!(p.set(3, Prop::U32(3)), Err(GraphError::PropTypeMismatch));
    assert_eq!(p.history(None), vec![(1, Prop::I32(1)), (2, Prop::I32(2))]);
    assert_eq!(p.kind_tag(), 1);
}

#[test]
fn property_set_checks_before_writing() {
    let mut s = PropSet::new();
    let ok = vec![("a".to_string(), Prop::I64(1)), ("b".to_string(), Prop::Bool(true))];
    assert!(s.check(&ok));
    assert_eq!(s.apply(1, &ok), Ok(()));
    assert_eq!(s.find(&"b".to_string()), Some(1));
    let bad = vec![("c".to_string(), Prop::I64(1)), ("a".to_string(), Prop::Bool(true))];
    assert!(!s.check(&bad));
    assert_eq!(s.apply(2, &bad), Err(GraphError::PropTypeMismatch));
    assert_eq!(s.find(&"c".to_string()), None);
    assert_eq!(s.history(&"a".to_string(), None), Some(vec![(1, Prop::I64(1))]));
}

#[test]
fn shard_records_remote_edges_on_each_side() {
    let mut src = TemporalGraph::new();
    let mut dst = TemporalGraph::new();
    src.add_edge_remote_out(2, 10, 11, &vec![("w".to_string(), Prop::U32(1))]).unwrap();
    dst.add_edge_remote_into(2, 10, 11);
    assert!(src.contains_vertex(10));
    assert!(!src.contains_vertex(11));
    assert!(dst.contains_vertex(11));
    assert_eq!(src.neighbours(10, Direction::OUT, None), vec![11]);
    assert_eq!(dst.neighbours(11, Direction::IN, None), vec![10]);
    assert_eq!(dst.edges(11, Direction::IN, None), vec![(10, EdgeRef::Remote(10), 2)]);
    assert_eq!(src.edges(10, Direction::OUT, None), vec![(11, EdgeRef::Local(0), 2)]);
    assert_eq!(src.local_n_edges(Direction::OUT), 1);
    assert_eq!(src.local_n_edges(Direction::IN), 0);
    assert_eq!(dst.local_n_edges(Direction::OUT), 0);
    assert_eq!(dst.local_n_edges(Direction::IN), 1);
    assert_eq!(dst.local_n_edges(Direction::BOTH), 1);
    assert_eq!(src.time_bounds(), Some((2, 2)));
    assert_eq!(
        src.edge_property_history(10, 11, &"w".to_string(), None),
        Some(vec![(2, Prop::U32(1))])
    );
}

#[test]
fn shard_self_loop_edges_both_ways_once() {
    let mut s = TemporalGraph::new();
    s.add_edge(1, 5, 5, &Vec::new()).unwrap();
    assert_eq!(s.edges(5, Direction::BOTH, None), vec![(5, EdgeRef::Local(0), 1)]);
    s.add_edge(2, 7, 5, &Vec::new()).unwrap();
    assert_eq!(s.edges(5, Direction::BOTH, None).len(), 2);
    assert_eq!(s.local_n_vertices(), 2);
    assert_eq!(s.vertices_window(Some(Window::new(2, 3))), vec![5, 7]);
    assert_eq!(s.find_vertex(7), Some(1));
}

#[test]
fn shard_vertex_props_and_mismatch() {
    let mut s = TemporalGraph::new();
    s.add_vertex(0, 1, &vec![("x".to_string(), Prop::Str("a".to_string()))]).unwrap();
    assert_eq!(
        s.add_vertex(1, 1, &vec![("x".to_string(), Prop::I32(0))]),
        Err(GraphError::PropTypeMismatch)
    );
    assert_eq!(s.property_history(1, &"x".to_string(), None).unwrap().len(), 1);
    assert!(!s.contains_vertex_window(1, Some(Window::new(1, 2))));
}

#[test]
fn window_arithmetic() {
    let a = Window::new(0, 10);
    assert_eq!(a.intersect(&Window::new(5, 20)), Window::new(5, 10));
    assert!(Window::new(3, 3).is_empty());
    assert!(!a.is_empty());
    assert!(a.contains(0) && !a.contains(10));
    assert_eq!(actual_window(None, a), a);
    assert_eq!(actual_window(Some(Window::new(-5, 4)), a), Window::new(0, 4));
    assert!(covers_time(None, i64::MIN));
    assert!(!covers_time(Some(a), -1));
}
