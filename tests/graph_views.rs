use docbrown::graph::Graph;
use docbrown::props::Prop;
use docbrown::state::StateVec;
use docbrown::view::ids;
use docbrown::window::Window;
use docbrown::{Direction, GraphError};

fn no_props() -> Vec<(String, Prop)> {
    Vec::new()
}

fn make_mini_graph(shards: usize) -> Graph {
    let mut g = Graph::new(shards);
    g.add_vertex(0, 1, &no_props()).unwrap();
    g.add_vertex(0, 2, &no_props()).unwrap();
    g.add_vertex(1, 3, &no_props()).unwrap();
    g.add_edge(0, 1, 2, &no_props()).unwrap();
    g.add_edge(0, 2, 1, &no_props()).unwrap();
    g.add_edge(1, 2, 3, &no_props()).unwrap();
    g
}

fn sorted(mut v: Vec<u64>) -> Vec<u64> {
    v.sort();
    v
}

#[test]
fn test_vertex_window() {
    let g = make_mini_graph(1);
    let view = g.window(0, 1);
    let vertices = ids(&view.vertices().iter());
    assert_eq!(vertices, vec![1, 2])
}

#[test]
fn test_the_vertices() {
    let g = make_mini_graph(1);
    let view = g.window(0, 2);
    let vs = view.vertices().iter();
    let mut out_out: Vec<Vec<Vec<u64>>> = Vec::new();
    for v in vs.iter() {
        let mut per_nbr = Vec::new();
        for n in v.out_neighbours().iter() {
            per_nbr.push(ids(&n.out_neighbours()));
        }
        out_out.push(per_nbr);
    }
    assert_eq!(ids(&vs), vec![1, 2, 3]);
    assert_eq!(out_out.len(), 3);
    let m = ids(&vs).into_iter().max();
    assert_eq!(m, Some(3));
}

#[test]
fn window_vertices_are_the_active_ones() {
    for shards in 1..4 {
        let g = make_mini_graph(shards);
        assert_eq!(sorted(ids(&g.window(0, 1).vertices().iter())), vec![1, 2]);
    }
}

#[test]
fn window_vertex_outside_is_none() {
    let g = make_mini_graph(2);
    assert!(g.window(0, 1).vertex(3).is_none());
    assert!(g.window(0, 2).vertex(3).is_some());
    assert!(g.vertex(3).is_some());
    assert!(g.vertex(4).is_none());
}

#[test]
fn window_out_neighbours_of_two() {
    for shards in 1..4 {
        let g = make_mini_graph(shards);
        let v = g.window(0, 2).vertex(2).unwrap();
        assert_eq!(sorted(ids(&v.out_neighbours())), vec![1, 3]);
    }
}

#[test]
fn out_degree_with_and_without_window() {
    for shards in 1..4 {
        let g = make_mini_graph(shards);
        assert_eq!(g.vertex(2).unwrap().out_degree(), 2);
        assert_eq!(g.window(0, 1).vertex(2).unwrap().out_degree(), 1);
    }
}

#[test]
fn two_hop_out_neighbours_per_source() {
    let g = make_mini_graph(2);
    let view = g.window(0, 2);
    let mut reach: Vec<(u64, Vec<u64>)> = Vec::new();
    for v in view.vertices().iter() {
        let mut two_hop = Vec::new();
        for n in v.out_neighbours().iter() {
            for m in n.out_neighbours().iter() {
                two_hop.push(m.id());
            }
        }
        reach.push((v.id(), sorted(two_hop)));
    }
    reach.sort();
    assert_eq!(reach, vec![(1, vec![1, 3]), (2, vec![2]), (3, vec![])]);
}

#[test]
fn edge_property_history_and_type_mismatch() {
    let mut g = Graph::new(2);
    g.add_edge(5, 1, 2, &vec![("w".to_string(), Prop::F64(1.0f64.to_bits()))]).unwrap();
    g.add_edge(7, 1, 2, &vec![("w".to_string(), Prop::F64(2.0f64.to_bits()))]).unwrap();
    let h = g.edge_property_history(1, 2, &"w".to_string(), Some(Window::new(0, 8))).unwrap();
    assert_eq!(
        h,
        vec![(5, Prop::F64(1.0f64.to_bits())), (7, Prop::F64(2.0f64.to_bits()))]
    );
    let r = g.add_edge(9, 1, 2, &vec![("w".to_string(), Prop::I32(3))]);
    assert_eq!(r, Err(GraphError::PropTypeMismatch));
    let h = g.edge_property_history(1, 2, &"w".to_string(), None).unwrap();
    assert_eq!(h.len(), 2);
    assert!(g.window(9, 10).vertex(1).is_none());
}

#[test]
fn history_window_is_half_open_and_time_ordered() {
    let mut g = Graph::new(1);
    for t in [7i64, 3, 5] {
        g.add_vertex(t, 9, &vec![("n".to_string(), Prop::I64(t * 10))]).unwrap();
    }
    let all = g.property_history(9, &"n".to_string(), None).unwrap();
    assert_eq!(all, vec![(3, Prop::I64(30)), (5, Prop::I64(50)), (7, Prop::I64(70))]);
    let some = g.vertex(9).unwrap();
    assert_eq!(some.property_history(&"n".to_string()).unwrap().len(), 3);
    let w = g.window(3, 7).vertex(9).unwrap();
    assert_eq!(
        w.property_history(&"n".to_string()).unwrap(),
        vec![(3, Prop::I64(30)), (5, Prop::I64(50))]
    );
    assert!(g.property_history(9, &"m".to_string(), None).is_none());
    assert!(g.property_history(8, &"n".to_string(), None).is_none());
}

#[test]
fn mismatch_in_one_update_records_nothing() {
    let mut g = Graph::new(1);
    g.add_vertex(1, 4, &vec![("a".to_string(), Prop::Bool(true))]).unwrap();
    let bad = vec![
        ("b".to_string(), Prop::U32(1)),
        ("a".to_string(), Prop::Str("x".to_string())),
    ];
    assert_eq!(g.add_vertex(2, 4, &bad), Err(GraphError::PropTypeMismatch));
    assert!(g.property_history(4, &"b".to_string(), None).is_none());
    assert!(g.window(2, 3).vertex(4).is_none());
    let clash = vec![("c".to_string(), Prop::U32(1)), ("c".to_string(), Prop::U64(1))];
    assert_eq!(g.add_vertex(3, 5, &clash), Err(GraphError::PropTypeMismatch));
    assert!(g.vertex(5).is_none());
}

#[test]
fn edge_endpoints_are_held_after_add_edge() {
    for shards in 1..5 {
        let mut g = Graph::new(shards);
        g.add_edge(-4, 10, 21, &no_props()).unwrap();
        assert!(g.contains_vertex(10));
        assert!(g.contains_vertex(21));
        assert!(g.contains_vertex_window(21, Some(Window::new(-4, -3))));
        assert!(!g.contains_vertex_window(21, Some(Window::new(-3, 0))));
    }
}

#[test]
fn both_direction_degree_counts_shared_neighbours_once() {
    let g = make_mini_graph(3);
    // 1 and 2 point at each other: 2's neighbours either way are {1, 3}
    assert_eq!(g.degree(2, Direction::OUT, None), 2);
    assert_eq!(g.degree(2, Direction::IN, None), 1);
    assert_eq!(g.degree(2, Direction::BOTH, None), 2);
    assert_eq!(sorted(g.neighbours(2, Direction::BOTH, None)), vec![1, 3]);
    assert_eq!(g.degree(3, Direction::BOTH, None), 1);
}

#[test]
fn self_loop_is_out_and_in() {
    let mut g = Graph::new(2);
    g.add_edge(0, 6, 6, &no_props()).unwrap();
    assert_eq!(g.neighbours(6, Direction::OUT, None), vec![6]);
    assert_eq!(g.neighbours(6, Direction::IN, None), vec![6]);
    assert_eq!(g.degree(6, Direction::BOTH, None), 1);
}

#[test]
fn nested_windows_intersect() {
    let g = make_mini_graph(2);
    let a = g.window(0, 5).window(1, 9);
    assert_eq!(a.window, Window::new(1, 5));
    let b = g.window(1, 5);
    assert_eq!(sorted(ids(&a.vertices().iter())), sorted(ids(&b.vertices().iter())));
    assert_eq!(sorted(ids(&a.vertices().iter())), vec![2, 3]);
}

#[test]
fn out_degrees_sum_to_edge_count() {
    for shards in 1..4 {
        let g = make_mini_graph(shards);
        let total: usize = g.vertices().iter().into_iter().map(|v| v.out_degree()).sum();
        assert_eq!(total, 3);
        assert_eq!(g.num_edges(), 3);
        assert_eq!(g.num_edges_window(Some(Window::new(0, 1))), 2);
    }
}

#[test]
fn shards_partition_the_vertices() {
    let g = make_mini_graph(2);
    assert_eq!(g.num_shards(), 2);
    let total: usize = (0..g.num_shards()).map(|i| g.local_n_vertices(i)).sum();
    assert_eq!(total, g.num_vertices());
    assert_eq!(g.num_vertices(), 3);
    assert_eq!(g.local_n_vertices(0), 1);
    assert_eq!(g.local_n_vertices(1), 2);
    assert_eq!(g.shard_index(3), 1);
}

#[test]
fn empty_window_gives_nothing() {
    let g = make_mini_graph(2);
    let v = g.window(1, 1);
    assert!(v.vertices().iter().is_empty());
    assert_eq!(v.n_edges(), 0);
    assert_eq!(v.n_nodes(), 0);
    assert!(v.vertex(2).is_none());
    assert_eq!(g.degree(2, Direction::BOTH, Some(Window::new(3, 0))), 0);
    assert!(g.neighbours(2, Direction::OUT, Some(Window::new(1, 0))).is_empty());
}

#[test]
fn time_bounds() {
    let g = make_mini_graph(2);
    assert_eq!(g.earliest_time(), Some(0));
    assert_eq!(g.latest_time(), Some(1));
    let e = Graph::new(3);
    assert_eq!(e.earliest_time(), None);
    assert_eq!(e.latest_time(), None);
}

#[test]
fn incident_edges_carry_first_time_in_window() {
    let mut g = Graph::new(1);
    g.add_edge(4, 1, 2, &no_props()).unwrap();
    g.add_edge(2, 1, 2, &no_props()).unwrap();
    g.add_edge(6, 1, 3, &no_props()).unwrap();
    let es = g.edges(1, Direction::OUT, Some(Window::new(3, 10)));
    let got: Vec<(u64, i64)> = es.iter().map(|e| (e.0, e.2)).collect();
    assert_eq!(got, vec![(2, 4), (3, 6)]);
    let es = g.edges(2, Direction::IN, None);
    assert_eq!(es.len(), 1);
    assert_eq!(es[0].2, 2);
    let v = g.window(5, 7).vertex(1).unwrap();
    let got: Vec<u64> = v.edges(Direction::OUT).iter().map(|e| e.0).collect();
    assert_eq!(got, vec![3]);
    assert_eq!(g.window(0, 5).n_edges(), 1);
    assert_eq!(g.window(0, 7).n_edges(), 2);
}

#[test]
fn test_we_have_state() {
    let g = make_mini_graph(1);
    let view = g.window(0, 2);
    let state = view.new_state_from(ids(&view.vertices().iter())).unwrap();
    assert_eq!(state.len(), 3);
    for (i, v) in view.vertices().iter().into_iter().enumerate() {
        assert_eq!(*state.get(i), v.id());
    }
}

#[test]
fn state_columns_have_one_entry_per_vertex() {
    let g = make_mini_graph(2);
    let full = g.new_full_state(7u8);
    assert_eq!(full.len(), 3);
    assert_eq!(*full.get(2), 7);
    let empty = g.new_empty_state::<i32>();
    assert_eq!(empty.len(), 3);
    assert_eq!(*empty.get(0), None);
    assert_eq!(g.new_state_from(vec![1, 2]).err(), Some(GraphError::StateSizeError));
    assert!(g.new_state_from(vec![1, 2, 3]).is_ok());
    let w = g.window(1, 2);
    assert_eq!(w.new_full_state(true).len(), 2);
    assert_eq!(w.new_state_from(vec![0u64; 3]).err(), Some(GraphError::StateSizeError));
}

#[test]
fn strict_property_reads_name_the_missing_part() {
    let mut g = Graph::new(2);
    g.add_vertex(3, 8, &vec![("k".to_string(), Prop::U64(5))]).unwrap();
    assert_eq!(g.property_history_strict(8, &"k".to_string(), None), Ok(vec![(3, Prop::U64(5))]));
    assert_eq!(g.property_history_strict(8, &"z".to_string(), None), Err(GraphError::UnknownProperty));
    assert_eq!(g.property_history_strict(9, &"k".to_string(), None), Err(GraphError::UnknownVertex));
}

#[test]
fn prop_copies_and_kinds() {
    let p = Prop::Str("ab".to_string());
    assert_eq!(p.copy_of(), p);
    assert_eq!(p.kind(), 0);
    assert_eq!(Prop::F32(1.5f32.to_bits()).kind(), 5);
    assert_eq!(Prop::Bool(false).kind(), 7);
    assert_ne!(Prop::I32(1).kind(), Prop::I64(1).kind());
}

#[test]
fn vertices_come_shard_by_shard_in_pid_order() {
    let g = make_mini_graph(2);
    // shard 0 holds 2; shard 1 holds 1, then 3
    assert_eq!(ids(&g.vertices().iter()), vec![2, 1, 3]);
    assert_eq!(ids(&g.window(0, 1).vertices().iter()), vec![2, 1]);
    assert_eq!(g.vertices_window(Some(Window::new(1, 2))), vec![2, 3]);
}

#[test]
fn edge_counts_by_direction() {
    let g = make_mini_graph(1);
    assert_eq!(g.local_n_edges(0, Direction::OUT), 3);
    assert_eq!(g.local_n_edges(0, Direction::IN), 3);
    assert_eq!(g.local_n_edges(0, Direction::BOTH), 6);
    let w = Some(Window::new(0, 1));
    assert_eq!(g.local_n_edges_window(0, w, Direction::OUT), 2);
    assert_eq!(g.local_n_edges_window(0, w, Direction::IN), 2);
    assert_eq!(g.local_n_edges_window(0, w, Direction::BOTH), 4);
    let h = make_mini_graph(2);
    // shard 0 holds 2 (out 1, 3; in 1); shard 1 holds 1 (out 2; in 2) and 3 (in 2)
    assert_eq!(h.local_n_edges(0, Direction::OUT), 2);
    assert_eq!(h.local_n_edges(0, Direction::IN), 1);
    assert_eq!(h.local_n_edges(1, Direction::OUT), 1);
    assert_eq!(h.local_n_edges(1, Direction::IN), 2);
    assert_eq!(h.local_n_edges(1, Direction::BOTH), 3);
    let e = g.edges(2, Direction::BOTH, Some(Window::new(4, 4)));
    assert!(e.is_empty());
}

#[test]
fn state_attached_to_a_view() {
    let g = make_mini_graph(1);
    let view = g.window(0, 2);
    let col = StateVec::from_values(vec![10u64, 20, 30], 3).unwrap();
    let sv = view.with_state("ids".to_string(), col).unwrap();
    assert_eq!(*sv.get_state(&"ids".to_string()).unwrap().get(1), 20);
    assert!(sv.get_state(&"other".to_string()).is_none());
    let short = StateVec::from_values(vec![1u64], 1).unwrap();
    assert_eq!(view.with_state("bad".to_string(), short).err(), Some(docbrown::GraphError::StateSizeError));
    let again = StateVec::full(5u64, 3);
    let sv = sv.with_state("ids".to_string(), again).unwrap();
    assert_eq!(*sv.get_state(&"ids".to_string()).unwrap().get(0), 5);
    assert_eq!(sv.columns.len(), 2);
    let narrow = g.window(0, 1);
    let col2 = StateVec::from_values(vec![1u64, 2, 3], 3).unwrap();
    assert!(narrow.with_state("x".to_string(), col2).is_err());
}
