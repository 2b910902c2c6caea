use freebricks::components::collect_component;
use freebricks::components::partition;
use freebricks::graph::is_connected;
use freebricks::graph::SnapGraph;
use freebricks::matrix::SceneMatrix;
use freebricks::model::decompose;
use freebricks::model::Model;
use freebricks::parts::touch_check;
use freebricks::parts::Contact;
use freebricks::parts::Geometry;
use freebricks::parts::StudInfo;
use freebricks::parts::StudType;
use freebricks::scene::snap_matrix;
use freebricks::scene::PartInfo;
use freebricks::idset::IdSet;

fn sorted(mut v: Vec<u64>) -> Vec<u64> {
    v.sort();
    v
}

fn chain(n: u64) -> SnapGraph {
    let mut g = SnapGraph::new();
    for i in 0..n {
        g.add_node(i);
    }
    for i in 1..n {
        g.add_edge(i - 1, i);
    }
    g
}

#[test]
fn graph_starts_empty() {
    let g = SnapGraph::new();
    assert_eq!(g.node_count(), 0);
    assert_eq!(g.edge_count(), 0);
    assert!(!g.contains_node(0));
    assert!(g.node_identifiers().is_empty());
    assert!(g.neighbors(0).is_empty());
}

#[test]
fn graph_adds_nodes_and_edges() {
    let mut g = SnapGraph::new();
    g.add_node(7);
    g.add_node(7);
    assert_eq!(g.node_count(), 1);
    assert!(g.contains_node(7));
    g.add_edge(7, 9);
    assert_eq!(g.node_count(), 2);
    assert_eq!(g.edge_count(), 1);
    assert!(g.neighbors(7).contains(&9));
    assert!(g.neighbors(9).contains(&7));
    assert!(!g.neighbors(7).contains(&7));
    g.add_edge(9, 7);
    assert_eq!(g.edge_count(), 1);
    assert_eq!(sorted(g.node_identifiers()), vec![7, 9]);
    assert_eq!(g.neighbors(7), vec![9]);
    assert_eq!(g.neighbors(9), vec![7]);
}

#[test]
fn graph_removes_a_node_with_its_edges() {
    let mut g = chain(5);
    assert_eq!(g.edge_count(), 4);
    assert!(g.remove_node(2));
    assert!(!g.remove_node(2));
    assert!(!g.contains_node(2));
    assert_eq!(g.node_count(), 4);
    assert_eq!(g.edge_count(), 2);
    assert!(g.neighbors(0).contains(&1));
    assert!(g.neighbors(3).contains(&4));
    assert!(!g.neighbors(1).contains(&2));
    assert!(!g.neighbors(2).contains(&3));
    assert_eq!(g.neighbors(1), vec![0]);
    assert_eq!(sorted(g.node_identifiers()), vec![0, 1, 3, 4]);
}

#[test]
fn neighbors_lists_each_once() {
    let mut g = SnapGraph::new();
    g.add_edge(1, 2);
    g.add_edge(1, 3);
    g.add_edge(4, 1);
    g.add_edge(1, 1);
    assert_eq!(sorted(g.neighbors(1)), vec![1, 2, 3, 4]);
    assert_eq!(g.edge_count(), 4);
}

#[test]
fn connectivity_of_small_graphs() {
    assert!(is_connected(&SnapGraph::new()));
    let mut one = SnapGraph::new();
    one.add_node(3);
    assert!(is_connected(&one));
    one.add_node(4);
    assert!(!is_connected(&one));
    one.add_edge(3, 4);
    assert!(is_connected(&one));
}

#[test]
fn connectivity_is_lost_with_the_middle_of_a_chain() {
    let mut g = chain(5);
    assert!(is_connected(&g));
    g.remove_node(2);
    assert!(!is_connected(&g));
    g.add_edge(1, 3);
    assert!(is_connected(&g));
}

#[test]
fn connectivity_sees_a_cycle_with_a_tail() {
    let mut g = chain(4);
    g.add_edge(3, 0);
    g.add_edge(2, 10);
    assert!(is_connected(&g));
    g.add_node(11);
    assert!(!is_connected(&g));
}

#[test]
fn matrix_keeps_nodes_and_edges() {
    let mut m = SceneMatrix::with_capacity(3);
    assert_eq!(m.node_count(), 0);
    assert_eq!(m.add_node(0), 0);
    assert_eq!(m.add_node(1), 1);
    assert_eq!(m.add_node(2), 2);
    assert_eq!(m.node_count(), 3);
    assert!(!m.has_edge(0, 2));
    m.add_edge(2, 0, true);
    m.add_edge(1, 2, false);
    assert!(m.has_edge(0, 2));
    assert!(m.has_edge(2, 0));
    assert!(!m.has_edge(0, 1));
    let mut at_two = m.edges(2);
    at_two.sort();
    assert_eq!(at_two, vec![(2, 0, true), (2, 1, false)]);
    assert_eq!(m.edges(0), vec![(0, 2, true)]);
    assert!(m.edges(1).len() == 1);
}

#[test]
fn matrix_grows_past_its_first_capacity() {
    let mut m = SceneMatrix::with_capacity(0);
    for i in 0..40u64 {
        assert_eq!(m.add_node(i), i as usize);
    }
    m.add_edge(39, 3, false);
    assert!(m.has_edge(3, 39));
    assert_eq!(m.edges(39), vec![(39, 3, false)]);
    assert!(m.edges(38).is_empty());
}

fn studs(top: StudType, bottom: StudType) -> StudInfo {
    StudInfo { top, bottom }
}

#[test]
fn touch_check_needs_touch_and_a_fitting_pair_of_faces() {
    let default = StudInfo::default();
    assert_eq!(default, studs(StudType::Outlet, StudType::Inlet));
    let on_top = Contact { touch: true, rests_on: true, carries: false };
    let below = Contact { touch: true, rests_on: false, carries: true };
    let beside = Contact { touch: true, rests_on: false, carries: false };
    let apart = Contact { touch: false, rests_on: true, carries: true };
    assert!(touch_check(&on_top, &default, &default));
    assert!(touch_check(&below, &default, &default));
    assert!(!touch_check(&beside, &default, &default));
    assert!(!touch_check(&apart, &default, &default));
    assert_eq!(Contact::none(), Contact { touch: false, rests_on: false, carries: false });
}

#[test]
fn touch_check_looks_at_the_faces_that_meet() {
    let on_top = Contact { touch: true, rests_on: true, carries: false };
    let below = Contact { touch: true, rests_on: false, carries: true };
    let flat_bottom = studs(StudType::Outlet, StudType::Flat);
    let flat_top = studs(StudType::Flat, StudType::Inlet);
    let default = StudInfo::default();
    // a rests on b: the bottom of a meets the top of b
    assert!(!touch_check(&on_top, &flat_bottom, &default));
    assert!(touch_check(&on_top, &flat_top, &default));
    assert!(!touch_check(&on_top, &default, &flat_top));
    assert!(touch_check(&on_top, &default, &flat_bottom));
    // a carries b: the top of a meets the bottom of b
    assert!(touch_check(&below, &flat_bottom, &default));
    assert!(!touch_check(&below, &flat_top, &default));
    // two outlets, or two inlets, do not fit
    let twice_out = studs(StudType::Outlet, StudType::Outlet);
    let twice_in = studs(StudType::Inlet, StudType::Inlet);
    assert!(!touch_check(&on_top, &twice_out, &twice_out));
    assert!(!touch_check(&below, &twice_in, &twice_in));
    assert!(touch_check(&on_top, &twice_in, &twice_out));
    assert!(touch_check(&below, &twice_out, &twice_in));
}

fn stack(n: usize, anchors: &[usize], rotated: &[usize]) -> (Vec<PartInfo>, Geometry) {
    let mut infos = Vec::new();
    let mut contacts = Vec::new();
    for a in 0..n {
        infos.push(PartInfo {
            active: !rotated.contains(&a),
            anchor: anchors.contains(&a),
            studs: StudInfo::default(),
        });
        let mut row = Vec::new();
        for b in 0..n {
            row.push(Contact {
                touch: a + 1 == b || b + 1 == a,
                rests_on: b + 1 == a,
                carries: a + 1 == b,
            });
        }
        contacts.push(row);
    }
    let upright = (0..n).map(|a| !rotated.contains(&a)).collect();
    (infos, Geometry { upright, contacts })
}

#[test]
fn geometry_counts_what_is_missing_as_apart() {
    let (_, placed) = stack(2, &[], &[]);
    assert!(placed.is_upright(1));
    assert!(!placed.is_upright(2));
    assert_eq!(placed.contact(0, 1), Contact { touch: true, rests_on: false, carries: true });
    assert_eq!(placed.contact(1, 0), Contact { touch: true, rests_on: true, carries: false });
    assert_eq!(placed.contact(0, 5), Contact::none());
    assert_eq!(placed.contact(5, 0), Contact::none());
}

#[test]
fn snap_matrix_joins_neighbours_but_never_two_anchors() {
    let (infos, placed) = stack(5, &[3, 4], &[]);
    let m = snap_matrix(&infos, &placed);
    assert_eq!(m.node_count(), 5);
    assert!(m.has_edge(0, 1));
    assert!(m.has_edge(1, 2));
    assert!(m.has_edge(2, 3));
    assert!(!m.has_edge(3, 4));
    assert!(!m.has_edge(0, 2));
    assert_eq!(m.edges(0), vec![(0, 1, false)]);
    let mut at_two = m.edges(2);
    at_two.sort();
    assert_eq!(at_two, vec![(2, 1, false), (2, 3, true)]);
    assert!(m.edges(4).is_empty());
}

#[test]
fn snap_matrix_leaves_rotated_parts_alone() {
    let (infos, placed) = stack(3, &[], &[1]);
    let m = snap_matrix(&infos, &placed);
    assert!(!m.has_edge(0, 1));
    assert!(!m.has_edge(1, 2));
    assert!(m.edges(1).is_empty());
}

#[test]
fn partition_stops_at_anchors() {
    // 0 - 1 - [2] - 3 - 4, 5 rotated, 6 alone on top of nothing
    let (mut infos, mut placed) = stack(5, &[2], &[]);
    infos.push(PartInfo { active: false, anchor: false, studs: StudInfo::default() });
    infos.push(PartInfo { active: true, anchor: false, studs: StudInfo::default() });
    placed.upright.push(false);
    placed.upright.push(true);
    let m = snap_matrix(&infos, &placed);
    let parts = partition(&m, &infos, &placed);
    assert_eq!(parts.len(), 3);
    let sets: Vec<Vec<u64>> = parts.iter().map(|c| sorted(c.set.members())).collect();
    assert_eq!(sets, vec![vec![0, 1], vec![3, 4], vec![6]]);
    assert_eq!(parts[0].graph.node_count(), 2);
    assert_eq!(parts[0].graph.edge_count(), 1);
    assert!(parts[0].graph.neighbors(0).contains(&1));
    assert_eq!(parts[0].anchors.len(), 1);
    assert_eq!(sorted(parts[0].anchors.members(2)), vec![1]);
    assert_eq!(sorted(parts[1].anchors.members(2)), vec![3]);
    assert_eq!(parts[2].anchors.len(), 0);
    assert_eq!(parts[2].graph.node_count(), 1);
    assert_eq!(parts[2].graph.edge_count(), 0);
}

#[test]
fn collect_component_marks_what_it_reaches() {
    let (infos, placed) = stack(4, &[], &[]);
    let m = snap_matrix(&infos, &placed);
    let mut dirty = vec![false; 4];
    let c = collect_component(&m, &infos, &placed, 2, &mut dirty);
    assert_eq!(dirty, vec![true; 4]);
    assert_eq!(sorted(c.set.members()), vec![0, 1, 2, 3]);
    assert_eq!(c.graph.edge_count(), 3);
    assert_eq!(c.anchors.len(), 0);
}

#[test]
fn decompose_cuts_a_chain_at_the_gap() {
    let mut graph = chain(5);
    graph.remove_node(2);
    let mut anchors = IdSet::new();
    anchors.insert(4u64);
    anchors.insert(77u64);
    let model = Model { graph, anchors, dirty: true };
    let pieces = decompose(&model);
    assert_eq!(pieces.len(), 2);
    let mut sets: Vec<(Vec<u64>, usize)> = pieces
        .iter()
        .map(|p| {
            assert_eq!(p.graph.node_count(), p.set.len());
            assert!(is_connected(&p.graph));
            (sorted(p.set.members()), p.graph.edge_count())
        })
        .collect();
    sets.sort();
    assert_eq!(sets, vec![(vec![0, 1], 1), (vec![3, 4], 1)]);
}

#[test]
fn decompose_of_a_connected_or_empty_model() {
    let whole = Model { graph: chain(3), anchors: IdSet::new(), dirty: false };
    let pieces = decompose(&whole);
    assert_eq!(pieces.len(), 1);
    assert_eq!(pieces[0].graph.edge_count(), 2);
    assert_eq!(pieces[0].set.len(), 3);
    let empty = Model { graph: SnapGraph::new(), anchors: IdSet::new(), dirty: true };
    assert!(decompose(&empty).is_empty());
}
