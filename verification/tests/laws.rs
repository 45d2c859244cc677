//! What is ordered, counted, numbered and kept, on plain values.
use topo_reconstruct::geometry::attachment::{conclude_search, Candidate, Conclusion};
use topo_reconstruct::geometry::bar_contacts::{
    coincident, is_at_rest, iteration_limit, note_crossing, note_iteration, order_constraints, order_points, start_search, BarContactSummary, BarSolution, CoupledPlaneSearch,
    Crossing, SolutionMeasure,
};
use topo_reconstruct::geometry::utils::{weldable_nodes, NodeNames, Welding};
use topo_reconstruct::input::{ElementData, NodeMap, Point};
use topo_reconstruct::models::{BarConstraint, MacroPanel, PanelType};
use topo_reconstruct::parsers::LiraParser;
use topo_reconstruct::reconstruction::assembly::bars::joints::{joint_state, Joint, JointState};
use topo_reconstruct::reconstruction::assembly::bars::{propose, AnchorMeasure, AxisMeasure};
use topo_reconstruct::reconstruction::assembly::surfaces::SurfaceBuild;
use topo_reconstruct::reconstruction::assembly::{Policy, Region};
use topo_reconstruct::reconstruction::frame::{self, Anchor, Axis};
use topo_reconstruct::reconstruction::junctions::{
    expand_ring, is_registered, segment_ends, Junctions, Kind, Segment, SplitCandidate, SplitVertices,
};
use topo_reconstruct::reconstruction::recognize::SourceSpan;
use topo_reconstruct::reconstruction::Model;
use topo_reconstruct::reconstructors::bars::BarReconstructor;
use topo_reconstruct::reconstructors::outline::outlines;
use topo_reconstruct::reconstructors::panels::{may_remove, number_panels, panel_of_group, Contour, PanelShape, RemovalMeasure};
use topo_reconstruct::scalar::Scalar;
use topo_reconstruct::table::HashTable;
use topo_reconstruct::text::is_text_before;

fn scalar(value: f64) -> Scalar {
    Scalar { bits: value.to_bits() }
}

fn scalars(values: &[f64]) -> Vec<Scalar> {
    values.iter().map(|v| scalar(*v)).collect()
}

fn point(x: f64, y: f64, z: f64) -> Point {
    [scalar(x), scalar(y), scalar(z)]
}

#[test]
fn tables_hold_what_was_put_last() {
    let mut table = HashTable::new();
    assert!(table.get(7).is_none() && table.keys().is_empty());
    table.insert(7, 1);
    table.insert(u64::MAX, 2);
    table.insert(7, 3);
    assert_eq!((table.get(7), table.get(u64::MAX), table.get(8)), (Some(3), Some(2), None));
    assert!(table.contains_key(7) && !table.contains_key(0));
    let mut keys = table.keys();
    keys.sort();
    assert_eq!(keys, [7, u64::MAX]);

    let mut nodes = NodeMap::new();
    for (id, x) in [(9, 1.), (2, 2.), (9, 3.), (u32::MAX, 4.)] {
        nodes.insert(id, point(x, 0., 0.));
    }
    assert_eq!(nodes.ids(), [2, 9, u32::MAX]);
    assert_eq!(nodes.get(9), Some(point(3., 0., 0.)));
    assert_eq!(nodes.get(2), Some(point(2., 0., 0.)));
    assert_eq!(nodes.get(3), None);
    nodes.insert(2, point(0., f64::INFINITY, 0.));
    nodes.insert(5, point(0., 0., f64::NAN));
    assert_eq!(weldable_nodes(&nodes), [9, u32::MAX]);

    let mut names = NodeNames::new();
    names.insert(4, 1);
    names.insert(4, 2);
    assert_eq!((names.canonical(4), names.canonical(5)), (2, 5));
}

#[test]
fn texts_are_ordered_by_their_characters() {
    assert!(is_text_before("bar", "barrel") && !is_text_before("barrel", "bar"));
    assert!(is_text_before("a", "b") && is_text_before("", "a"));
    assert!(!is_text_before("a", "a"));
}

#[test]
fn constraints_come_along_the_bar() {
    let constraint = |t: f64, node: Option<u32>, kinds: &[&str], panels: &[u32]| BarConstraint {
        t: scalar(t),
        source_node_id: node,
        kinds: kinds.iter().map(|k| k.to_string()).collect(),
        panel_ids: panels.to_vec(),
    };
    let mut list = vec![
        constraint(0.5, Some(1), &["surface", "bar", "surface"], &[3, 1, 3]),
        constraint(0.0, None, &[], &[]),
        constraint(0.5, Some(2), &["bar"], &[2]),
    ];
    order_constraints(&mut list);
    let nodes: Vec<_> = list.iter().map(|c| c.source_node_id).collect();
    assert_eq!(nodes, [None, Some(1), Some(2)]);
    assert_eq!(list[1].kinds, ["bar", "surface"]);
    assert_eq!(list[1].panel_ids, [1, 3]);

    let mut points = vec![point(1., 0., 2.), point(-1., 5., 0.), point(1., 0., -2.)];
    order_points(&mut points);
    assert_eq!(points, [point(-1., 5., 0.), point(1., 0., -2.), point(1., 0., 2.)]);
    assert_eq!(coincident(&scalars(&[0.1, 1e-9, 0.])), Some(1));
    assert_eq!(coincident(&scalars(&[0.1, f64::NAN])), None);
}

#[test]
fn crossings_are_counted_or_reported() {
    let mut stats = BarContactSummary::new();
    let elements = vec![4, 5];
    let place = point(1., 2., 3.);
    note_crossing(&mut stats, Crossing::Absent, 1, &elements, place, scalar(0.5));
    assert!(stats.surface_crossings == 0 && stats.rejected_crossing_details.is_empty());
    note_crossing(&mut stats, Crossing::Taken, 1, &elements, place, scalar(0.5));
    note_crossing(&mut stats, Crossing::TooClose, 2, &elements, place, scalar(0.25));
    assert_eq!(stats.surface_crossings, 1);
    let rejected = &stats.rejected_crossing_details;
    assert_eq!(rejected.len(), 1);
    assert_eq!((rejected[0].panel_id, &rejected[0].source_element_ids), (2, &elements));
    assert_eq!((rejected[0].point, rejected[0].t), (place, scalar(0.25)));
    assert_eq!(rejected[0].reason, "would_create_short_constraint");
}

fn panel(id: u32) -> MacroPanel {
    let shape = PanelShape {
        normal: point(0., 0., 1.),
        d: scalar(2.),
        contours: vec![vec![point(0., 0., 2.)]],
        filled_holes: 1,
        filled_hole_area: scalar(0.5),
    };
    let mut panel =
        panel_of_group(PanelType::Wall, &vec![7, 8, 9], &vec![vec![4], vec![2, 1], vec![5, 3]], &vec![2, 0], shape);
    panel.id = id;
    panel
}

#[test]
fn panels_take_the_elements_of_their_faces() {
    let mut panels = vec![panel(0), panel(0)];
    assert_eq!((panels[0].panel_type, panels[0].stiffness_id), (PanelType::Wall, 9));
    assert_eq!(panels[0].source_element_ids, [3, 4, 5]);
    assert_eq!((panels[0].plane_d, panels[0].filled_holes, panels[0].fe_count), (scalar(2.), 1, 3));
    number_panels(&mut panels);
    assert_eq!(panels.iter().map(|p| p.id).collect::<Vec<_>>(), [1, 2]);
    assert_eq!(panels[1].source_element_ids, [3, 4, 5]);
}

#[test]
fn corners_that_keep_a_contour_simple_stay() {
    let measure = |bounded: bool, simple: bool| RemovalMeasure {
        chord: scalar(1.),
        error: scalar(0.),
        side: scalar(0.5),
        bounded,
        simple,
    };
    assert!(may_remove(&measure(true, true), &scalar(0.1), &scalar(0.01)));
    assert!(!may_remove(&measure(true, false), &scalar(0.1), &scalar(0.01)));
    assert!(!may_remove(&measure(false, true), &scalar(0.1), &scalar(0.01)));
    let mut contour = Contour::whole(5);
    let mut take = |i: usize, simple: bool| contour.take_out(i, &measure(true, simple), &scalar(0.1), &scalar(0.01));
    assert!(!take(2, false) && take(1, true) && take(3, true));
    assert!(!take(0, true), "three points stay");
    assert_eq!(contour.left, [0, 2, 3]);
}

#[test]
fn outlines_need_the_opposite_half_edges() {
    let two = vec![vec![1, 2, 3], vec![1, 3, 4]];
    assert_eq!(outlines(&two), Some(vec![vec![1, 2, 3, 4]]));
    assert_eq!(outlines(&vec![vec![1, 2, 3], vec![1, 2, 4]]), None);
}

#[test]
fn a_search_without_a_solution_changes_nothing() {
    let measure = |length: f64| SolutionMeasure {
        bars: vec![BarSolution {
            length: [scalar(length), scalar(1.)],
            direction: scalar(1.),
            parameters: scalars(&[0.5]),
            movements: scalars(&[0.]),
            spacings: vec![],
        }],
        movement_limit: scalar(0.05),
    };
    let moved = || Candidate { bars: vec![], panels: vec![panel(5)] };
    let run = |measure: &SolutionMeasure, candidate: Result<Candidate, Vec<usize>>, mut frozen: Vec<usize>| {
        let mut search = CoupledPlaneSearch::default();
        let (mut bars, mut panels) = (vec![], vec![panel(1), panel(2)]);
        let (leaders, ids) = (vec![0, 1, 0], vec![10, 11, 12]);
        let r = conclude_search(&mut search, &mut bars, &mut panels, measure, candidate, &mut frozen, &leaders, &ids);
        let kept: Vec<u32> = panels.iter().map(|p| p.id).collect();
        (r, kept, frozen, search.frozen_panel_ids, search.failure_reason)
    };
    assert_eq!(run(&measure(1.), Ok(moved()), vec![]), (Conclusion::Taken, vec![5], vec![], vec![], None));
    let (r, kept, _, _, reason) = run(&measure(0.9), Ok(moved()), vec![]);
    assert_eq!((r, kept, reason.as_deref()), (Conclusion::Failed, vec![1, 2], Some("axis_quality")));
    let (r, kept, frozen, ids, _) = run(&measure(1.), Err(vec![2]), vec![1]);
    assert_eq!((r, kept, frozen, ids), (Conclusion::Again, vec![1, 2], vec![0, 1], vec![10, 11, 12]));
    let (r, kept, _, _, reason) = run(&measure(1.), Err(vec![1]), vec![1]);
    assert_eq!((r, kept, reason.as_deref()), (Conclusion::Failed, vec![1, 2], Some("panel_geometry")));
}

#[test]
fn regions_are_built_or_left_out() {
    let model = Model::new(scalar(1e-8), scalar(0.01)).unwrap();
    let mut build = SurfaceBuild::start(model, vec![1, 2], &vec![point(0., 0., 0.), point(1., 0., 0.)]).unwrap();
    assert!(build.issues.is_empty());
    let region = Region { patch: 3, stiffness: 1, elements: vec![8, 6] };
    build.leave_out(&region, "ambiguous_boundary");
    assert_eq!(build.issues.len(), 1);
    assert_eq!((build.issues[0].patch, &build.issues[0].source_elements), (3, &vec![8, 6]));
    assert_eq!(build.issues[0].reason, "ambiguous_boundary");
    assert!(build.issues[0].boundary_source_nodes.is_empty());
    assert!(build.surface_source_patches.is_empty());
}

#[test]
fn walks_start_once_at_every_bar() {
    let element = |id: u32, elem_type: u32, nodes: &[u32]| ElementData { id, elem_type, stiff_id: 1, nodes: nodes.to_vec() };
    let elements = vec![
        element(1, 44, &[1, 2, 3, 4]),
        element(2, 10, &[1, 2]),
        element(3, 10, &[2, 3]),
        element(4, 10, &[3, 4]),
        element(5, 10, &[4, 5]),
    ];
    let lengths = vec![Some(scalar(1.)), Some(scalar(1.)), Some(scalar(1e-7)), None, Some(scalar(1.))];
    let mut bars = BarReconstructor::of_elements(&elements, &NodeNames::new());
    assert_eq!(bars.next_start(&elements, &lengths, 0), Some(1));
    bars.mark(2);
    assert!(bars.is_taken(2) && !bars.is_taken(3));
    assert_eq!(bars.next_start(&elements, &lengths, 0), Some(4));
    bars.mark(5);
    assert_eq!(bars.next_start(&elements, &lengths, 0), None);
}

fn anchor(place: Point, parameter: f64) -> AnchorMeasure {
    AnchorMeasure {
        point: place,
        off_axis: scalar(0.),
        from_supports: vec![],
        from_source: scalar(0.),
        allowance: scalar(0.1),
        from_candidate: scalar(0.),
        parameter: scalar(parameter),
        deviation: scalar(0.),
    }
}

fn solved() -> frame::Report {
    frame::Report {
        policy: frame::Policy {
            up: point(0., 0., 1.),
            angle: scalar(0.02),
            maximum_movement: scalar(0.15),
            relative_movement: scalar(0.05),
            minimum_length: scalar(0.03),
            residual_tolerance: scalar(1e-8),
            iterations: 10,
        },
        accepted: true,
        reason: String::new(),
        iterations: 1,
        candidate_max_residual: scalar(0.),
        candidate_maximum_movement: scalar(0.),
        candidate_over_budget_node_ids: vec![],
        maximum_movement: scalar(0.),
        node_ids: vec![10, 20],
        reference_points: vec![],
        candidate_points: vec![],
        points: vec![],
        axes: vec![],
        surfaces: vec![],
        candidate_planes: vec![],
        plane_families: vec![],
        equation_count: 0,
        violating_equations: 0,
        short_axis_indices: vec![],
        largest_constraint_failures: vec![],
        movement_failures: vec![],
        axis_failures: vec![],
    }
}

#[test]
fn axes_keep_fixed_anchors_and_ascending_parameters() {
    let (start, end) = (point(0., 0., 0.), point(2., 0., 0.));
    let axis = Axis {
        endpoints: [0, 1],
        anchors: vec![Anchor { node: 0, t: scalar(0.) }, Anchor { node: 1, t: scalar(1.) }],
        spans: vec![SourceSpan { element: 5, stiffness: 1, start_t: scalar(0.), end_t: scalar(1.) }],
    };
    let joint = |node: u32| Joint { node, axes: vec![0, 1], planes: vec![], surfaces: vec![], unbuilt: false };
    let policy = Policy {
        closure_tolerance: scalar(0.01),
        junction_movement_limit: scalar(0.05),
        precision: scalar(1e-8),
        minimum_edge: scalar(0.01),
    };
    let run = |places: [Point; 2], parameters: [f64; 2]| {
        let measure = AxisMeasure {
            reference_length: scalar(2.),
            span_length: scalar(2.),
            direction_kept: true,
            line_met: true,
            anchors: vec![anchor(places[0], parameters[0]), anchor(places[1], parameters[1])],
            padded_length: scalar(2.),
            advance: scalar(2.),
            gaps: scalars(&[2.]),
        };
        let joints = vec![joint(10), joint(20)];
        let states: Vec<JointState> = vec![
            joint_state(&joints[0], None, None, start),
            joint_state(&joints[1], Some(end), None, start),
        ];
        propose(&solved(), &axis, &vec![0, 1], &vec![10, 20], &measure, &joints, &states, &policy)
            .map(|spans| (spans[0].element, spans[0].start_t, spans[0].end_t))
    };
    assert_eq!(run([start, end], [0., 1.]), Ok((5, scalar(0.), scalar(1.))));
    assert_eq!(run([start, point(2., 0.1, 0.)], [0., 1.]), Err(("shared_anchors_not_collinear", vec![20])));
    assert_eq!(run([start, end], [0., 0.5]), Err(("axis_length_or_orientation", vec![10, 20])));
}

#[test]
fn nodes_take_the_name_of_the_closest_representative() {
    let mut welding = Welding::new();
    assert_eq!(welding.weld(1, [0, 0, 0], &vec![], &vec![], &scalar(0.1)), 1);
    let found = welding.nearby(&[2, 0, 0]);
    assert!(found.is_empty());
    assert_eq!(welding.weld(2, [2, 0, 0], &found, &vec![], &scalar(0.1)), 2);
    let found = welding.nearby(&[1, 0, 0]);
    assert_eq!(found.len(), 2);
    let far: Vec<Scalar> = found.iter().map(|k| scalar(if *k == 1 { 0.05 } else { 0.08 })).collect();
    assert_eq!(welding.weld(3, [1, 0, 0], &found, &far, &scalar(0.1)), 2);
    // A welded node is no representative, so what is only close to it stays apart.
    assert_eq!(welding.nearby(&[1, 1, 0]).len(), 2);
    let names = welding.into_names();
    assert_eq!([1, 2, 3].map(|id| names.canonical(id)), [1, 2, 2]);
}

#[test]
fn the_same_points_split_no_further() {
    let tolerance = scalar(0.1);
    let run = |mut taken: SplitVertices, mut places: Vec<f64>| {
        let mut chosen = vec![];
        for p in [0.02, 5., 5.05, 9.] {
            let distances = places.iter().map(|q: &f64| scalar((q - p).abs())).collect();
            chosen.push(taken.take_point(&distances, &tolerance));
            if taken.count > places.len() {
                places.push(p);
            }
        }
        (chosen, taken.split, places)
    };
    let (chosen, split, places) = run(SplitVertices { count: 2, split: vec![] }, vec![0., 10.]);
    assert_eq!(chosen, [0, 2, 2, 3]);
    assert_eq!(split, [0, 2, 3]);
    assert_eq!(places, [0., 10., 5., 9.]);
    let again = run(SplitVertices { count: 4, split: vec![] }, places.clone());
    assert_eq!(again, (chosen, split, places));
}

#[test]
fn a_split_ring_is_not_split_again() {
    let on = |vertex: usize, t: f64| SplitCandidate {
        vertex,
        t: scalar(t),
        from_start: scalar(t),
        from_end: scalar(1. - t),
    };
    let minimum = scalar(0.01);
    let ring = expand_ring(&vec![0, 1, 2], &vec![vec![on(4, 0.75), on(3, 0.25), on(1, 1.)], vec![], vec![]], &minimum);
    assert_eq!(ring, [0, 3, 4, 1, 2]);
    // On each piece only its own ends are met.
    let pieces = vec![
        vec![on(0, 0.), on(3, 1.)],
        vec![on(3, 0.), on(4, 1.)],
        vec![on(4, 0.), on(1, 1.)],
        vec![],
        vec![],
    ];
    assert_eq!(expand_ring(&ring, &pieces, &minimum), ring);
}

#[test]
fn a_segment_is_registered_alike_twice() {
    let run = |edges: Vec<[usize; 2]>| {
        let mut state =
            Junctions { edges, of_surface: vec![vec![], vec![], vec![]], shared: vec![], segments: vec![] };
        let segment =
            Segment { surfaces: [0, 2], kind: Kind::Crossing, vertices: [0, 2], length: scalar(2.) };
        state.add_segment(segment, &vec![0, 1, 2], &scalars(&[1., 1.]), &scalar(0.01)).unwrap();
        (state.edges, state.of_surface, state.shared, state.segments.len())
    };
    let first = run(vec![[1, 2]]);
    assert_eq!(first, (vec![[1, 2], [0, 1]], vec![vec![0, 1], vec![], vec![0, 1]], vec![0, 1], 1));
    assert_eq!(run(vec![[1, 2]]), first);
    // With its edges in place, a segment adds none.
    assert_eq!(run(first.0.clone()), first);
}

#[test]
fn a_search_runs_until_it_rests_or_runs_out() {
    let mut search = start_search(7);
    assert_eq!((search.requested_incidence_count, search.retained_incidence_count, search.iterations), (7, 7, 0));
    assert_eq!(search.failure_reason.as_deref(), Some("iteration_limit"));
    assert_eq!((iteration_limit(0), iteration_limit(1)), (10000, 30000));
    note_iteration(&mut search, 4, &scalar(0.5), &scalar(0.25));
    assert_eq!((search.iterations, search.final_axis_residual, search.final_plane_residual), (5, scalar(0.5), scalar(0.25)));
    assert!(is_at_rest(&scalar(0.9e-7), &scalar(0.9e-9)));
    assert!(!is_at_rest(&scalar(1e-7), &scalar(0.)));
    assert!(!is_at_rest(&scalar(0.), &scalar(1e-9)));
    assert!(!is_at_rest(&scalar(f64::NAN), &scalar(0.)));
}

#[test]
fn segments_join_the_nearest_split_vertices() {
    let split = vec![4, 9, 2];
    let ends = |start: &[f64], end: &[f64]| segment_ends(&split, &scalars(start), &scalars(end), &scalar(0.1));
    assert_eq!(ends(&[0.05, 0.01, 3.], &[1., 1., 0.1]), Ok([9, 2]));
    assert_eq!(ends(&[1., 1., 1.], &[0., 0., 0.]), Err("missing junction start vertex"));
    assert_eq!(ends(&[0., 1., 1.], &[1., 1., 1.]), Err("missing junction end vertex"));
    assert!(is_registered(&scalar(0.2), &scalar(0.1)) && !is_registered(&scalar(0.1), &scalar(0.1)));
}

#[test]
fn absolute_values_lose_their_sign() {
    assert_eq!(scalar(-2.5).abs(), scalar(2.5));
    assert_eq!(scalar(2.5).abs(), scalar(2.5));
    assert_eq!(scalar(-0.).abs(), scalar(0.));
}

#[test]
fn blocks_are_found_by_their_whole_name() {
    let content = b"( 12/a/)( 1 /b (c)/)(1/d";
    assert_eq!(LiraParser::extract_block(content, b"12"), Some(&b"a/"[..]));
    assert_eq!(LiraParser::extract_block(content, b"1"), Some(&b"b (c)/"[..]));
    assert_eq!(LiraParser::extract_block(content, b"2"), None);
    assert_eq!(LiraParser::extract_block(b"(4", b"4"), None);
}
