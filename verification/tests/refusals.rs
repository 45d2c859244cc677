//! What is refused, and with which word.
use topo_reconstruct::geometry::bar_contacts::{
    check_solution, choose_point, BarSolution, ChoiceMeasure, PlaceCandidate, SolutionMeasure,
};
use topo_reconstruct::input::Point;
use topo_reconstruct::reconstruction::assembly::bars::{Contact, Location};
use topo_reconstruct::reconstruction::assembly::boundary::{boundary, Face};
use topo_reconstruct::reconstruction::assembly::supports::boundary_owners;
use topo_reconstruct::reconstruction::assembly::surfaces::SurfaceBuild;
use topo_reconstruct::reconstruction::frame::{self, conclude, Outcome, Prepared};
use topo_reconstruct::reconstruction::mesh::chains::{check_distinct, ChainNode};
use topo_reconstruct::reconstruction::mesh::constraints::{
    check_axis, edge_owners, insert_axis_node, interval_parameters, normalized_parameter, point_parameter, AxisBand,
    NodeMeasure,
};
use topo_reconstruct::reconstruction::mesh::domain::{interior, material_regions, FaceLink};
use topo_reconstruct::reconstruction::mesh::surface::{surface_constraints, IntervalMeasure};
use topo_reconstruct::reconstruction::mesh::{axis_bars, SpanBand};
use topo_reconstruct::reconstruction::recognize::SourceSpan;
use topo_reconstruct::reconstruction::{EdgeUse, Error, Model, PlaneFrame, Surface};
use topo_reconstruct::scalar::Scalar;

fn scalar(value: f64) -> Scalar {
    Scalar { bits: value.to_bits() }
}

fn scalars(values: &[f64]) -> Vec<Scalar> {
    values.iter().map(|v| scalar(*v)).collect()
}

fn point(x: f64, y: f64, z: f64) -> Point {
    [scalar(x), scalar(y), scalar(z)]
}

fn plane() -> PlaneFrame {
    PlaneFrame { origin: point(0., 0., 0.), normal: point(0., 0., 1.), u: point(1., 0., 0.), v: point(0., 1., 0.) }
}

fn node(t: f64, vertex: usize) -> ChainNode {
    ChainNode { t: scalar(t), vertex }
}

#[test]
fn groups_without_a_common_place() {
    let candidate = |distance: f64, acceptable: bool| PlaceCandidate { distance: scalar(distance), acceptable };
    let pick = |all_near: bool, projected: bool, candidates: Vec<PlaceCandidate>| {
        choose_point(&ChoiceMeasure { all_near, projected, candidates })
    };
    assert_eq!(pick(false, true, vec![]), Err("surface_outside_tolerance"));
    assert_eq!(pick(true, false, vec![]), Err("incompatible_axis_and_planes"));
    assert_eq!(
        pick(true, true, vec![candidate(0., false)]),
        Err("would_bend_axis_exceed_budget_or_create_short_constraint")
    );
    assert_eq!(pick(true, true, vec![candidate(2., true), candidate(0., false), candidate(1., true)]), Ok(2));
}

#[test]
fn solutions_that_spoil_axes_or_constraints() {
    let bar = |length: f64, movement: f64, spacing: f64| BarSolution {
        length: [scalar(length), scalar(1.)],
        direction: scalar(1.),
        parameters: scalars(&[0.5]),
        movements: scalars(&[movement]),
        spacings: vec![[scalar(spacing), scalar(0.1)]],
    };
    let check = |bars: Vec<BarSolution>| check_solution(&SolutionMeasure { bars, movement_limit: scalar(0.05) });
    let solution = |length: f64, movement: f64, spacing: f64| check(vec![bar(length, movement, spacing)]);
    let (close, displaced) = (bar(1., 0.05, 0.05), bar(1., 0.06, 0.1));
    assert_eq!(check(vec![close, displaced]), Err("constraint_spacing"));
    assert_eq!(check(vec![bar(1., 0.05, 0.05), bar(0.9, 0., 1.)]), Err("axis_quality"));
    assert_eq!(solution(1., 0.05, 0.1), Ok(()));
    assert_eq!(solution(0.9, 0.05, 0.1), Err("axis_quality"));
    assert_eq!(solution(1., 0.06, 0.1), Err("anchor_displacement"));
    assert_eq!(solution(1., 0.05, 0.05), Err("constraint_spacing"));
}

#[test]
fn faces_without_a_plain_boundary() {
    let face = |id: u32, nodes: [u32; 3]| Face { id, nodes: nodes.to_vec() };
    let fan = vec![face(1, [1, 2, 3]), face(2, [1, 2, 4]), face(3, [1, 2, 5])];
    assert_eq!(boundary(&fan), Err("nonmanifold_source_edges"));
    let pinched = vec![face(1, [1, 2, 3]), face(2, [1, 4, 5])];
    assert_eq!(boundary(&pinched), Err("ambiguous_boundary"));
    assert_eq!(boundary(&vec![face(1, [1, 2, 3])]).map(|rings| rings.len()), Ok(1));
    let surface = |nodes: Vec<usize>| frame::Surface {
        plane: plane(),
        nodes,
        source_elements: vec![],
        stiffness_regions: vec![],
    };
    assert_eq!(boundary_owners(&vec![surface(vec![1])], &vec![10], &vec![10]).err(), Some("invalid surface node"));
    assert_eq!(boundary_owners(&vec![surface(vec![0])], &vec![10], &vec![10]).unwrap()[0].surfaces, vec![0]);
}

#[test]
fn models_without_precision_or_with_wild_vertices() {
    assert_eq!(Model::new(scalar(0.), scalar(1.)).err(), Some(Error::InvalidPrecision));
    assert_eq!(Model::new(scalar(1.), scalar(1.)).err(), Some(Error::InvalidPrecision));
    let mut model = Model::new(scalar(1e-8), scalar(0.01)).unwrap();
    assert_eq!(model.add_vertex(point(0., f64::INFINITY, 0.)), Err(Error::InvalidVertex));
    let places = vec![point(0., 0., 0.), point(f64::NAN, 0., 0.)];
    assert_eq!(SurfaceBuild::start(model, vec![1, 2], &places).err(), Some("invalid closed vertex"));
}

#[test]
fn accepted_candidates_need_their_planes() {
    let policy = frame::Policy {
        up: point(0., 0., 1.),
        angle: scalar(0.02),
        maximum_movement: scalar(0.15),
        relative_movement: scalar(0.05),
        minimum_length: scalar(0.03),
        residual_tolerance: scalar(1e-8),
        iterations: 10,
    };
    let prepared = || Prepared {
        node_ids: vec![7],
        reference: vec![point(0., 0., 0.)],
        budgets: scalars(&[0.1]),
        axes: vec![],
        surfaces: vec![frame::Surface {
            plane: plane(),
            nodes: vec![0],
            source_elements: vec![],
            stiffness_regions: vec![],
        }],
    };
    let outcome = |residual: f64, solved: Option<PlaneFrame>| Outcome {
        iterations: 1,
        residual: scalar(residual),
        equation_count: 1,
        violating_equations: 0,
        candidate: vec![point(0., 0., 0.01)],
        movements: scalars(&[0.01]),
        limits: scalars(&[0.1]),
        axes_hold: vec![],
        candidate_lengths: vec![],
        planes: vec![solved],
        plane_families: vec![],
        constraint_failures: vec![],
    };
    let refused = conclude(&policy, prepared(), outcome(0., None), &vec![]);
    assert_eq!(refused.err(), Some("invalid solved plane"));
    let report = conclude(&policy, prepared(), outcome(0., Some(plane())), &vec![]).unwrap();
    assert!(report.accepted);
    let report = conclude(&policy, prepared(), outcome(1., Some(plane())), &vec![]).unwrap();
    assert!(!report.accepted);
    assert_eq!(report.points[0][2], scalar(0.));
}

#[test]
fn chains_and_axes_that_do_not_hold_together() {
    assert_eq!(check_distinct(&scalars(&[1., 1e-9]), &scalar(1e-8)), Err("distinct constraint vertices coincide"));
    assert_eq!(check_axis(&[0, 5], 2, &scalar(1.)), Err("invalid axis endpoint vertex"));
    assert_eq!(check_axis(&[0, 1], 2, &scalar(0.)), Err("degenerate axis constraint"));
    assert_eq!(check_axis(&[0, 1], 2, &scalar(1.)), Ok(()));
    let clamp = |t: f64| normalized_parameter(&scalar(t), &scalar(-0.1), &scalar(1.1));
    assert_eq!(clamp(1.2), Err("axis interval parameter outside endpoints"));
    assert_eq!(clamp(f64::NAN), Err("axis interval parameter outside endpoints"));
    assert_eq!(clamp(1.05), Ok(scalar(1.)));
    assert_eq!(clamp(0.5), Ok(scalar(0.5)));
    let put = |t: f64, vertex: usize, off: f64| {
        let mut chain = vec![node(0., 0), node(1., 1)];
        let measure = NodeMeasure {
            vertices: 4,
            off_axis: scalar(off),
            gaps: scalars(&[t, (1. - t).abs()]),
            tolerance: scalar(1e-3),
            precision: scalar(1e-3),
        };
        insert_axis_node(&mut chain, scalar(t), vertex, &measure).map(|added| (added, chain.len()))
    };
    assert_eq!(put(0.5, 4, 0.), Err("invalid axis constraint vertex"));
    assert_eq!(put(0.5, 2, 1.), Err("axis constraint vertex is off axis"));
    assert_eq!(put(0.5, 1, 0.), Err("axis constraint vertex has inconsistent parameter"));
    assert_eq!(put(1., 2, 0.), Err("distinct axis constraint vertices share a parameter"));
    assert_eq!(put(1., 1, 0.), Ok((false, 2)));
    assert_eq!(put(0.5, 2, 0.), Ok((true, 3)));
}

#[test]
fn contacts_with_what_is_not_there() {
    let band = AxisBand { low: scalar(-0.1), high: scalar(1.1), tolerance: scalar(0.1) };
    let at = |surface: usize, axis: usize| point_parameter(surface, axis, &scalar(0.5), 1, 1, &band);
    assert_eq!(at(1, 0), Err("invalid contact surface"));
    assert_eq!(at(0, 1), Err("invalid point contact axis"));
    assert_eq!(at(0, 0), Ok(scalar(0.5)));
    let along = |surface: usize, axis: usize, end: f64| {
        interval_parameters(surface, axis, &scalar(0.), &scalar(end), &scalar(end), 1, 1, &band)
    };
    assert_eq!(along(1, 0, 1.), Err("invalid contact surface"));
    assert_eq!(along(0, 1, 1.), Err("invalid interval contact axis"));
    assert_eq!(along(0, 0, 0.05), Err("degenerate interval contact"));
    assert_eq!(along(0, 0, 1.), Ok((scalar(0.), scalar(1.))));
}

fn triangle() -> Surface {
    Surface {
        plane: 0,
        contours: vec![],
        boundaries: vec![vec![
            EdgeUse { edge: 0, reversed: false },
            EdgeUse { edge: 1, reversed: false },
            EdgeUse { edge: 2, reversed: true },
        ]],
        source_elements: vec![1],
    }
}

#[test]
fn surfaces_with_unknown_edges_or_implicit_contacts() {
    let surfaces = vec![triangle()];
    assert_eq!(edge_owners(&surfaces, &vec![vec![]], 2), Err("invalid surface edge reference"));
    assert_eq!(edge_owners(&surfaces, &vec![vec![]], 3), Ok(vec![vec![0], vec![0], vec![0]]));
    let edges = vec![[0, 1], [1, 2], [0, 2]];
    let chains: Vec<Vec<ChainNode>> = edges.iter().map(|e| vec![node(0., e[0]), node(1., e[1])]).collect();
    let contact =
        Contact::Interval { axis: 0, surface: 0, start_t: scalar(0.), end_t: scalar(1.), location: Location::Interior };
    let constrain = |end_gaps: &[f64]| {
        surface_constraints(
            &surfaces[0],
            &vec![],
            &edges,
            &vec![],
            &chains,
            &vec![contact],
            0,
            &vec![vec![node(0., 0), node(1., 3)]],
            &vec![IntervalMeasure {
                tolerance: scalar(0.1),
                start_gaps: scalars(&[0., 1.]),
                end_gaps: scalars(end_gaps),
                low: scalar(-0.1),
                high: scalar(1.1),
            }],
        )
    };
    assert_eq!(constrain(&[1., 0.5]).err(), Some("contact endpoint requires explicit intersection vertex"));
    let found = constrain(&[1., 0.]).unwrap();
    assert_eq!(found.internal, vec![[0, 3]]);
    assert_eq!(found.boundary, vec![[0, 1], [0, 2], [1, 2]]);
    assert_eq!(found.barriers, found.boundary);
    assert_eq!(found.nodes, vec![0, 1, 2, 3]);
}

#[test]
fn boundaries_that_do_not_part_material_from_void() {
    let link = |a: usize, b: usize, toggle: bool| FaceLink { a, b, toggle, barrier: toggle };
    let ring = vec![link(0, 1, true), link(1, 2, false), link(2, 0, true)];
    assert_eq!(interior(&ring, 3, 0), Ok(vec![1, 2]));
    assert_eq!(material_regions(&ring, 3, &vec![1, 2]), vec![vec![1, 2]]);
    let broken = vec![link(0, 1, true), link(1, 2, false), link(2, 0, false)];
    assert_eq!(interior(&broken, 3, 0), Err("inconsistent mesh boundary graph"));
}

#[test]
fn bars_without_one_property() {
    let span = |element: u32, start: f64, end: f64| SourceSpan {
        element,
        stiffness: element,
        start_t: scalar(start),
        end_t: scalar(end),
    };
    let bars = |chain: Vec<ChainNode>, middle: f64, spans: Vec<SourceSpan>| {
        let bands = spans.iter().map(|s| SpanBand { low: s.start_t, high: s.end_t }).collect();
        axis_bars(4, &chain, &scalars(&[middle]), &spans, &bands)
    };
    let whole = || vec![node(0., 0), node(1., 1)];
    assert_eq!(bars(whole(), 0.5, vec![]).err(), Some("ambiguous bar property interval"));
    let halves = vec![span(1, 0., 0.4), span(2, 0.4, 1.)];
    assert_eq!(bars(whole(), 0.5, halves).err(), Some("bar crosses property boundary"));
    let found = bars(whole(), 0.5, vec![span(1, 0., 1.)]).unwrap();
    assert_eq!((found.len(), found[0].axis, found[0].source_element), (1, 4, 1));
}
